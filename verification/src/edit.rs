//! Locating a field in a document and rewriting its value in place.
//!
//! The locator resolves `(section, key)` the workspace-aware way: a
//! `[workspace.<section>]` table containing the key wins; otherwise the
//! root `[<section>]` table is consulted. The rewriter replaces exactly
//! the value token of the located line and leaves every other byte of
//! the document untouched.

use vstd::prelude::*;
use vstd::pervasive::VecAdditionalExecFns;
use crate::scan::{copy_range, opt_int};
use crate::doc::{TomlValue, KeyVal, TomlLine, TomlDoc, line_text, value_text, doc_text,
    cat_lines, line_wf, value_wf, doc_wf, str_inner_ok, line_ends_nl, lemma_value_text_last};
use crate::words::{spec_word_workspace, word_workspace};

verus! {

// ---------------------------------------------------------------------------
// Byte and key comparison
// ---------------------------------------------------------------------------

/// Fresh copy of a byte vector.
pub fn clone_bytes(v: &Vec<u8>) -> (r: Vec<u8>)
    ensures
        r@ == v@,
{
    let r = copy_range(v, 0, v.len());
    proof {
        assert(v@.subrange(0, v@.len() as int) =~= v@);
    }
    r
}

/// Byte-for-byte equality of two vectors.
pub fn eq_bytes(a: &Vec<u8>, b: &Vec<u8>) -> (r: bool)
    ensures
        r == (a@ == b@),
{
    if a.len() != b.len() {
        return false;
    }
    let mut i: usize = 0;
    while i < a.len()
        invariant
            0 <= i <= a@.len(),
            a@.len() == b@.len(),
            forall|m: int| 0 <= m < i ==> a@[m] == b@[m],
        decreases a@.len() - i,
    {
        if a[i] != b[i] {
            return false;
        }
        i = i + 1;
    }
    proof {
        assert(a@ =~= b@);
    }
    true
}

/// Fresh copy of a key path.
pub fn clone_keys(v: &Vec<Vec<u8>>) -> (r: Vec<Vec<u8>>)
    ensures
        r.deep_view() == v.deep_view(),
{
    let mut r: Vec<Vec<u8>> = Vec::new();
    let mut i: usize = 0;
    while i < v.len()
        invariant
            0 <= i <= v@.len(),
            r@.len() == i,
            forall|m: int| 0 <= m < i ==> r@[m]@ == v@[m]@,
        decreases v@.len() - i,
    {
        r.push(clone_bytes(&v[i]));
        i = i + 1;
    }
    proof {
        assert(r.deep_view() =~~= v.deep_view());
    }
    r
}

/// Equality of two key paths, element by element.
pub fn eq_keys(a: &Vec<Vec<u8>>, b: &Vec<Vec<u8>>) -> (r: bool)
    ensures
        r == (a.deep_view() == b.deep_view()),
{
    proof {
        assert(a.deep_view().len() == a@.len());
        assert(b.deep_view().len() == b@.len());
    }
    if a.len() != b.len() {
        return false;
    }
    let mut i: usize = 0;
    while i < a.len()
        invariant
            0 <= i <= a@.len(),
            a@.len() == b@.len(),
            forall|m: int| 0 <= m < i ==> a@[m]@ == b@[m]@,
        decreases a@.len() - i,
    {
        if !eq_bytes(&a[i], &b[i]) {
            proof {
                assert(a.deep_view()[i as int] == a@[i as int]@);
                assert(b.deep_view()[i as int] == b@[i as int]@);
            }
            return false;
        }
        i = i + 1;
    }
    proof {
        assert(a.deep_view() =~~= b.deep_view());
    }
    true
}

// ---------------------------------------------------------------------------
// The locator
// ---------------------------------------------------------------------------

/// The line is the `[path]` header of an ordinary table.
pub open spec fn is_table_line(l: TomlLine, path: Seq<Seq<u8>>) -> bool {
    match l {
        TomlLine::Table(h) => !h.array && h.path.deep_view() == path,
        _ => false,
    }
}

/// The line is an entry whose whole key is exactly `key` — a dotted
/// entry never matches a plain name.
pub open spec fn is_entry_line(l: TomlLine, key: Seq<u8>) -> bool {
    match l {
        TomlLine::Entry(kv) => kv.path.deep_view() == seq![key],
        _ => false,
    }
}

/// First header of table `path` at or after `from`.
pub open spec fn spec_find_table(lines: Seq<TomlLine>, path: Seq<Seq<u8>>, from: int) -> Option<
    int,
>
    decreases lines.len() - from,
{
    if from < 0 || from >= lines.len() {
        None
    } else if is_table_line(lines[from], path) {
        Some(from)
    } else {
        spec_find_table(lines, path, from + 1)
    }
}

/// First entry carrying `key` at or after `from`, stopping at the next
/// table header: the search stays inside one section.
pub open spec fn spec_find_key(lines: Seq<TomlLine>, key: Seq<u8>, from: int) -> Option<int>
    decreases lines.len() - from,
{
    if from < 0 || from >= lines.len() {
        None
    } else if lines[from] is Table {
        None
    } else if is_entry_line(lines[from], key) {
        Some(from)
    } else {
        spec_find_key(lines, key, from + 1)
    }
}

/// The entry for `key` inside the table at `path`, when both exist.
pub open spec fn spec_table_key(lines: Seq<TomlLine>, path: Seq<Seq<u8>>, key: Seq<u8>) -> Option<
    int,
> {
    match spec_find_table(lines, path, 0) {
        None => None,
        Some(h) => spec_find_key(lines, key, h + 1),
    }
}

/// Workspace-aware resolution of `(section, key)`: the workspace-scoped
/// table wins when it holds the key; otherwise the root table is tried.
pub open spec fn spec_target(lines: Seq<TomlLine>, section: Seq<u8>, key: Seq<u8>) -> Option<int> {
    match spec_table_key(lines, seq![spec_word_workspace(), section], key) {
        Some(i) => Some(i),
        None => spec_table_key(lines, seq![section], key),
    }
}

pub proof fn lemma_find_table_props(lines: Seq<TomlLine>, path: Seq<Seq<u8>>, from: int)
    requires
        0 <= from,
    ensures
        match spec_find_table(lines, path, from) {
            Some(i) => from <= i < lines.len() && is_table_line(lines[i], path),
            None => true,
        },
    decreases lines.len() - from,
{
    if from < lines.len() && !is_table_line(lines[from], path) {
        lemma_find_table_props(lines, path, from + 1);
    }
}

pub proof fn lemma_find_key_props(lines: Seq<TomlLine>, key: Seq<u8>, from: int)
    requires
        0 <= from,
    ensures
        match spec_find_key(lines, key, from) {
            Some(i) => from <= i < lines.len() && is_entry_line(lines[i], key),
            None => true,
        },
    decreases lines.len() - from,
{
    if from < lines.len() && !(lines[from] is Table) && !is_entry_line(lines[from], key) {
        lemma_find_key_props(lines, key, from + 1);
    }
}

/// Exec search for a table header.
pub fn find_table(d: &TomlDoc, path: &Vec<Vec<u8>>, from: usize) -> (r: Option<usize>)
    ensures
        opt_int(r) == spec_find_table(d.lines@, path.deep_view(), from as int),
{
    let n = d.lines.len();
    if from >= n {
        return None;
    }
    let mut i = from;
    while i < n
        invariant
            from <= i <= n == d.lines@.len(),
            spec_find_table(d.lines@, path.deep_view(), from as int) == spec_find_table(
                d.lines@,
                path.deep_view(),
                i as int,
            ),
        decreases n - i,
    {
        let hit = match &d.lines[i] {
            TomlLine::Table(h) => !h.array && eq_keys(&h.path, path),
            _ => false,
        };
        if hit {
            return Some(i);
        }
        i = i + 1;
    }
    None
}

/// Exec search for a key within the section starting at `from`.
pub fn find_key_from(d: &TomlDoc, key: &Vec<u8>, from: usize) -> (r: Option<usize>)
    ensures
        opt_int(r) == spec_find_key(d.lines@, key@, from as int),
{
    let n = d.lines.len();
    if from >= n {
        return None;
    }
    let mut i = from;
    while i < n
        invariant
            from <= i <= n == d.lines@.len(),
            spec_find_key(d.lines@, key@, from as int) == spec_find_key(d.lines@, key@, i as int),
        decreases n - i,
    {
        match &d.lines[i] {
            TomlLine::Table(_) => {
                return None;
            },
            TomlLine::Entry(kv) => {
                let hit = kv.path.len() == 1 && eq_bytes(&kv.path[0], key);
                proof {
                    assert(kv.path.deep_view().len() == kv.path@.len());
                    if kv.path@.len() == 1 {
                        assert(kv.path.deep_view()[0] == kv.path@[0]@);
                    }
                    if hit {
                        assert(kv.path.deep_view() =~~= seq![key@]);
                    }
                }
                if hit {
                    return Some(i);
                }
            },
            TomlLine::Blank { .. } => {},
        }
        i = i + 1;
    }
    None
}

// ---------------------------------------------------------------------------
// The rewriter
// ---------------------------------------------------------------------------

/// Bytes that sit between double quotes without escaping.
pub open spec fn plain_str_text(s: Seq<u8>) -> bool {
    forall|i: int|
        0 <= i < s.len() ==> (#[trigger] s[i] != 34 && s[i] != 92 && s[i] != 10)
}

/// Plain bytes are sound double-quoted string contents.
pub proof fn lemma_plain_str_inner_ok(s: Seq<u8>)
    requires
        plain_str_text(s),
    ensures
        str_inner_ok(34, s),
    decreases s.len(),
{
    if s.len() > 0 {
        assert(plain_str_text(s.skip(1)));
        lemma_plain_str_inner_ok(s.skip(1));
    }
}

/// `b` is `a` with only the value token replaced by the double-quoted
/// string `vt`: indent, key, spacing and trailing comment all kept.
pub open spec fn entry_value_set(a: TomlLine, b: TomlLine, vt: Seq<u8>) -> bool {
    match (a, b) {
        (TomlLine::Entry(x), TomlLine::Entry(y)) => {
            &&& y.indent@ == x.indent@
            &&& y.key@ == x.key@
            &&& y.path.deep_view() == x.path.deep_view()
            &&& y.eq@ == x.eq@
            &&& y.rest@ == x.rest@
            &&& match y.value {
                TomlValue::Str { quote, inner } => quote == 34 && inner@ == vt,
                _ => false,
            }
        },
        _ => false,
    }
}

/// Replace the value of the entry at line `i` with the double-quoted
/// string `text`. Every other line, and every other byte of this line,
/// stays exactly as it was.
pub fn set_entry_string(d: &mut TomlDoc, i: usize, text: &Vec<u8>)
    requires
        doc_wf(*old(d)),
        i < old(d).lines@.len(),
        old(d).lines@[i as int] is Entry,
        plain_str_text(text@),
    ensures
        doc_wf(*final(d)),
        final(d).lines@.len() == old(d).lines@.len(),
        forall|m: int|
            0 <= m < old(d).lines@.len() && m != i ==> final(d).lines@[m] == #[trigger] old(
                d,
            ).lines@[m],
        entry_value_set(old(d).lines@[i as int], final(d).lines@[i as int], text@),
{
    let newline = match &d.lines[i] {
        TomlLine::Entry(kv) => {
            let inner = clone_bytes(text);
            TomlLine::Entry(
                KeyVal {
                    indent: clone_bytes(&kv.indent),
                    key: clone_bytes(&kv.key),
                    path: clone_keys(&kv.path),
                    eq: clone_bytes(&kv.eq),
                    value: TomlValue::Str { quote: 34, inner },
                    rest: clone_bytes(&kv.rest),
                },
            )
        },
        _ => {
            proof {
                assert(false);
            }
            TomlLine::Blank { raw: Vec::new() }
        },
    };
    proof {
        lemma_plain_str_inner_ok(text@);
        assert(line_wf(old(d).lines@[i as int]));
        assert(line_wf(newline));
    }
    d.lines.set(i, newline);
    proof {
        lemma_entry_swap_keeps_wf(old(d).lines@, d.lines@, i as int);
    }
}

/// `b` is `a` with only the value token replaced by `v`.
pub open spec fn entry_value_replaced(a: TomlLine, b: TomlLine, v: TomlValue) -> bool {
    match (a, b) {
        (TomlLine::Entry(x), TomlLine::Entry(y)) => {
            &&& y.indent@ == x.indent@
            &&& y.key@ == x.key@
            &&& y.path.deep_view() == x.path.deep_view()
            &&& y.eq@ == x.eq@
            &&& y.rest@ == x.rest@
            &&& y.value == v
        },
        _ => false,
    }
}

/// Replace the value of the entry at line `i` with `v`, keeping every
/// other byte of the line and of the document.
pub fn set_entry_value(d: &mut TomlDoc, i: usize, v: TomlValue)
    requires
        doc_wf(*old(d)),
        i < old(d).lines@.len(),
        old(d).lines@[i as int] is Entry,
        value_wf(v),
    ensures
        doc_wf(*final(d)),
        final(d).lines@.len() == old(d).lines@.len(),
        forall|m: int|
            0 <= m < old(d).lines@.len() && m != i ==> final(d).lines@[m] == #[trigger] old(
                d,
            ).lines@[m],
        entry_value_replaced(old(d).lines@[i as int], final(d).lines@[i as int], v),
{
    let newline = match &d.lines[i] {
        TomlLine::Entry(kv) => TomlLine::Entry(
            KeyVal {
                indent: clone_bytes(&kv.indent),
                key: clone_bytes(&kv.key),
                path: clone_keys(&kv.path),
                eq: clone_bytes(&kv.eq),
                value: v,
                rest: clone_bytes(&kv.rest),
            },
        ),
        _ => {
            proof {
                assert(false);
            }
            TomlLine::Blank { raw: Vec::new() }
        },
    };
    proof {
        assert(line_wf(old(d).lines@[i as int]));
        assert(line_wf(newline));
    }
    d.lines.set(i, newline);
    proof {
        lemma_entry_swap_keeps_wf(old(d).lines@, d.lines@, i as int);
    }
}

/// Replacing one entry's value keeps the whole document sound: every
/// other line is untouched, and the new line still ends with the old
/// line's terminator because the kept tail cannot have been empty on a
/// terminated line (a value token never ends in a line end).
proof fn lemma_entry_swap_keeps_wf(la: Seq<TomlLine>, lb: Seq<TomlLine>, i: int)
    requires
        0 <= i < la.len(),
        lb.len() == la.len(),
        forall|m: int| 0 <= m < la.len() && m != i ==> lb[m] == #[trigger] la[m],
        forall|m: int| 0 <= m < la.len() ==> line_wf(#[trigger] la[m]),
        forall|m: int| 0 <= m < la.len() - 1 ==> line_ends_nl(#[trigger] la[m]),
        line_wf(lb[i]),
        la[i] is Entry && lb[i] is Entry,
        lb[i]->Entry_0.rest@ == la[i]->Entry_0.rest@,
    ensures
        forall|m: int| 0 <= m < lb.len() ==> line_wf(#[trigger] lb[m]),
        forall|m: int| 0 <= m < lb.len() - 1 ==> line_ends_nl(#[trigger] lb[m]),
{
    assert forall|m: int| 0 <= m < lb.len() implies line_wf(#[trigger] lb[m]) by {
        if m != i {
            assert(lb[m] == la[m]);
            assert(line_wf(la[m]));
        }
    }
    assert forall|m: int| 0 <= m < lb.len() - 1 implies line_ends_nl(#[trigger] lb[m]) by {
        if m != i {
            assert(lb[m] == la[m]);
            assert(line_ends_nl(la[m]));
        } else {
            let x = la[i]->Entry_0;
            let y = lb[i]->Entry_0;
            assert(line_wf(la[i]));
            assert(line_ends_nl(la[i]));
            lemma_value_text_last(x.value);
            if x.rest@.len() == 0 {
                assert(line_text(la[i]).last() == value_text(x.value).last());
                assert(false);
            }
            assert(line_text(la[i]).last() == x.rest@.last());
            assert(line_text(lb[i]).last() == y.rest@.last());
        }
    }
}

// ---------------------------------------------------------------------------
// The field commands
// ---------------------------------------------------------------------------

/// What a set-field request found.
#[derive(Clone, Copy, PartialEq, Eq, Structural, Debug)]
pub enum FieldOutcome {
    /// The field was located and its value replaced.
    Updated,
    /// A matching section exists but holds no such key; nothing changed.
    KeyMissing,
    /// No matching section exists; nothing changed.
    SectionMissing,
}

/// The string value of the located field, if the field exists and its
/// value is a quoted string.
pub open spec fn spec_field_string(lines: Seq<TomlLine>, section: Seq<u8>, key: Seq<u8>) -> Option<
    Seq<u8>,
> {
    match spec_target(lines, section, key) {
        None => None,
        Some(i) => match lines[i] {
            TomlLine::Entry(kv) => match kv.value {
                TomlValue::Str { quote, inner } => Some(inner@),
                _ => None,
            },
            _ => None,
        },
    }
}

/// Either scoped table for `section` exists.
pub open spec fn spec_section_present(lines: Seq<TomlLine>, section: Seq<u8>) -> bool {
    ||| spec_find_table(lines, seq![spec_word_workspace(), section], 0) is Some
    ||| spec_find_table(lines, seq![section], 0) is Some
}

/// Read the string value of `(section, key)` under the workspace-aware
/// resolution order.
pub fn get_field_string(d: &TomlDoc, section: &Vec<u8>, key: &Vec<u8>) -> (r: Option<Vec<u8>>)
    ensures
        match r {
            Some(v) => spec_field_string(d.lines@, section@, key@) == Some(v@),
            None => spec_field_string(d.lines@, section@, key@) is None,
        },
{
    let target = locate_target(d, section, key);
    match target {
        None => None,
        Some(i) => match &d.lines[i] {
            TomlLine::Entry(kv) => match &kv.value {
                TomlValue::Str { quote: _, inner } => Some(clone_bytes(inner)),
                _ => None,
            },
            _ => {
                proof {
                    assert(false);
                }
                None
            },
        },
    }
}

/// Exec resolution of `(section, key)`; mirrors `spec_target`.
fn locate_target(d: &TomlDoc, section: &Vec<u8>, key: &Vec<u8>) -> (r: Option<usize>)
    ensures
        opt_int(r) == spec_target(d.lines@, section@, key@),
        match r {
            Some(i) => i < d.lines@.len() && d.lines@[i as int] is Entry,
            None => true,
        },
{
    let mut wspath: Vec<Vec<u8>> = Vec::new();
    wspath.push(word_workspace());
    wspath.push(clone_bytes(section));
    proof {
        assert(wspath.deep_view() =~~= seq![spec_word_workspace(), section@]);
    }
    let mut rootpath: Vec<Vec<u8>> = Vec::new();
    rootpath.push(clone_bytes(section));
    proof {
        assert(rootpath.deep_view() =~~= seq![section@]);
        lemma_find_table_props(d.lines@, wspath.deep_view(), 0);
        lemma_find_table_props(d.lines@, rootpath.deep_view(), 0);
    }
    let n = d.lines.len();
    let first = match find_table(d, &wspath, 0) {
        Some(h) => {
            assert(h < n);
            proof {
                lemma_find_key_props(d.lines@, key@, h + 1);
            }
            find_key_from(d, key, h + 1)
        },
        None => None,
    };
    match first {
        Some(i) => Some(i),
        None => match find_table(d, &rootpath, 0) {
            Some(h) => {
                assert(h < n);
                proof {
                    lemma_find_key_props(d.lines@, key@, h + 1);
                }
                find_key_from(d, key, h + 1)
            },
            None => None,
        },
    }
}

/// Exec test that either scoped table for `section` exists.
fn section_present(d: &TomlDoc, section: &Vec<u8>) -> (r: bool)
    ensures
        r == spec_section_present(d.lines@, section@),
{
    let mut wspath: Vec<Vec<u8>> = Vec::new();
    wspath.push(word_workspace());
    wspath.push(clone_bytes(section));
    proof {
        assert(wspath.deep_view() =~~= seq![spec_word_workspace(), section@]);
    }
    let mut rootpath: Vec<Vec<u8>> = Vec::new();
    rootpath.push(clone_bytes(section));
    proof {
        assert(rootpath.deep_view() =~~= seq![section@]);
    }
    let a = find_table(d, &wspath, 0);
    if a.is_some() {
        return true;
    }
    let b = find_table(d, &rootpath, 0);
    b.is_some()
}

/// Set the field `(section, key)` to the double-quoted string `text`.
///
/// When the field is found, exactly its value token changes and
/// everything else is byte-identical. When it is not, the document is
/// left untouched and the outcome says whether a matching section was
/// there at all.
pub fn set_field_string(d: &mut TomlDoc, section: &Vec<u8>, key: &Vec<u8>, text: &Vec<u8>) -> (r:
    FieldOutcome)
    requires
        doc_wf(*old(d)),
        plain_str_text(text@),
    ensures
        doc_wf(*final(d)),
        match r {
            FieldOutcome::Updated => {
                let t = spec_target(old(d).lines@, section@, key@);
                &&& t is Some
                &&& final(d).lines@.len() == old(d).lines@.len()
                &&& forall|m: int|
                    0 <= m < old(d).lines@.len() && m != t->Some_0 ==> final(d).lines@[m]
                        == #[trigger] old(d).lines@[m]
                &&& entry_value_set(
                    old(d).lines@[t->Some_0],
                    final(d).lines@[t->Some_0],
                    text@,
                )
            },
            FieldOutcome::KeyMissing => {
                &&& *final(d) == *old(d)
                &&& spec_target(old(d).lines@, section@, key@) is None
                &&& spec_section_present(old(d).lines@, section@)
            },
            FieldOutcome::SectionMissing => {
                &&& *final(d) == *old(d)
                &&& spec_target(old(d).lines@, section@, key@) is None
                &&& !spec_section_present(old(d).lines@, section@)
            },
        },
{
    let target = locate_target(d, section, key);
    match target {
        Some(i) => {
            set_entry_string(d, i, text);
            FieldOutcome::Updated
        },
        None => {
            if section_present(d, section) {
                FieldOutcome::KeyMissing
            } else {
                FieldOutcome::SectionMissing
            }
        },
    }
}

/// Replacing a value with the very text it already holds leaves the
/// document byte-identical: a no-op edit does not disturb the file.
pub proof fn lemma_noop_edit(d1: TomlDoc, d2: TomlDoc, i: int, vt: Seq<u8>)
    requires
        0 <= i < d1.lines@.len(),
        d2.lines@.len() == d1.lines@.len(),
        forall|m: int| 0 <= m < d1.lines@.len() && m != i ==> d2.lines@[m] == #[trigger] d1.lines@[m],
        entry_value_set(d1.lines@[i], d2.lines@[i], vt),
        match d1.lines@[i] {
            TomlLine::Entry(kv) => match kv.value {
                TomlValue::Str { quote, inner } => quote == 34 && inner@ == vt,
                _ => false,
            },
            _ => false,
        },
    ensures
        doc_text(d2) == doc_text(d1),
{
    assert(line_text(d2.lines@[i]) == line_text(d1.lines@[i])) by {
        let x = d1.lines@[i]->Entry_0;
        let y = d2.lines@[i]->Entry_0;
        assert(value_text(y.value) =~= value_text(x.value));
    }
    lemma_cat_lines_pointwise(d1.lines@, d2.lines@);
}

/// Two line sequences whose lines render alike render alike in full.
pub proof fn lemma_cat_lines_pointwise(a: Seq<TomlLine>, b: Seq<TomlLine>)
    requires
        a.len() == b.len(),
        forall|m: int| 0 <= m < a.len() ==> line_text(#[trigger] a[m]) == line_text(b[m]),
    ensures
        cat_lines(a) == cat_lines(b),
    decreases a.len(),
{
    if a.len() > 0 {
        assert forall|m: int| 0 <= m < a.drop_first().len() implies line_text(
            #[trigger] a.drop_first()[m],
        ) == line_text(b.drop_first()[m]) by {
            assert(a.drop_first()[m] == a[m + 1]);
            assert(b.drop_first()[m] == b[m + 1]);
        }
        lemma_cat_lines_pointwise(a.drop_first(), b.drop_first());
        assert(line_text(a[0]) == line_text(b[0]));
    }
}

} // verus!
