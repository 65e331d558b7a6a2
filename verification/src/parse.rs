//! Parsing text into the document model.
//!
//! The text is read element by element: a blank or comment line, a table
//! header line, or a `key = value` entry whose value token may span
//! lines (a multiline array, inline table, or triple-quoted string) and
//! whose key may be dotted or quoted. Parsing succeeds exactly on texts
//! whose every element fits that grammar and whose keys and tables are
//! not duplicated; the parsed document serializes back to the input byte
//! for byte.

use vstd::prelude::*;
use crate::scan::{spec_find_byte, lemma_find_byte_props, find_byte, copy_range};
use crate::doc::{TomlValue, KeyVal, Header, TomlLine, TomlDoc, is_ws, is_key_byte, in_class,
    spec_skip, lemma_skip_props, lemma_skip_is, skip_class, spec_scan_value, scan_value,
    lemma_scan_string_props, lemma_scan_ml_props, lemma_scan_value_props, lemma_scan_ml_shift,
    lemma_scan_group_shift, tail_ok_from, spec_header_keys_rec, spec_header_keys, spec_keypath_at,
    spec_scan_string, value_text, line_text, cat_lines, doc_text, lemma_cat_lines_push, ws_only,
    eq_shape, line_wf, line_ends_nl, doc_wf};

verus! {

/// Why a text was rejected.
#[derive(Clone, Copy, PartialEq, Eq, Structural, Debug)]
pub enum ParseError {
    /// The element at this line index fits no rule of the grammar.
    BadLine { line: usize },
    /// Two entries carry the same key within one table.
    DuplicateKey { line: usize },
    /// The same table is declared twice.
    DuplicateTable { line: usize },
}

// ---------------------------------------------------------------------------
// The grammar, positionally
// ---------------------------------------------------------------------------

/// Just past the next line end at or after `i` (or the end of the text).
pub open spec fn nl_end(t: Seq<u8>, i: int) -> int {
    match spec_find_byte(t, 10, i) {
        None => t.len() as int,
        Some(p) => p + 1,
    }
}

/// From `e` on, only whitespace and at most a comment stand before the
/// line end.
pub open spec fn spec_tail_shape(t: Seq<u8>, e: int) -> bool {
    let k1 = spec_skip(t, e, 1);
    k1 == t.len() || t[k1] == 35 || t[k1] == 10
}

/// End of the dotted key starting at `k`: bare or quoted segments
/// around dots, with whitespace only between segments.
pub open spec fn spec_key_end(t: Seq<u8>, k: int) -> Option<int>
    decreases t.len() - k,
{
    if k < 0 || k >= t.len() {
        None
    } else {
        let se = if is_key_byte(t[k]) {
            Some(spec_skip(t, k + 1, 2))
        } else if t[k] == 34 || t[k] == 39 {
            spec_scan_string(t, t[k], k + 1)
        } else {
            None
        };
        match se {
            None => None,
            Some(se) => {
                let m = spec_skip(t, se, 0);
                if m < t.len() && t[m] == 46 {
                    let k2 = spec_skip(t, m + 1, 0);
                    // the scan position only advances and stays in bounds;
                    // this check serves termination
                    if k2 <= k || k2 > t.len() {
                        None
                    } else {
                        spec_key_end(t, k2)
                    }
                } else {
                    Some(se)
                }
            },
        }
    }
}

/// End of one entry element starting at `i`, when it parses: indent, a
/// dotted or quoted key that reads as a path on its own bytes, an
/// equals sign, one value token, then a sound tail up to its line end.
pub open spec fn spec_entry_end(t: Seq<u8>, i: int) -> Option<int> {
    let k0 = spec_skip(t, i, 0);
    match spec_key_end(t, k0) {
        None => None,
        Some(kend) => if !(0 <= k0 < kend <= t.len()) {
            None
        } else {
            match spec_keypath_at(t.subrange(k0, kend), 0) {
                None => None,
                Some((path, pl)) => if pl != kend - k0 {
                    None
                } else {
                    let a = spec_skip(t, kend, 0);
                    if a >= t.len() || t[a] != 61 {
                        None
                    } else {
                        let v = spec_skip(t, a + 1, 0);
                        match spec_scan_value(t, v) {
                            None => None,
                            Some(e) => if spec_tail_shape(t, e) {
                                Some(nl_end(t, e))
                            } else {
                                None
                            },
                        }
                    }
                },
            }
        },
    }
}

/// The text parses from position `i` on: each element fits one rule and
/// hands over exactly at its end.
pub open spec fn spec_doc_parses_at(t: Seq<u8>, i: int) -> bool
    decreases t.len() - i,
{
    if i >= t.len() {
        true
    } else {
        let k = spec_skip(t, i, 0);
        if k >= t.len() {
            true
        } else if t[k] == 35 || t[k] == 10 || t[k] == 13 {
            let end = nl_end(t, i);
            &&& spec_tail_shape(t, i)
            &&& if i < end <= t.len() {
                spec_doc_parses_at(t, end)
            } else {
                false
            }
        } else if t[k] == 91 {
            let end = nl_end(t, i);
            &&& spec_header_keys(t.subrange(i, if end <= t.len() {
                end
            } else {
                t.len() as int
            })) is Some
            &&& if i < end <= t.len() {
                spec_doc_parses_at(t, end)
            } else {
                false
            }
        } else if is_key_byte(t[k]) || t[k] == 34 || t[k] == 39 {
            match spec_entry_end(t, i) {
                None => false,
                Some(end) => if i < end && end <= t.len() {
                    spec_doc_parses_at(t, end)
                } else {
                    false
                },
            }
        } else {
            false
        }
    }
}

/// The whole text parses.
pub open spec fn spec_text_parses(t: Seq<u8>) -> bool {
    spec_doc_parses_at(t, 0)
}

// ---------------------------------------------------------------------------
// Duplicates
// ---------------------------------------------------------------------------

/// Index of the table header owning line `i` (the line itself when it is
/// a header), or the root scope when no header stands before it.
pub open spec fn spec_owner(lines: Seq<TomlLine>, i: int) -> int
    decreases i + 1,
{
    if i < 0 {
        -1
    } else if lines[i] is Table {
        i
    } else {
        spec_owner(lines, i - 1)
    }
}

/// Two entries carry the same key path under the same table.
pub open spec fn dup_key_pair(lines: Seq<TomlLine>, i: int, j: int) -> bool {
    &&& 0 <= i < j < lines.len()
    &&& lines[i] is Entry && lines[j] is Entry
    &&& lines[i]->Entry_0.path.deep_view() == lines[j]->Entry_0.path.deep_view()
    &&& spec_owner(lines, i) == spec_owner(lines, j)
}

/// The same ordinary table is declared twice. Array-of-tables headers
/// may repeat.
pub open spec fn dup_table_pair(lines: Seq<TomlLine>, i: int, j: int) -> bool {
    &&& 0 <= i < j < lines.len()
    &&& lines[i] is Table && lines[j] is Table
    &&& !lines[i]->Table_0.array && !lines[j]->Table_0.array
    &&& lines[i]->Table_0.path.deep_view() == lines[j]->Table_0.path.deep_view()
}

/// Some key or table is duplicated.
pub open spec fn spec_has_dup(lines: Seq<TomlLine>) -> bool {
    exists|i: int, j: int| dup_key_pair(lines, i, j) || dup_table_pair(lines, i, j)
}

/// The text is not accepted: an element breaks the grammar, or the
/// parsed document holds a duplicate key or table.
pub open spec fn parse_rejected(t: Seq<u8>) -> bool {
    ||| !spec_text_parses(t)
    ||| exists|d: TomlDoc| #[trigger] doc_wf(d) && doc_text(d) == t && spec_has_dup(d.lines@)
}

/// The scope owner of each line, shifted up by one so the root is `0`.
fn owners_of(lines: &Vec<TomlLine>) -> (r: Vec<usize>)
    ensures
        r@.len() == lines@.len(),
        forall|k: int| 0 <= k < lines@.len() ==> r@[k] as int == spec_owner(lines@, k) + 1,
{
    let mut out: Vec<usize> = Vec::new();
    let mut cur: usize = 0;
    let mut k: usize = 0;
    while k < lines.len()
        invariant
            0 <= k <= lines@.len(),
            out@.len() == k,
            cur as int == spec_owner(lines@, k - 1) + 1,
            cur <= k,
            forall|m: int| 0 <= m < k ==> out@[m] as int == spec_owner(lines@, m) + 1,
        decreases lines@.len() - k,
    {
        match &lines[k] {
            TomlLine::Table(_) => {
                cur = k + 1;
            },
            _ => {},
        }
        out.push(cur);
        k = k + 1;
    }
    out
}

/// Find a duplicated key or table, reported as the error to raise, with
/// the second occurrence's line index.
fn find_dup(lines: &Vec<TomlLine>) -> (r: Option<ParseError>)
    ensures
        r is None ==> !spec_has_dup(lines@),
        r is Some && r->Some_0 is DuplicateKey ==> exists|i: int|
            dup_key_pair(lines@, i, r->Some_0->DuplicateKey_line as int),
        r is Some && r->Some_0 is DuplicateTable ==> exists|i: int|
            dup_table_pair(lines@, i, r->Some_0->DuplicateTable_line as int),
        r is Some ==> !(r->Some_0 is BadLine),
{
    let owners = owners_of(lines);
    let n = lines.len();
    let mut j: usize = 1;
    while j < n
        invariant
            1 <= j <= n == lines@.len() || (n == 0 && j == 1),
            owners@.len() == lines@.len(),
            forall|k: int| 0 <= k < lines@.len() ==> owners@[k] as int == spec_owner(lines@, k) + 1,
            forall|jj: int, ii: int|
                0 <= jj < j && 0 <= ii < jj ==> !dup_key_pair(lines@, ii, jj) && !dup_table_pair(
                    lines@,
                    ii,
                    jj,
                ),
        decreases n - j,
    {
        let mut i: usize = 0;
        while i < j
            invariant
                0 <= i <= j < n == lines@.len(),
                owners@.len() == lines@.len(),
                forall|k: int|
                    0 <= k < lines@.len() ==> owners@[k] as int == spec_owner(lines@, k) + 1,
                forall|ii: int|
                    0 <= ii < i ==> !dup_key_pair(lines@, ii, j as int) && !dup_table_pair(
                        lines@,
                        ii,
                        j as int,
                    ),
            decreases j - i,
        {
            match (&lines[i], &lines[j]) {
                (TomlLine::Entry(a), TomlLine::Entry(b)) => {
                    if owners[i] == owners[j] && crate::edit::eq_keys(&a.path, &b.path) {
                        let res = Some(ParseError::DuplicateKey { line: j });
                        proof {
                            assert(dup_key_pair(lines@, i as int, j as int));
                            assert(res is Some && res->Some_0 is DuplicateKey);
                            assert(res->Some_0->DuplicateKey_line == j);
                            assert(exists|ii: int| dup_key_pair(lines@, ii, j as int));
                        }
                        return res;
                    }
                },
                (TomlLine::Table(a), TomlLine::Table(b)) => {
                    if !a.array && !b.array && crate::edit::eq_keys(&a.path, &b.path) {
                        let res = Some(ParseError::DuplicateTable { line: j });
                        proof {
                            assert(dup_table_pair(lines@, i as int, j as int));
                            assert(res is Some && res->Some_0 is DuplicateTable);
                            assert(res->Some_0->DuplicateTable_line == j);
                            assert(exists|ii: int| dup_table_pair(lines@, ii, j as int));
                        }
                        return res;
                    }
                },
                _ => {},
            }
            i = i + 1;
        }
        j = j + 1;
    }
    proof {
        assert forall|i: int, j2: int| !(dup_key_pair(lines@, i, j2) || dup_table_pair(
            lines@,
            i,
            j2,
        )) by {
            if 0 <= i < j2 < lines@.len() {
            }
        }
    }
    None
}

// ---------------------------------------------------------------------------
// Element parsing
// ---------------------------------------------------------------------------

/// Exec test of `is_key_byte`.
fn key_byte(b: u8) -> (r: bool)
    ensures
        r == is_key_byte(b),
{
    (48 <= b && b <= 57) || (65 <= b && b <= 90) || (97 <= b && b <= 122) || b == 45 || b == 95
}

/// Exec test of the tail shape from `from` on.
fn tail_shape_check(s: &Vec<u8>, from: usize) -> (r: bool)
    requires
        from <= s@.len(),
    ensures
        r == spec_tail_shape(s@, from as int),
{
    let n = s.len();
    let k = skip_class(s, from, 1);
    k == n || s[k] == 35 || s[k] == 10
}

/// Parse one header line, from position `j` (inside the brackets).
fn parse_header_rest(seg: &Vec<u8>, j: usize, dbl: bool) -> (r: Option<Vec<Vec<u8>>>)
    requires
        j <= seg@.len(),
    ensures
        match r {
            Some(ks) => spec_header_keys_rec(seg@, j as int, dbl) == Some(ks.deep_view()),
            None => spec_header_keys_rec(seg@, j as int, dbl) is None,
        },
    decreases seg@.len() - j,
{
    let n = seg.len();
    let k = skip_class(seg, j, 0);
    if k == n || !key_byte(seg[k]) {
        return None;
    }
    let ke = skip_class(seg, k + 1, 2);
    let m = skip_class(seg, ke, 0);
    if m == n {
        return None;
    }
    if seg[m] == 46 {
        // the scan position only advances; this check mirrors the spec's
        // termination guard
        if m + 1 <= j {
            return None;
        }
        match parse_header_rest(seg, m + 1, dbl) {
            None => None,
            Some(rest) => {
                let key = copy_range(seg, k, ke);
                let mut out = rest;
                out.insert(0, key);
                proof {
                    assert(out.deep_view() =~~= seq![seg@.subrange(k as int, ke as int)]
                        + rest.deep_view());
                }
                Some(out)
            },
        }
    } else if seg[m] == 93 {
        let tail_from = if dbl {
            if m + 1 < n && seg[m + 1] == 93 {
                m + 2
            } else {
                return None;
            }
        } else {
            m + 1
        };
        if tail_check_segment(seg, tail_from) {
            let key = copy_range(seg, k, ke);
            let mut out: Vec<Vec<u8>> = Vec::new();
            out.push(key);
            proof {
                assert(out.deep_view() =~~= seq![seg@.subrange(k as int, ke as int)]);
            }
            Some(out)
        } else {
            None
        }
    } else {
        None
    }
}

/// Exec test of a sound segment tail: whitespace, at most a comment, a
/// line end only as the last byte.
fn tail_check_segment(s: &Vec<u8>, from: usize) -> (r: bool)
    requires
        from <= s@.len(),
    ensures
        r == tail_ok_from(s@, from as int),
{
    let n = s.len();
    let k = skip_class(s, from, 1);
    let shape = k == n || s[k] == 35 || s[k] == 10;
    if !shape {
        return false;
    }
    proof {
        lemma_find_byte_props(s@, 10, from as int);
    }
    match find_byte(s, 10, from) {
        None => true,
        Some(p) => p == n - 1,
    }
}

/// Parse the dotted key starting at `k`; mirrors `spec_keypath_at`.
fn parse_keypath(t: &Vec<u8>, k: usize) -> (r: Option<(Vec<Vec<u8>>, usize)>)
    requires
        k <= t@.len(),
    ensures
        match r {
            Some((path, end)) => spec_keypath_at(t@, k as int) == Some(
                (path.deep_view(), end as int),
            ) && k < end <= t@.len(),
            None => spec_keypath_at(t@, k as int) is None,
        },
    decreases t@.len() - k,
{
    let n = t.len();
    if k == n {
        return None;
    }
    let b = t[k];
    let (name, se) = if key_byte(b) {
        let se = skip_class(t, k + 1, 2);
        (copy_range(t, k, se), se)
    } else if b == 34 || b == 39 {
        proof {
            lemma_scan_string_props(t@, b, k + 1);
        }
        match crate::doc::scan_string(t, b, k + 1) {
            Some(e) => (copy_range(t, k + 1, e - 1), e),
            None => {
                return None;
            },
        }
    } else {
        return None;
    };
    let m = skip_class(t, se, 0);
    if m < n && t[m] == 46 {
        let k2 = skip_class(t, m + 1, 0);
        if k2 <= k {
            return None;
        }
        match parse_keypath(t, k2) {
            None => None,
            Some((rest, end)) => {
                let mut out = rest;
                out.insert(0, name);
                proof {
                    assert(out.deep_view() =~~= seq![name@] + rest.deep_view());
                }
                Some((out, end))
            },
        }
    } else {
        let mut out: Vec<Vec<u8>> = Vec::new();
        out.push(name);
        proof {
            assert(out.deep_view() =~~= seq![name@]);
        }
        Some((out, se))
    }
}


/// End of the dotted key starting at `k`; mirrors `spec_key_end`.
fn scan_key_end(t: &Vec<u8>, k: usize) -> (r: Option<usize>)
    requires
        k <= t@.len(),
    ensures
        match r {
            Some(e) => spec_key_end(t@, k as int) == Some(e as int) && k < e <= t@.len(),
            None => spec_key_end(t@, k as int) is None,
        },
    decreases t@.len() - k,
{
    let n = t.len();
    if k == n {
        return None;
    }
    let b = t[k];
    let se = if key_byte(b) {
        skip_class(t, k + 1, 2)
    } else if b == 34 || b == 39 {
        proof {
            lemma_scan_string_props(t@, b, k + 1);
        }
        match crate::doc::scan_string(t, b, k + 1) {
            Some(e) => e,
            None => {
                return None;
            },
        }
    } else {
        return None;
    };
    let m = skip_class(t, se, 0);
    if m < n && t[m] == 46 {
        let k2 = skip_class(t, m + 1, 0);
        if k2 <= k {
            return None;
        }
        scan_key_end(t, k2)
    } else {
        Some(se)
    }
}

/// Build the value token scanned at `[v, e)`: sound, and rendering to
/// exactly those bytes.
#[verifier::spinoff_prover]
fn parse_value_at(t: &Vec<u8>, v: usize, e: usize) -> (val: TomlValue)
    requires
        spec_scan_value(t@, v as int) == Some(e as int),
        v < e <= t@.len(),
    ensures
        crate::doc::value_wf(val),
        value_text(val) == t@.subrange(v as int, e as int),
{
    let n = t.len();
    let b = t[v];
    if b == 34 || b == 39 {
        if n - v > 2 && t[v + 1] == b && t[v + 2] == b {
            let raw = copy_range(t, v, e);
            proof {
                lemma_scan_ml_props(t@, b, v + 3);
                lemma_scan_ml_shift(t@, b, v + 3, v as int, e as int, e as int);
                assert(raw@[0] == t@[v as int] && raw@[1] == t@[v + 1] && raw@[2] == t@[v + 2]);
            }
            TomlValue::MlStr { raw }
        } else {
            proof {
                lemma_scan_string_props(t@, b, v + 1);
            }
            let inner = copy_range(t, v + 1, e - 1);
            let val = TomlValue::Str { quote: b, inner };
            proof {
                assert(value_text(val) =~= t@.subrange(v as int, e as int));
            }
            val
        }
    } else if b == 91 {
        let raw = copy_range(t, v, e);
        proof {
            lemma_scan_group_shift(t@, v + 1, 93, v as int, e as int, e as int);
            assert(raw@[0] == t@[v as int]);
        }
        TomlValue::Arr { raw }
    } else if b == 123 {
        let raw = copy_range(t, v, e);
        proof {
            lemma_scan_group_shift(t@, v + 1, 125, v as int, e as int, e as int);
            assert(raw@[0] == t@[v as int]);
        }
        TomlValue::Inline { raw }
    } else {
        let raw = copy_range(t, v, e);
        proof {
            lemma_skip_props(t@, v + 1, 3);
            assert forall|m: int| 0 <= m < raw@.len() implies crate::doc::is_bare_byte(
                #[trigger] raw@[m],
            ) by {
                assert(raw@[m] == t@[v + m]);
            }
        }
        TomlValue::Other { raw }
    }
}

/// Parse one entry element at position `i`: the produced line is sound,
/// renders to exactly the consumed bytes, and ends where the spec says.
#[verifier::rlimit(100)]
#[verifier::spinoff_prover]
fn parse_entry_at(t: &Vec<u8>, i: usize) -> (r: Option<(TomlLine, usize)>)
    requires
        i <= t@.len(),
    ensures
        match r {
            Some((l, end)) => {
                &&& spec_entry_end(t@, i as int) == Some(end as int)
                &&& i < end <= t@.len()
                &&& line_wf(l)
                &&& line_text(l) == t@.subrange(i as int, end as int)
                &&& (end < t@.len() ==> line_ends_nl(l))
            },
            None => spec_entry_end(t@, i as int) is None,
        },
{
    let n = t.len();
    let k0 = skip_class(t, i, 0);
    let kend = match scan_key_end(t, k0) {
        None => {
            return None;
        },
        Some(e) => e,
    };
    let keyv = copy_range(t, k0, kend);
    let (path, pl) = match parse_keypath(&keyv, 0) {
        None => {
            return None;
        },
        Some(x) => x,
    };
    if pl != keyv.len() {
        return None;
    }
    let a = skip_class(t, kend, 0);
    if a == n || t[a] != 61 {
        return None;
    }
    let v = skip_class(t, a + 1, 0);
    proof {
        lemma_scan_value_props(t@, v as int);
    }
    let e = match scan_value(t, v) {
        None => {
            return None;
        },
        Some(e) => e,
    };
    if !tail_shape_check(t, e) {
        return None;
    }
    proof {
        lemma_find_byte_props(t@, 10, e as int);
    }
    let end = match find_byte(t, 10, e) {
        Some(p) => p + 1,
        None => n,
    };
    let indent = copy_range(t, i, k0);
    let eq = copy_range(t, kend, v);
    let rest = copy_range(t, e, end);
    let value = parse_value_at(t, v, e);
    let kv = KeyVal { indent, key: keyv, path, eq, value, rest };
    proof {
        // the pieces concatenate back to the consumed bytes
        assert(line_text(TomlLine::Entry(kv)) =~= t@.subrange(i as int, end as int));
        // the indent is whitespace
        assert(ws_only(kv.indent@)) by {
            lemma_skip_props(t@, i as int, 0);
            assert forall|m: int| 0 <= m < kv.indent@.len() implies crate::doc::is_ws(
                #[trigger] kv.indent@[m],
            ) by {
                assert(kv.indent@[m] == t@[i + m]);
            }
        }
        // the equals region is `ws* '=' ws*`
        assert(eq_shape(kv.eq@)) by {
            lemma_skip_props(t@, kend as int, 0);
            lemma_skip_props(t@, a + 1, 0);
            assert forall|m: int| 0 <= m < a - kend implies in_class(#[trigger] kv.eq@[m], 0) by {
                assert(kv.eq@[m] == t@[kend + m]);
            }
            assert(kv.eq@[a - kend] == t@[a as int]);
            lemma_skip_is(kv.eq@, 0, 0, a - kend);
            assert forall|m: int| a - kend + 1 <= m < kv.eq@.len() implies is_ws(
                #[trigger] kv.eq@[m],
            ) by {
                assert(kv.eq@[m] == t@[kend + m]);
            }
        }
        // the tail is sound on its own bytes
        assert(tail_ok_from(kv.rest@, 0)) by {
            lemma_skip_props(t@, e as int, 1);
            let kk = spec_skip(t@, e as int, 1);
            assert(kk <= end) by {
                if spec_find_byte(t@, 10, e as int) is Some {
                    let p = spec_find_byte(t@, 10, e as int)->Some_0;
                    if kk > p {
                        assert(in_class(t@[p], 1));
                    }
                }
            }
            assert forall|m: int| 0 <= m < kk - e implies in_class(#[trigger] kv.rest@[m], 1) by {
                assert(kv.rest@[m] == t@[e + m]);
            }
            if kk < end {
                assert(kv.rest@[kk - e] == t@[kk]);
            }
            lemma_skip_is(kv.rest@, 0, 1, kk - e);
            assert forall|m: int|
                0 <= m < kv.rest@.len() && #[trigger] kv.rest@[m] == 10 implies m
                    == kv.rest@.len() - 1 by {
                assert(kv.rest@[m] == t@[e + m]);
            }
        }
        assert(keyv@ == t@.subrange(k0 as int, kend as int));
    }
    Some((TomlLine::Entry(kv), end))
}

// ---------------------------------------------------------------------------
// The parser
// ---------------------------------------------------------------------------

/// Parse a whole text. Success exactly when every element fits the
/// grammar and no key or table is duplicated; the result is sound and
/// serializes back to `text`.
#[verifier::rlimit(100)]
pub fn parse(text: &Vec<u8>) -> (r: Result<TomlDoc, ParseError>)
    ensures
        match r {
            Ok(d) => doc_wf(d) && doc_text(d) == text@ && spec_text_parses(text@) && !spec_has_dup(
                d.lines@,
            ),
            Err(_) => parse_rejected(text@),
        },
        r is Err && r->Err_0 is BadLine ==> !spec_text_parses(text@),
        r is Err && r->Err_0 is DuplicateKey ==> exists|d: TomlDoc|
            #[trigger] doc_wf(d) && doc_text(d) == text@ && exists|i: int|
                dup_key_pair(d.lines@, i, r->Err_0->DuplicateKey_line as int),
        r is Err && r->Err_0 is DuplicateTable ==> exists|d: TomlDoc|
            #[trigger] doc_wf(d) && doc_text(d) == text@ && exists|i: int|
                dup_table_pair(d.lines@, i, r->Err_0->DuplicateTable_line as int),
{
    let n = text.len();
    let mut lines: Vec<TomlLine> = Vec::new();
    let mut pos: usize = 0;
    proof {
        assert(text@.subrange(0, 0) =~= Seq::<u8>::empty());
    }
    while pos < n
        invariant
            pos <= n == text@.len(),
            cat_lines(lines@) == text@.subrange(0, pos as int),
            forall|i: int| 0 <= i < lines@.len() ==> line_wf(#[trigger] lines@[i]),
            forall|i: int| 0 <= i < lines@.len() - 1 ==> line_ends_nl(#[trigger] lines@[i]),
            pos < n ==> forall|i: int|
                0 <= i < lines@.len() ==> line_ends_nl(#[trigger] lines@[i]),
            spec_text_parses(text@) == spec_doc_parses_at(text@, pos as int),
        decreases n - pos,
    {
        let k = skip_class(text, pos, 0);
        proof {
            lemma_skip_props(text@, pos as int, 0);
        }
        if k == n {
            // trailing whitespace: one final blank line
            let raw = copy_range(text, pos, n);
            proof {
                assert(tail_ok_from(raw@, 0)) by {
                    assert forall|m: int| 0 <= m < raw@.len() implies in_class(
                        #[trigger] raw@[m],
                        1,
                    ) by {
                        assert(raw@[m] == text@[pos + m]);
                        assert(is_ws(text@[pos + m]));
                    }
                    lemma_skip_is(raw@, 0, 1, raw@.len() as int);
                }
                lemma_cat_lines_push(lines@, TomlLine::Blank { raw });
                assert(cat_lines(lines@.push(TomlLine::Blank { raw })) =~= text@.subrange(0, n as int));
            }
            lines.push(TomlLine::Blank { raw });
            pos = n;
        } else {
            let b = text[k];
            if b == 35 || b == 10 || b == 13 {
                if !tail_shape_check(text, pos) {
                    return Err(ParseError::BadLine { line: lines.len() });
                }
                proof {
                    lemma_find_byte_props(text@, 10, pos as int);
                }
                let end = match find_byte(text, 10, pos) {
                    Some(p) => p + 1,
                    None => n,
                };
                let raw = copy_range(text, pos, end);
                proof {
                    assert(tail_ok_from(raw@, 0)) by {
                        lemma_skip_props(text@, pos as int, 1);
                        let kk = spec_skip(text@, pos as int, 1);
                        assert(kk <= end) by {
                            if spec_find_byte(text@, 10, pos as int) is Some {
                                let p = spec_find_byte(text@, 10, pos as int)->Some_0;
                                if kk > p {
                                    assert(in_class(text@[p], 1));
                                }
                            }
                        }
                        assert forall|m: int| 0 <= m < kk - pos implies in_class(
                            #[trigger] raw@[m],
                            1,
                        ) by {
                            assert(raw@[m] == text@[pos + m]);
                        }
                        if kk < end {
                            assert(raw@[kk - pos] == text@[kk]);
                        }
                        lemma_skip_is(raw@, 0, 1, kk - pos);
                        assert forall|m: int|
                            0 <= m < raw@.len() && #[trigger] raw@[m] == 10 implies m == raw@.len()
                            - 1 by {
                            assert(raw@[m] == text@[pos + m]);
                        }
                    }
                    lemma_cat_lines_push(lines@, TomlLine::Blank { raw });
                    assert(cat_lines(lines@.push(TomlLine::Blank { raw })) =~= text@.subrange(
                        0,
                        end as int,
                    ));
                    if end < n {
                        assert(raw@.last() == text@[end - 1]);
                    }
                }
                lines.push(TomlLine::Blank { raw });
                pos = end;
            } else if b == 91 {
                proof {
                    lemma_find_byte_props(text@, 10, pos as int);
                }
                let end = match find_byte(text, 10, pos) {
                    Some(p) => p + 1,
                    None => n,
                };
                let seg = copy_range(text, pos, end);
                proof {
                    // the segment's own whitespace skip lands on the bracket
                    assert forall|m: int| 0 <= m < k - pos implies in_class(
                        #[trigger] seg@[m],
                        0,
                    ) by {
                        assert(seg@[m] == text@[pos + m]);
                    }
                    assert(seg@[k - pos] == text@[k as int]);
                    lemma_skip_is(seg@, 0, 0, k - pos);
                }
                let i0 = k - pos;
                let dbl = i0 + 1 < seg.len() && seg[i0 + 1] == 91;
                let j = if dbl {
                    i0 + 2
                } else {
                    i0 + 1
                };
                match parse_header_rest(&seg, j, dbl) {
                    None => {
                        return Err(ParseError::BadLine { line: lines.len() });
                    },
                    Some(keys) => {
                        let l = TomlLine::Table(Header { raw: seg, path: keys, array: dbl });
                        proof {
                            lemma_cat_lines_push(lines@, l);
                            assert(cat_lines(lines@.push(l)) =~= text@.subrange(0, end as int));
                            if end < n {
                                assert(line_text(l).last() == text@[end - 1]);
                            }
                        }
                        lines.push(l);
                        pos = end;
                    },
                }
            } else if key_byte(b) || b == 34 || b == 39 {
                match parse_entry_at(text, pos) {
                    None => {
                        return Err(ParseError::BadLine { line: lines.len() });
                    },
                    Some((l, end)) => {
                        proof {
                            lemma_cat_lines_push(lines@, l);
                            assert(cat_lines(lines@.push(l)) =~= text@.subrange(0, end as int));
                        }
                        lines.push(l);
                        pos = end;
                    },
                }
            } else {
                return Err(ParseError::BadLine { line: lines.len() });
            }
        }
    }
    proof {
        assert(text@.subrange(0, n as int) =~= text@);
    }
    let d = TomlDoc { lines };
    match find_dup(&d.lines) {
        Some(e) => {
            proof {
                assert(doc_wf(d) && doc_text(d) == text@);
                match e {
                    ParseError::DuplicateKey { line } => {
                        let i = choose|i: int| dup_key_pair(d.lines@, i, line as int);
                        assert(dup_key_pair(d.lines@, i, line as int));
                        assert(spec_has_dup(d.lines@));
                    },
                    ParseError::DuplicateTable { line } => {
                        let i = choose|i: int| dup_table_pair(d.lines@, i, line as int);
                        assert(dup_table_pair(d.lines@, i, line as int));
                        assert(spec_has_dup(d.lines@));
                    },
                    _ => {},
                }
            }
            Err(e)
        },
        None => Ok(d),
    }
}

/// The round-trip law, stated over every input at once: whenever a text
/// parses, serializing the parsed document returns exactly that text.
pub fn reserialize(text: &Vec<u8>) -> (r: Option<Vec<u8>>)
    ensures
        match r {
            Some(out) => out@ == text@ && spec_text_parses(text@),
            None => parse_rejected(text@),
        },
{
    match parse(text) {
        Ok(d) => Some(crate::doc::serialize(&d)),
        Err(_) => None,
    }
}

} // verus!
