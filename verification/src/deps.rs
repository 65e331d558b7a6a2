//! Rewriting a dependency entry.
//!
//! A dependency is either a bare version string or a table-like value.
//! Setting its version keeps the table form and every sibling key: the
//! table is rebuilt with each key's value byte-identical, only `version`
//! replaced (or appended when absent), and the trailing comment kept.

use vstd::prelude::*;
use crate::scan::copy_range;
use crate::doc::{TomlValue, KeyVal, Header, TomlLine, TomlDoc, is_key_byte, in_class, spec_skip,
    lemma_skip_props, skip_class, spec_scan_value, scan_value, lemma_scan_value_props, value_text,
    line_text, value_wf, bare_key, token_scans, lemma_scan_value_token,
    lemma_scan_group_over_token, lemma_scan_group_plain_run, group_plain, spec_scan_group,
    spec_scan_string, spec_keypath_at, lemma_skip_is, line_ends_nl, lemma_value_text_last,
    spec_header_keys, lemma_header_rec_no_nl, lemma_tail_push10, tail_ok_from, line_wf};
use crate::edit::{clone_bytes, clone_keys, eq_bytes, plain_str_text, lemma_plain_str_inner_ok,
    find_table, find_key_from, set_entry_value, spec_find_table, spec_table_key,
    lemma_find_table_props, lemma_find_key_props};
use crate::words::{spec_word_version, word_version, spec_word_path, word_path,
    spec_word_workspace, word_workspace, spec_word_dependencies, word_dependencies};
use crate::doc::doc_wf;

verus! {

// ---------------------------------------------------------------------------
// Reading the items of an inline table
// ---------------------------------------------------------------------------

/// The `key = value` items of an inline table, each as the key's bytes
/// and the value token's bytes. `None` when the braces do not enclose a
/// plain comma-separated item list.
pub open spec fn spec_dep_entries(s: Seq<u8>) -> Option<Seq<(Seq<u8>, Seq<u8>)>> {
    if s.len() < 2 || s[0] != 123 || s[s.len() - 1] != 125 {
        None
    } else if spec_skip(s, 1, 0) == s.len() - 1 {
        Some(Seq::empty())
    } else {
        spec_dep_items(s, 1)
    }
}

/// Items from position `j` on, up to the closing brace, which must be
/// the last byte.
pub open spec fn spec_dep_items(s: Seq<u8>, j: int) -> Option<Seq<(Seq<u8>, Seq<u8>)>>
    decreases s.len() - j,
{
    let k = spec_skip(s, j, 0);
    if k >= s.len() || !is_key_byte(s[k]) {
        None
    } else {
        let ke = spec_skip(s, k + 1, 2);
        let a = spec_skip(s, ke, 0);
        if a >= s.len() || s[a] != 61 {
            None
        } else {
            let v = spec_skip(s, a + 1, 0);
            match spec_scan_value(s, v) {
                None => None,
                Some(e) => {
                    let m = spec_skip(s, e, 0);
                    if m >= s.len() {
                        None
                    } else if s[m] == 125 {
                        if m == s.len() - 1 {
                            Some(seq![(s.subrange(k, ke), s.subrange(v, e))])
                        } else {
                            None
                        }
                    } else if s[m] == 44 {
                        // the scan position only advances; this check
                        // serves termination
                        if m + 1 <= j {
                            None
                        } else {
                            match spec_dep_items(s, m + 1) {
                                None => None,
                                Some(rest) => Some(
                                    seq![(s.subrange(k, ke), s.subrange(v, e))] + rest,
                                ),
                            }
                        }
                    } else {
                        None
                    }
                },
            }
        }
    }
}

/// Every parsed item has a bare key and a value that scans as one
/// complete token on its own bytes.
pub proof fn lemma_dep_items_shape(s: Seq<u8>, j: int)
    requires
        0 <= j <= s.len(),
    ensures
        match spec_dep_items(s, j) {
            Some(es) => forall|i: int|
                0 <= i < es.len() ==> bare_key((#[trigger] es[i]).0) && token_scans(es[i].1) && es[
                    i].1.len() > 0,
            None => true,
        },
    decreases s.len() - j,
{
    let k = spec_skip(s, j, 0);
    lemma_skip_props(s, j, 0);
    if k < s.len() && is_key_byte(s[k]) {
        let ke = spec_skip(s, k + 1, 2);
        lemma_skip_props(s, k + 1, 2);
        let a = spec_skip(s, ke, 0);
        lemma_skip_props(s, ke, 0);
        if a < s.len() && s[a] == 61 {
            let v = spec_skip(s, a + 1, 0);
            lemma_skip_props(s, a + 1, 0);
            lemma_scan_value_props(s, v);
            if let Some(e) = spec_scan_value(s, v) {
                let m = spec_skip(s, e, 0);
                lemma_skip_props(s, e, 0);
                let key = s.subrange(k, ke);
                let val = s.subrange(v, e);
                assert(bare_key(key)) by {
                    assert(key[0] == s[k]);
                    assert forall|t: int| 0 <= t < key.len() implies is_key_byte(
                        #[trigger] key[t],
                    ) by {
                        assert(key[t] == s[k + t]);
                    }
                }
                assert(token_scans(val)) by {
                    lemma_scan_value_token(s, v, e);
                }
                if m < s.len() && s[m] == 44 && m + 1 > j {
                    lemma_dep_items_shape(s, m + 1);
                }
            }
        }
    }
}

/// The items of inline-table bytes, at spec level, of an exec item list.
pub open spec fn pairs_view(v: Seq<(Vec<u8>, Vec<u8>)>) -> Seq<(Seq<u8>, Seq<u8>)> {
    Seq::new(v.len(), |i: int| (v[i].0@, v[i].1@))
}

/// Exec reading of inline-table items; mirrors `spec_dep_items`.
fn dep_items(s: &Vec<u8>, j: usize) -> (r: Option<Vec<(Vec<u8>, Vec<u8>)>>)
    requires
        j <= s@.len(),
    ensures
        match r {
            Some(es) => spec_dep_items(s@, j as int) == Some(pairs_view(es@)),
            None => spec_dep_items(s@, j as int) is None,
        },
    decreases s@.len() - j,
{
    let n = s.len();
    let k = skip_class(s, j, 0);
    if k == n || !((48 <= s[k] && s[k] <= 57) || (65 <= s[k] && s[k] <= 90) || (97 <= s[k] && s[k]
        <= 122) || s[k] == 45 || s[k] == 95) {
        return None;
    }
    let ke = skip_class(s, k + 1, 2);
    let a = skip_class(s, ke, 0);
    if a == n || s[a] != 61 {
        return None;
    }
    let v = skip_class(s, a + 1, 0);
    proof {
        lemma_scan_value_props(s@, v as int);
    }
    let e = match scan_value(s, v) {
        None => {
            return None;
        },
        Some(e) => e,
    };
    let m = skip_class(s, e, 0);
    if m == n {
        return None;
    }
    if s[m] == 125 {
        if m == n - 1 {
            let mut out: Vec<(Vec<u8>, Vec<u8>)> = Vec::new();
            out.push((copy_range(s, k, ke), copy_range(s, v, e)));
            proof {
                assert(pairs_view(out@) =~= seq![
                    (s@.subrange(k as int, ke as int), s@.subrange(v as int, e as int)),
                ]);
            }
            Some(out)
        } else {
            None
        }
    } else if s[m] == 44 {
        if m + 1 <= j {
            return None;
        }
        match dep_items(s, m + 1) {
            None => None,
            Some(rest) => {
                let mut out = rest;
                out.insert(0, (copy_range(s, k, ke), copy_range(s, v, e)));
                proof {
                    assert(pairs_view(out@) =~= seq![
                        (s@.subrange(k as int, ke as int), s@.subrange(v as int, e as int)),
                    ] + pairs_view(rest@));
                }
                Some(out)
            },
        }
    } else {
        None
    }
}

/// Exec reading of a whole inline table; mirrors `spec_dep_entries`.
pub fn dep_entries(s: &Vec<u8>) -> (r: Option<Vec<(Vec<u8>, Vec<u8>)>>)
    ensures
        match r {
            Some(es) => spec_dep_entries(s@) == Some(pairs_view(es@)),
            None => spec_dep_entries(s@) is None,
        },
{
    let n = s.len();
    if n < 2 || s[0] != 123 || s[n - 1] != 125 {
        return None;
    }
    let k = skip_class(s, 1, 0);
    if k == n - 1 {
        let out: Vec<(Vec<u8>, Vec<u8>)> = Vec::new();
        proof {
            assert(pairs_view(out@) =~= Seq::<(Seq<u8>, Seq<u8>)>::empty());
        }
        return Some(out);
    }
    dep_items(s, 1)
}

// ---------------------------------------------------------------------------
// Rebuilding the table
// ---------------------------------------------------------------------------

/// `vt` between double quotes.
pub open spec fn quoted(vt: Seq<u8>) -> Seq<u8> {
    seq![34u8] + vt + seq![34u8]
}

/// Some item is the `version` key.
pub open spec fn spec_has_key(es: Seq<(Seq<u8>, Seq<u8>)>, key: Seq<u8>) -> bool {
    exists|i: int| 0 <= i < es.len() && (#[trigger] es[i]).0 == key
}

/// The rebuilt item list: every `version` value replaced by the quoted
/// new text; the key appended when it was absent; nothing else touched.
pub open spec fn spec_rebuild_entries(es: Seq<(Seq<u8>, Seq<u8>)>, vt: Seq<u8>) -> Seq<
    (Seq<u8>, Seq<u8>),
> {
    let mapped = es.map_values(
        |e: (Seq<u8>, Seq<u8>)|
            if e.0 == spec_word_version() {
                (e.0, quoted(vt))
            } else {
                e
            },
    );
    if spec_has_key(es, spec_word_version()) {
        mapped
    } else {
        mapped.push((spec_word_version(), quoted(vt)))
    }
}

/// One rendered item: `key = value`.
pub open spec fn spec_render_item(e: (Seq<u8>, Seq<u8>)) -> Seq<u8> {
    e.0 + seq![32u8, 61, 32] + e.1
}

/// Items joined by `, `.
pub open spec fn spec_render_items(es: Seq<(Seq<u8>, Seq<u8>)>) -> Seq<u8>
    decreases es.len(),
{
    if es.len() == 0 {
        Seq::empty()
    } else if es.len() == 1 {
        spec_render_item(es[0])
    } else {
        spec_render_item(es[0]) + seq![44u8, 32] + spec_render_items(es.drop_first())
    }
}

/// The rendered inline table: `{ items }`, or `{}` for no items.
pub open spec fn spec_render_inline(es: Seq<(Seq<u8>, Seq<u8>)>) -> Seq<u8> {
    if es.len() == 0 {
        seq![123u8, 125]
    } else {
        seq![123u8, 32] + spec_render_items(es) + seq![32u8, 125]
    }
}

/// Appending an item appends its rendering after a separator.
proof fn lemma_render_items_push(es: Seq<(Seq<u8>, Seq<u8>)>, x: (Seq<u8>, Seq<u8>))
    ensures
        spec_render_items(es.push(x)) == if es.len() == 0 {
            spec_render_item(x)
        } else {
            spec_render_items(es) + seq![44u8, 32] + spec_render_item(x)
        },
    decreases es.len(),
{
    if es.len() == 0 {
        assert(es.push(x)[0] == x);
        assert(spec_render_items(es.push(x)) == spec_render_item(x));
    } else {
        lemma_render_items_push(es.drop_first(), x);
        assert(es.push(x).drop_first() =~= es.drop_first().push(x));
        assert(es.push(x)[0] == es[0]);
        if es.len() == 1 {
            assert(es.drop_first().len() == 0);
            assert(spec_render_items(es.drop_first()) == Seq::<u8>::empty());
            assert(spec_render_items(es) == spec_render_item(es[0]));
            assert(spec_render_items(es.push(x)) == spec_render_item(es[0]) + seq![44u8, 32]
                + spec_render_item(x));
        } else {
            assert(spec_render_items(es) + seq![44u8, 32] + spec_render_item(x) =~= spec_render_item(
                es[0],
            ) + seq![44u8, 32] + (spec_render_items(es.drop_first()) + seq![44u8, 32]
                + spec_render_item(x)));
        }
    }
}

/// Exec rebuild and render of the item list with the new version text.
/// Returns the new inline-table bytes and whether a `path` key stands
/// without a `version` key.
#[verifier::rlimit(80)]
fn rebuild_inline(es: &Vec<(Vec<u8>, Vec<u8>)>, vt: &Vec<u8>) -> (r: (Vec<u8>, bool))
    requires
        plain_str_text(vt@),
        forall|i: int|
            0 <= i < es@.len() ==> bare_key((#[trigger] es@[i]).0@) && token_scans(es@[i].1@),
    ensures
        r.0@ == spec_render_inline(spec_rebuild_entries(pairs_view(es@), vt@)),
        r.0@.len() >= 1 && r.0@[0] == 123,
        spec_scan_group(r.0@, 1, 125) == Some(r.0@.len() as int),
        r.1 == (spec_has_key(pairs_view(es@), spec_word_path()) && !spec_has_key(
            pairs_view(es@),
            spec_word_version(),
        )),
{
    let version = word_version();
    let path = word_path();
    let mut has_version = false;
    let mut has_path = false;
    let mut i: usize = 0;
    while i < es.len()
        invariant
            0 <= i <= es@.len(),
            has_version == spec_has_key(pairs_view(es@).take(i as int), spec_word_version()),
            has_path == spec_has_key(pairs_view(es@).take(i as int), spec_word_path()),
            version@ == spec_word_version(),
            path@ == spec_word_path(),
        decreases es@.len() - i,
    {
        if eq_bytes(&es[i].0, &version) {
            has_version = true;
        }
        if eq_bytes(&es[i].0, &path) {
            has_path = true;
        }
        i = i + 1;
        proof {
            let pv = pairs_view(es@);
            assert(pv.take(i as int) =~= pv.take(i - 1).push(pv[i - 1]));
            assert(pv[i - 1] == (es@[i - 1].0@, es@[i - 1].1@));
            if es@[i - 1].0@ == spec_word_version() {
                assert(pv.take(i as int)[i - 1].0 == spec_word_version());
                assert(spec_has_key(pv.take(i as int), spec_word_version()));
            }
            if spec_has_key(pv.take(i - 1), spec_word_version()) {
                let w = choose|t: int|
                    0 <= t < i - 1 && (#[trigger] pv.take(i - 1)[t]).0 == spec_word_version();
                assert(pv.take(i as int)[w] == pv.take(i - 1)[w]);
                assert(spec_has_key(pv.take(i as int), spec_word_version()));
            }
            if spec_has_key(pv.take(i as int), spec_word_version()) {
                let w = choose|t: int|
                    0 <= t < i && (#[trigger] pv.take(i as int)[t]).0 == spec_word_version();
                if w < i - 1 {
                    assert(pv.take(i - 1)[w] == pv.take(i as int)[w]);
                    assert(spec_has_key(pv.take(i - 1), spec_word_version()));
                } else {
                    assert(pv[i - 1].0 == spec_word_version());
                }
            }
            if es@[i - 1].0@ == spec_word_path() {
                assert(pv.take(i as int)[i - 1].0 == spec_word_path());
                assert(spec_has_key(pv.take(i as int), spec_word_path()));
            }
            if spec_has_key(pv.take(i - 1), spec_word_path()) {
                let w = choose|t: int|
                    0 <= t < i - 1 && (#[trigger] pv.take(i - 1)[t]).0 == spec_word_path();
                assert(pv.take(i as int)[w] == pv.take(i - 1)[w]);
                assert(spec_has_key(pv.take(i as int), spec_word_path()));
            }
            if spec_has_key(pv.take(i as int), spec_word_path()) {
                let w = choose|t: int|
                    0 <= t < i && (#[trigger] pv.take(i as int)[t]).0 == spec_word_path();
                if w < i - 1 {
                    assert(pv.take(i - 1)[w] == pv.take(i as int)[w]);
                    assert(spec_has_key(pv.take(i - 1), spec_word_path()));
                } else {
                    assert(pv[i - 1].0 == spec_word_path());
                }
            }
        }
    }
    proof {
        assert(pairs_view(es@).take(es@.len() as int) =~= pairs_view(es@));
    }
    let ghost rebuilt = spec_rebuild_entries(pairs_view(es@), vt@);
    let mut out: Vec<u8> = Vec::new();
    out.push(123);
    if es.len() == 0 {
        // no items at all: the rebuilt table holds just the version
        out.push(32);
        out.push(118);
        out.push(101);
        out.push(114);
        out.push(115);
        out.push(105);
        out.push(111);
        out.push(110);
        out.push(32);
        out.push(61);
        out.push(32);
        out.push(34);
        let mut t: usize = 0;
        while t < vt.len()
            invariant
                0 <= t <= vt@.len(),
                plain_str_text(vt@),
                out@ == seq![123u8, 32] + spec_word_version() + seq![32u8, 61, 32, 34]
                    + vt@.subrange(0, t as int),
            decreases vt@.len() - t,
        {
            out.push(vt[t]);
            t = t + 1;
            proof {
                assert(out@ =~= seq![123u8, 32] + spec_word_version() + seq![32u8, 61, 32, 34]
                    + vt@.subrange(0, t as int));
            }
        }
        out.push(34);
        out.push(32);
        out.push(125);
        proof {
            assert(vt@.subrange(0, vt@.len() as int) =~= vt@);
            assert(rebuilt =~= Seq::<(Seq<u8>, Seq<u8>)>::empty().push(
                (spec_word_version(), quoted(vt@)),
            ));
            assert(rebuilt.len() == 1);
            assert(rebuilt[0] == (spec_word_version(), quoted(vt@)));
            assert(spec_render_items(rebuilt) == spec_render_item(rebuilt[0]));
            assert(out@ =~= spec_render_inline(rebuilt));
            lemma_rebuilt_items_wf(pairs_view(es@), vt@);
            lemma_render_inline_scans(rebuilt);
        }
        return (out, false);
    }
    out.push(32);
    let ghost pv = pairs_view(es@);
    let mut i: usize = 0;
    while i < es.len()
        invariant
            0 <= i <= es@.len(),
            es@.len() > 0,
            pv == pairs_view(es@),
            rebuilt == spec_rebuild_entries(pv, vt@),
            plain_str_text(vt@),
            version@ == spec_word_version(),
            forall|t: int|
                0 <= t < es@.len() ==> bare_key((#[trigger] es@[t]).0@) && token_scans(
                    es@[t].1@,
                ),
            rebuilt.len() >= es@.len(),
            forall|t: int| 0 <= t < es@.len() ==> rebuilt[t] == spec_map_one(pv[t], vt@),
            out@ == seq![123u8, 32] + spec_render_items(rebuilt.take(i as int)),
        decreases es@.len() - i,
    {
        if i > 0 {
            out.push(44);
            out.push(32);
        }
        // the key
        let mut t: usize = 0;
        let ghost mark = out@;
        while t < es[i].0.len()
            invariant
                0 <= i < es@.len(),
                0 <= t <= es@[i as int].0@.len(),
                out@ == mark + es@[i as int].0@.subrange(0, t as int),
            decreases es@[i as int].0@.len() - t,
        {
            let b = es[i].0[t];
            out.push(b);
            t = t + 1;
            proof {
                assert(out@ =~= mark + es@[i as int].0@.subrange(0, t as int));
            }
        }
        proof {
            assert(es@[i as int].0@.subrange(0, es@[i as int].0@.len() as int) =~= es@[
                i as int].0@);
        }
        out.push(32);
        out.push(61);
        out.push(32);
        // the value: kept verbatim, or the quoted new text for `version`
        if eq_bytes(&es[i].0, &version) {
            out.push(34);
            let mut t: usize = 0;
            let ghost mark2 = out@;
            while t < vt.len()
                invariant
                    0 <= t <= vt@.len(),
                    out@ == mark2 + vt@.subrange(0, t as int),
                decreases vt@.len() - t,
            {
                out.push(vt[t]);
                t = t + 1;
                proof {
                    assert(out@ =~= mark2 + vt@.subrange(0, t as int));
                }
            }
            out.push(34);
            proof {
                assert(vt@.subrange(0, vt@.len() as int) =~= vt@);
            }
        } else {
            let mut t: usize = 0;
            let ghost mark2 = out@;
            while t < es[i].1.len()
                invariant
                    0 <= i < es@.len(),
                    0 <= t <= es@[i as int].1@.len(),
                    out@ == mark2 + es@[i as int].1@.subrange(0, t as int),
                decreases es@[i as int].1@.len() - t,
            {
                let b = es[i].1[t];
                out.push(b);
                t = t + 1;
                proof {
                    assert(out@ =~= mark2 + es@[i as int].1@.subrange(0, t as int));
                }
            }
            proof {
                assert(es@[i as int].1@.subrange(0, es@[i as int].1@.len() as int) =~= es@[
                    i as int].1@);
            }
        }
        i = i + 1;
        proof {
            assert(rebuilt.take(i as int) =~= rebuilt.take(i - 1).push(rebuilt[i - 1]));
            lemma_render_items_push(rebuilt.take(i - 1), rebuilt[i - 1]);
            assert(rebuilt[i - 1] == spec_map_one(pv[i - 1], vt@));
            assert(pv[i - 1].0 == es@[i - 1].0@ && pv[i - 1].1 == es@[i - 1].1@);
            assert(out@ =~= seq![123u8, 32] + spec_render_items(rebuilt.take(i as int)));
        }
    }
    // close, appending the version when none was present
    if !has_version {
        out.push(44);
        out.push(32);
        out.push(118);
        out.push(101);
        out.push(114);
        out.push(115);
        out.push(105);
        out.push(111);
        out.push(110);
        out.push(32);
        out.push(61);
        out.push(32);
        out.push(34);
        let mut t: usize = 0;
        let ghost mark3 = out@;
        while t < vt.len()
            invariant
                0 <= t <= vt@.len(),
                out@ == mark3 + vt@.subrange(0, t as int),
            decreases vt@.len() - t,
        {
            out.push(vt[t]);
            t = t + 1;
            proof {
                assert(out@ =~= mark3 + vt@.subrange(0, t as int));
            }
        }
        out.push(34);
        proof {
            assert(vt@.subrange(0, vt@.len() as int) =~= vt@);
            let mapped = pv.map_values(
                |e: (Seq<u8>, Seq<u8>)|
                    if e.0 == spec_word_version() {
                        (e.0, quoted(vt@))
                    } else {
                        e
                    },
            );
            assert(rebuilt.take(es@.len() as int) =~= mapped);
            assert(rebuilt =~= mapped.push((spec_word_version(), quoted(vt@))));
            lemma_render_items_push(mapped, (spec_word_version(), quoted(vt@)));
            assert(out@ =~= seq![123u8, 32] + spec_render_items(rebuilt));
        }
    } else {
        proof {
            assert(rebuilt.take(es@.len() as int) =~= rebuilt);
        }
    }
    out.push(32);
    out.push(125);
    proof {
        assert(out@ =~= spec_render_inline(rebuilt));
        lemma_rebuilt_items_wf(pv, vt@);
        lemma_render_inline_scans(rebuilt);
    }
    (out, has_path && !has_version)
}

/// The rebuilt item list again has bare keys and self-scanning values.
proof fn lemma_rebuilt_items_wf(src: Seq<(Seq<u8>, Seq<u8>)>, vt: Seq<u8>)
    requires
        plain_str_text(vt),
        forall|t: int| 0 <= t < src.len() ==> bare_key((#[trigger] src[t]).0) && token_scans(
            src[t].1,
        ),
    ensures
        forall|t: int|
            0 <= t < spec_rebuild_entries(src, vt).len() ==> bare_key(
                (#[trigger] spec_rebuild_entries(src, vt)[t]).0,
            ) && token_scans(spec_rebuild_entries(src, vt)[t].1),
{
    let es = spec_rebuild_entries(src, vt);
    lemma_quoted_token(vt);
    assert(bare_key(spec_word_version())) by {
        let w = spec_word_version();
        assert(w[0] == 118 && w[1] == 101 && w[2] == 114 && w[3] == 115 && w[4] == 105 && w[5]
            == 111 && w[6] == 110);
        assert forall|m: int| 0 <= m < w.len() implies is_key_byte(#[trigger] w[m]) by {}
    }
    assert forall|t: int| 0 <= t < es.len() implies bare_key((#[trigger] es[t]).0) && token_scans(
        es[t].1,
    ) by {
        if t < src.len() {
            assert(es[t] == spec_map_one(src[t], vt));
        } else {
            assert(es[t] == (spec_word_version(), quoted(vt)));
        }
    }
}

/// The per-item rebuild step.
pub open spec fn spec_map_one(e: (Seq<u8>, Seq<u8>), vt: Seq<u8>) -> (Seq<u8>, Seq<u8>) {
    if e.0 == spec_word_version() {
        (e.0, quoted(vt))
    } else {
        e
    }
}

/// A quoted plain text scans as one complete string token.
proof fn lemma_quoted_token(vt: Seq<u8>)
    requires
        plain_str_text(vt),
    ensures
        token_scans(quoted(vt)),
        quoted(vt).len() == vt.len() + 2,
{
    let t = quoted(vt);
    assert(t[0] == 34);
    lemma_quoted_token_rec(vt, 1);
    if 2 < t.len() && t[1] == t[0] && t[2] == t[0] {
        assert(t[1] == vt[0]);
        assert(false);
    }
}

proof fn lemma_quoted_token_rec(vt: Seq<u8>, j: int)
    requires
        plain_str_text(vt),
        1 <= j <= vt.len() + 1,
    ensures
        spec_scan_string(quoted(vt), 34, j) == Some(vt.len() as int + 2),
    decreases vt.len() + 1 - j,
{
    let t = quoted(vt);
    if j == vt.len() + 1 {
        assert(t[j] == 34);
    } else {
        assert(t[j] == vt[j - 1]);
        lemma_quoted_token_rec(vt, j + 1);
    }
}

/// Scanning rendered items: from `j`, the text reads as the item list
/// followed by a space and the closing brace, and the group scan lands
/// exactly at the end.
proof fn lemma_render_items_scan(s: Seq<u8>, j: int, es: Seq<(Seq<u8>, Seq<u8>)>)
    requires
        0 <= j <= s.len(),
        s.subrange(j, s.len() as int) == spec_render_items(es) + seq![32u8, 125],
        forall|i: int|
            0 <= i < es.len() ==> bare_key((#[trigger] es[i]).0) && token_scans(es[i].1),
    ensures
        spec_scan_group(s, j, 125) == Some(s.len() as int),
    decreases es.len(),
{
    let tail = s.subrange(j, s.len() as int);
    let ril = spec_render_items(es);
    assert(tail.len() == ril.len() + 2);
    if es.len() == 0 {
        assert(tail.len() == 2);
        assert(s[j] == tail[0] && s[j] == 32);
        assert(s[j + 1] == tail[1] && s[j + 1] == 125);
        lemma_scan_group_plain_run(s, j, j + 1, 125);
    } else {
        let key = es[0].0;
        let val = es[0].1;
        let it = spec_render_item(es[0]);
        assert(bare_key(key) && token_scans(val));
        assert(val.len() >= 1);
        let jk = j + key.len();
        let jv = jk + 3;
        let je = jv + val.len();
        assert(it.len() == key.len() + 3 + val.len());
        let ghost rest = spec_render_items(es.drop_first());
        if es.len() == 1 {
            assert(ril == it);
        } else {
            assert(ril == it + seq![44u8, 32] + rest);
            assert(ril.len() == it.len() + 2 + rest.len());
        }
        assert(je - j == it.len() && it.len() <= ril.len());
        assert(je + 2 <= s.len());
        assert forall|x: int| 0 <= x < it.len() implies tail[x] == it[x] by {}
        // the key and the ` = ` around the equals sign step through plainly
        assert forall|m: int| j <= m < jv implies group_plain(#[trigger] s[m], 125) by {
            assert(s[m] == tail[m - j]);
            assert(tail[m - j] == it[m - j]);
            if m < jk {
                assert(it[m - j] == key[m - j]);
                assert(is_key_byte(key[m - j]));
            } else {
                assert(it[m - j] == seq![32u8, 61, 32][m - jk]);
            }
        }
        lemma_scan_group_plain_run(s, j, jv, 125);
        // the value is one complete token
        assert(s.subrange(jv, je) =~= val) by {
            assert forall|y: int| 0 <= y < val.len() implies s[jv + y] == val[y] by {
                assert(s[jv + y] == tail[jv + y - j]);
                assert(tail[jv + y - j] == it[jv + y - j]);
            }
        }
        // the byte after the value is a separator, never a quote
        if es.len() == 1 {
            assert(s[je] == tail[je - j] && tail[je - j] == 32);
            assert(s[je + 1] == tail[je + 1 - j] && tail[je + 1 - j] == 125);
        } else {
            assert(s[je] == tail[je - j] && tail[je - j] == 44);
            assert(s[je + 1] == tail[je + 1 - j] && tail[je + 1 - j] == 32);
        }
        lemma_scan_group_over_token(s, jv, je, 125);
        if es.len() == 1 {
            lemma_scan_group_plain_run(s, je, je + 1, 125);
            assert(je + 2 == s.len());
        } else {
            lemma_scan_group_plain_run(s, je, je + 2, 125);
            assert(s.subrange(je + 2, s.len() as int) =~= rest + seq![32u8, 125]) by {
                assert forall|y: int| 0 <= y < rest.len() + 2 implies s[je + 2 + y] == (rest
                    + seq![32u8, 125])[y] by {
                    assert(s[je + 2 + y] == tail[je + 2 + y - j]);
                }
            }
            assert forall|i: int|
                0 <= i < es.drop_first().len() implies bare_key(
                (#[trigger] es.drop_first()[i]).0,
            ) && token_scans(es.drop_first()[i].1) by {
                assert(es.drop_first()[i] == es[i + 1]);
            }
            lemma_render_items_scan(s, je + 2, es.drop_first());
        }
    }
}

/// The rendered inline table scans as one complete table token.
proof fn lemma_render_inline_scans(es: Seq<(Seq<u8>, Seq<u8>)>)
    requires
        forall|i: int|
            0 <= i < es.len() ==> bare_key((#[trigger] es[i]).0) && token_scans(es[i].1),
    ensures
        spec_render_inline(es).len() >= 2,
        spec_render_inline(es)[0] == 123,
        spec_scan_group(spec_render_inline(es), 1, 125) == Some(spec_render_inline(es).len() as int),
    decreases es.len(),
{
    let r = spec_render_inline(es);
    if es.len() == 0 {
        assert(r[1] == 125);
    } else {
        assert(r.subrange(2, r.len() as int) =~= spec_render_items(es) + seq![32u8, 125]);
        assert(r[1] == 32 && group_plain(32u8, 125));
        lemma_scan_group_plain_run(r, 1, 2, 125);
        lemma_render_items_scan(r, 2, es);
    }
}

// ---------------------------------------------------------------------------
// Rewriting and inserting dependency entries
// ---------------------------------------------------------------------------

/// The table-like value has a `path` key but no `version` key: the
/// caller owes the user a warning before the version is set anyway.
pub open spec fn spec_dep_path_warn(v: TomlValue) -> bool {
    match v {
        TomlValue::Inline { raw } => match spec_dep_entries(raw@) {
            Some(es) => spec_has_key(es, spec_word_path()) && !spec_has_key(
                es,
                spec_word_version(),
            ),
            None => false,
        },
        _ => false,
    }
}

/// How a dependency value is rewritten: a bare string becomes the quoted
/// new version; a readable inline table is rebuilt with every sibling
/// key's value verbatim and `version` set; anything else is coerced to
/// an inline table holding only the version.
pub open spec fn dep_value_rewritten(a: TomlValue, b: TomlValue, vt: Seq<u8>) -> bool {
    match a {
        TomlValue::Str { .. } => match b {
            TomlValue::Str { quote, inner } => quote == 34 && inner@ == vt,
            _ => false,
        },
        TomlValue::MlStr { .. } => match b {
            TomlValue::Str { quote, inner } => quote == 34 && inner@ == vt,
            _ => false,
        },
        TomlValue::Arr { .. } => match b {
            TomlValue::Inline { raw: r2 } => r2@ == spec_render_inline(
                seq![(spec_word_version(), quoted(vt))],
            ),
            _ => false,
        },
        TomlValue::Inline { raw } => match b {
            TomlValue::Inline { raw: r2 } => r2@ == (match spec_dep_entries(raw@) {
                Some(es) => spec_render_inline(spec_rebuild_entries(es, vt)),
                None => spec_render_inline(seq![(spec_word_version(), quoted(vt))]),
            }),
            _ => false,
        },
        TomlValue::Other { .. } => match b {
            TomlValue::Inline { raw: r2 } => r2@ == spec_render_inline(
                seq![(spec_word_version(), quoted(vt))],
            ),
            _ => false,
        },
    }
}

/// `b` is `a` with only its value rewritten as a dependency update:
/// indent, key, spacing and trailing comment kept.
pub open spec fn dep_entry_rewritten(a: TomlLine, b: TomlLine, vt: Seq<u8>) -> bool {
    match (a, b) {
        (TomlLine::Entry(x), TomlLine::Entry(y)) => {
            &&& y.indent@ == x.indent@
            &&& y.key@ == x.key@
            &&& y.path.deep_view() == x.path.deep_view()
            &&& y.eq@ == x.eq@
            &&& y.rest@ == x.rest@
            &&& dep_value_rewritten(x.value, y.value, vt)
        },
        _ => false,
    }
}

/// Rewrite one dependency value. Returns the new value and whether the
/// old one had `path` without `version`.
fn rewrite_dep_value(v: &TomlValue, vt: &Vec<u8>) -> (r: (TomlValue, bool))
    requires
        value_wf(*v),
        plain_str_text(vt@),
    ensures
        value_wf(r.0),
        dep_value_rewritten(*v, r.0, vt@),
        r.1 == spec_dep_path_warn(*v),
{
    match v {
        TomlValue::Str { .. } => {
            proof {
                lemma_plain_str_inner_ok(vt@);
            }
            (TomlValue::Str { quote: 34, inner: clone_bytes(vt) }, false)
        },
        TomlValue::Inline { raw } => {
            match dep_entries(raw) {
                Some(es) => {
                    proof {
                        let pv = pairs_view(es@);
                        if pv.len() > 0 {
                            lemma_dep_items_shape(raw@, 1);
                            assert(spec_dep_items(raw@, 1) == Some(pv));
                        }
                        assert forall|i: int| 0 <= i < es@.len() implies bare_key(
                            (#[trigger] es@[i]).0@,
                        ) && token_scans(es@[i].1@) by {
                            let sv = spec_dep_items(raw@, 1)->Some_0;
                            assert(sv == pv);
                            assert(bare_key((sv[i]).0) && token_scans(sv[i].1));
                            assert(pv[i] == (es@[i].0@, es@[i].1@));
                        }
                    }
                    let (newraw, warn) = rebuild_inline(&es, vt);
                    (TomlValue::Inline { raw: newraw }, warn)
                },
                None => {
                    let empty: Vec<(Vec<u8>, Vec<u8>)> = Vec::new();
                    proof {
                        assert(pairs_view(empty@) =~= Seq::<(Seq<u8>, Seq<u8>)>::empty());
                        assert(spec_rebuild_entries(pairs_view(empty@), vt@) =~= seq![
                            (spec_word_version(), quoted(vt@)),
                        ]);
                    }
                    let (newraw, _) = rebuild_inline(&empty, vt);
                    (TomlValue::Inline { raw: newraw }, false)
                },
            }
        },
        TomlValue::MlStr { .. } => {
            proof {
                lemma_plain_str_inner_ok(vt@);
            }
            (TomlValue::Str { quote: 34, inner: clone_bytes(vt) }, false)
        },
        TomlValue::Arr { .. } => {
            let empty: Vec<(Vec<u8>, Vec<u8>)> = Vec::new();
            proof {
                assert(pairs_view(empty@) =~= Seq::<(Seq<u8>, Seq<u8>)>::empty());
                assert(spec_rebuild_entries(pairs_view(empty@), vt@) =~= seq![
                    (spec_word_version(), quoted(vt@)),
                ]);
            }
            let (newraw, _) = rebuild_inline(&empty, vt);
            (TomlValue::Inline { raw: newraw }, false)
        },
        TomlValue::Other { .. } => {
            let empty: Vec<(Vec<u8>, Vec<u8>)> = Vec::new();
            proof {
                assert(pairs_view(empty@) =~= Seq::<(Seq<u8>, Seq<u8>)>::empty());
                assert(spec_rebuild_entries(pairs_view(empty@), vt@) =~= seq![
                    (spec_word_version(), quoted(vt@)),
                ]);
            }
            let (newraw, _) = rebuild_inline(&empty, vt);
            (TomlValue::Inline { raw: newraw }, false)
        },
    }
}

/// First table header at or after `i`, or the end of the document.
pub open spec fn spec_section_end(lines: Seq<TomlLine>, i: int) -> int
    decreases lines.len() - i,
{
    if i < 0 || i >= lines.len() {
        lines.len() as int
    } else if lines[i] is Table {
        i
    } else {
        spec_section_end(lines, i + 1)
    }
}

fn section_end(d: &TomlDoc, from: usize) -> (r: usize)
    requires
        from <= d.lines@.len(),
    ensures
        r as int == spec_section_end(d.lines@, from as int),
        from <= r <= d.lines@.len(),
{
    let n = d.lines.len();
    let mut i = from;
    while i < n
        invariant
            from <= i <= n == d.lines@.len(),
            spec_section_end(d.lines@, from as int) == spec_section_end(d.lines@, i as int),
        decreases n - i,
    {
        match &d.lines[i] {
            TomlLine::Table(_) => {
                return i;
            },
            _ => {},
        }
        i = i + 1;
    }
    n
}

/// Walk back over blank lines from `e`, not below `lo`.
pub open spec fn spec_back_blanks(lines: Seq<TomlLine>, lo: int, e: int) -> int
    decreases e,
{
    if e <= lo || e < 1 || e > lines.len() {
        e
    } else if lines[e - 1] is Blank {
        spec_back_blanks(lines, lo, e - 1)
    } else {
        e
    }
}

fn back_blanks(d: &TomlDoc, lo: usize, e: usize) -> (r: usize)
    requires
        lo <= e <= d.lines@.len(),
    ensures
        r as int == spec_back_blanks(d.lines@, lo as int, e as int),
        lo <= r <= e,
{
    let mut i = e;
    while i > lo
        invariant
            lo <= i <= e <= d.lines@.len(),
            spec_back_blanks(d.lines@, lo as int, e as int) == spec_back_blanks(
                d.lines@,
                lo as int,
                i as int,
            ),
        decreases i,
    {
        match &d.lines[i - 1] {
            TomlLine::Blank { .. } => {
                i = i - 1;
            },
            _ => {
                return i;
            },
        }
    }
    i
}

/// Where a new entry joins the section whose header stands at `h`:
/// after the section's last entry, before its trailing blank lines.
pub open spec fn spec_insert_pos(lines: Seq<TomlLine>, h: int) -> int {
    spec_back_blanks(lines, h + 1, spec_section_end(lines, h + 1))
}

/// The two values are of the same kind with the same bytes.
pub open spec fn value_like(a: TomlValue, b: TomlValue) -> bool {
    match (a, b) {
        (TomlValue::Str { quote: q1, inner: i1 }, TomlValue::Str { quote: q2, inner: i2 }) => q1
            == q2 && i1@ == i2@,
        (TomlValue::MlStr { raw: r1 }, TomlValue::MlStr { raw: r2 }) => r1@ == r2@,
        (TomlValue::Arr { raw: r1 }, TomlValue::Arr { raw: r2 }) => r1@ == r2@,
        (TomlValue::Inline { raw: r1 }, TomlValue::Inline { raw: r2 }) => r1@ == r2@,
        (TomlValue::Other { raw: r1 }, TomlValue::Other { raw: r2 }) => r1@ == r2@,
        _ => false,
    }
}

/// `b` is `a` with one newline appended to its trailing bytes; nothing
/// else about the line changes.
pub open spec fn line_terminated(a: TomlLine, b: TomlLine) -> bool {
    match (a, b) {
        (TomlLine::Blank { raw: x }, TomlLine::Blank { raw: y }) => y@ == x@ + seq![10u8],
        (TomlLine::Table(x), TomlLine::Table(y)) => {
            &&& y.raw@ == x.raw@ + seq![10u8]
            &&& y.path.deep_view() == x.path.deep_view()
            &&& y.array == x.array
        },
        (TomlLine::Entry(x), TomlLine::Entry(y)) => {
            &&& y.indent@ == x.indent@
            &&& y.key@ == x.key@
            &&& y.path.deep_view() == x.path.deep_view()
            &&& y.eq@ == x.eq@
            &&& value_like(x.value, y.value)
            &&& y.rest@ == x.rest@ + seq![10u8]
        },
        _ => false,
    }
}

/// Fresh copy of a value token.
fn clone_value(v: &TomlValue) -> (r: TomlValue)
    ensures
        value_like(*v, r),
        value_text(r) == value_text(*v),
        value_wf(*v) ==> value_wf(r),
{
    match v {
        TomlValue::Str { quote, inner } => TomlValue::Str {
            quote: *quote,
            inner: clone_bytes(inner),
        },
        TomlValue::MlStr { raw } => TomlValue::MlStr { raw: clone_bytes(raw) },
        TomlValue::Arr { raw } => TomlValue::Arr { raw: clone_bytes(raw) },
        TomlValue::Inline { raw } => TomlValue::Inline { raw: clone_bytes(raw) },
        TomlValue::Other { raw } => TomlValue::Other { raw: clone_bytes(raw) },
    }
}

/// Append the missing newline to a line that lacks one.
fn terminate_line(l: &TomlLine) -> (r: TomlLine)
    requires
        line_wf(*l),
        !line_ends_nl(*l),
    ensures
        line_wf(r),
        line_terminated(*l, r),
        line_ends_nl(r),
        line_text(r) == line_text(*l) + seq![10u8],
{
    match l {
        TomlLine::Blank { raw } => {
            let mut r2 = clone_bytes(raw);
            r2.push(10);
            proof {
                assert forall|m: int| 0 <= m < raw@.len() implies #[trigger] raw@[m] != 10 by {
                    assert(line_text(*l) == raw@);
                }
                lemma_tail_push10(raw@, 0);
                assert(r2@ == raw@.push(10));
                assert(raw@.push(10) =~= raw@ + seq![10u8]);
            }
            TomlLine::Blank { raw: r2 }
        },
        TomlLine::Table(h) => {
            let mut r2 = clone_bytes(&h.raw);
            r2.push(10);
            proof {
                let srw = h.raw@;
                let i0 = spec_skip(srw, 0, 0);
                crate::doc::lemma_skip_props(srw, 0, 0);
                let dbl = i0 + 1 < srw.len() && srw[i0 + 1] == 91;
                if dbl {
                    lemma_header_rec_no_nl(srw, i0 + 2, true);
                } else {
                    lemma_header_rec_no_nl(srw, i0 + 1, false);
                }
                assert forall|m: int| 0 <= m < srw.len() implies #[trigger] srw[m] != 10 by {
                    if m < i0 {
                        assert(crate::doc::is_ws(srw[m]));
                    } else if m == i0 {
                    } else if dbl && m == i0 + 1 {
                    } else {
                        assert(srw[m] == 10 ==> m == srw.len() - 1);
                        assert(line_text(*l) == srw);
                    }
                }
                crate::doc::lemma_header_push10(srw);
                assert(r2@ == srw.push(10));
                assert(srw.push(10) =~= srw + seq![10u8]);
            }
            TomlLine::Table(Header { raw: r2, path: clone_keys(&h.path), array: h.array })
        },
        TomlLine::Entry(kv) => {
            let mut rest2 = clone_bytes(&kv.rest);
            rest2.push(10);
            proof {
                assert forall|m: int| 0 <= m < kv.rest@.len() implies #[trigger] kv.rest@[m]
                    != 10 by {
                    assert(kv.rest@[m] == 10 ==> m == kv.rest@.len() - 1);
                    if kv.rest@.len() > 0 {
                        assert(line_text(*l).last() == kv.rest@.last());
                    }
                }
                lemma_tail_push10(kv.rest@, 0);
                assert(rest2@ == kv.rest@.push(10));
                assert(kv.rest@.push(10) =~= kv.rest@ + seq![10u8]);
            }
            let r = TomlLine::Entry(
                KeyVal {
                    indent: clone_bytes(&kv.indent),
                    key: clone_bytes(&kv.key),
                    path: clone_keys(&kv.path),
                    eq: clone_bytes(&kv.eq),
                    value: clone_value(&kv.value),
                    rest: rest2,
                },
            );
            proof {
                assert(line_text(r) =~= line_text(*l) + seq![10u8]);
            }
            r
        },
    }
}

/// A freshly inserted `name = "vt"` line, newline-terminated.
pub open spec fn new_dep_line(l: TomlLine, name: Seq<u8>, vt: Seq<u8>) -> bool {
    match l {
        TomlLine::Entry(kv) => {
            &&& kv.indent@ == Seq::<u8>::empty()
            &&& kv.key@ == name
            &&& kv.path.deep_view() == seq![name]
            &&& kv.eq@ == seq![32u8, 61, 32]
            &&& match kv.value {
                TomlValue::Str { quote, inner } => quote == 34 && inner@ == vt,
                _ => false,
            }
            &&& kv.rest@ == seq![10u8]
        },
        _ => false,
    }
}

/// A freshly inserted `[dependencies]` header line.
pub open spec fn dep_header_line(l: TomlLine) -> bool {
    match l {
        TomlLine::Table(h) => {
            &&& !h.array
            &&& h.path.deep_view() == seq![spec_word_dependencies()]
            &&& h.raw@ == seq![91u8] + spec_word_dependencies() + seq![93u8, 10]
        },
        _ => false,
    }
}

/// `lb` is `la` with a new entry for `name` at position `p`; when the
/// new entry lands at the very end after an unterminated line (`fix`),
/// that line first gains its newline so the entry starts its own line.
pub open spec fn lines_with_new_entry(
    la: Seq<TomlLine>,
    lb: Seq<TomlLine>,
    p: int,
    fix: bool,
    name: Seq<u8>,
    vt: Seq<u8>,
) -> bool {
    &&& lb.len() == la.len() + 1
    &&& new_dep_line(lb[p], name, vt)
    &&& forall|m: int| 0 <= m < p && !(fix && m == p - 1) ==> lb[m] == la[m]
    &&& forall|m: int| p + 1 <= m < lb.len() ==> lb[m] == la[m - 1]
    &&& (fix ==> p == la.len() && p > 0 && line_terminated(la[p - 1], lb[p - 1]))
}

/// `lb` is `la` with a whole `[dependencies]` section appended at the
/// end, holding the one new entry; an unterminated last line first
/// gains its newline (`fix`).
pub open spec fn lines_with_new_section(
    la: Seq<TomlLine>,
    lb: Seq<TomlLine>,
    fix: bool,
    name: Seq<u8>,
    vt: Seq<u8>,
) -> bool {
    &&& lb.len() == la.len() + 2
    &&& forall|m: int| 0 <= m < la.len() && !(fix && m == la.len() - 1) ==> lb[m] == la[m]
    &&& (fix ==> la.len() > 0 && line_terminated(la[la.len() - 1], lb[la.len() - 1]))
    &&& dep_header_line(lb[la.len() as int])
    &&& new_dep_line(lb[la.len() as int + 1], name, vt)
}

/// Exec test whether a sound line ends with its newline.
fn line_ends_nl_exec(l: &TomlLine) -> (r: bool)
    requires
        crate::doc::line_wf(*l),
    ensures
        r == crate::doc::line_ends_nl(*l),
{
    match l {
        TomlLine::Blank { raw } => raw.len() > 0 && raw[raw.len() - 1] == 10,
        TomlLine::Table(h) => h.raw.len() > 0 && h.raw[h.raw.len() - 1] == 10,
        TomlLine::Entry(kv) => {
            if kv.rest.len() > 0 {
                proof {
                    assert(line_text(*l).last() == kv.rest@.last());
                }
                kv.rest[kv.rest.len() - 1] == 10
            } else {
                proof {
                    assert(line_text(*l).last() == value_text(kv.value).last());
                    lemma_value_text_last(kv.value);
                }
                false
            }
        },
    }
}

/// A fresh `name = "vt"` line.
fn new_entry_line(name: &Vec<u8>, vt: &Vec<u8>) -> (l: TomlLine)
    requires
        bare_key(name@),
        plain_str_text(vt@),
    ensures
        new_dep_line(l, name@, vt@),
        crate::doc::line_wf(l),
{
    let mut eq: Vec<u8> = Vec::new();
    eq.push(32);
    eq.push(61);
    eq.push(32);
    let mut rest: Vec<u8> = Vec::new();
    rest.push(10);
    proof {
        assert(eq@ =~= seq![32u8, 61, 32]);
        assert(rest@ =~= seq![10u8]);
        assert(crate::doc::eq_shape(eq@)) by {
            crate::doc::lemma_skip_is(eq@, 0, 0, 1);
        }
        assert(crate::doc::tail_ok_from(rest@, 0)) by {
            crate::doc::lemma_skip_is(rest@, 0, 1, 0);
        }
        lemma_plain_str_inner_ok(vt@);
    }
    let key = clone_bytes(name);
    let mut path: Vec<Vec<u8>> = Vec::new();
    path.push(clone_bytes(name));
    proof {
        assert(path.deep_view() =~~= seq![name@]);
        // the bare key reads as the single-segment path covering it all
        crate::doc::lemma_skip_is(key@, 1, 2, key@.len() as int);
        assert(key@.subrange(0, key@.len() as int) =~= key@);
        crate::doc::lemma_skip_is(key@, key@.len() as int, 0, key@.len() as int);
        assert(spec_keypath_at(key@, 0) == Some((seq![key@], key@.len() as int)));
    }
    let kv = KeyVal {
        indent: Vec::new(),
        key,
        path,
        eq,
        value: TomlValue::Str { quote: 34, inner: clone_bytes(vt) },
        rest,
    };
    TomlLine::Entry(kv)
}

/// A fresh `[dependencies]` header line.
fn dep_header() -> (l: TomlLine)
    ensures
        dep_header_line(l),
        crate::doc::line_wf(l),
{
    let word = crate::words::word_dependencies();
    let mut raw: Vec<u8> = Vec::new();
    raw.push(91);
    let mut t: usize = 0;
    while t < word.len()
        invariant
            0 <= t <= word@.len(),
            word@ == spec_word_dependencies(),
            raw@ == seq![91u8] + word@.subrange(0, t as int),
        decreases word@.len() - t,
    {
        raw.push(word[t]);
        t = t + 1;
        proof {
            assert(raw@ =~= seq![91u8] + word@.subrange(0, t as int));
        }
    }
    raw.push(93);
    raw.push(10);
    let mut path: Vec<Vec<u8>> = Vec::new();
    path.push(word);
    proof {
        assert(spec_word_dependencies().subrange(0, spec_word_dependencies().len() as int)
            =~= spec_word_dependencies());
        assert(raw@ =~= seq![91u8] + spec_word_dependencies() + seq![93u8, 10]);
        assert(path.deep_view() =~~= seq![spec_word_dependencies()]);
        lemma_dep_header_parses(raw@);
    }
    TomlLine::Table(Header { raw, path, array: false })
}

/// The constructed `[dependencies]` line reads back as that header.
proof fn lemma_dep_header_parses(s: Seq<u8>)
    requires
        s == seq![91u8] + spec_word_dependencies() + seq![93u8, 10],
    ensures
        crate::doc::spec_header_keys(s) == Some((seq![spec_word_dependencies()], false)),
{
    let w = spec_word_dependencies();
    assert(s.len() == 15);
    assert(s[0] == 91);
    assert(w[0] == 100 && w[1] == 101 && w[2] == 112 && w[3] == 101 && w[4] == 110 && w[5] == 100
        && w[6] == 101 && w[7] == 110 && w[8] == 99 && w[9] == 105 && w[10] == 101 && w[11] == 115);
    assert forall|m: int| 1 <= m < 13 implies #[trigger] s[m] == w[m - 1] by {}
    assert(s[13] == 93 && s[14] == 10);
    crate::doc::lemma_skip_is(s, 0, 0, 0);
    assert(s[1] == 100);
    crate::doc::lemma_skip_is(s, 1, 0, 1);
    assert forall|m: int| 2 <= m < 13 implies in_class(#[trigger] s[m], 2) by {
        assert(s[m] == w[m - 1]);
    }
    crate::doc::lemma_skip_is(s, 2, 2, 13);
    crate::doc::lemma_skip_is(s, 13, 0, 13);
    assert(crate::doc::tail_ok_from(s, 14)) by {
        crate::doc::lemma_skip_is(s, 14, 1, 14);
    }
    assert(s.subrange(1, 13) =~= w);
    assert(crate::doc::spec_header_keys_rec(s, 1, false) == Some(seq![w]));
}

/// What a set-dependency request did.
#[derive(Clone, Copy, PartialEq, Eq, Structural, Debug)]
pub enum DepOutcome {
    /// The entry in `[workspace.dependencies]` was rewritten; that match
    /// is final, the root table is left alone.
    UpdatedWorkspace { path_warned: bool },
    /// The entry in the root `[dependencies]` table was rewritten.
    UpdatedRoot { path_warned: bool },
    /// No entry existed: a fresh `name = "version"` line joined the
    /// root `[dependencies]` table.
    Inserted,
    /// Not even the table existed: a `[dependencies]` section with the
    /// one entry was appended at the end.
    InsertedSection,
    /// The dependency is declared through dotted keys (`name.key = …`);
    /// such an entry is left alone rather than doubled by a plain one.
    DottedForm,
}

/// The line is an entry of more than one segment whose first segment is
/// `name`: the dotted form of a dependency declaration.
pub open spec fn is_dotted_entry(l: TomlLine, name: Seq<u8>) -> bool {
    match l {
        TomlLine::Entry(kv) => kv.path.deep_view().len() > 1 && kv.path.deep_view()[0] == name,
        _ => false,
    }
}

/// First dotted entry for `name` at or after `from`, within one section.
pub open spec fn spec_find_dotted(lines: Seq<TomlLine>, name: Seq<u8>, from: int) -> Option<int>
    decreases lines.len() - from,
{
    if from < 0 || from >= lines.len() {
        None
    } else if lines[from] is Table {
        None
    } else if is_dotted_entry(lines[from], name) {
        Some(from)
    } else {
        spec_find_dotted(lines, name, from + 1)
    }
}

/// Some dependencies table declares `name` in dotted form.
pub open spec fn spec_dotted_present(lines: Seq<TomlLine>, name: Seq<u8>) -> bool {
    ||| match spec_find_table(lines, seq![spec_word_workspace(), spec_word_dependencies()], 0) {
        Some(h) => spec_find_dotted(lines, name, h + 1) is Some,
        None => false,
    }
    ||| match spec_find_table(lines, seq![spec_word_dependencies()], 0) {
        Some(h) => spec_find_dotted(lines, name, h + 1) is Some,
        None => false,
    }
}

/// Exec search for a dotted declaration within one section.
fn find_dotted_from(d: &TomlDoc, name: &Vec<u8>, from: usize) -> (r: Option<usize>)
    ensures
        crate::scan::opt_int(r) == spec_find_dotted(d.lines@, name@, from as int),
{
    let n = d.lines.len();
    if from >= n {
        return None;
    }
    let mut i = from;
    while i < n
        invariant
            from <= i <= n == d.lines@.len(),
            spec_find_dotted(d.lines@, name@, from as int) == spec_find_dotted(
                d.lines@,
                name@,
                i as int,
            ),
        decreases n - i,
    {
        match &d.lines[i] {
            TomlLine::Table(_) => {
                return None;
            },
            TomlLine::Entry(kv) => {
                let hit = kv.path.len() > 1 && eq_bytes(&kv.path[0], name);
                proof {
                    assert(kv.path.deep_view().len() == kv.path@.len());
                    assert(kv.path.deep_view().len() > 0 ==> kv.path.deep_view()[0] == kv.path@[
                        0]@);
                }
                if hit {
                    return Some(i);
                }
            },
            TomlLine::Blank { .. } => {},
        }
        i = i + 1;
    }
    None
}

/// The workspace-scoped dependency entry for `name`, if any.
pub open spec fn spec_ws_dep(lines: Seq<TomlLine>, name: Seq<u8>) -> Option<int> {
    spec_table_key(lines, seq![spec_word_workspace(), spec_word_dependencies()], name)
}

/// The root dependency entry for `name`, if any.
pub open spec fn spec_root_dep(lines: Seq<TomlLine>, name: Seq<u8>) -> Option<int> {
    spec_table_key(lines, seq![spec_word_dependencies()], name)
}

/// The root `[dependencies]` header, if any.
pub open spec fn spec_root_dep_table(lines: Seq<TomlLine>) -> Option<int> {
    spec_find_table(lines, seq![spec_word_dependencies()], 0)
}

/// A rebuilt dependency table keeps every sibling key's value verbatim,
/// replaces only `version`, and always ends up carrying `version`.
pub proof fn lemma_rebuild_keeps_siblings(es: Seq<(Seq<u8>, Seq<u8>)>, vt: Seq<u8>)
    ensures
        forall|i: int|
            0 <= i < es.len() && (#[trigger] es[i]).0 != spec_word_version()
                ==> spec_rebuild_entries(es, vt)[i] == es[i],
        forall|i: int|
            0 <= i < es.len() && (#[trigger] es[i]).0 == spec_word_version()
                ==> spec_rebuild_entries(es, vt)[i] == (es[i].0, quoted(vt)),
        spec_has_key(spec_rebuild_entries(es, vt), spec_word_version()),
{
    let rb = spec_rebuild_entries(es, vt);
    if spec_has_key(es, spec_word_version()) {
        let w = choose|t: int|
            0 <= t < es.len() && (#[trigger] es[t]).0 == spec_word_version();
        assert(rb[w].0 == spec_word_version());
        assert(spec_has_key(rb, spec_word_version()));
    } else {
        assert(rb[es.len() as int].0 == spec_word_version());
        assert(spec_has_key(rb, spec_word_version()));
    }
}

/// The whole effect of a set-dependency request, relating the lines
/// before (`la`) and after (`lb`) under the reported outcome.
pub open spec fn dep_set_post(
    la: Seq<TomlLine>,
    lb: Seq<TomlLine>,
    r: DepOutcome,
    name: Seq<u8>,
    vt: Seq<u8>,
) -> bool {
    match r {
        DepOutcome::UpdatedWorkspace { path_warned } => {
            let t = spec_ws_dep(la, name);
            &&& t is Some
            &&& lb.len() == la.len()
            &&& forall|m: int|
                0 <= m < la.len() && m != t->Some_0 ==> lb[m] == #[trigger] la[m]
            &&& dep_entry_rewritten(la[t->Some_0], lb[t->Some_0], vt)
            &&& path_warned == spec_dep_path_warn(la[t->Some_0]->Entry_0.value)
        },
        DepOutcome::UpdatedRoot { path_warned } => {
            let t = spec_root_dep(la, name);
            &&& spec_ws_dep(la, name) is None
            &&& t is Some
            &&& lb.len() == la.len()
            &&& forall|m: int|
                0 <= m < la.len() && m != t->Some_0 ==> lb[m] == #[trigger] la[m]
            &&& dep_entry_rewritten(la[t->Some_0], lb[t->Some_0], vt)
            &&& path_warned == spec_dep_path_warn(la[t->Some_0]->Entry_0.value)
        },
        DepOutcome::Inserted => {
            let h = spec_root_dep_table(la);
            &&& spec_ws_dep(la, name) is None
            &&& spec_root_dep(la, name) is None
            &&& !spec_dotted_present(la, name)
            &&& h is Some
            &&& {
                let p = spec_insert_pos(la, h->Some_0);
                let fix = p == la.len() && p > 0 && !crate::doc::line_ends_nl(la[p - 1]);
                lines_with_new_entry(la, lb, p, fix, name, vt)
            }
        },
        DepOutcome::InsertedSection => {
            &&& spec_ws_dep(la, name) is None
            &&& spec_root_dep(la, name) is None
            &&& !spec_dotted_present(la, name)
            &&& spec_root_dep_table(la) is None
            &&& {
                let fix = la.len() > 0 && !crate::doc::line_ends_nl(la[la.len() - 1]);
                lines_with_new_section(la, lb, fix, name, vt)
            }
        },
        DepOutcome::DottedForm => {
            &&& spec_ws_dep(la, name) is None
            &&& spec_root_dep(la, name) is None
            &&& spec_dotted_present(la, name)
            &&& lb == la
        },
    }
}

/// Set the version of dependency `name` to the string `vt`.
///
/// A match in `[workspace.dependencies]` is final; otherwise the root
/// `[dependencies]` entry is rewritten, or created — together with the
/// table itself when even that is missing. A rewrite touches only the
/// entry's value token; an insertion adds whole lines and moves nothing.
#[verifier::rlimit(100)]
#[verifier::spinoff_prover]
pub fn set_dependency_version(d: &mut TomlDoc, name: &Vec<u8>, vt: &Vec<u8>) -> (r: DepOutcome)
    requires
        doc_wf(*old(d)),
        bare_key(name@),
        plain_str_text(vt@),
    ensures
        doc_wf(*final(d)),
        dep_set_post(old(d).lines@, final(d).lines@, r, name@, vt@),
{
    let mut wsdeps: Vec<Vec<u8>> = Vec::new();
    wsdeps.push(word_workspace());
    wsdeps.push(word_dependencies());
    proof {
        assert(wsdeps.deep_view() =~~= seq![spec_word_workspace(), spec_word_dependencies()]);
    }
    let mut rootdeps: Vec<Vec<u8>> = Vec::new();
    rootdeps.push(word_dependencies());
    proof {
        assert(rootdeps.deep_view() =~~= seq![spec_word_dependencies()]);
        lemma_find_table_props(d.lines@, wsdeps.deep_view(), 0);
        lemma_find_table_props(d.lines@, rootdeps.deep_view(), 0);
    }
    let n = d.lines.len();
    if let Some(h) = find_table(d, &wsdeps, 0) {
        assert(h < n);
        proof {
            lemma_find_key_props(d.lines@, name@, h + 1);
        }
        if let Some(i) = find_key_from(d, name, h + 1) {
            let (nv, warn) = match &d.lines[i] {
                TomlLine::Entry(kv) => rewrite_dep_value(&kv.value, vt),
                _ => {
                    proof {
                        assert(false);
                    }
                    (TomlValue::Str { quote: 34, inner: Vec::new() }, false)
                },
            };
            set_entry_value(d, i, nv);
            return DepOutcome::UpdatedWorkspace { path_warned: warn };
        }
    }
    if let Some(h) = find_table(d, &rootdeps, 0) {
        assert(h < n);
        proof {
            lemma_find_key_props(d.lines@, name@, h + 1);
        }
        if let Some(i) = find_key_from(d, name, h + 1) {
            let (nv, warn) = match &d.lines[i] {
                TomlLine::Entry(kv) => rewrite_dep_value(&kv.value, vt),
                _ => {
                    proof {
                        assert(false);
                    }
                    (TomlValue::Str { quote: 34, inner: Vec::new() }, false)
                },
            };
            set_entry_value(d, i, nv);
            return DepOutcome::UpdatedRoot { path_warned: warn };
        }
        // no entry in either table: a dotted declaration blocks a plain
        // insertion, which would double the dependency
        let ws_dotted = match find_table(d, &wsdeps, 0) {
            Some(hw) => {
                assert(hw < n);
                proof {
                    lemma_find_table_props(d.lines@, wsdeps.deep_view(), 0);
                }
                find_dotted_from(d, name, hw + 1).is_some()
            },
            None => false,
        };
        let root_dotted = find_dotted_from(d, name, h + 1).is_some();
        if ws_dotted || root_dotted {
            return DepOutcome::DottedForm;
        }
        insert_entry_into_section(d, h, name, vt);
        return DepOutcome::Inserted;
    }
    // no table at all: append a fresh section at the end
    let ws_dotted = match find_table(d, &wsdeps, 0) {
        Some(hw) => {
            assert(hw < n);
            proof {
                lemma_find_table_props(d.lines@, wsdeps.deep_view(), 0);
            }
            find_dotted_from(d, name, hw + 1).is_some()
        },
        None => false,
    };
    if ws_dotted {
        return DepOutcome::DottedForm;
    }
    append_dependencies_section(d, name, vt);
    DepOutcome::InsertedSection
}

/// Insert a fresh `name = "vt"` entry into the section headed at `h`,
/// terminating an unterminated last line first when the entry lands at
/// the very end.
#[verifier::rlimit(100)]
#[verifier::spinoff_prover]
fn insert_entry_into_section(d: &mut TomlDoc, h: usize, name: &Vec<u8>, vt: &Vec<u8>)
    requires
        doc_wf(*old(d)),
        h < old(d).lines@.len(),
        bare_key(name@),
        plain_str_text(vt@),
    ensures
        doc_wf(*final(d)),
        ({
            let la = old(d).lines@;
            let p = spec_insert_pos(la, h as int);
            let fix = p == la.len() && p > 0 && !line_ends_nl(la[p - 1]);
            lines_with_new_entry(la, final(d).lines@, p, fix, name@, vt@)
        }),
{
    let n0 = d.lines.len();
    assert(h < n0);
    let e = section_end(d, h + 1);
    let p = back_blanks(d, h + 1, e);
    let nlen = d.lines.len();
    let fix = p == nlen && p > 0 && !line_ends_nl_exec(&d.lines[p - 1]);
    if fix {
        let t = terminate_line(&d.lines[p - 1]);
        d.lines.set(p - 1, t);
    }
    let entry = new_entry_line(name, vt);
    d.lines.insert(p, entry);
    proof {
        let la = old(d).lines@;
        let lb = d.lines@;
        assert forall|m: int| 0 <= m < lb.len() implies crate::doc::line_wf(#[trigger] lb[m]) by {
            if m < p && !(fix && m == p - 1) {
                assert(lb[m] == la[m]);
            } else if m == p || (fix && m == p - 1) {
            } else {
                assert(lb[m] == la[m - 1]);
            }
        }
        assert forall|m: int| 0 <= m < lb.len() - 1 implies crate::doc::line_ends_nl(
            #[trigger] lb[m],
        ) by {
            if m < p && !(fix && m == p - 1) {
                assert(lb[m] == la[m]);
                if m == la.len() - 1 {
                    // the new entry landed at the very end, after a line
                    // that already carried its newline
                    assert(p == la.len());
                    assert(line_ends_nl(la[m]));
                } else {
                    assert(line_ends_nl(la[m]));
                }
            } else if m == p {
                assert(new_dep_line(lb[p as int], name@, vt@));
                assert(line_text(lb[p as int]).last() == 10);
            } else if fix && m == p - 1 {
            } else {
                assert(lb[m] == la[m - 1]);
            }
        }
    }
}

/// Append a fresh `[dependencies]` section with one entry at the very
/// end, terminating an unterminated last line first.
#[verifier::rlimit(100)]
#[verifier::spinoff_prover]
fn append_dependencies_section(d: &mut TomlDoc, name: &Vec<u8>, vt: &Vec<u8>)
    requires
        doc_wf(*old(d)),
        bare_key(name@),
        plain_str_text(vt@),
    ensures
        doc_wf(*final(d)),
        ({
            let la = old(d).lines@;
            let fix = la.len() > 0 && !line_ends_nl(la[la.len() - 1]);
            lines_with_new_section(la, final(d).lines@, fix, name@, vt@)
        }),
{
    let nlen = d.lines.len();
    let fix = nlen > 0 && !line_ends_nl_exec(&d.lines[nlen - 1]);
    if fix {
        let t = terminate_line(&d.lines[nlen - 1]);
        d.lines.set(nlen - 1, t);
    }
    let header = dep_header();
    d.lines.push(header);
    let entry = new_entry_line(name, vt);
    d.lines.push(entry);
    proof {
        let la = old(d).lines@;
        let lb = d.lines@;
        assert forall|m: int| 0 <= m < lb.len() implies crate::doc::line_wf(#[trigger] lb[m]) by {
            if m < la.len() && !(fix && m == la.len() - 1) {
                assert(lb[m] == la[m]);
            }
        }
        assert forall|m: int| 0 <= m < lb.len() - 1 implies crate::doc::line_ends_nl(
            #[trigger] lb[m],
        ) by {
            if m < la.len() && !(fix && m == la.len() - 1) {
                assert(lb[m] == la[m]);
            } else if m == la.len() {
                assert(dep_header_line(lb[m]));
                assert(line_text(lb[m]).last() == 10);
            }
        }
    }
}

} // verus!
