//! The format-preserving document model.
//!
//! A document is a sequence of elements — blank or comment lines, table
//! headers, and key-value entries whose value token may span lines. Every
//! element keeps the exact bytes it was written with, split into just
//! enough structure to locate and rewrite a field. Serializing a document
//! concatenates those bytes back together, so an unedited document
//! reproduces its source exactly.

use vstd::prelude::*;
use crate::scan::{opt_int, spec_find_byte, lemma_find_byte_props, lemma_find_byte_is, find_byte};

verus! {

// ---------------------------------------------------------------------------
// Data model
// ---------------------------------------------------------------------------

/// The value token of a key-value line, kept as written.
pub enum TomlValue {
    /// A quoted string: `quote` is the quote byte (`"` or `'`),
    /// `inner` the bytes between the quotes, escapes untouched.
    Str { quote: u8, inner: Vec<u8> },
    /// A triple-quoted string, quotes included; it may span lines.
    MlStr { raw: Vec<u8> },
    /// An array, brackets included; it may span lines.
    Arr { raw: Vec<u8> },
    /// An inline table, braces included; it may span lines.
    Inline { raw: Vec<u8> },
    /// A bare scalar token: a number, a date, a boolean.
    Other { raw: Vec<u8> },
}

/// A `key = value` entry: the byte ranges concatenate to the element,
/// whose value token may span lines.
pub struct KeyVal {
    /// Leading whitespace.
    pub indent: Vec<u8>,
    /// The key as written: bare or quoted segments, possibly dotted.
    pub key: Vec<u8>,
    /// The logical key path: one element per dotted segment, quotes
    /// stripped.
    pub path: Vec<Vec<u8>>,
    /// From the end of the key to the start of the value: `ws* '=' ws*`.
    pub eq: Vec<u8>,
    pub value: TomlValue,
    /// Everything after the value: whitespace, an optional comment,
    /// and the line terminator if one was present.
    pub rest: Vec<u8>,
}

/// A `[path]` or `[[path]]` line.
pub struct Header {
    /// The full line as written.
    pub raw: Vec<u8>,
    /// The dotted key path inside the brackets.
    pub path: Vec<Vec<u8>>,
    /// Double-bracket (array of tables) form.
    pub array: bool,
}

pub enum TomlLine {
    /// A line holding only whitespace or a comment.
    Blank { raw: Vec<u8> },
    Table(Header),
    Entry(KeyVal),
}

/// A parsed document: lines in order, each carrying its own terminator,
/// so that concatenating the lines gives back the text.
pub struct TomlDoc {
    pub lines: Vec<TomlLine>,
}

// ---------------------------------------------------------------------------
// Byte classes
// ---------------------------------------------------------------------------

/// Inline whitespace: space or tab.
pub open spec fn is_ws(b: u8) -> bool {
    b == 32 || b == 9
}

/// Whitespace tolerated at the end of a line: space, tab or carriage return.
pub open spec fn is_tail_ws(b: u8) -> bool {
    b == 32 || b == 9 || b == 13
}

/// A byte of a bare key: letters, digits, `-`, `_`.
pub open spec fn is_key_byte(b: u8) -> bool {
    (48 <= b <= 57) || (65 <= b <= 90) || (97 <= b <= 122) || b == 45 || b == 95
}

/// A byte of a bare value token: anything but whitespace, line ends,
/// quotes, brackets, braces, comma, equals sign, or the comment mark.
pub open spec fn is_bare_byte(b: u8) -> bool {
    !(is_ws(b) || b == 10 || b == 13 || b == 34 || b == 39 || b == 35 || b == 44 || b == 61 || b
        == 91 || b == 93 || b == 123 || b == 125)
}

/// Byte classes, numbered so that one scanning routine serves them all.
pub open spec fn in_class(b: u8, c: u8) -> bool {
    if c == 0 {
        is_ws(b)
    } else if c == 1 {
        is_tail_ws(b)
    } else if c == 2 {
        is_key_byte(b)
    } else {
        is_bare_byte(b)
    }
}

/// First index at or after `i` whose byte is not in class `c` (or the end).
pub open spec fn spec_skip(s: Seq<u8>, i: int, c: u8) -> int
    decreases s.len() - i,
{
    if i < 0 || i >= s.len() {
        i
    } else if in_class(s[i], c) {
        spec_skip(s, i + 1, c)
    } else {
        i
    }
}

/// Bounds and content of a class skip.
pub proof fn lemma_skip_props(s: Seq<u8>, i: int, c: u8)
    requires
        0 <= i <= s.len(),
    ensures
        i <= spec_skip(s, i, c) <= s.len(),
        forall|k: int| i <= k < spec_skip(s, i, c) ==> in_class(#[trigger] s[k], c),
        spec_skip(s, i, c) < s.len() ==> !in_class(s[spec_skip(s, i, c)], c),
    decreases s.len() - i,
{
    if i < s.len() && in_class(s[i], c) {
        lemma_skip_props(s, i + 1, c);
    }
}

/// A witness index pins the skip result.
pub proof fn lemma_skip_is(s: Seq<u8>, i: int, c: u8, k: int)
    requires
        0 <= i <= k <= s.len(),
        forall|m: int| i <= m < k ==> in_class(#[trigger] s[m], c),
        k < s.len() ==> !in_class(s[k], c),
    ensures
        spec_skip(s, i, c) == k,
    decreases k - i,
{
    if i < k {
        lemma_skip_is(s, i + 1, c, k);
    }
}

/// Exec skip over a byte class.
pub fn skip_class(s: &Vec<u8>, from: usize, c: u8) -> (r: usize)
    requires
        from <= s@.len(),
    ensures
        r as int == spec_skip(s@, from as int, c),
        from <= r <= s@.len(),
{
    let mut i: usize = from;
    while i < s.len()
        invariant
            from <= i <= s@.len(),
            spec_skip(s@, from as int, c) == spec_skip(s@, i as int, c),
        decreases s@.len() - i,
    {
        let b = s[i];
        let hit = if c == 0 {
            b == 32 || b == 9
        } else if c == 1 {
            b == 32 || b == 9 || b == 13
        } else if c == 2 {
            (48 <= b && b <= 57) || (65 <= b && b <= 90) || (97 <= b && b <= 122) || b == 45 || b
                == 95
        } else {
            !((b == 32 || b == 9) || b == 10 || b == 13 || b == 34 || b == 39 || b == 35 || b == 44
                || b == 61 || b == 91 || b == 93 || b == 123 || b == 125)
        };
        if !hit {
            return i;
        }
        i = i + 1;
    }
    i
}

// ---------------------------------------------------------------------------
// Token scanning
// ---------------------------------------------------------------------------

/// End of a quoted string whose opening quote stood at `j - 1`: the index
/// just past the closing quote. Inside double quotes a backslash escapes
/// the next byte. A line end inside a string is an error.
pub open spec fn spec_scan_string(s: Seq<u8>, q: u8, j: int) -> Option<int>
    decreases s.len() - j,
{
    if j < 0 || j >= s.len() {
        None
    } else if s[j] == q {
        Some(j + 1)
    } else if q == 34 && s[j] == 92 {
        if j + 1 < s.len() && s[j + 1] != 10 {
            spec_scan_string(s, q, j + 2)
        } else {
            None
        }
    } else if s[j] == 10 {
        None
    } else {
        spec_scan_string(s, q, j + 1)
    }
}

/// End of a bracketed group opened just before `j`, closed by `close`.
/// Quoted strings inside are honoured, a `#` comment runs to its line
/// end, nested brackets and braces must balance, and the group may span
/// lines: any other byte, a line end included, is carried through.
pub open spec fn spec_scan_group(s: Seq<u8>, j: int, close: u8) -> Option<int>
    decreases s.len() - j,
{
    if j < 0 || j >= s.len() {
        None
    } else if s[j] == close {
        Some(j + 1)
    } else if s[j] == 34 || s[j] == 39 {
        match (if j + 2 < s.len() && s[j + 1] == s[j] && s[j + 2] == s[j] {
            spec_scan_ml_string(s, s[j], j + 3)
        } else {
            spec_scan_string(s, s[j], j + 1)
        }) {
            None => None,
            // inner tokens always end past their start; the bound check
            // serves termination
            Some(e) => if j < e && e <= s.len() {
                spec_scan_group(s, e, close)
            } else {
                None
            },
        }
    } else if s[j] == 91 {
        match spec_scan_group(s, j + 1, 93) {
            None => None,
            Some(e) => if j < e && e <= s.len() {
                spec_scan_group(s, e, close)
            } else {
                None
            },
        }
    } else if s[j] == 123 {
        match spec_scan_group(s, j + 1, 125) {
            None => None,
            Some(e) => if j < e && e <= s.len() {
                spec_scan_group(s, e, close)
            } else {
                None
            },
        }
    } else if s[j] == 35 {
        match spec_find_byte(s, 10, j) {
            None => None,
            Some(p) => if j < p && p <= s.len() {
                spec_scan_group(s, p, close)
            } else {
                None
            },
        }
    } else {
        spec_scan_group(s, j + 1, close)
    }
}

/// End of a triple-quoted string whose opening quotes stood just before
/// `j`: the index just past the closing triple. It may span lines; in
/// double quotes a backslash escapes the next byte.
pub open spec fn spec_scan_ml_string(s: Seq<u8>, q: u8, j: int) -> Option<int>
    decreases s.len() - j,
{
    if j < 0 || j >= s.len() {
        None
    } else if s[j] == q && j + 2 < s.len() && s[j + 1] == q && s[j + 2] == q {
        Some(j + 3)
    } else if q == 34 && s[j] == 92 {
        if j + 1 < s.len() {
            spec_scan_ml_string(s, q, j + 2)
        } else {
            None
        }
    } else {
        spec_scan_ml_string(s, q, j + 1)
    }
}

/// End of one value token starting at `i`: a quoted string (single or
/// triple), a bracketed group, or a bare token.
pub open spec fn spec_scan_value(s: Seq<u8>, i: int) -> Option<int> {
    if i < 0 || i >= s.len() {
        None
    } else if s[i] == 34 || s[i] == 39 {
        if i + 2 < s.len() && s[i + 1] == s[i] && s[i + 2] == s[i] {
            spec_scan_ml_string(s, s[i], i + 3)
        } else {
            spec_scan_string(s, s[i], i + 1)
        }
    } else if s[i] == 91 {
        spec_scan_group(s, i + 1, 93)
    } else if s[i] == 123 {
        spec_scan_group(s, i + 1, 125)
    } else if is_bare_byte(s[i]) {
        Some(spec_skip(s, i + 1, 3))
    } else {
        None
    }
}

/// String contents that close correctly when wrapped in `q` quotes:
/// no stray quote or line end, no dangling escape.
pub open spec fn str_inner_ok(q: u8, s: Seq<u8>) -> bool
    decreases s.len(),
{
    if s.len() == 0 {
        true
    } else if q == 34 && s[0] == 92 {
        s.len() >= 2 && s[1] != 10 && str_inner_ok(q, s.skip(2))
    } else {
        s[0] != q && s[0] != 10 && str_inner_ok(q, s.skip(1))
    }
}

/// A successful string scan ends just past a `q` and its contents are sound.
pub proof fn lemma_scan_string_props(s: Seq<u8>, q: u8, j: int)
    requires
        0 <= j,
    ensures
        match spec_scan_string(s, q, j) {
            Some(e) => j + 1 <= e <= s.len() && s[e - 1] == q && str_inner_ok(
                q,
                s.subrange(j, e - 1),
            ),
            None => true,
        },
    decreases s.len() - j,
{
    if j >= s.len() {
    } else if s[j] == q {
        assert(s.subrange(j, j).len() == 0);
    } else if q == 34 && s[j] == 92 {
        if j + 1 < s.len() && s[j + 1] != 10 {
            lemma_scan_string_props(s, q, j + 2);
            if let Some(e) = spec_scan_string(s, q, j + 2) {
                let inner = s.subrange(j, e - 1);
                assert(inner[0] == 92 && inner.len() >= 2 && inner[1] == s[j + 1]);
                assert(inner.skip(2) =~= s.subrange(j + 2, e - 1));
            }
        }
    } else if s[j] == 10 {
    } else {
        lemma_scan_string_props(s, q, j + 1);
        if let Some(e) = spec_scan_string(s, q, j + 1) {
            let inner = s.subrange(j, e - 1);
            assert(inner[0] == s[j]);
            assert(inner.skip(1) =~= s.subrange(j + 1, e - 1));
        }
    }
}

/// A successful group scan moves strictly forward, stays in bounds, and
/// ends just past its closing byte.
pub proof fn lemma_scan_group_props(s: Seq<u8>, j: int, close: u8)
    requires
        0 <= j,
    ensures
        match spec_scan_group(s, j, close) {
            Some(e) => j < e <= s.len() && s[e - 1] == close,
            None => true,
        },
    decreases s.len() - j,
{
    if j >= s.len() {
    } else if s[j] == close {
    } else if s[j] == 34 || s[j] == 39 {
        if j + 2 < s.len() && s[j + 1] == s[j] && s[j + 2] == s[j] {
            lemma_scan_ml_props(s, s[j], j + 3);
            if let Some(e) = spec_scan_ml_string(s, s[j], j + 3) {
                if j < e && e <= s.len() {
                    lemma_scan_group_props(s, e, close);
                }
            }
        } else {
            lemma_scan_string_props(s, s[j], j + 1);
            if let Some(e) = spec_scan_string(s, s[j], j + 1) {
                if j < e && e <= s.len() {
                    lemma_scan_group_props(s, e, close);
                }
            }
        }
    } else if s[j] == 91 {
        lemma_scan_group_props(s, j + 1, 93);
        if let Some(e) = spec_scan_group(s, j + 1, 93) {
            if j < e && e <= s.len() {
                lemma_scan_group_props(s, e, close);
            }
        }
    } else if s[j] == 123 {
        lemma_scan_group_props(s, j + 1, 125);
        if let Some(e) = spec_scan_group(s, j + 1, 125) {
            if j < e && e <= s.len() {
                lemma_scan_group_props(s, e, close);
            }
        }
    } else if s[j] == 35 {
        if let Some(p) = spec_find_byte(s, 10, j) {
            if j < p && p <= s.len() {
                lemma_find_byte_props(s, 10, j);
                lemma_scan_group_props(s, p, close);
            }
        }
    } else {
        lemma_scan_group_props(s, j + 1, close);
    }
}

/// A successful triple-quote scan moves strictly forward, stays in
/// bounds, and ends just past its closing quotes.
pub proof fn lemma_scan_ml_props(s: Seq<u8>, q: u8, j: int)
    requires
        0 <= j,
    ensures
        match spec_scan_ml_string(s, q, j) {
            Some(e) => j + 3 <= e <= s.len() && s[e - 1] == q && s[e - 2] == q && s[e - 3] == q,
            None => true,
        },
    decreases s.len() - j,
{
    if j < s.len() {
        if s[j] == q && j + 2 < s.len() && s[j + 1] == q && s[j + 2] == q {
        } else if q == 34 && s[j] == 92 {
            if j + 1 < s.len() {
                lemma_scan_ml_props(s, q, j + 2);
            }
        } else {
            lemma_scan_ml_props(s, q, j + 1);
        }
    }
}

/// Exec scan of a quoted string; mirrors `spec_scan_string`.
pub fn scan_string(s: &Vec<u8>, q: u8, from: usize) -> (r: Option<usize>)
    ensures
        opt_int(r) == spec_scan_string(s@, q, from as int),
{
    if from >= s.len() {
        return None;
    }
    let mut j = from;
    while j < s.len()
        invariant
            from <= j <= s@.len(),
            spec_scan_string(s@, q, from as int) == spec_scan_string(s@, q, j as int),
        decreases s@.len() - j,
    {
        let b = s[j];
        if b == q {
            return Some(j + 1);
        }
        if q == 34 && b == 92 {
            if j + 1 < s.len() && s[j + 1] != 10 {
                j = j + 2;
            } else {
                return None;
            }
        } else if b == 10 {
            return None;
        } else {
            j = j + 1;
        }
    }
    None
}

/// Exec scan of a bracketed group; mirrors `spec_scan_group`.
pub fn scan_group(s: &Vec<u8>, start: usize, close: u8) -> (r: Option<usize>)
    ensures
        opt_int(r) == spec_scan_group(s@, start as int, close),
    decreases s@.len() - start,
{
    if start >= s.len() {
        return None;
    }
    let mut j = start;
    loop
        invariant
            start <= j <= s@.len(),
            spec_scan_group(s@, start as int, close) == spec_scan_group(s@, j as int, close),
        decreases s@.len() - j,
    {
        if j >= s.len() {
            return None;
        }
        let b = s[j];
        if b == close {
            return Some(j + 1);
        }
        if b == 34 || b == 39 {
            if s.len() - j > 2 && s[j + 1] == b && s[j + 2] == b {
                proof {
                    lemma_scan_ml_props(s@, b, j + 3);
                }
                match scan_ml_string(s, b, j + 3) {
                    None => {
                        return None;
                    },
                    Some(e) => {
                        j = e;
                    },
                }
            } else {
                proof {
                    lemma_scan_string_props(s@, b, j + 1);
                }
                match scan_string(s, b, j + 1) {
                    None => {
                        return None;
                    },
                    Some(e) => {
                        j = e;
                    },
                }
            }
        } else if b == 91 {
            proof {
                lemma_scan_group_props(s@, j + 1, 93);
            }
            match scan_group(s, j + 1, 93) {
                None => {
                    return None;
                },
                Some(e) => {
                    j = e;
                },
            }
        } else if b == 123 {
            proof {
                lemma_scan_group_props(s@, j + 1, 125);
            }
            match scan_group(s, j + 1, 125) {
                None => {
                    return None;
                },
                Some(e) => {
                    j = e;
                },
            }
        } else if b == 35 {
            proof {
                lemma_find_byte_props(s@, 10, j as int);
            }
            match find_byte(s, 10, j) {
                None => {
                    return None;
                },
                Some(p) => {
                    j = p;
                },
            }
        } else {
            j = j + 1;
        }
    }
}

/// Exec scan of a triple-quoted string; mirrors `spec_scan_ml_string`.
pub fn scan_ml_string(s: &Vec<u8>, q: u8, from: usize) -> (r: Option<usize>)
    ensures
        opt_int(r) == spec_scan_ml_string(s@, q, from as int),
{
    let mut j = from;
    if from >= s.len() {
        return None;
    }
    while j < s.len()
        invariant
            from <= j <= s@.len(),
            spec_scan_ml_string(s@, q, from as int) == spec_scan_ml_string(s@, q, j as int),
        decreases s@.len() - j,
    {
        let b = s[j];
        if b == q && s.len() - j > 2 && s[j + 1] == q && s[j + 2] == q {
            return Some(j + 3);
        }
        if q == 34 && b == 92 {
            if j + 1 < s.len() {
                j = j + 2;
            } else {
                return None;
            }
        } else {
            j = j + 1;
        }
    }
    None
}

/// Exec scan of one value token; mirrors `spec_scan_value`.
pub fn scan_value(s: &Vec<u8>, i: usize) -> (r: Option<usize>)
    ensures
        opt_int(r) == spec_scan_value(s@, i as int),
{
    if i >= s.len() {
        return None;
    }
    let b = s[i];
    if b == 34 || b == 39 {
        if s.len() - i > 2 && s[i + 1] == b && s[i + 2] == b {
            scan_ml_string(s, b, i + 3)
        } else {
            scan_string(s, b, i + 1)
        }
    } else if b == 91 {
        scan_group(s, i + 1, 93)
    } else if b == 123 {
        scan_group(s, i + 1, 125)
    } else if !((b == 32 || b == 9) || b == 10 || b == 13 || b == 34 || b == 39 || b == 35 || b
        == 44 || b == 61 || b == 91 || b == 93 || b == 123 || b == 125) {
        Some(skip_class(s, i + 1, 3))
    } else {
        None
    }
}

/// Every value token starts within the text and ends after its start.
pub proof fn lemma_scan_value_props(s: Seq<u8>, i: int)
    requires
        0 <= i,
    ensures
        match spec_scan_value(s, i) {
            Some(e) => i < e <= s.len(),
            None => true,
        },
{
    if i < s.len() {
        if s[i] == 34 || s[i] == 39 {
            if i + 2 < s.len() && s[i + 1] == s[i] && s[i + 2] == s[i] {
                lemma_scan_ml_props(s, s[i], i + 3);
            } else {
                lemma_scan_string_props(s, s[i], i + 1);
            }
        } else if s[i] == 91 {
            lemma_scan_group_props(s, i + 1, 93);
        } else if s[i] == 123 {
            lemma_scan_group_props(s, i + 1, 125);
        } else if is_bare_byte(s[i]) {
            lemma_skip_props(s, i + 1, 3);
        }
    }
}

// ---------------------------------------------------------------------------
// Headers
// ---------------------------------------------------------------------------

/// Line tail from `i` on: whitespace, then at most a comment, and a line
/// end only as the very last byte.
pub open spec fn tail_ok_from(s: Seq<u8>, i: int) -> bool {
    let k = spec_skip(s, i, 1);
    &&& forall|m: int| i <= m < s.len() ==> (#[trigger] s[m] == 10 ==> m == s.len() - 1)
    &&& (k == s.len() || s[k] == 35 || s[k] == 10)
}

/// Keys of a header line, read from position `j` (after the brackets):
/// `ws key ws` repeated around dots, closed by `]` or `]]`, then a sound
/// tail. `None` when the line is not header-shaped.
pub open spec fn spec_header_keys_rec(s: Seq<u8>, j: int, dbl: bool) -> Option<Seq<Seq<u8>>>
    decreases s.len() - j,
{
    let k = spec_skip(s, j, 0);
    if k >= s.len() || !is_key_byte(s[k]) {
        None
    } else {
        let ke = spec_skip(s, k + 1, 2);
        let key = s.subrange(k, ke);
        let m = spec_skip(s, ke, 0);
        if m >= s.len() {
            None
        } else if s[m] == 46 {
            // the scan position only advances; the bound check serves termination
            if m + 1 <= j {
                None
            } else {
                match spec_header_keys_rec(s, m + 1, dbl) {
                    None => None,
                    Some(rest) => Some(seq![key] + rest),
                }
            }
        } else if s[m] == 93 {
            if dbl {
                if m + 1 < s.len() && s[m + 1] == 93 && tail_ok_from(s, m + 2) {
                    Some(seq![key])
                } else {
                    None
                }
            } else {
                if tail_ok_from(s, m + 1) {
                    Some(seq![key])
                } else {
                    None
                }
            }
        } else {
            None
        }
    }
}

/// Keys and bracket form of a whole header line.
pub open spec fn spec_header_keys(s: Seq<u8>) -> Option<(Seq<Seq<u8>>, bool)> {
    let i0 = spec_skip(s, 0, 0);
    if i0 >= s.len() || s[i0] != 91 {
        None
    } else {
        let dbl = i0 + 1 < s.len() && s[i0 + 1] == 91;
        let j = if dbl {
            i0 + 2
        } else {
            i0 + 1
        };
        match spec_header_keys_rec(s, j, dbl) {
            None => None,
            Some(keys) => Some((keys, dbl)),
        }
    }
}

// ---------------------------------------------------------------------------
// Appending a line terminator
// ---------------------------------------------------------------------------

/// Appending a newline does not move a whitespace or key skip.
pub proof fn lemma_skip_push10(s: Seq<u8>, i: int, c: u8)
    requires
        0 <= i <= s.len(),
        c == 0 || c == 1 || c == 2,
    ensures
        spec_skip(s.push(10), i, c) == spec_skip(s, i, c),
    decreases s.len() - i,
{
    let t = s.push(10);
    if i < s.len() {
        assert(t[i] == s[i]);
        if in_class(s[i], c) {
            lemma_skip_push10(s, i + 1, c);
        }
    } else {
        assert(t[i] == 10);
        assert(!in_class(10u8, c));
    }
}

/// A sound tail without any line end stays sound when one is appended.
pub proof fn lemma_tail_push10(s: Seq<u8>, i: int)
    requires
        0 <= i <= s.len(),
        tail_ok_from(s, i),
        forall|m: int| i <= m < s.len() ==> #[trigger] s[m] != 10,
    ensures
        tail_ok_from(s.push(10), i),
{
    let t = s.push(10);
    lemma_skip_push10(s, i, 1);
    lemma_skip_props(s, i, 1);
    let k = spec_skip(s, i, 1);
    assert forall|m: int| i <= m < t.len() && #[trigger] t[m] == 10 implies m == t.len() - 1 by {
        if m < s.len() {
            assert(t[m] == s[m]);
        }
    }
    if k == s.len() {
        assert(t[k] == 10);
    } else {
        assert(t[k] == s[k]);
    }
}

/// A header line that parses holds a line end only as its last byte.
pub proof fn lemma_header_rec_no_nl(s: Seq<u8>, j: int, dbl: bool)
    requires
        0 <= j <= s.len(),
        spec_header_keys_rec(s, j, dbl) is Some,
    ensures
        forall|m: int| j <= m < s.len() ==> (#[trigger] s[m] == 10 ==> m == s.len() - 1),
    decreases s.len() - j,
{
    let k = spec_skip(s, j, 0);
    lemma_skip_props(s, j, 0);
    let ke = spec_skip(s, k + 1, 2);
    lemma_skip_props(s, k + 1, 2);
    let m = spec_skip(s, ke, 0);
    lemma_skip_props(s, ke, 0);
    if s[m] == 46 {
        let k2 = m + 1;
        lemma_header_rec_no_nl(s, k2, dbl);
    } else {
        if dbl {
            assert(tail_ok_from(s, m + 2));
            lemma_skip_props(s, m + 2, 1);
        } else {
            assert(tail_ok_from(s, m + 1));
            lemma_skip_props(s, m + 1, 1);
        }
    }
}

/// Appending a newline to a parsed header line keeps its reading.
pub proof fn lemma_header_rec_push10(s: Seq<u8>, j: int, dbl: bool)
    requires
        0 <= j <= s.len(),
        spec_header_keys_rec(s, j, dbl) is Some,
        forall|m: int| 0 <= m < s.len() ==> #[trigger] s[m] != 10,
    ensures
        spec_header_keys_rec(s.push(10), j, dbl) == spec_header_keys_rec(s, j, dbl),
    decreases s.len() - j,
{
    let t = s.push(10);
    let k = spec_skip(s, j, 0);
    lemma_skip_props(s, j, 0);
    lemma_skip_push10(s, j, 0);
    let ke = spec_skip(s, k + 1, 2);
    lemma_skip_props(s, k + 1, 2);
    lemma_skip_push10(s, k + 1, 2);
    assert(t[k] == s[k]);
    let m = spec_skip(s, ke, 0);
    lemma_skip_props(s, ke, 0);
    lemma_skip_push10(s, ke, 0);
    assert(t.subrange(k, ke) =~= s.subrange(k, ke));
    assert(t[m] == s[m]);
    if s[m] == 46 {
        lemma_header_rec_push10(s, m + 1, dbl);
    } else {
        if dbl {
            assert(t[m + 1] == s[m + 1]);
            lemma_tail_push10(s, m + 2);
        } else {
            lemma_tail_push10(s, m + 1);
        }
    }
}

/// Appending a newline to a parsed header keeps its keys and form.
pub proof fn lemma_header_push10(s: Seq<u8>)
    requires
        spec_header_keys(s) is Some,
        forall|m: int| 0 <= m < s.len() ==> #[trigger] s[m] != 10,
    ensures
        spec_header_keys(s.push(10)) == spec_header_keys(s),
{
    let t = s.push(10);
    let i0 = spec_skip(s, 0, 0);
    lemma_skip_props(s, 0, 0);
    lemma_skip_push10(s, 0, 0);
    assert(t[i0] == s[i0]);
    let dbl = i0 + 1 < s.len() && s[i0 + 1] == 91;
    if i0 + 1 < s.len() {
        assert(t[i0 + 1] == s[i0 + 1]);
    } else {
        assert(t[i0 + 1] == 10);
    }
    assert((i0 + 1 < t.len() && t[i0 + 1] == 91) == dbl);
    if dbl {
        lemma_header_rec_push10(s, i0 + 2, true);
    } else {
        lemma_header_rec_push10(s, i0 + 1, false);
    }
}

// ---------------------------------------------------------------------------
// Rendering
// ---------------------------------------------------------------------------

/// The exact bytes of a value token.
pub open spec fn value_text(v: TomlValue) -> Seq<u8> {
    match v {
        TomlValue::Str { quote, inner } => seq![quote] + inner@ + seq![quote],
        TomlValue::MlStr { raw } => raw@,
        TomlValue::Arr { raw } => raw@,
        TomlValue::Inline { raw } => raw@,
        TomlValue::Other { raw } => raw@,
    }
}

/// The exact bytes of a line.
pub open spec fn line_text(l: TomlLine) -> Seq<u8> {
    match l {
        TomlLine::Blank { raw } => raw@,
        TomlLine::Table(h) => h.raw@,
        TomlLine::Entry(kv) => kv.indent@ + kv.key@ + kv.eq@ + value_text(kv.value) + kv.rest@,
    }
}

/// Concatenation of all line texts.
pub open spec fn cat_lines(lines: Seq<TomlLine>) -> Seq<u8>
    decreases lines.len(),
{
    if lines.len() == 0 {
        Seq::empty()
    } else {
        line_text(lines[0]) + cat_lines(lines.drop_first())
    }
}

/// The full text of a document.
pub open spec fn doc_text(d: TomlDoc) -> Seq<u8> {
    cat_lines(d.lines@)
}

/// Appending a line appends its text.
pub proof fn lemma_cat_lines_push(lines: Seq<TomlLine>, l: TomlLine)
    ensures
        cat_lines(lines.push(l)) == cat_lines(lines) + line_text(l),
    decreases lines.len(),
{
    if lines.len() == 0 {
        assert(lines.push(l)[0] == l);
        assert(lines.push(l).drop_first() =~= Seq::<TomlLine>::empty());
        assert(cat_lines(Seq::<TomlLine>::empty()) == Seq::<u8>::empty());
        assert(cat_lines(lines) == Seq::<u8>::empty());
        assert(cat_lines(lines.push(l)) == line_text(l) + Seq::<u8>::empty());
        assert(cat_lines(lines.push(l)) =~= cat_lines(lines) + line_text(l));
    } else {
        lemma_cat_lines_push(lines.drop_first(), l);
        assert(lines.push(l).drop_first() =~= lines.drop_first().push(l));
        assert(lines.push(l)[0] == lines[0]);
        assert(cat_lines(lines.push(l)) == line_text(lines[0]) + cat_lines(
            lines.drop_first().push(l),
        ));
        assert(cat_lines(lines) == line_text(lines[0]) + cat_lines(lines.drop_first()));
        assert(line_text(lines[0]) + (cat_lines(lines.drop_first()) + line_text(l)) =~= (line_text(
            lines[0],
        ) + cat_lines(lines.drop_first())) + line_text(l));
    }
}

// ---------------------------------------------------------------------------
// Scans carried between a token's own bytes and its context
// ---------------------------------------------------------------------------

/// A string scanned inside `s` scans the same on the bytes `s[b..hi]`.
pub proof fn lemma_scan_string_shift(s: Seq<u8>, q: u8, j: int, b: int, hi: int, e: int)
    requires
        0 <= b <= j,
        spec_scan_string(s, q, j) == Some(e),
        e <= hi <= s.len(),
    ensures
        spec_scan_string(s.subrange(b, hi), q, j - b) == Some(e - b),
    decreases s.len() - j,
{
    lemma_scan_string_props(s, q, j);
    let t = s.subrange(b, hi);
    assert(t[j - b] == s[j]);
    if s[j] == q {
    } else if q == 34 && s[j] == 92 {
        assert(t[j + 1 - b] == s[j + 1]);
        lemma_scan_string_shift(s, q, j + 2, b, hi, e);
    } else {
        lemma_scan_string_shift(s, q, j + 1, b, hi, e);
    }
}

/// A triple-quoted string scanned inside `s` scans the same on its own
/// byte range.
pub proof fn lemma_scan_ml_shift(s: Seq<u8>, q: u8, j: int, b: int, hi: int, e: int)
    requires
        0 <= b <= j,
        spec_scan_ml_string(s, q, j) == Some(e),
        e <= hi <= s.len(),
    ensures
        spec_scan_ml_string(s.subrange(b, hi), q, j - b) == Some(e - b),
    decreases s.len() - j,
{
    lemma_scan_ml_props(s, q, j);
    let t = s.subrange(b, hi);
    assert(t[j - b] == s[j]);
    if s[j] == q && j + 2 < s.len() && s[j + 1] == q && s[j + 2] == q {
        assert(t[j + 1 - b] == s[j + 1] && t[j + 2 - b] == s[j + 2]);
    } else if q == 34 && s[j] == 92 {
        lemma_scan_ml_shift(s, q, j + 2, b, hi, e);
    } else {
        lemma_scan_ml_shift(s, q, j + 1, b, hi, e);
        if j + 2 < hi {
            assert(t[j + 1 - b] == s[j + 1] && t[j + 2 - b] == s[j + 2]);
        } else if j + 1 < hi {
            assert(t[j + 1 - b] == s[j + 1]);
        }
    }
}

/// A group scanned inside `s` scans the same on the bytes `s[b..hi]`.
pub proof fn lemma_scan_group_shift(s: Seq<u8>, j: int, close: u8, b: int, hi: int, e: int)
    requires
        0 <= b <= j,
        spec_scan_group(s, j, close) == Some(e),
        e <= hi <= s.len(),
    ensures
        spec_scan_group(s.subrange(b, hi), j - b, close) == Some(e - b),
    decreases s.len() - j,
{
    lemma_scan_group_props(s, j, close);
    let t = s.subrange(b, hi);
    assert(t[j - b] == s[j]);
    if s[j] == close {
    } else if s[j] == 34 || s[j] == 39 {
        if j + 2 < s.len() && s[j + 1] == s[j] && s[j + 2] == s[j] {
            lemma_scan_ml_props(s, s[j], j + 3);
            let e1 = spec_scan_ml_string(s, s[j], j + 3)->Some_0;
            lemma_scan_group_props(s, e1, close);
            assert(t[j + 1 - b] == s[j + 1] && t[j + 2 - b] == s[j + 2]);
            lemma_scan_ml_shift(s, s[j], j + 3, b, hi, e1);
            lemma_scan_group_shift(s, e1, close, b, hi, e);
        } else {
            lemma_scan_string_props(s, s[j], j + 1);
            let e1 = spec_scan_string(s, s[j], j + 1)->Some_0;
            lemma_scan_group_props(s, e1, close);
            lemma_scan_string_shift(s, s[j], j + 1, b, hi, e1);
            lemma_scan_group_shift(s, e1, close, b, hi, e);
            if j + 2 < hi {
                assert(t[j + 1 - b] == s[j + 1] && t[j + 2 - b] == s[j + 2]);
            } else if j + 1 < hi {
                assert(t[j + 1 - b] == s[j + 1]);
            }
        }
    } else if s[j] == 91 {
        lemma_scan_group_props(s, j + 1, 93);
        let e1 = spec_scan_group(s, j + 1, 93)->Some_0;
        lemma_scan_group_props(s, e1, close);
        lemma_scan_group_shift(s, j + 1, 93, b, hi, e1);
        lemma_scan_group_shift(s, e1, close, b, hi, e);
    } else if s[j] == 123 {
        lemma_scan_group_props(s, j + 1, 125);
        let e1 = spec_scan_group(s, j + 1, 125)->Some_0;
        lemma_scan_group_props(s, e1, close);
        lemma_scan_group_shift(s, j + 1, 125, b, hi, e1);
        lemma_scan_group_shift(s, e1, close, b, hi, e);
    } else if s[j] == 35 {
        lemma_find_byte_props(s, 10, j);
        let p = spec_find_byte(s, 10, j)->Some_0;
        lemma_scan_group_props(s, p, close);
        assert forall|m: int| j - b <= m < p - b implies t[m] != 10 by {
            assert(t[m] == s[b + m]);
        }
        assert(t[p - b] == s[p]);
        lemma_find_byte_is(t, 10, j - b, p - b);
        lemma_scan_group_shift(s, p, close, b, hi, e);
    } else {
        lemma_scan_group_shift(s, j + 1, close, b, hi, e);
    }
}

/// A string that scans on its own bytes scans the same inside `s`.
pub proof fn lemma_scan_string_embed(s: Seq<u8>, q: u8, b: int, hi: int, j: int, e: int)
    requires
        0 <= b,
        0 <= j,
        0 <= hi,
        b + hi <= s.len(),
        spec_scan_string(s.subrange(b, b + hi), q, j) == Some(e),
    ensures
        spec_scan_string(s, q, b + j) == Some(b + e),
    decreases hi - j,
{
    let t = s.subrange(b, b + hi);
    lemma_scan_string_props(t, q, j);
    assert(s[b + j] == t[j]);
    if t[j] == q {
    } else if q == 34 && t[j] == 92 {
        assert(s[b + j + 1] == t[j + 1]);
        lemma_scan_string_embed(s, q, b, hi, j + 2, e);
    } else {
        lemma_scan_string_embed(s, q, b, hi, j + 1, e);
    }
}

/// A triple-quoted string that scans on its own bytes scans the same
/// inside `s`.
pub proof fn lemma_scan_ml_embed(s: Seq<u8>, q: u8, b: int, hi: int, j: int, e: int)
    requires
        0 <= b,
        0 <= j,
        0 <= hi,
        b + hi <= s.len(),
        spec_scan_ml_string(s.subrange(b, b + hi), q, j) == Some(e),
    ensures
        spec_scan_ml_string(s, q, b + j) == Some(b + e),
    decreases hi - j,
{
    let t = s.subrange(b, b + hi);
    lemma_scan_ml_props(t, q, j);
    assert(s[b + j] == t[j]);
    if t[j] == q && j + 2 < t.len() && t[j + 1] == q && t[j + 2] == q {
        assert(s[b + j + 1] == t[j + 1] && s[b + j + 2] == t[j + 2]);
    } else if q == 34 && t[j] == 92 {
        lemma_scan_ml_embed(s, q, b, hi, j + 2, e);
    } else {
        lemma_scan_ml_embed(s, q, b, hi, j + 1, e);
        if j + 2 < hi {
            assert(s[b + j + 1] == t[j + 1] && s[b + j + 2] == t[j + 2]);
        } else if j + 1 < hi {
            assert(s[b + j + 1] == t[j + 1]);
        }
        if b + j + 2 < s.len() && s[b + j] == q && s[b + j + 1] == q && s[b + j + 2] == q {
            // the closing triple would have been seen on the token's own
            // bytes as well: its end lies inside the token
            assert(e <= hi);
            assert(j + 2 < hi || !(t[j] == q && j + 2 < t.len() && t[j + 1] == q && t[j + 2]
                == q));
            assert(false);
        }
    }
}

/// A group that scans on its own bytes scans the same inside `s`.
pub proof fn lemma_scan_group_embed(s: Seq<u8>, close: u8, b: int, hi: int, j: int, e: int)
    requires
        0 <= b,
        0 <= j,
        0 <= hi,
        b + hi <= s.len(),
        spec_scan_group(s.subrange(b, b + hi), j, close) == Some(e),
    ensures
        spec_scan_group(s, b + j, close) == Some(b + e),
    decreases hi - j,
{
    let t = s.subrange(b, b + hi);
    lemma_scan_group_props(t, j, close);
    assert(s[b + j] == t[j]);
    if t[j] == close {
    } else if t[j] == 34 || t[j] == 39 {
        if j + 2 < t.len() && t[j + 1] == t[j] && t[j + 2] == t[j] {
            lemma_scan_ml_props(t, t[j], j + 3);
            let e1 = spec_scan_ml_string(t, t[j], j + 3)->Some_0;
            assert(s[b + j + 1] == t[j + 1] && s[b + j + 2] == t[j + 2]);
            lemma_scan_ml_embed(s, t[j], b, hi, j + 3, e1);
            lemma_scan_group_embed(s, close, b, hi, e1, e);
        } else {
            lemma_scan_string_props(t, t[j], j + 1);
            let e1 = spec_scan_string(t, t[j], j + 1)->Some_0;
            lemma_scan_string_embed(s, t[j], b, hi, j + 1, e1);
            lemma_scan_group_embed(s, close, b, hi, e1, e);
            if b + j + 2 < s.len() && s[b + j + 1] == t[j] && s[b + j + 2] == t[j] {
                // a triple start would have been seen on the token's own
                // bytes as well
                assert(j + 2 < hi || e1 <= hi);
                if j + 2 < hi {
                    assert(t[j + 1] == s[b + j + 1] && t[j + 2] == s[b + j + 2]);
                } else {
                    assert(j + 1 < hi ==> t[j + 1] == s[b + j + 1]);
                    assert(false);
                }
            }
        }
    } else if t[j] == 91 {
        lemma_scan_group_props(t, j + 1, 93);
        let e1 = spec_scan_group(t, j + 1, 93)->Some_0;
        lemma_scan_group_embed(s, 93, b, hi, j + 1, e1);
        lemma_scan_group_embed(s, close, b, hi, e1, e);
    } else if t[j] == 123 {
        lemma_scan_group_props(t, j + 1, 125);
        let e1 = spec_scan_group(t, j + 1, 125)->Some_0;
        lemma_scan_group_embed(s, 125, b, hi, j + 1, e1);
        lemma_scan_group_embed(s, close, b, hi, e1, e);
    } else if t[j] == 35 {
        lemma_find_byte_props(t, 10, j);
        let p = spec_find_byte(t, 10, j)->Some_0;
        assert forall|m: int| b + j <= m < b + p implies s[m] != 10 by {
            assert(s[m] == t[m - b]);
        }
        assert(s[b + p] == t[p]);
        lemma_find_byte_is(s, 10, b + j, b + p);
        lemma_scan_group_embed(s, close, b, hi, p, e);
    } else {
        lemma_scan_group_embed(s, close, b, hi, j + 1, e);
    }
}

/// A scanned value token scans as one complete token on its own bytes.
pub proof fn lemma_scan_value_token(s: Seq<u8>, i: int, e: int)
    requires
        0 <= i,
        spec_scan_value(s, i) == Some(e),
    ensures
        token_scans(s.subrange(i, e)),
    decreases s.len() - i,
{
    lemma_scan_value_props(s, i);
    let t = s.subrange(i, e);
    assert(t[0] == s[i]);
    if s[i] == 34 || s[i] == 39 {
        if i + 2 < s.len() && s[i + 1] == s[i] && s[i + 2] == s[i] {
            lemma_scan_ml_props(s, s[i], i + 3);
            assert(t[1] == s[i + 1] && t[2] == s[i + 2]);
            lemma_scan_ml_shift(s, s[i], i + 3, i, e, e);
        } else {
            lemma_scan_string_props(s, s[i], i + 1);
            lemma_scan_string_shift(s, s[i], i + 1, i, e, e);
            if 2 < t.len() && t[1] == t[0] && t[2] == t[0] {
                assert(s[i + 1] == t[1] && s[i + 2] == t[2]);
                assert(false);
            }
        }
    } else if s[i] == 91 {
        lemma_scan_group_shift(s, i + 1, 93, i, e, e);
    } else if s[i] == 123 {
        lemma_scan_group_shift(s, i + 1, 125, i, e, e);
    } else {
        lemma_skip_props(s, i + 1, 3);
        assert forall|m: int| 0 <= m < t.len() implies is_bare_byte(#[trigger] t[m]) by {
            assert(t[m] == s[i + m]);
        }
    }
}

/// Bytes the group scanner steps over one at a time.
pub open spec fn group_plain(b: u8, close: u8) -> bool {
    b != close && b != 34 && b != 39 && b != 91 && b != 123 && b != 35
}

/// Stepping over a run of plain bytes does not change a group scan.
pub proof fn lemma_scan_group_plain_run(s: Seq<u8>, j: int, m: int, close: u8)
    requires
        0 <= j <= m <= s.len(),
        forall|t: int| j <= t < m ==> group_plain(#[trigger] s[t], close),
    ensures
        spec_scan_group(s, j, close) == spec_scan_group(s, m, close),
    decreases m - j,
{
    if j < m {
        lemma_scan_group_plain_run(s, j + 1, m, close);
    }
}

/// Stepping over one complete token does not change a group scan. An
/// empty string token must not be followed by its own quote, which
/// would read as a triple quote in context.
pub proof fn lemma_scan_group_over_token(s: Seq<u8>, j: int, e: int, close: u8)
    requires
        0 <= j < e <= s.len(),
        token_scans(s.subrange(j, e)),
        close == 93 || close == 125,
        (e - j == 2 && s[j + 1] == s[j] && e < s.len()) ==> s[e] != s[j],
    ensures
        spec_scan_group(s, j, close) == spec_scan_group(s, e, close),
{
    let t = s.subrange(j, e);
    assert(s[j] == t[0]);
    if t[0] == 34 || t[0] == 39 {
        if 2 < t.len() && t[1] == t[0] && t[2] == t[0] {
            assert(s[j + 1] == t[1] && s[j + 2] == t[2]);
            lemma_scan_ml_embed(s, t[0], j, t.len() as int, 3, t.len() as int);
        } else {
            lemma_scan_string_embed(s, t[0], j, t.len() as int, 1, t.len() as int);
            lemma_scan_string_props(s, t[0], j + 1);
            if j + 2 < s.len() && s[j + 1] == t[0] && s[j + 2] == t[0] {
                // the context cannot read a triple quote here
                if 2 < t.len() {
                    assert(t[1] == s[j + 1] && t[2] == s[j + 2]);
                    assert(spec_scan_string(t, t[0], 1) == Some(2int));
                    assert(false);
                } else {
                    assert(t[1] == s[j + 1]);
                    assert(s[j + 2] == s[e]);
                    assert(false);
                }
            }
        }
    } else if t[0] == 91 {
        lemma_scan_group_embed(s, 93, j, t.len() as int, 1, t.len() as int);
    } else if t[0] == 123 {
        lemma_scan_group_embed(s, 125, j, t.len() as int, 1, t.len() as int);
    } else {
        assert forall|m: int| j <= m < e implies group_plain(#[trigger] s[m], close) by {
            assert(s[m] == t[m - j]);
            assert(is_bare_byte(t[m - j]));
        }
        lemma_scan_group_plain_run(s, j, e, close);
    }
}

// ---------------------------------------------------------------------------
// Keys
// ---------------------------------------------------------------------------

/// The logical segments of a dotted key starting at `k`, with the index
/// just past its last segment: bare or quoted segments around dots, any
/// whitespace only between segments, never after the last one.
pub open spec fn spec_keypath_at(t: Seq<u8>, k: int) -> Option<(Seq<Seq<u8>>, int)>
    decreases t.len() - k,
{
    if k < 0 || k >= t.len() {
        None
    } else {
        let seg = if is_key_byte(t[k]) {
            Some((t.subrange(k, spec_skip(t, k + 1, 2)), spec_skip(t, k + 1, 2)))
        } else if t[k] == 34 || t[k] == 39 {
            match spec_scan_string(t, t[k], k + 1) {
                Some(e) => Some((t.subrange(k + 1, e - 1), e)),
                None => None,
            }
        } else {
            None
        };
        match seg {
            None => None,
            Some((name, se)) => {
                let m = spec_skip(t, se, 0);
                if m < t.len() && t[m] == 46 {
                    let k2 = spec_skip(t, m + 1, 0);
                    // the scan position only advances and stays in bounds;
                    // this check serves termination
                    if k2 <= k || k2 > t.len() {
                        None
                    } else {
                        match spec_keypath_at(t, k2) {
                            None => None,
                            Some((rest, end)) => Some((seq![name] + rest, end)),
                        }
                    }
                } else {
                    Some((seq![name], se))
                }
            },
        }
    }
}

/// The token scans as one complete value on its own bytes: its kind is
/// read off its first byte, and scanning consumes it exactly.
pub open spec fn token_scans(t: Seq<u8>) -> bool {
    if t.len() == 0 {
        false
    } else if t[0] == 34 || t[0] == 39 {
        if 2 < t.len() && t[1] == t[0] && t[2] == t[0] {
            spec_scan_ml_string(t, t[0], 3) == Some(t.len() as int)
        } else {
            spec_scan_string(t, t[0], 1) == Some(t.len() as int)
        }
    } else if t[0] == 91 {
        spec_scan_group(t, 1, 93) == Some(t.len() as int)
    } else if t[0] == 123 {
        spec_scan_group(t, 1, 125) == Some(t.len() as int)
    } else {
        forall|i: int| 0 <= i < t.len() ==> is_bare_byte(#[trigger] t[i])
    }
}

// ---------------------------------------------------------------------------
// Well-formedness
// ---------------------------------------------------------------------------

pub open spec fn ws_only(s: Seq<u8>) -> bool {
    forall|i: int| 0 <= i < s.len() ==> is_ws(#[trigger] s[i])
}

pub open spec fn bare_key(s: Seq<u8>) -> bool {
    s.len() > 0 && forall|i: int| 0 <= i < s.len() ==> is_key_byte(#[trigger] s[i])
}

/// The equals region between key and value: `ws* '=' ws*`.
pub open spec fn eq_shape(s: Seq<u8>) -> bool {
    let k = spec_skip(s, 0, 0);
    &&& k < s.len()
    &&& s[k] == 61
    &&& forall|m: int| k + 1 <= m < s.len() ==> is_ws(#[trigger] s[m])
}

/// No line end among the bytes.
pub open spec fn no_nl(s: Seq<u8>) -> bool {
    forall|i: int| 0 <= i < s.len() ==> #[trigger] s[i] != 10
}

/// A value token is sound: it scans as exactly one complete token of its
/// stated kind on its own bytes, so the token cannot absorb trailing
/// text, and a text decomposes into lines in only one way.
pub open spec fn value_wf(v: TomlValue) -> bool {
    match v {
        TomlValue::Str { quote, inner } => (quote == 34 || quote == 39) && str_inner_ok(
            quote,
            inner@,
        ),
        TomlValue::MlStr { raw } => (raw@[0] == 34 || raw@[0] == 39) && raw@.len() >= 6 && raw@[1]
            == raw@[0] && raw@[2] == raw@[0] && spec_scan_ml_string(raw@, raw@[0], 3) == Some(
            raw@.len() as int,
        ),
        TomlValue::Arr { raw } => raw@.len() >= 1 && raw@[0] == 91 && spec_scan_group(raw@, 1, 93)
            == Some(raw@.len() as int),
        TomlValue::Inline { raw } => raw@.len() >= 1 && raw@[0] == 123 && spec_scan_group(
            raw@,
            1,
            125,
        ) == Some(raw@.len() as int),
        TomlValue::Other { raw } => raw@.len() >= 1 && forall|i: int|
            0 <= i < raw@.len() ==> is_bare_byte(#[trigger] raw@[i]),
    }
}

pub open spec fn line_wf(l: TomlLine) -> bool {
    match l {
        TomlLine::Blank { raw } => tail_ok_from(raw@, 0),
        TomlLine::Table(h) => spec_header_keys(h.raw@) == Some((h.path.deep_view(), h.array)),
        TomlLine::Entry(kv) => ws_only(kv.indent@) && spec_keypath_at(kv.key@, 0) == Some(
            (kv.path.deep_view(), kv.key@.len() as int),
        ) && eq_shape(kv.eq@) && value_wf(kv.value) && tail_ok_from(kv.rest@, 0),
    }
}

/// A sound value token renders nonempty and never ends in a line end:
/// its last byte is a quote, a closing bracket, or a bare byte.
pub proof fn lemma_value_text_last(v: TomlValue)
    requires
        value_wf(v),
    ensures
        value_text(v).len() >= 1,
        value_text(v).last() != 10,
{
    match v {
        TomlValue::Str { quote, inner } => {
            assert(value_text(v).last() == quote);
        },
        TomlValue::MlStr { raw } => {
            lemma_scan_ml_props(raw@, raw@[0], 3);
        },
        TomlValue::Arr { raw } => {
            lemma_scan_group_props(raw@, 1, 93);
        },
        TomlValue::Inline { raw } => {
            lemma_scan_group_props(raw@, 1, 125);
        },
        TomlValue::Other { raw } => {
            assert(is_bare_byte(raw@[raw@.len() - 1]));
        },
    }
}

/// The line carries its newline terminator.
pub open spec fn line_ends_nl(l: TomlLine) -> bool {
    line_text(l).len() >= 1 && line_text(l).last() == 10
}

/// Every line of the document is sound, and every line except the last
/// carries its newline, so lines cannot run together.
pub open spec fn doc_wf(d: TomlDoc) -> bool {
    &&& forall|i: int| 0 <= i < d.lines@.len() ==> line_wf(#[trigger] d.lines@[i])
    &&& forall|i: int| 0 <= i < d.lines@.len() - 1 ==> line_ends_nl(#[trigger] d.lines@[i])
}

// ---------------------------------------------------------------------------
// Serialization
// ---------------------------------------------------------------------------

/// Append all of `v` to `out`.
pub fn push_bytes(out: &mut Vec<u8>, v: &Vec<u8>)
    ensures
        final(out)@ == old(out)@ + v@,
{
    let mut i: usize = 0;
    while i < v.len()
        invariant
            0 <= i <= v@.len(),
            out@ == old(out)@ + v@.subrange(0, i as int),
        decreases v@.len() - i,
    {
        out.push(v[i]);
        i = i + 1;
        proof {
            assert(out@ =~= old(out)@ + v@.subrange(0, i as int));
        }
    }
    proof {
        assert(old(out)@ + v@.subrange(0, v@.len() as int) =~= old(out)@ + v@);
    }
}

/// Append the bytes of a value token.
fn push_value(out: &mut Vec<u8>, v: &TomlValue)
    ensures
        final(out)@ == old(out)@ + value_text(*v),
{
    match v {
        TomlValue::Str { quote, inner } => {
            out.push(*quote);
            push_bytes(out, inner);
            out.push(*quote);
            proof {
                assert(out@ =~= old(out)@ + value_text(*v));
            }
        },
        TomlValue::MlStr { raw } => {
            push_bytes(out, raw);
        },
        TomlValue::Arr { raw } => {
            push_bytes(out, raw);
        },
        TomlValue::Inline { raw } => {
            push_bytes(out, raw);
        },
        TomlValue::Other { raw } => {
            push_bytes(out, raw);
        },
    }
}

/// Append the bytes of a line.
fn push_line(out: &mut Vec<u8>, l: &TomlLine)
    ensures
        final(out)@ == old(out)@ + line_text(*l),
{
    match l {
        TomlLine::Blank { raw } => {
            push_bytes(out, raw);
        },
        TomlLine::Table(h) => {
            push_bytes(out, &h.raw);
        },
        TomlLine::Entry(kv) => {
            push_bytes(out, &kv.indent);
            push_bytes(out, &kv.key);
            push_bytes(out, &kv.eq);
            push_value(out, &kv.value);
            push_bytes(out, &kv.rest);
            proof {
                assert(out@ =~= old(out)@ + line_text(*l));
            }
        },
    }
}

/// Serialize a document: exactly the concatenation of its lines' bytes.
/// On an unedited parse result this reproduces the input unchanged.
pub fn serialize(d: &TomlDoc) -> (out: Vec<u8>)
    ensures
        out@ == doc_text(*d),
{
    let mut out: Vec<u8> = Vec::new();
    let mut i: usize = 0;
    while i < d.lines.len()
        invariant
            0 <= i <= d.lines@.len(),
            out@ == cat_lines(d.lines@.take(i as int)),
        decreases d.lines@.len() - i,
    {
        push_line(&mut out, &d.lines[i]);
        i = i + 1;
        proof {
            assert(d.lines@.take(i as int) =~= d.lines@.take(i - 1).push(d.lines@[i - 1]));
            lemma_cat_lines_push(d.lines@.take(i - 1), d.lines@[i - 1]);
        }
    }
    proof {
        assert(d.lines@.take(d.lines@.len() as int) =~= d.lines@);
    }
    out
}

} // verus!
