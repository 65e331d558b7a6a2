//! Semantic versions: the `major.minor.patch` triple, its total order,
//! and the exact correspondence between a version and its decimal text.

use vstd::prelude::*;
use crate::scan::{spec_find_byte, lemma_find_byte_props, lemma_find_byte_is, find_byte};

verus! {

/// A semantic version. Ordering is major, then minor, then patch,
/// each compared numerically.
#[derive(Clone, Copy, PartialEq, Eq, Structural, Debug)]
pub struct Version {
    pub major: u64,
    pub minor: u64,
    pub patch: u64,
}

/// `b` is an ASCII decimal digit.
pub open spec fn is_digit(b: u8) -> bool {
    48 <= b <= 57
}

/// Every byte of `s` is an ASCII decimal digit.
pub open spec fn all_digits(s: Seq<u8>) -> bool {
    forall|i: int| 0 <= i < s.len() ==> is_digit(#[trigger] s[i])
}

/// `s` is the canonical decimal form of a number: nonempty, all digits,
/// and no leading zero (except for the single digit `0` itself).
pub open spec fn canon_digits(s: Seq<u8>) -> bool {
    &&& s.len() > 0
    &&& all_digits(s)
    &&& (s.len() == 1 || s[0] != 48)
}

/// Numeric value of a digit string, most significant digit first.
pub open spec fn dec_val(s: Seq<u8>) -> int
    decreases s.len(),
{
    if s.len() == 0 {
        0
    } else {
        dec_val(s.drop_last()) * 10 + (s.last() - 48)
    }
}

/// Canonical decimal digits of `n`, most significant first.
pub open spec fn dec_digits(n: nat) -> Seq<u8>
    decreases n,
{
    if n < 10 {
        seq![(48 + n) as u8]
    } else {
        dec_digits(n / 10).push((48 + n % 10) as u8)
    }
}

/// The rendered text of a version: `major.minor.patch` in canonical decimal.
pub open spec fn version_text(v: Version) -> Seq<u8> {
    dec_digits(v.major as nat) + seq![46u8] + dec_digits(v.minor as nat) + seq![46u8]
        + dec_digits(v.patch as nat)
}

/// Digit strings have a nonnegative value.
pub proof fn lemma_dec_val_nonneg(s: Seq<u8>)
    requires
        all_digits(s),
    ensures
        dec_val(s) >= 0,
    decreases s.len(),
{
    if s.len() > 0 {
        assert(all_digits(s.drop_last()));
        lemma_dec_val_nonneg(s.drop_last());
    }
}

/// A digit string that does not start with `0` has a positive value.
pub proof fn lemma_dec_val_pos(s: Seq<u8>)
    requires
        all_digits(s),
        s.len() >= 1,
        s[0] != 48,
    ensures
        dec_val(s) >= 1,
    decreases s.len(),
{
    if s.len() == 1 {
        assert(s.drop_last().len() == 0);
        assert(dec_val(s.drop_last()) == 0);
        assert(s.last() == s[0]);
    } else {
        assert(s.drop_last()[0] == s[0]);
        assert(all_digits(s.drop_last()));
        lemma_dec_val_pos(s.drop_last());
    }
}

/// Appending digits can only grow the value.
pub proof fn lemma_dec_val_extend(t: Seq<u8>, u: Seq<u8>)
    requires
        dec_val(t) >= 0,
        all_digits(u),
    ensures
        dec_val(t + u) >= dec_val(t),
    decreases u.len(),
{
    if u.len() == 0 {
        assert(t + u =~= t);
    } else {
        assert(all_digits(u.drop_last()));
        lemma_dec_val_extend(t, u.drop_last());
        assert((t + u).drop_last() =~= t + u.drop_last());
        assert((t + u).last() == u.last());
    }
}

/// `dec_digits(n)` is canonical and evaluates back to `n`;
/// it is a single digit exactly for `n < 10`.
pub proof fn lemma_dec_digits_canon(n: nat)
    ensures
        canon_digits(dec_digits(n)),
        dec_val(dec_digits(n)) == n,
        n >= 10 ==> dec_digits(n)[0] != 48 && dec_digits(n).len() >= 2,
    decreases n,
{
    if n < 10 {
        let s = dec_digits(n);
        assert(s.len() == 1);
        assert(s.drop_last().len() == 0);
        assert(dec_val(s.drop_last()) == 0);
        assert(s.last() == (48 + n) as u8);
        assert((48 + n) as u8 - 48 == n);
        assert(dec_val(s) == n);
    } else {
        lemma_dec_digits_canon(n / 10);
        let r = dec_digits(n / 10);
        let s = dec_digits(n);
        assert(s == r.push((48 + n % 10) as u8));
        assert(s.drop_last() =~= r);
        assert(forall|i: int| 0 <= i < s.len() ==> is_digit(#[trigger] s[i])) by {
            assert(forall|i: int| 0 <= i < r.len() ==> is_digit(#[trigger] r[i]));
        }
        assert(n / 10 >= 1);
        assert(s[0] == r[0]);
        if n / 10 >= 10 {
            assert(r[0] != 48);
        } else {
            assert(r == seq![(48 + n / 10) as u8]);
            assert(r[0] == (48 + n / 10) as u8);
        }
        assert(0 <= n % 10 < 10);
        assert(s.last() == (48 + n % 10) as u8);
        assert((48 + n % 10) as u8 - 48 == n % 10);
        assert(dec_val(s) == dec_val(s.drop_last()) * 10 + (s.last() - 48));
        assert(dec_val(s) == dec_val(r) * 10 + n % 10);
        assert((n / 10) * 10 + n % 10 == n) by {
            vstd::arithmetic::div_mod::lemma_fundamental_div_mod(n as int, 10);
        }
    }
}

/// A canonical digit string is the rendering of its own value.
pub proof fn lemma_canon_digits_unique(s: Seq<u8>)
    requires
        canon_digits(s),
    ensures
        dec_val(s) >= 0,
        dec_digits(dec_val(s) as nat) == s,
    decreases s.len(),
{
    lemma_dec_val_nonneg(s);
    if s.len() == 1 {
        assert(s.drop_last().len() == 0);
        assert(dec_val(s.drop_last()) == 0);
        assert(s.last() == s[0]);
        assert(dec_val(s) == s[0] - 48);
        assert(dec_digits(dec_val(s) as nat) =~= s);
    } else {
        let front = s.drop_last();
        assert(all_digits(front));
        assert(front[0] == s[0]);
        assert(canon_digits(front));
        lemma_canon_digits_unique(front);
        lemma_dec_val_pos(front);
        let fv = dec_val(front);
        let d = s.last() - 48;
        let n = dec_val(s);
        assert(n == fv * 10 + d);
        assert(n >= 10);
        assert(n / 10 == fv && n % 10 == d) by {
            vstd::arithmetic::div_mod::lemma_fundamental_div_mod_converse(n, 10, fv, d);
        }
        assert(dec_digits(n as nat) == dec_digits(fv as nat).push((48 + d) as u8));
        assert(dec_digits(fv as nat) == front);
        assert((48 + d) as u8 == s.last());
        assert(front.push(s.last()) =~= s);
    }
}

impl Version {
    /// `self` strictly precedes `other` in semantic-version order.
    pub open spec fn spec_lt(self, other: Version) -> bool {
        ||| self.major < other.major
        ||| (self.major == other.major && self.minor < other.minor)
        ||| (self.major == other.major && self.minor == other.minor && self.patch < other.patch)
    }

    /// `self` precedes or equals `other`.
    pub open spec fn spec_le(self, other: Version) -> bool {
        self.spec_lt(other) || self == other
    }

    pub fn new(major: u64, minor: u64, patch: u64) -> (v: Version)
        ensures
            v == (Version { major, minor, patch }),
    {
        Version { major, minor, patch }
    }

    pub fn lt(&self, other: &Version) -> (r: bool)
        ensures
            r == self.spec_lt(*other),
    {
        if self.major != other.major {
            self.major < other.major
        } else if self.minor != other.minor {
            self.minor < other.minor
        } else {
            self.patch < other.patch
        }
    }

    pub fn le(&self, other: &Version) -> (r: bool)
        ensures
            r == self.spec_le(*other),
    {
        if self.major != other.major {
            self.major < other.major
        } else if self.minor != other.minor {
            self.minor < other.minor
        } else {
            self.patch <= other.patch
        }
    }

    /// Append the canonical decimal digits of `n` to `out`.
    fn push_dec(out: &mut Vec<u8>, n: u64)
        ensures
            final(out)@ == old(out)@ + dec_digits(n as nat),
        decreases n,
    {
        if n < 10 {
            out.push(48 + n as u8);
            assert(final(out)@ =~= old(out)@ + dec_digits(n as nat));
        } else {
            Self::push_dec(out, n / 10);
            out.push(48 + (n % 10) as u8);
            assert(final(out)@ =~= old(out)@ + dec_digits(n as nat));
        }
    }

    /// Render as `major.minor.patch`.
    pub fn render(&self) -> (out: Vec<u8>)
        ensures
            out@ == version_text(*self),
    {
        let mut out: Vec<u8> = Vec::new();
        Self::push_dec(&mut out, self.major);
        out.push(46);
        Self::push_dec(&mut out, self.minor);
        out.push(46);
        Self::push_dec(&mut out, self.patch);
        assert(out@ =~= version_text(*self));
        out
    }

    /// Parse `major.minor.patch`; `None` on anything else.
    pub fn parse(s: &Vec<u8>) -> (r: Option<Version>)
        ensures
            r == spec_parse_version(s@),
    {
        let n = s.len();
        proof {
            lemma_find_byte_props(s@, 46, 0);
        }
        let i = match find_byte(s, 46, 0) {
            Some(i) => i,
            None => {
                return None;
            },
        };
        assert(i < n);
        proof {
            lemma_find_byte_props(s@, 46, i + 1);
        }
        let j = match find_byte(s, 46, i + 1) {
            Some(j) => j,
            None => {
                return None;
            },
        };
        assert(j < n);
        let major = match parse_num(s, 0, i) {
            Some(n) => n,
            None => {
                return None;
            },
        };
        let minor = match parse_num(s, i + 1, j) {
            Some(n) => n,
            None => {
                return None;
            },
        };
        let patch = match parse_num(s, j + 1, s.len()) {
            Some(n) => n,
            None => {
                return None;
            },
        };
        Some(Version { major, minor, patch })
    }
}

/// Deterministic reading of `major.minor.patch`: split at the first two
/// dots; all three parts must be canonical decimals that fit in 64 bits.
pub open spec fn spec_parse_version(s: Seq<u8>) -> Option<Version> {
    match spec_find_byte(s, 46, 0) {
        None => None,
        Some(i) => match spec_find_byte(s, 46, i + 1) {
            None => None,
            Some(j) => {
                let a = s.subrange(0, i);
                let b = s.subrange(i + 1, j);
                let c = s.subrange(j + 1, s.len() as int);
                if canon_digits(a) && canon_digits(b) && canon_digits(c) && dec_val(a)
                    <= u64::MAX && dec_val(b) <= u64::MAX && dec_val(c) <= u64::MAX {
                    Some(
                        Version {
                            major: dec_val(a) as u64,
                            minor: dec_val(b) as u64,
                            patch: dec_val(c) as u64,
                        },
                    )
                } else {
                    None
                }
            },
        },
    }
}

/// Parse `s[lo..hi]` as a canonical decimal that fits in 64 bits.
fn parse_num(s: &Vec<u8>, lo: usize, hi: usize) -> (r: Option<u64>)
    requires
        lo <= hi <= s@.len(),
    ensures
        ({
            let seg = s@.subrange(lo as int, hi as int);
            match r {
                Some(n) => canon_digits(seg) && dec_val(seg) == n as int,
                None => !(canon_digits(seg) && dec_val(seg) <= u64::MAX),
            }
        }),
{
    let ghost seg = s@.subrange(lo as int, hi as int);
    if lo == hi {
        return None;
    }
    if hi - lo >= 2 && s[lo] == 48 {
        assert(seg[0] == 48 && seg.len() >= 2);
        return None;
    }
    let mut value: u64 = 0;
    let mut i: usize = lo;
    while i < hi
        invariant
            lo <= i <= hi <= s@.len(),
            lo < hi,
            seg == s@.subrange(lo as int, hi as int),
            all_digits(s@.subrange(lo as int, i as int)),
            value as int == dec_val(s@.subrange(lo as int, i as int)),
            hi - lo >= 2 ==> s@[lo as int] != 48,
        decreases hi - i,
    {
        let b = s[i];
        if b < 48 || b > 57 {
            proof {
                assert(seg[i - lo] == s@[i as int]);
            }
            return None;
        }
        let d = (b - 48) as u64;
        // 1844674407370955161 == u64::MAX / 10; 5 == u64::MAX % 10
        if value > 1844674407370955161 || (value == 1844674407370955161 && d > 5) {
            proof {
                let pre = s@.subrange(lo as int, i as int);
                let ext = s@.subrange(lo as int, i + 1);
                assert(ext.drop_last() =~= pre);
                assert(ext.last() == s@[i as int]);
                assert(dec_val(ext) == value * 10 + d);
                assert(dec_val(ext) > u64::MAX);
                if canon_digits(seg) {
                    let rest = s@.subrange(i + 1, hi as int);
                    assert(seg =~= ext + rest);
                    assert forall|k: int| 0 <= k < rest.len() implies is_digit(
                        #[trigger] rest[k],
                    ) by {
                        assert(rest[k] == seg[k + (i + 1 - lo)]);
                    }
                    lemma_dec_val_extend(ext, rest);
                }
            }
            return None;
        }
        value = value * 10 + d;
        i = i + 1;
        proof {
            let pre = s@.subrange(lo as int, i as int);
            assert(pre.drop_last() =~= s@.subrange(lo as int, i - 1));
            assert(pre.last() == s@[i - 1]);
            assert forall|k: int| 0 <= k < pre.len() implies is_digit(#[trigger] pre[k]) by {
                if k < i - 1 - lo {
                    assert(pre[k] == s@.subrange(lo as int, i - 1)[k]);
                } else {
                    assert(pre[k] == s@[i - 1]);
                }
            }
        }
    }
    assert(seg =~= s@.subrange(lo as int, i as int));
    assert(canon_digits(seg));
    Some(value)
}

/// A version's text holds only digits and dots.
pub proof fn lemma_version_text_bytes(v: Version)
    ensures
        forall|i: int|
            0 <= i < version_text(v).len() ==> (is_digit(#[trigger] version_text(v)[i])
                || version_text(v)[i] == 46),
{
    let a = dec_digits(v.major as nat);
    let b = dec_digits(v.minor as nat);
    let c = dec_digits(v.patch as nat);
    lemma_dec_digits_canon(v.major as nat);
    lemma_dec_digits_canon(v.minor as nat);
    lemma_dec_digits_canon(v.patch as nat);
    let s = version_text(v);
    assert forall|i: int| 0 <= i < s.len() implies (is_digit(#[trigger] s[i]) || s[i] == 46) by {
        if i < a.len() {
            assert(s[i] == a[i]);
        } else if i == a.len() {
        } else if i < a.len() + 1 + b.len() {
            assert(s[i] == b[i - (a.len() + 1)]);
        } else if i == a.len() + 1 + b.len() {
        } else {
            assert(s[i] == c[i - (a.len() + 1 + b.len() + 1)]);
        }
    }
}

/// Rendering then parsing gives the version back.
pub proof fn lemma_version_text_parses(v: Version)
    ensures
        spec_parse_version(version_text(v)) == Some(v),
{
    let a = dec_digits(v.major as nat);
    let b = dec_digits(v.minor as nat);
    let c = dec_digits(v.patch as nat);
    lemma_dec_digits_canon(v.major as nat);
    lemma_dec_digits_canon(v.minor as nat);
    lemma_dec_digits_canon(v.patch as nat);
    let s = version_text(v);
    let i = a.len() as int;
    let j = a.len() + 1 + b.len() as int;
    assert(s.len() == a.len() + 1 + b.len() + 1 + c.len());
    assert(forall|k: int| 0 <= k < i ==> s[k] == a[k]);
    assert(s[i] == 46);
    assert(forall|k: int| i + 1 <= k < j ==> s[k] == b[k - (i + 1)]);
    assert(s[j] == 46);
    assert(forall|k: int| j + 1 <= k < s.len() ==> s[k] == c[k - (j + 1)]);
    assert(forall|k: int| 0 <= k < i ==> s[k] != 46) by {
        assert(forall|k: int| 0 <= k < i ==> is_digit(#[trigger] a[k]));
    }
    lemma_find_byte_is(s, 46, 0, i);
    assert(forall|k: int| i + 1 <= k < j ==> s[k] != 46) by {
        assert(forall|k: int| 0 <= k < b.len() ==> is_digit(#[trigger] b[k]));
    }
    lemma_find_byte_is(s, 46, i + 1, j);
    assert(s.subrange(0, i) =~= a);
    assert(s.subrange(i + 1, j) =~= b);
    assert(s.subrange(j + 1, s.len() as int) =~= c);
    assert(dec_val(a) == v.major && dec_val(b) == v.minor && dec_val(c) == v.patch);
}

/// A text that parses is exactly the rendering of the parsed version.
pub proof fn lemma_parse_version_text(s: Seq<u8>, v: Version)
    requires
        spec_parse_version(s) == Some(v),
    ensures
        version_text(v) == s,
{
    lemma_find_byte_props(s, 46, 0);
    let i = spec_find_byte(s, 46, 0)->Some_0;
    lemma_find_byte_props(s, 46, i + 1);
    let j = spec_find_byte(s, 46, i + 1)->Some_0;
    let a = s.subrange(0, i);
    let b = s.subrange(i + 1, j);
    let c = s.subrange(j + 1, s.len() as int);
    lemma_canon_digits_unique(a);
    lemma_canon_digits_unique(b);
    lemma_canon_digits_unique(c);
    assert(version_text(v) == a + seq![46u8] + b + seq![46u8] + c);
    assert(a + seq![46u8] + b + seq![46u8] + c =~= s);
}

} // verus!
