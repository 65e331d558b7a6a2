//! Conventional-commit classification.
//!
//! A commit message is breaking when it carries a `!` or says
//! "breaking change" in any casing. Its type is the lowercased text
//! before the first colon, with a parenthesized scope and any `!`
//! stripped; a message without a colon counts as `other`.

use vstd::prelude::*;
use crate::scan::{spec_find_byte, lemma_find_byte_props, find_byte, copy_range};

verus! {

// ---------------------------------------------------------------------------
// Substrings
// ---------------------------------------------------------------------------

/// `sub` occurs in `s` at position `k`.
pub open spec fn is_sub_at(s: Seq<u8>, sub: Seq<u8>, k: int) -> bool {
    0 <= k && k + sub.len() <= s.len() && s.subrange(k, k + sub.len()) == sub
}

/// `sub` occurs somewhere in `s`.
pub open spec fn spec_contains(s: Seq<u8>, sub: Seq<u8>) -> bool {
    exists|k: int| is_sub_at(s, sub, k)
}

/// Exec comparison of one candidate position.
pub fn match_at(s: &Vec<u8>, sub: &Vec<u8>, k: usize) -> (r: bool)
    requires
        k + sub@.len() <= s@.len(),
    ensures
        r == is_sub_at(s@, sub@, k as int),
{
    let n = s.len();
    let mut t: usize = 0;
    while t < sub.len()
        invariant
            0 <= t <= sub@.len(),
            n == s@.len(),
            k + sub@.len() <= s@.len(),
            forall|m: int| 0 <= m < t ==> s@[k + m] == sub@[m],
        decreases sub@.len() - t,
    {
        if s[k + t] != sub[t] {
            proof {
                assert(s@.subrange(k as int, k + sub@.len())[t as int] == s@[k + t]);
            }
            return false;
        }
        t = t + 1;
    }
    proof {
        assert(s@.subrange(k as int, k + sub@.len()) =~= sub@);
    }
    true
}

/// Exec substring search.
pub fn contains_sub(s: &Vec<u8>, sub: &Vec<u8>) -> (r: bool)
    ensures
        r == spec_contains(s@, sub@),
{
    if sub.len() > s.len() {
        proof {
            assert forall|k: int| !is_sub_at(s@, sub@, k) by {}
        }
        return false;
    }
    if sub.len() == 0 {
        proof {
            assert(s@.subrange(0, 0) =~= sub@);
            assert(is_sub_at(s@, sub@, 0));
        }
        return true;
    }
    let bound = s.len() - sub.len();
    let mut k: usize = 0;
    while k <= bound
        invariant
            0 <= k <= bound + 1,
            sub@.len() >= 1,
            bound < s@.len() <= usize::MAX,
            bound == s@.len() - sub@.len(),
            forall|m: int| 0 <= m < k ==> !is_sub_at(s@, sub@, m),
        decreases bound + 1 - k,
    {
        if match_at(s, sub, k) {
            return true;
        }
        k = k + 1;
    }
    proof {
        assert forall|m: int| !is_sub_at(s@, sub@, m) by {
            if 0 <= m < k {
            }
        }
    }
    false
}

// ---------------------------------------------------------------------------
// Case folding and trimming
// ---------------------------------------------------------------------------

/// ASCII lower case of one byte.
pub open spec fn spec_lower(b: u8) -> u8 {
    if 65 <= b <= 90 {
        (b + 32) as u8
    } else {
        b
    }
}

/// ASCII lower case of a byte sequence.
pub open spec fn spec_lower_seq(s: Seq<u8>) -> Seq<u8> {
    s.map_values(|b: u8| spec_lower(b))
}

/// Exec lower-casing.
pub fn lower_bytes(s: &Vec<u8>) -> (r: Vec<u8>)
    ensures
        r@ == spec_lower_seq(s@),
{
    let mut out: Vec<u8> = Vec::new();
    let mut i: usize = 0;
    while i < s.len()
        invariant
            0 <= i <= s@.len(),
            out@.len() == i,
            forall|m: int| 0 <= m < i ==> out@[m] == spec_lower(s@[m]),
        decreases s@.len() - i,
    {
        let b = s[i];
        if 65 <= b && b <= 90 {
            out.push(b + 32);
        } else {
            out.push(b);
        }
        i = i + 1;
    }
    proof {
        assert(out@ =~= spec_lower_seq(s@));
    }
    out
}

/// Whitespace for message trimming: space, tab, line and page ends.
pub open spec fn is_trim_byte(b: u8) -> bool {
    b == 32 || b == 9 || b == 10 || b == 13
}

/// First index from the left that is no trim byte.
pub open spec fn spec_ltrim(s: Seq<u8>, i: int) -> int
    decreases s.len() - i,
{
    if i < 0 || i >= s.len() {
        i
    } else if is_trim_byte(s[i]) {
        spec_ltrim(s, i + 1)
    } else {
        i
    }
}

/// Length of `s` with trailing trim bytes removed.
pub open spec fn spec_rtrim(s: Seq<u8>) -> int
    decreases s.len(),
{
    if s.len() == 0 {
        0
    } else if is_trim_byte(s.last()) {
        spec_rtrim(s.drop_last())
    } else {
        s.len() as int
    }
}

/// `s` without leading and trailing whitespace.
pub open spec fn spec_trim(s: Seq<u8>) -> Seq<u8> {
    let a = spec_ltrim(s, 0);
    let b = spec_rtrim(s);
    if a <= b {
        s.subrange(a, b)
    } else {
        Seq::empty()
    }
}

pub proof fn lemma_ltrim_props(s: Seq<u8>, i: int)
    requires
        0 <= i <= s.len(),
    ensures
        i <= spec_ltrim(s, i) <= s.len(),
        forall|m: int| i <= m < spec_ltrim(s, i) ==> is_trim_byte(#[trigger] s[m]),
        spec_ltrim(s, i) < s.len() ==> !is_trim_byte(s[spec_ltrim(s, i)]),
    decreases s.len() - i,
{
    if i < s.len() && is_trim_byte(s[i]) {
        lemma_ltrim_props(s, i + 1);
    }
}

pub proof fn lemma_rtrim_props(s: Seq<u8>)
    ensures
        0 <= spec_rtrim(s) <= s.len(),
        forall|m: int| spec_rtrim(s) <= m < s.len() ==> is_trim_byte(#[trigger] s[m]),
        spec_rtrim(s) > 0 ==> !is_trim_byte(s[spec_rtrim(s) - 1]),
    decreases s.len(),
{
    if s.len() > 0 && is_trim_byte(s.last()) {
        lemma_rtrim_props(s.drop_last());
        assert forall|m: int| spec_rtrim(s) <= m < s.len() implies is_trim_byte(
            #[trigger] s[m],
        ) by {
            if m < s.len() - 1 {
                assert(s[m] == s.drop_last()[m]);
            }
        }
    }
}

/// Exec trim of both ends.
pub fn trim_bytes(s: &Vec<u8>) -> (r: Vec<u8>)
    ensures
        r@ == spec_trim(s@),
{
    let n = s.len();
    let mut a: usize = 0;
    while a < n && (s[a] == 32 || s[a] == 9 || s[a] == 10 || s[a] == 13)
        invariant
            0 <= a <= n == s@.len(),
            spec_ltrim(s@, 0) == spec_ltrim(s@, a as int),
        decreases n - a,
    {
        a = a + 1;
    }
    assert(a as int == spec_ltrim(s@, 0));
    let mut b: usize = n;
    proof {
        assert(s@.subrange(0, n as int) =~= s@);
    }
    while b > a && (s[b - 1] == 32 || s[b - 1] == 9 || s[b - 1] == 10 || s[b - 1] == 13)
        invariant
            a <= b <= n == s@.len(),
            spec_rtrim(s@) == spec_rtrim(s@.subrange(0, b as int)),
        decreases b,
    {
        b = b - 1;
        proof {
            assert(s@.subrange(0, b + 1).drop_last() =~= s@.subrange(0, b as int));
            assert(s@.subrange(0, b + 1).last() == s@[b as int]);
        }
    }
    proof {
        // the right trim stopped at a byte that is kept, or at the left edge
        if b > a {
            assert(s@.subrange(0, b as int).last() == s@[b - 1]);
            assert(spec_rtrim(s@) == b as int);
            assert(spec_trim(s@) == s@.subrange(a as int, b as int));
        } else {
            lemma_rtrim_props(s@.subrange(0, a as int));
            assert(spec_rtrim(s@) <= a as int);
            assert(spec_trim(s@) =~= s@.subrange(a as int, b as int)) by {
                if spec_ltrim(s@, 0) <= spec_rtrim(s@) {
                    assert(spec_trim(s@) == s@.subrange(a as int, spec_rtrim(s@)));
                }
            }
        }
    }
    copy_range(s, a, b)
}

// ---------------------------------------------------------------------------
// Commit words
// ---------------------------------------------------------------------------

/// `feat`
pub open spec fn spec_w_feat() -> Seq<u8> {
    seq![102u8, 101, 97, 116]
}

pub fn w_feat() -> (r: Vec<u8>)
    ensures
        r@ == spec_w_feat(),
{
    let mut r: Vec<u8> = Vec::new();
    r.push(102);
    r.push(101);
    r.push(97);
    r.push(116);
    proof {
        assert(r@ =~= spec_w_feat());
    }
    r
}

/// `feature`
pub open spec fn spec_w_feature() -> Seq<u8> {
    seq![102u8, 101, 97, 116, 117, 114, 101]
}

pub fn w_feature() -> (r: Vec<u8>)
    ensures
        r@ == spec_w_feature(),
{
    let mut r: Vec<u8> = Vec::new();
    r.push(102);
    r.push(101);
    r.push(97);
    r.push(116);
    r.push(117);
    r.push(114);
    r.push(101);
    proof {
        assert(r@ =~= spec_w_feature());
    }
    r
}

/// `fix`
pub open spec fn spec_w_fix() -> Seq<u8> {
    seq![102u8, 105, 120]
}

pub fn w_fix() -> (r: Vec<u8>)
    ensures
        r@ == spec_w_fix(),
{
    let mut r: Vec<u8> = Vec::new();
    r.push(102);
    r.push(105);
    r.push(120);
    proof {
        assert(r@ =~= spec_w_fix());
    }
    r
}

/// `other`
pub open spec fn spec_w_other() -> Seq<u8> {
    seq![111u8, 116, 104, 101, 114]
}

pub fn w_other() -> (r: Vec<u8>)
    ensures
        r@ == spec_w_other(),
{
    let mut r: Vec<u8> = Vec::new();
    r.push(111);
    r.push(116);
    r.push(104);
    r.push(101);
    r.push(114);
    proof {
        assert(r@ =~= spec_w_other());
    }
    r
}

/// `breaking change`
pub open spec fn spec_w_breaking() -> Seq<u8> {
    seq![98u8, 114, 101, 97, 107, 105, 110, 103, 32, 99, 104, 97, 110, 103, 101]
}

pub fn w_breaking() -> (r: Vec<u8>)
    ensures
        r@ == spec_w_breaking(),
{
    let mut r: Vec<u8> = Vec::new();
    r.push(98);
    r.push(114);
    r.push(101);
    r.push(97);
    r.push(107);
    r.push(105);
    r.push(110);
    r.push(103);
    r.push(32);
    r.push(99);
    r.push(104);
    r.push(97);
    r.push(110);
    r.push(103);
    r.push(101);
    proof {
        assert(r@ =~= spec_w_breaking());
    }
    r
}

// ---------------------------------------------------------------------------
// Classification
// ---------------------------------------------------------------------------

/// `s` with every `!` removed.
pub open spec fn spec_strip_excl(s: Seq<u8>) -> Seq<u8>
    decreases s.len(),
{
    if s.len() == 0 {
        Seq::empty()
    } else if s.last() == 33 {
        spec_strip_excl(s.drop_last())
    } else {
        spec_strip_excl(s.drop_last()).push(s.last())
    }
}

/// Exec removal of every `!`.
pub fn strip_excl(s: &Vec<u8>) -> (r: Vec<u8>)
    ensures
        r@ == spec_strip_excl(s@),
{
    let mut out: Vec<u8> = Vec::new();
    let mut i: usize = 0;
    while i < s.len()
        invariant
            0 <= i <= s@.len(),
            out@ == spec_strip_excl(s@.subrange(0, i as int)),
        decreases s@.len() - i,
    {
        let b = s[i];
        if b != 33 {
            out.push(b);
        }
        i = i + 1;
        proof {
            assert(s@.subrange(0, i as int).drop_last() =~= s@.subrange(0, i - 1));
            assert(s@.subrange(0, i as int).last() == s@[i - 1]);
        }
    }
    proof {
        assert(s@.subrange(0, s@.len() as int) =~= s@);
    }
    out
}

/// The text before the scope: everything up to the first `(`, if any.
pub open spec fn spec_before_scope(tp: Seq<u8>) -> Seq<u8> {
    match spec_find_byte(tp, 40, 0) {
        Some(p) => tp.subrange(0, p),
        None => tp,
    }
}

/// The conventional type of a commit message: the lowercased text before
/// the first colon, scope and `!` stripped; `other` without a colon.
pub open spec fn spec_commit_type(msg: Seq<u8>) -> Seq<u8> {
    match spec_find_byte(msg, 58, 0) {
        None => spec_w_other(),
        Some(c) => spec_lower_seq(
            spec_trim(spec_strip_excl(spec_before_scope(msg.subrange(0, c)))),
        ),
    }
}

/// The message marks a breaking change: a literal `!` anywhere, or the
/// words "breaking change" in any casing.
pub open spec fn spec_is_breaking(msg: Seq<u8>) -> bool {
    ||| spec_find_byte(msg, 33, 0) is Some
    ||| spec_contains(spec_lower_seq(msg), spec_w_breaking())
}

/// Exec classification of one message into its type and breaking mark.
pub fn classify_commit(msg: &Vec<u8>) -> (r: (Vec<u8>, bool))
    ensures
        r.0@ == spec_commit_type(msg@),
        r.1 == spec_is_breaking(msg@),
{
    let breaking = match find_byte(msg, 33, 0) {
        Some(_) => true,
        None => {
            let low = lower_bytes(msg);
            let pat = w_breaking();
            contains_sub(&low, &pat)
        },
    };
    proof {
        lemma_find_byte_props(msg@, 58, 0);
    }
    let tp = match find_byte(msg, 58, 0) {
        None => {
            return (w_other(), breaking);
        },
        Some(c) => copy_range(msg, 0, c),
    };
    let tp2 = match find_byte(&tp, 40, 0) {
        Some(p) => {
            proof {
                lemma_find_byte_props(tp@, 40, 0);
            }
            copy_range(&tp, 0, p)
        },
        None => tp,
    };
    let stripped = strip_excl(&tp2);
    let trimmed = trim_bytes(&stripped);
    let lowered = lower_bytes(&trimmed);
    (lowered, breaking)
}

// ---------------------------------------------------------------------------
// The version bump
// ---------------------------------------------------------------------------

/// Some commit, once trimmed, is breaking.
pub open spec fn spec_any_breaking(msgs: Seq<Seq<u8>>) -> bool {
    exists|i: int| 0 <= i < msgs.len() && spec_is_breaking(spec_trim(#[trigger] msgs[i]))
}

/// Some non-breaking commit carries a feature type.
pub open spec fn spec_any_feature(msgs: Seq<Seq<u8>>) -> bool {
    exists|i: int|
        0 <= i < msgs.len() && !spec_is_breaking(spec_trim(#[trigger] msgs[i])) && (
        spec_commit_type(spec_trim(msgs[i])) == spec_w_feat() || spec_commit_type(
            spec_trim(msgs[i]),
        ) == spec_w_feature())
}

/// The next version implied by a commit set: any breaking commit bumps
/// the major part; else any feature commit bumps the minor part; else
/// the patch part is bumped — a release always releases something.
pub open spec fn spec_next_version(msgs: Seq<Seq<u8>>, cur: crate::version::Version)
    -> crate::version::Version {
    if spec_any_breaking(msgs) {
        crate::version::Version { major: (cur.major + 1) as u64, minor: 0, patch: 0 }
    } else if spec_any_feature(msgs) {
        crate::version::Version { major: cur.major, minor: (cur.minor + 1) as u64, patch: 0 }
    } else {
        crate::version::Version { major: cur.major, minor: cur.minor, patch: (cur.patch + 1) as u64 }
    }
}

/// A breaking commit always yields `(major+1, 0, 0)`, whatever other
/// commits stand beside it.
pub proof fn lemma_bump_breaking(msgs: Seq<Seq<u8>>, i: int, cur: crate::version::Version)
    requires
        0 <= i < msgs.len(),
        spec_is_breaking(spec_trim(msgs[i])),
        cur.major < u64::MAX,
    ensures
        spec_next_version(msgs, cur) == (crate::version::Version {
            major: (cur.major + 1) as u64,
            minor: 0,
            patch: 0,
        }),
{
    assert(spec_any_breaking(msgs));
}

/// The bump is monotonic: ordered current versions give ordered next
/// versions, whatever the commit set.
pub proof fn lemma_bump_monotonic(
    msgs: Seq<Seq<u8>>,
    v1: crate::version::Version,
    v2: crate::version::Version,
)
    requires
        v1.spec_lt(v2),
        v1.major < u64::MAX && v1.minor < u64::MAX && v1.patch < u64::MAX,
        v2.major < u64::MAX && v2.minor < u64::MAX && v2.patch < u64::MAX,
    ensures
        spec_next_version(msgs, v1).spec_le(spec_next_version(msgs, v2)),
{
}

} // verus!
