//! The release computation: grouping commits into a changelog, picking
//! the next version, selecting the last release tag, and reading or
//! rewriting the manifest's version — all on plain values, so a caller
//! owns every file and repository access.

use vstd::prelude::*;
use crate::scan::{spec_find_byte, lemma_find_byte_props, lemma_find_byte_is, find_byte, copy_range};
use crate::doc::{TomlDoc, doc_wf, doc_text, push_bytes, serialize};
use crate::parse::{parse, parse_rejected};
use crate::edit::{clone_bytes, eq_bytes, spec_field_string, get_field_string, set_field_string,
    FieldOutcome, spec_target, plain_str_text, entry_value_set};
use crate::words::{word_package, word_version};
use crate::version::{Version, version_text, spec_parse_version};
use crate::commits::{spec_trim, trim_bytes, spec_commit_type, spec_is_breaking, classify_commit,
    spec_any_breaking, spec_any_feature, spec_next_version, spec_w_feat, spec_w_feature,
    spec_w_fix, w_feat, w_feature, w_fix, is_sub_at, match_at};

verus! {

/// Options of the release command.
pub struct ReleaseOptions {
    /// Directory holding the manifest; the caller resolves it.
    pub path: Option<Vec<u8>>,
    /// Compute and report only; never write or run anything.
    pub dry_run: bool,
    /// Skip the interactive confirmations.
    pub yes: bool,
    /// Offer to publish after the release is created.
    pub publish: bool,
    /// Registry to publish to, if any.
    pub registry: Option<Vec<u8>>,
}

/// Why a release computation stopped.
#[derive(Clone, Copy, PartialEq, Eq, Structural, Debug)]
pub enum ReleaseError {
    /// The manifest text does not parse.
    ManifestInvalid,
    /// No string `version` under a `package` table.
    VersionMissing,
    /// The version string is not `major.minor.patch`.
    VersionUnparsable,
    /// The version set command found no section to write to.
    PackageSectionMissing,
    /// The version set command found the section but no `version` key.
    VersionKeyMissing,
    /// The current version part to bump is already at its limit.
    VersionOverflow,
    /// A release step was fed out of order.
    OutOfOrder,
}

impl ReleaseError {
    /// The user-facing description.
    pub fn message(&self) -> &'static str {
        match self {
            ReleaseError::ManifestInvalid => "Could not parse Cargo.toml",
            ReleaseError::VersionMissing => "Could not find package version in Cargo.toml",
            ReleaseError::VersionUnparsable => "Failed to parse current version",
            ReleaseError::PackageSectionMissing => "Package section not found in Cargo.toml",
            ReleaseError::VersionKeyMissing => "Version key not found in package section",
            ReleaseError::VersionOverflow => "Version part cannot be incremented further",
            ReleaseError::OutOfOrder => "Release step out of order",
        }
    }
}

// ---------------------------------------------------------------------------
// Changelog sections
// ---------------------------------------------------------------------------

/// `### ⚠ BREAKING CHANGES` and a blank line, in UTF-8 bytes.
pub open spec fn spec_hdr_breaking() -> Seq<u8> {
    seq![35u8, 35, 35, 32, 226, 154, 160, 32, 66, 82, 69, 65, 75, 73, 78, 71, 32, 67, 72, 65, 78,
        71, 69, 83, 10, 10]
}

/// `### Features` and a blank line.
pub open spec fn spec_hdr_features() -> Seq<u8> {
    seq![35u8, 35, 35, 32, 70, 101, 97, 116, 117, 114, 101, 115, 10, 10]
}

/// `### Bug Fixes` and a blank line.
pub open spec fn spec_hdr_fixes() -> Seq<u8> {
    seq![35u8, 35, 35, 32, 66, 117, 103, 32, 70, 105, 120, 101, 115, 10, 10]
}

/// `### Other Changes` and a blank line.
pub open spec fn spec_hdr_other() -> Seq<u8> {
    seq![35u8, 35, 35, 32, 79, 116, 104, 101, 114, 32, 67, 104, 97, 110, 103, 101, 115, 10, 10]
}

/// `No changes since last release`.
pub open spec fn spec_no_changes() -> Seq<u8> {
    seq![78u8, 111, 32, 99, 104, 97, 110, 103, 101, 115, 32, 115, 105, 110, 99, 101, 32, 108, 97,
        115, 116, 32, 114, 101, 108, 101, 97, 115, 101]
}

fn hdr_breaking() -> (r: Vec<u8>)
    ensures
        r@ == spec_hdr_breaking(),
{
    let mut r: Vec<u8> = Vec::new();
    r.push(35);
    r.push(35);
    r.push(35);
    r.push(32);
    r.push(226);
    r.push(154);
    r.push(160);
    r.push(32);
    r.push(66);
    r.push(82);
    r.push(69);
    r.push(65);
    r.push(75);
    r.push(73);
    r.push(78);
    r.push(71);
    r.push(32);
    r.push(67);
    r.push(72);
    r.push(65);
    r.push(78);
    r.push(71);
    r.push(69);
    r.push(83);
    r.push(10);
    r.push(10);
    proof {
        assert(r@ =~= spec_hdr_breaking());
    }
    r
}

fn hdr_features() -> (r: Vec<u8>)
    ensures
        r@ == spec_hdr_features(),
{
    let mut r: Vec<u8> = Vec::new();
    r.push(35);
    r.push(35);
    r.push(35);
    r.push(32);
    r.push(70);
    r.push(101);
    r.push(97);
    r.push(116);
    r.push(117);
    r.push(114);
    r.push(101);
    r.push(115);
    r.push(10);
    r.push(10);
    proof {
        assert(r@ =~= spec_hdr_features());
    }
    r
}

fn hdr_fixes() -> (r: Vec<u8>)
    ensures
        r@ == spec_hdr_fixes(),
{
    let mut r: Vec<u8> = Vec::new();
    r.push(35);
    r.push(35);
    r.push(35);
    r.push(32);
    r.push(66);
    r.push(117);
    r.push(103);
    r.push(32);
    r.push(70);
    r.push(105);
    r.push(120);
    r.push(101);
    r.push(115);
    r.push(10);
    r.push(10);
    proof {
        assert(r@ =~= spec_hdr_fixes());
    }
    r
}

fn hdr_other() -> (r: Vec<u8>)
    ensures
        r@ == spec_hdr_other(),
{
    let mut r: Vec<u8> = Vec::new();
    r.push(35);
    r.push(35);
    r.push(35);
    r.push(32);
    r.push(79);
    r.push(116);
    r.push(104);
    r.push(101);
    r.push(114);
    r.push(32);
    r.push(67);
    r.push(104);
    r.push(97);
    r.push(110);
    r.push(103);
    r.push(101);
    r.push(115);
    r.push(10);
    r.push(10);
    proof {
        assert(r@ =~= spec_hdr_other());
    }
    r
}

fn no_changes_text() -> (r: Vec<u8>)
    ensures
        r@ == spec_no_changes(),
{
    let mut r: Vec<u8> = Vec::new();
    r.push(78);
    r.push(111);
    r.push(32);
    r.push(99);
    r.push(104);
    r.push(97);
    r.push(110);
    r.push(103);
    r.push(101);
    r.push(115);
    r.push(32);
    r.push(115);
    r.push(105);
    r.push(110);
    r.push(99);
    r.push(101);
    r.push(32);
    r.push(108);
    r.push(97);
    r.push(115);
    r.push(116);
    r.push(32);
    r.push(114);
    r.push(101);
    r.push(108);
    r.push(101);
    r.push(97);
    r.push(115);
    r.push(101);
    proof {
        assert(r@ =~= spec_no_changes());
    }
    r
}

/// `- item` lines, one per entry.
pub open spec fn spec_dash_list(items: Seq<Seq<u8>>) -> Seq<u8>
    decreases items.len(),
{
    if items.len() == 0 {
        Seq::empty()
    } else {
        spec_dash_list(items.drop_last()) + seq![45u8, 32] + items.last() + seq![10u8]
    }
}

/// One changelog section: its header, the item lines, a blank line;
/// nothing at all when there are no items.
pub open spec fn spec_section(hdr: Seq<u8>, items: Seq<Seq<u8>>) -> Seq<u8> {
    if items.len() == 0 {
        Seq::empty()
    } else {
        hdr + spec_dash_list(items) + seq![10u8]
    }
}

/// Trailing whitespace dropped.
pub open spec fn spec_trim_end(s: Seq<u8>) -> Seq<u8> {
    s.subrange(0, crate::commits::spec_rtrim(s))
}

/// The whole changelog: breaking, features, fixes, other, in that fixed
/// order, trailing blank lines dropped; a fixed notice when empty.
pub open spec fn spec_changelog(
    breaking: Seq<Seq<u8>>,
    features: Seq<Seq<u8>>,
    fixes: Seq<Seq<u8>>,
    other: Seq<Seq<u8>>,
) -> Seq<u8> {
    let w = spec_section(spec_hdr_breaking(), breaking) + spec_section(
        spec_hdr_features(),
        features,
    ) + spec_section(spec_hdr_fixes(), fixes) + spec_section(spec_hdr_other(), other);
    if w.len() == 0 {
        spec_no_changes()
    } else {
        spec_trim_end(w)
    }
}

/// Append one section to the output.
fn push_section(out: &mut Vec<u8>, hdr: &Vec<u8>, items: &Vec<Vec<u8>>)
    ensures
        final(out)@ == old(out)@ + spec_section(hdr@, items.deep_view()),
{
    if items.len() == 0 {
        proof {
            assert(items.deep_view().len() == 0);
            assert(out@ =~= old(out)@ + spec_section(hdr@, items.deep_view()));
        }
        return;
    }
    push_bytes(out, hdr);
    let ghost dv = items.deep_view();
    let mut i: usize = 0;
    while i < items.len()
        invariant
            0 <= i <= items@.len(),
            dv == items.deep_view(),
            dv.len() == items@.len(),
            out@ == old(out)@ + hdr@ + spec_dash_list(dv.take(i as int)),
        decreases items@.len() - i,
    {
        out.push(45);
        out.push(32);
        push_bytes(out, &items[i]);
        out.push(10);
        i = i + 1;
        proof {
            assert(dv.take(i as int).drop_last() =~= dv.take(i - 1));
            assert(dv.take(i as int).last() == dv[i - 1]);
            assert(dv[i - 1] =~= items@[i - 1]@);
            assert(out@ =~= old(out)@ + hdr@ + spec_dash_list(dv.take(i as int)));
        }
    }
    out.push(10);
    proof {
        assert(dv.take(dv.len() as int) =~= dv);
        assert(out@ =~= old(out)@ + spec_section(hdr@, dv));
    }
}

impl ReleaseOptions {
    /// Classify one commit message: its conventional type and whether it
    /// marks a breaking change.
    pub fn parse_conventional_commit(&self, message: &Vec<u8>) -> (r: (Vec<u8>, bool))
        ensures
            r.0@ == spec_commit_type(message@),
            r.1 == spec_is_breaking(message@),
    {
        classify_commit(message)
    }

    /// Render the grouped changelog in the fixed section order.
    pub fn format_git_cliff_compatible_changelog(
        &self,
        breaking_changes: &Vec<Vec<u8>>,
        features: &Vec<Vec<u8>>,
        fixes: &Vec<Vec<u8>>,
        other_changes: &Vec<Vec<u8>>,
    ) -> (r: Vec<u8>)
        ensures
            r@ == spec_changelog(
                breaking_changes.deep_view(),
                features.deep_view(),
                fixes.deep_view(),
                other_changes.deep_view(),
            ),
    {
        let mut out: Vec<u8> = Vec::new();
        let h1 = hdr_breaking();
        push_section(&mut out, &h1, breaking_changes);
        let h2 = hdr_features();
        push_section(&mut out, &h2, features);
        let h3 = hdr_fixes();
        push_section(&mut out, &h3, fixes);
        let h4 = hdr_other();
        push_section(&mut out, &h4, other_changes);
        if out.len() == 0 {
            return no_changes_text();
        }
        // drop trailing blank lines
        let mut b = out.len();
        proof {
            assert(out@.subrange(0, out@.len() as int) =~= out@);
        }
        while b > 0 && (out[b - 1] == 32 || out[b - 1] == 9 || out[b - 1] == 10 || out[b - 1]
            == 13)
            invariant
                0 <= b <= out@.len(),
                crate::commits::spec_rtrim(out@) == crate::commits::spec_rtrim(
                    out@.subrange(0, b as int),
                ),
            decreases b,
        {
            b = b - 1;
            proof {
                assert(out@.subrange(0, b + 1).drop_last() =~= out@.subrange(0, b as int));
                assert(out@.subrange(0, b + 1).last() == out@[b as int]);
            }
        }
        proof {
            if b > 0 {
                assert(out@.subrange(0, b as int).last() == out@[b - 1]);
                assert(crate::commits::spec_rtrim(out@) == b as int);
            } else {
                assert(out@.subrange(0, 0).len() == 0);
                assert(crate::commits::spec_rtrim(out@) == 0);
            }
        }
        copy_range(&out, 0, b)
    }
}

// ---------------------------------------------------------------------------
// Grouping commits
// ---------------------------------------------------------------------------

/// The trimmed message is a feature.
pub open spec fn is_feature_msg(t: Seq<u8>) -> bool {
    !spec_is_breaking(t) && (spec_commit_type(t) == spec_w_feat() || spec_commit_type(t)
        == spec_w_feature())
}

/// The trimmed message is a fix.
pub open spec fn is_fix_msg(t: Seq<u8>) -> bool {
    !spec_is_breaking(t) && spec_commit_type(t) == spec_w_fix()
}

/// The trimmed message is neither breaking nor feature nor fix.
pub open spec fn is_other_msg(t: Seq<u8>) -> bool {
    !spec_is_breaking(t) && spec_commit_type(t) != spec_w_feat() && spec_commit_type(t)
        != spec_w_feature() && spec_commit_type(t) != spec_w_fix()
}

/// The breaking messages, trimmed, in order.
pub open spec fn sel_breaking(msgs: Seq<Seq<u8>>) -> Seq<Seq<u8>>
    decreases msgs.len(),
{
    if msgs.len() == 0 {
        Seq::empty()
    } else {
        let rest = sel_breaking(msgs.drop_last());
        if spec_is_breaking(spec_trim(msgs.last())) {
            rest.push(spec_trim(msgs.last()))
        } else {
            rest
        }
    }
}

/// The feature messages, trimmed, in order.
pub open spec fn sel_features(msgs: Seq<Seq<u8>>) -> Seq<Seq<u8>>
    decreases msgs.len(),
{
    if msgs.len() == 0 {
        Seq::empty()
    } else {
        let rest = sel_features(msgs.drop_last());
        if is_feature_msg(spec_trim(msgs.last())) {
            rest.push(spec_trim(msgs.last()))
        } else {
            rest
        }
    }
}

/// The fix messages, trimmed, in order.
pub open spec fn sel_fixes(msgs: Seq<Seq<u8>>) -> Seq<Seq<u8>>
    decreases msgs.len(),
{
    if msgs.len() == 0 {
        Seq::empty()
    } else {
        let rest = sel_fixes(msgs.drop_last());
        if is_fix_msg(spec_trim(msgs.last())) {
            rest.push(spec_trim(msgs.last()))
        } else {
            rest
        }
    }
}

/// The remaining messages, trimmed, in order.
pub open spec fn sel_other(msgs: Seq<Seq<u8>>) -> Seq<Seq<u8>>
    decreases msgs.len(),
{
    if msgs.len() == 0 {
        Seq::empty()
    } else {
        let rest = sel_other(msgs.drop_last());
        if is_other_msg(spec_trim(msgs.last())) {
            rest.push(spec_trim(msgs.last()))
        } else {
            rest
        }
    }
}

/// How one more message extends the bump conditions.
proof fn lemma_any_take_step(msgs: Seq<Seq<u8>>, i: int)
    requires
        0 <= i < msgs.len(),
    ensures
        spec_any_breaking(msgs.take(i + 1)) == (spec_any_breaking(msgs.take(i))
            || spec_is_breaking(spec_trim(msgs[i]))),
        spec_any_feature(msgs.take(i + 1)) == (spec_any_feature(msgs.take(i)) || is_feature_msg(
            spec_trim(msgs[i]),
        )),
{
    let a = msgs.take(i);
    let b = msgs.take(i + 1);
    assert(b[i] == msgs[i]);
    if spec_any_breaking(b) {
        let w = choose|t: int| 0 <= t < b.len() && spec_is_breaking(spec_trim(#[trigger] b[t]));
        if w < i {
            assert(a[w] == b[w]);
            assert(spec_any_breaking(a));
        }
    }
    if spec_any_breaking(a) {
        let w = choose|t: int| 0 <= t < a.len() && spec_is_breaking(spec_trim(#[trigger] a[t]));
        assert(b[w] == a[w]);
        assert(spec_any_breaking(b));
    }
    if spec_is_breaking(spec_trim(msgs[i])) {
        assert(spec_any_breaking(b));
    }
    if spec_any_feature(b) {
        let w = choose|t: int|
            0 <= t < b.len() && !spec_is_breaking(spec_trim(#[trigger] b[t])) && (spec_commit_type(
                spec_trim(b[t]),
            ) == spec_w_feat() || spec_commit_type(spec_trim(b[t])) == spec_w_feature());
        if w < i {
            assert(a[w] == b[w]);
            assert(spec_any_feature(a));
        }
    }
    if spec_any_feature(a) {
        let w = choose|t: int|
            0 <= t < a.len() && !spec_is_breaking(spec_trim(#[trigger] a[t])) && (spec_commit_type(
                spec_trim(a[t]),
            ) == spec_w_feat() || spec_commit_type(spec_trim(a[t])) == spec_w_feature());
        assert(b[w] == a[w]);
        assert(spec_any_feature(b));
    }
    if is_feature_msg(spec_trim(msgs[i])) {
        assert(spec_any_feature(b));
    }
}

impl ReleaseOptions {
    /// Compute the next version from a set of commit messages: breaking
    /// bumps major, else a feature bumps minor, else patch is bumped.
    pub fn compute_version_from_git_cliff_commits(
        &self,
        messages: &Vec<Vec<u8>>,
        current_version: &Version,
    ) -> (r: Version)
        requires
            current_version.major < u64::MAX,
            current_version.minor < u64::MAX,
            current_version.patch < u64::MAX,
        ensures
            r == spec_next_version(messages.deep_view(), *current_version),
    {
        let ghost dv = messages.deep_view();
        let mut any_breaking = false;
        let mut any_feature = false;
        let fw = w_feat();
        let fw2 = w_feature();
        let mut i: usize = 0;
        while i < messages.len()
            invariant
                0 <= i <= messages@.len(),
                dv == messages.deep_view(),
                dv.len() == messages@.len(),
                any_breaking == spec_any_breaking(dv.take(i as int)),
                any_feature == spec_any_feature(dv.take(i as int)),
                fw@ == spec_w_feat(),
                fw2@ == spec_w_feature(),
            decreases messages@.len() - i,
        {
            proof {
                assert(dv[i as int] =~= messages@[i as int]@);
            }
            let t = trim_bytes(&messages[i]);
            let (ty, brk) = classify_commit(&t);
            if brk {
                any_breaking = true;
            } else if eq_bytes(&ty, &fw) || eq_bytes(&ty, &fw2) {
                any_feature = true;
            }
            i = i + 1;
            proof {
                lemma_any_take_step(dv, i - 1);
            }
        }
        proof {
            assert(dv.take(dv.len() as int) =~= dv);
        }
        if any_breaking {
            Version { major: current_version.major + 1, minor: 0, patch: 0 }
        } else if any_feature {
            Version { major: current_version.major, minor: current_version.minor + 1, patch: 0 }
        } else {
            Version {
                major: current_version.major,
                minor: current_version.minor,
                patch: current_version.patch + 1,
            }
        }
    }

    /// Group the messages into changelog sections and compute the next
    /// version in one pass, as the release flow does.
    pub fn generate_git_cliff_compatible_changelog(
        &self,
        messages: &Vec<Vec<u8>>,
        current_version: &Version,
        use_git_cliff_style: bool,
    ) -> (r: (Vec<u8>, Version))
        requires
            current_version.major < u64::MAX,
            current_version.minor < u64::MAX,
            current_version.patch < u64::MAX,
        ensures
            r.1 == spec_next_version(messages.deep_view(), *current_version),
            r.0@ == spec_changelog(
                sel_breaking(messages.deep_view()),
                sel_features(messages.deep_view()),
                sel_fixes(messages.deep_view()),
                if use_git_cliff_style {
                    sel_other(messages.deep_view())
                } else {
                    Seq::<Seq<u8>>::empty()
                },
            ),
    {
        let ghost dv = messages.deep_view();
        let mut breaking_changes: Vec<Vec<u8>> = Vec::new();
        let mut features: Vec<Vec<u8>> = Vec::new();
        let mut fixes: Vec<Vec<u8>> = Vec::new();
        let mut other_changes: Vec<Vec<u8>> = Vec::new();
        let mut any_breaking = false;
        let mut any_feature = false;
        let fw = w_feat();
        let fw2 = w_feature();
        let xw = w_fix();
        let mut i: usize = 0;
        while i < messages.len()
            invariant
                0 <= i <= messages@.len(),
                dv == messages.deep_view(),
                dv.len() == messages@.len(),
                breaking_changes.deep_view() == sel_breaking(dv.take(i as int)),
                features.deep_view() == sel_features(dv.take(i as int)),
                fixes.deep_view() == sel_fixes(dv.take(i as int)),
                use_git_cliff_style ==> other_changes.deep_view() == sel_other(dv.take(i as int)),
                !use_git_cliff_style ==> other_changes.deep_view() == Seq::<Seq<u8>>::empty(),
                any_breaking == spec_any_breaking(dv.take(i as int)),
                any_feature == spec_any_feature(dv.take(i as int)),
                fw@ == spec_w_feat(),
                fw2@ == spec_w_feature(),
                xw@ == spec_w_fix(),
            decreases messages@.len() - i,
        {
            proof {
                assert(dv[i as int] =~= messages@[i as int]@);
            }
            let t = trim_bytes(&messages[i]);
            let (ty, brk) = classify_commit(&t);
            let ghost before_b = breaking_changes.deep_view();
            let ghost before_f = features.deep_view();
            let ghost before_x = fixes.deep_view();
            let ghost before_o = other_changes.deep_view();
            if brk {
                any_breaking = true;
                breaking_changes.push(t);
                proof {
                    assert(breaking_changes.deep_view() =~~= before_b.push(
                        spec_trim(dv[i as int]),
                    ));
                }
            } else if eq_bytes(&ty, &fw) || eq_bytes(&ty, &fw2) {
                any_feature = true;
                features.push(t);
                proof {
                    assert(features.deep_view() =~~= before_f.push(spec_trim(dv[i as int])));
                }
            } else if eq_bytes(&ty, &xw) {
                fixes.push(t);
                proof {
                    assert(fixes.deep_view() =~~= before_x.push(spec_trim(dv[i as int])));
                }
            } else if use_git_cliff_style {
                other_changes.push(t);
                proof {
                    assert(other_changes.deep_view() =~~= before_o.push(spec_trim(dv[i as int])));
                }
            }
            i = i + 1;
            proof {
                lemma_any_take_step(dv, i - 1);
                assert(dv.take(i as int).drop_last() =~= dv.take(i - 1));
                assert(dv.take(i as int).last() == dv[i - 1]);
            }
        }
        proof {
            assert(dv.take(dv.len() as int) =~= dv);
        }
        let next = if any_breaking {
            Version { major: current_version.major + 1, minor: 0, patch: 0 }
        } else if any_feature {
            Version { major: current_version.major, minor: current_version.minor + 1, patch: 0 }
        } else {
            Version {
                major: current_version.major,
                minor: current_version.minor,
                patch: current_version.patch + 1,
            }
        };
        let changelog = self.format_git_cliff_compatible_changelog(
            &breaking_changes,
            &features,
            &fixes,
            &other_changes,
        );
        (changelog, next)
    }
}

// ---------------------------------------------------------------------------
// Tags
// ---------------------------------------------------------------------------

/// The version a tag names, after an optional leading `v`.
pub open spec fn spec_tag_version(t: Seq<u8>) -> Option<Version> {
    if t.len() > 0 && t[0] == 118 {
        spec_parse_version(t.subrange(1, t.len() as int))
    } else {
        spec_parse_version(t)
    }
}

/// The latest release tag: among the tags naming a version, one with the
/// greatest version; on equal versions the later tag wins.
pub open spec fn spec_best_tag(tags: Seq<Seq<u8>>) -> Option<Seq<u8>>
    decreases tags.len(),
{
    if tags.len() == 0 {
        None
    } else {
        let prev = spec_best_tag(tags.drop_last());
        let t = tags.last();
        match spec_tag_version(t) {
            None => prev,
            Some(v) => match prev {
                None => Some(t),
                Some(pt) => match spec_tag_version(pt) {
                    Some(pv) => if pv.spec_le(v) {
                        Some(t)
                    } else {
                        prev
                    },
                    None => Some(t),
                },
            },
        }
    }
}

/// The selected tag names a version at least as high as every version
/// named by any tag of the list: it is a maximum under semantic-version
/// order.
pub proof fn lemma_best_tag_is_max(tags: Seq<Seq<u8>>, k: int)
    requires
        0 <= k < tags.len(),
        spec_tag_version(tags[k]) is Some,
    ensures
        spec_best_tag(tags) is Some,
        spec_tag_version(spec_best_tag(tags)->Some_0) is Some,
        spec_tag_version(tags[k])->Some_0.spec_le(
            spec_tag_version(spec_best_tag(tags)->Some_0)->Some_0,
        ),
    decreases tags.len(),
{
    let t = tags.last();
    let prev = spec_best_tag(tags.drop_last());
    if k == tags.len() - 1 {
        if prev is Some && spec_tag_version(prev->Some_0) is Some {
            lemma_best_tag_is_max_prev(tags);
        }
    } else {
        assert(tags.drop_last()[k] == tags[k]);
        lemma_best_tag_is_max(tags.drop_last(), k);
    }
}

/// Helper: with a sound previous best, appending one more tag keeps the
/// best at least as high as the previous best.
proof fn lemma_best_tag_is_max_prev(tags: Seq<Seq<u8>>)
    requires
        tags.len() > 0,
        spec_best_tag(tags.drop_last()) is Some,
        spec_tag_version(spec_best_tag(tags.drop_last())->Some_0) is Some,
    ensures
        spec_best_tag(tags) is Some,
        spec_tag_version(spec_best_tag(tags)->Some_0) is Some,
        spec_tag_version(spec_best_tag(tags.drop_last())->Some_0)->Some_0.spec_le(
            spec_tag_version(spec_best_tag(tags)->Some_0)->Some_0,
        ),
{
}

impl ReleaseOptions {
    /// Pick the latest release tag from a tag list; tags that name no
    /// version are ignored.
    pub fn get_last_release_tag(&self, tags: &Vec<Vec<u8>>) -> (r: Option<Vec<u8>>)
        ensures
            match r {
                Some(t) => spec_best_tag(tags.deep_view()) == Some(t@),
                None => spec_best_tag(tags.deep_view()) is None,
            },
    {
        let ghost dv = tags.deep_view();
        let mut best: Option<(Vec<u8>, Version)> = None;
        let mut i: usize = 0;
        while i < tags.len()
            invariant
                0 <= i <= tags@.len(),
                dv == tags.deep_view(),
                dv.len() == tags@.len(),
                match best {
                    None => spec_best_tag(dv.take(i as int)) is None,
                    Some((bt, bv)) => spec_best_tag(dv.take(i as int)) == Some(bt@)
                        && spec_tag_version(bt@) == Some(bv),
                },
            decreases tags@.len() - i,
        {
            proof {
                assert(dv[i as int] =~= tags@[i as int]@);
            }
            let tag = &tags[i];
            let v_opt = if tag.len() > 0 && tag[0] == 118 {
                let bare = copy_range(tag, 1, tag.len());
                Version::parse(&bare)
            } else {
                Version::parse(tag)
            };
            if let Some(v) = v_opt {
                let replace = match &best {
                    None => true,
                    Some((_, bv)) => bv.le(&v),
                };
                if replace {
                    best = Some((clone_bytes(tag), v));
                }
            }
            i = i + 1;
            proof {
                assert(dv.take(i as int).drop_last() =~= dv.take(i - 1));
                assert(dv.take(i as int).last() == dv[i - 1]);
            }
        }
        proof {
            assert(dv.take(dv.len() as int) =~= dv);
        }
        match best {
            None => None,
            Some((bt, _)) => Some(bt),
        }
    }
}

// ---------------------------------------------------------------------------
// Reading and writing the manifest's version
// ---------------------------------------------------------------------------

/// The changelog the release flow renders from a commit set: the three
/// fixed sections, no catch-all group.
pub open spec fn spec_changelog_of(msgs: Seq<Seq<u8>>) -> Seq<u8> {
    spec_changelog(sel_breaking(msgs), sel_features(msgs), sel_fixes(msgs), Seq::empty())
}

/// Some sound document renders to `src` and carries `v` as its package
/// version string.
pub open spec fn manifest_version_is(src: Seq<u8>, v: Version) -> bool {
    exists|d: TomlDoc|
        #[trigger] doc_wf(d) && doc_text(d) == src && {
            let s = spec_field_string(
                d.lines@,
                crate::words::spec_word_package(),
                crate::words::spec_word_version(),
            );
            s is Some && spec_parse_version(s->Some_0) == Some(v)
        }
}

/// Some sound document renders to `src` and has no string version field.
pub open spec fn manifest_version_missing(src: Seq<u8>) -> bool {
    exists|d: TomlDoc|
        #[trigger] doc_wf(d) && doc_text(d) == src && spec_field_string(
            d.lines@,
            crate::words::spec_word_package(),
            crate::words::spec_word_version(),
        ) is None
}

/// Some sound document renders to `src` whose version string names no
/// version.
pub open spec fn manifest_version_unparsable(src: Seq<u8>) -> bool {
    exists|d: TomlDoc|
        #[trigger] doc_wf(d) && doc_text(d) == src && {
            let s = spec_field_string(
                d.lines@,
                crate::words::spec_word_package(),
                crate::words::spec_word_version(),
            );
            s is Some && spec_parse_version(s->Some_0) is None
        }
}

/// `out` is `src` with exactly the package version field's value token
/// replaced by `v`'s text, through sound documents.
pub open spec fn updated_manifest(src: Seq<u8>, v: Version, out: Seq<u8>) -> bool {
    exists|d: TomlDoc, d2: TomlDoc|
        #![trigger doc_wf(d), doc_wf(d2)]
        {
            let t = spec_target(
                d.lines@,
                crate::words::spec_word_package(),
                crate::words::spec_word_version(),
            );
            &&& doc_wf(d)
            &&& doc_text(d) == src
            &&& t is Some
            &&& doc_wf(d2)
            &&& d2.lines@.len() == d.lines@.len()
            &&& forall|m: int|
                0 <= m < d.lines@.len() && m != t->Some_0 ==> d2.lines@[m] == #[trigger] d.lines@[m]
            &&& entry_value_set(d.lines@[t->Some_0], d2.lines@[t->Some_0], version_text(v))
            &&& out == doc_text(d2)
        }
}

/// The version field is absent though a package section exists in some
/// sound document rendering to `src`.
pub open spec fn update_key_missing(src: Seq<u8>) -> bool {
    exists|d: TomlDoc|
        #[trigger] doc_wf(d) && doc_text(d) == src && spec_target(
            d.lines@,
            crate::words::spec_word_package(),
            crate::words::spec_word_version(),
        ) is None && crate::edit::spec_section_present(
            d.lines@,
            crate::words::spec_word_package(),
        )
}

/// No package section exists in some sound document rendering to `src`.
pub open spec fn update_section_missing(src: Seq<u8>) -> bool {
    exists|d: TomlDoc|
        #[trigger] doc_wf(d) && doc_text(d) == src && spec_target(
            d.lines@,
            crate::words::spec_word_package(),
            crate::words::spec_word_version(),
        ) is None && !crate::edit::spec_section_present(
            d.lines@,
            crate::words::spec_word_package(),
        )
}

impl ReleaseOptions {
    /// Read the package version out of manifest text: the manifest must
    /// parse, carry a string `version` in its package table, and that
    /// string must name a version.
    pub fn get_current_version(&self, manifest: &Vec<u8>) -> (r: Result<Version, ReleaseError>)
        ensures
            match r {
                Ok(v) => manifest_version_is(manifest@, v),
                Err(e) => match e {
                    ReleaseError::ManifestInvalid => parse_rejected(manifest@),
                    ReleaseError::VersionMissing => manifest_version_missing(manifest@),
                    ReleaseError::VersionUnparsable => manifest_version_unparsable(manifest@),
                    _ => false,
                },
            },
    {
        let doc = match parse(manifest) {
            Ok(d) => d,
            Err(_) => {
                return Err(ReleaseError::ManifestInvalid);
            },
        };
        let pw = word_package();
        let vw = word_version();
        match get_field_string(&doc, &pw, &vw) {
            None => {
                proof {
                    assert(doc_wf(doc) && doc_text(doc) == manifest@);
                }
                Err(ReleaseError::VersionMissing)
            },
            Some(s) => match Version::parse(&s) {
                Some(v) => {
                    proof {
                        assert(doc_wf(doc) && doc_text(doc) == manifest@);
                    }
                    Ok(v)
                },
                None => {
                    proof {
                        assert(doc_wf(doc) && doc_text(doc) == manifest@);
                    }
                    Err(ReleaseError::VersionUnparsable)
                },
            },
        }
    }

    /// Rewrite the manifest's package version to `version`: only that
    /// field's value token changes in the returned text. The release
    /// flow treats a missing field as fatal.
    pub fn update_version(&self, manifest: &Vec<u8>, version: &Version) -> (r: Result<
        Vec<u8>,
        ReleaseError,
    >)
        ensures
            match r {
                Ok(out) => updated_manifest(manifest@, *version, out@),
                Err(e) => match e {
                    ReleaseError::ManifestInvalid => parse_rejected(manifest@),
                    ReleaseError::VersionKeyMissing => update_key_missing(manifest@),
                    ReleaseError::PackageSectionMissing => update_section_missing(manifest@),
                    _ => false,
                },
            },
    {
        let mut doc = match parse(manifest) {
            Ok(d) => d,
            Err(_) => {
                return Err(ReleaseError::ManifestInvalid);
            },
        };
        let ghost d0 = doc;
        let vt = version.render();
        proof {
            crate::version::lemma_version_text_bytes(*version);
            assert(plain_str_text(vt@));
        }
        let pw = word_package();
        let vw = word_version();
        match set_field_string(&mut doc, &pw, &vw, &vt) {
            FieldOutcome::Updated => {
                let out = serialize(&doc);
                proof {
                    assert(doc_wf(d0) && doc_text(d0) == manifest@ && doc_wf(doc) && out@
                        == doc_text(doc));
                }
                Ok(out)
            },
            FieldOutcome::KeyMissing => {
                proof {
                    assert(doc_wf(d0) && doc_text(d0) == manifest@);
                }
                Err(ReleaseError::VersionKeyMissing)
            },
            FieldOutcome::SectionMissing => {
                proof {
                    assert(doc_wf(d0) && doc_text(d0) == manifest@);
                }
                Err(ReleaseError::PackageSectionMissing)
            },
        }
    }
}

// ---------------------------------------------------------------------------
// Extracting the release section of a rendered changelog
// ---------------------------------------------------------------------------

/// `## [`
pub open spec fn spec_m_open() -> Seq<u8> {
    seq![35u8, 35, 32, 91]
}

fn m_open() -> (r: Vec<u8>)
    ensures
        r@ == spec_m_open(),
{
    let mut r: Vec<u8> = Vec::new();
    r.push(35);
    r.push(35);
    r.push(32);
    r.push(91);
    proof {
        assert(r@ =~= spec_m_open());
    }
    r
}

/// `## unreleased`
pub open spec fn spec_m_unreleased() -> Seq<u8> {
    seq![35u8, 35, 32, 117, 110, 114, 101, 108, 101, 97, 115, 101, 100]
}

fn m_unreleased() -> (r: Vec<u8>)
    ensures
        r@ == spec_m_unreleased(),
{
    let mut r: Vec<u8> = Vec::new();
    r.push(35);
    r.push(35);
    r.push(32);
    r.push(117);
    r.push(110);
    r.push(114);
    r.push(101);
    r.push(108);
    r.push(101);
    r.push(97);
    r.push(115);
    r.push(101);
    r.push(100);
    proof {
        assert(r@ =~= spec_m_unreleased());
    }
    r
}

/// One trailing carriage return dropped.
pub open spec fn spec_strip_cr(s: Seq<u8>) -> Seq<u8> {
    if s.len() > 0 && s.last() == 13 {
        s.drop_last()
    } else {
        s
    }
}

/// The lines of a text, terminators dropped, as a line-reading iterator
/// would hand them out.
pub open spec fn spec_msg_lines(t: Seq<u8>) -> Seq<Seq<u8>>
    decreases t.len(),
{
    if t.len() == 0 {
        Seq::empty()
    } else {
        match spec_find_byte(t, 10, 0) {
            None => seq![spec_strip_cr(t)],
            Some(p) => if 0 <= p < t.len() {
                seq![spec_strip_cr(t.subrange(0, p))] + spec_msg_lines(
                    t.subrange(p + 1, t.len() as int),
                )
            } else {
                Seq::empty()
            },
        }
    }
}

/// The line opens a version section of a changelog.
pub open spec fn is_section_head(l: Seq<u8>) -> bool {
    is_sub_at(l, spec_m_open(), 0) || is_sub_at(l, spec_m_unreleased(), 0)
}

/// First section head at or after `i`.
pub open spec fn spec_sec_start(ls: Seq<Seq<u8>>, i: int) -> Option<int>
    decreases ls.len() - i,
{
    if i < 0 || i >= ls.len() {
        None
    } else if is_section_head(ls[i]) {
        Some(i)
    } else {
        spec_sec_start(ls, i + 1)
    }
}

proof fn lemma_sec_start_props(ls: Seq<Seq<u8>>, i: int)
    requires
        0 <= i,
    ensures
        match spec_sec_start(ls, i) {
            Some(k) => i <= k < ls.len(),
            None => true,
        },
    decreases ls.len() - i,
{
    if i < ls.len() && !is_section_head(ls[i]) {
        lemma_sec_start_props(ls, i + 1);
    }
}

/// Lines joined by single newlines.
pub open spec fn spec_join_nl(ls: Seq<Seq<u8>>) -> Seq<u8>
    decreases ls.len(),
{
    if ls.len() == 0 {
        Seq::empty()
    } else if ls.len() == 1 {
        ls[0]
    } else {
        ls[0] + seq![10u8] + spec_join_nl(ls.drop_first())
    }
}

proof fn lemma_join_nl_push(ls: Seq<Seq<u8>>, x: Seq<u8>)
    ensures
        spec_join_nl(ls.push(x)) == if ls.len() == 0 {
            x
        } else {
            spec_join_nl(ls) + seq![10u8] + x
        },
    decreases ls.len(),
{
    if ls.len() == 0 {
        assert(ls.push(x)[0] == x);
    } else if ls.len() == 1 {
        assert(ls.push(x)[0] == ls[0]);
        assert(ls.push(x).drop_first() =~= Seq::<Seq<u8>>::empty().push(x));
        assert(spec_join_nl(ls.push(x).drop_first()) == x);
    } else {
        lemma_join_nl_push(ls.drop_first(), x);
        assert(ls.push(x).drop_first() =~= ls.drop_first().push(x));
        assert(ls.push(x)[0] == ls[0]);
        assert(ls[0] + seq![10u8] + (spec_join_nl(ls.drop_first()) + seq![10u8] + x) =~= (ls[0]
            + seq![10u8] + spec_join_nl(ls.drop_first())) + seq![10u8] + x);
    }
}

/// The release section of a rendered changelog: everything from the
/// first version heading on (or the whole text when none is found),
/// whitespace-trimmed, with line endings normalized.
pub open spec fn spec_extract(t: Seq<u8>) -> Seq<u8> {
    let ls = spec_msg_lines(t);
    let st = match spec_sec_start(ls, 0) {
        Some(i) => i,
        None => 0,
    };
    spec_trim(spec_join_nl(ls.skip(st)))
}

/// Exec splitting into lines; mirrors `spec_msg_lines`.
fn split_msg_lines(t: &Vec<u8>) -> (r: Vec<Vec<u8>>)
    ensures
        r.deep_view() == spec_msg_lines(t@),
{
    let n = t.len();
    let mut acc: Vec<Vec<u8>> = Vec::new();
    let mut start: usize = 0;
    proof {
        assert(t@.subrange(0, n as int) =~= t@);
    }
    while start < n
        invariant
            0 <= start <= n == t@.len(),
            spec_msg_lines(t@) == acc.deep_view() + spec_msg_lines(
                t@.subrange(start as int, t@.len() as int),
            ),
        decreases n - start,
    {
        let ghost suffix = t@.subrange(start as int, t@.len() as int);
        proof {
            assert(forall|m: int|
                0 <= m < suffix.len() ==> #[trigger] suffix[m] == t@[start + m]);
            lemma_find_byte_props(t@, 10, start as int);
        }
        let (seg_end, next) = match find_byte(t, 10, start) {
            Some(p) => {
                proof {
                    lemma_find_byte_is(suffix, 10, 0, p - start);
                }
                (p, p + 1)
            },
            None => {
                proof {
                    lemma_find_byte_props(suffix, 10, 0);
                    if spec_find_byte(suffix, 10, 0) is Some {
                        let p = spec_find_byte(suffix, 10, 0)->Some_0;
                        assert(suffix[p] == 10);
                    }
                }
                (n, n)
            },
        };
        let cut = if seg_end > start && t[seg_end - 1] == 13 {
            seg_end - 1
        } else {
            seg_end
        };
        let seg = copy_range(t, start, cut);
        proof {
            let raw = suffix.subrange(0, seg_end - start);
            assert(raw =~= t@.subrange(start as int, seg_end as int));
            if seg_end > start && t@[seg_end - 1] == 13 {
                assert(raw.len() > 0 && raw.last() == 13);
                assert(spec_strip_cr(raw) =~= seg@);
            } else {
                assert(spec_strip_cr(raw) =~= seg@);
            }
            if seg_end < n {
                assert(suffix.subrange(seg_end - start + 1, suffix.len() as int) =~= t@.subrange(
                    next as int,
                    t@.len() as int,
                ));
            } else {
                assert(suffix.subrange(0, suffix.len() as int) =~= suffix);
            }
        }
        let ghost before = acc.deep_view();
        acc.push(seg);
        start = next;
        proof {
            assert(acc.deep_view() =~~= before.push(seg@));
            assert(before.push(seg@) + spec_msg_lines(
                t@.subrange(start as int, t@.len() as int),
            ) =~= before + (seq![seg@] + spec_msg_lines(
                t@.subrange(start as int, t@.len() as int),
            )));
        }
    }
    proof {
        assert(spec_msg_lines(t@.subrange(n as int, n as int)) =~= Seq::<Seq<u8>>::empty());
        assert(acc.deep_view() + Seq::<Seq<u8>>::empty() =~= acc.deep_view());
    }
    acc
}

/// First changelog line that opens a version section.
fn find_sec_head(lines: &Vec<Vec<u8>>, open_mark: &Vec<u8>, unrel_mark: &Vec<u8>) -> (r: Option<
    usize,
>)
    requires
        open_mark@ == spec_m_open(),
        unrel_mark@ == spec_m_unreleased(),
    ensures
        crate::scan::opt_int(r) == spec_sec_start(lines.deep_view(), 0),
        match r {
            Some(i) => i < lines@.len(),
            None => true,
        },
{
    let ghost dv = lines.deep_view();
    let mut i: usize = 0;
    while i < lines.len()
        invariant
            0 <= i <= lines@.len(),
            dv == lines.deep_view(),
            dv.len() == lines@.len(),
            open_mark@ == spec_m_open(),
            unrel_mark@ == spec_m_unreleased(),
            spec_sec_start(dv, 0) == spec_sec_start(dv, i as int),
        decreases lines@.len() - i,
    {
        proof {
            assert(dv[i as int] =~= lines@[i as int]@);
        }
        let l = &lines[i];
        let a = if open_mark.len() <= l.len() {
            match_at(l, open_mark, 0)
        } else {
            proof {
                assert(!is_sub_at(l@, open_mark@, 0));
            }
            false
        };
        let b = if unrel_mark.len() <= l.len() {
            match_at(l, unrel_mark, 0)
        } else {
            proof {
                assert(!is_sub_at(l@, unrel_mark@, 0));
            }
            false
        };
        if a || b {
            return Some(i);
        }
        i = i + 1;
    }
    None
}

impl ReleaseOptions {
    /// Cut a rendered changelog down to its release section: drop any
    /// preamble before the first version heading, and trim the result.
    pub fn extract_release_section(&self, changelog_text: &Vec<u8>) -> (r: Vec<u8>)
        ensures
            r@ == spec_extract(changelog_text@),
    {
        let lines = split_msg_lines(changelog_text);
        let ghost dv = lines.deep_view();
        let open_mark = m_open();
        let unrel_mark = m_unreleased();
        let st = match find_sec_head(&lines, &open_mark, &unrel_mark) {
            Some(i) => i,
            None => 0,
        };
        // join the kept lines with single newlines
        let mut out: Vec<u8> = Vec::new();
        let mut k: usize = st;
        let ghost st0 = k as int;
        let mut first = true;
        while k < lines.len()
            invariant
                st0 <= k <= lines@.len(),
                0 <= st0,
                dv == lines.deep_view(),
                dv.len() == lines@.len(),
                first == (k == st0),
                out@ == spec_join_nl(dv.subrange(st0, k as int)),
            decreases lines@.len() - k,
        {
            if !first {
                out.push(10);
            }
            push_bytes(&mut out, &lines[k]);
            first = false;
            k = k + 1;
            proof {
                assert(dv.subrange(st0, k as int) =~= dv.subrange(st0, k - 1).push(dv[k - 1]));
                lemma_join_nl_push(dv.subrange(st0, k - 1), dv[k - 1]);
                assert(dv[k - 1] =~= lines@[k - 1]@);
                assert(out@ =~= spec_join_nl(dv.subrange(st0, k as int)));
            }
        }
        proof {
            assert(dv.subrange(st0, dv.len() as int) =~= dv.skip(st0));
        }
        trim_bytes(&out)
    }
}

} // verus!
