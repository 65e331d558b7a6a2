//! The release flow as a state machine.
//!
//! The sequence is strict: read the version, discover the last release
//! tag, compute changelog and next version, then — unless this is a dry
//! run — write the manifest, create the release commit and tag, and
//! offer to push and to publish. The caller performs each requested
//! action and feeds the result back as the next event; every decision
//! is taken here.

use vstd::prelude::*;
use crate::version::{Version, version_text};
use crate::release::{ReleaseOptions, ReleaseError, spec_best_tag, spec_changelog_of,
    manifest_version_is, manifest_version_missing, manifest_version_unparsable, updated_manifest,
    update_key_missing, update_section_missing};
use crate::commits::spec_next_version;
use crate::parse::parse_rejected;
use crate::doc::push_bytes;

verus! {

/// Where the release flow stands. States carry exactly what later steps
/// still need.
pub enum ReleaseState {
    /// Nothing happened yet; the first action is to read the manifest.
    Start,
    /// The current version was read out of the manifest.
    VersionRead { manifest: Vec<u8>, current: Version },
    /// The last release tag was discovered; commits are being collected.
    TagDiscovered { manifest: Vec<u8>, current: Version },
    /// Changelog and next version are fixed and out for reporting.
    ChangelogComputed { manifest: Vec<u8>, next: Version, changelog: Vec<u8> },
    /// The report was logged; the manifest write is out.
    ManifestPrepared { next: Version, changelog: Vec<u8> },
    /// The manifest was written; the release commit and tag are out.
    ManifestWritten,
    /// The commit and tag exist; waiting for the push confirmation.
    PushPrompted,
    /// The push is underway.
    Pushing,
    /// Waiting for the publish confirmation.
    PublishPrompted,
    /// The publish is underway.
    Publishing,
    Done,
    Failed,
}

/// What the caller reports back.
pub enum ReleaseEvent {
    ManifestText { text: Vec<u8> },
    Tags { tags: Vec<Vec<u8>> },
    Commits { messages: Vec<Vec<u8>> },
    Reported,
    Written,
    Committed,
    PushAnswer { yes: bool },
    Pushed,
    PublishAnswer { yes: bool },
    Published,
}

/// What the caller is asked to do next.
pub enum ReleaseAction {
    ReadManifest,
    ListTags,
    /// Collect commit messages since this tag (all history when `None`).
    CollectCommits { since: Option<Vec<u8>> },
    /// Log the computed next version and the would-be changelog — on a
    /// dry run this is the whole point of the exercise.
    Report { next: Version, changelog: Vec<u8> },
    /// Replace the manifest file with these bytes.
    WriteManifest { text: Vec<u8> },
    /// Create the release commit with this message, then this tag.
    CreateCommitAndTag { message: Vec<u8>, tag: Vec<u8> },
    AskPush,
    Push,
    AskPublish,
    Publish,
    /// The flow is over; nothing further runs.
    Stop,
    Fail { error: ReleaseError },
}

/// Actions that change the repository, the registry, or the file tree.
pub open spec fn action_mutates(a: ReleaseAction) -> bool {
    match a {
        ReleaseAction::WriteManifest { .. } => true,
        ReleaseAction::CreateCommitAndTag { .. } => true,
        ReleaseAction::Push => true,
        ReleaseAction::Publish => true,
        _ => false,
    }
}

/// The release commit message: `release: v<version>`, a blank line, and
/// the changelog.
pub open spec fn spec_commit_msg(v: Version, changelog: Seq<u8>) -> Seq<u8> {
    seq![114u8, 101, 108, 101, 97, 115, 101, 58, 32, 118] + version_text(v) + seq![10u8, 10]
        + changelog
}

/// The tag name: `v<version>`.
pub open spec fn spec_tag_name(v: Version) -> Seq<u8> {
    seq![118u8] + version_text(v)
}

fn commit_msg(v: &Version, changelog: &Vec<u8>) -> (r: Vec<u8>)
    ensures
        r@ == spec_commit_msg(*v, changelog@),
{
    let mut r: Vec<u8> = Vec::new();
    r.push(114);
    r.push(101);
    r.push(108);
    r.push(101);
    r.push(97);
    r.push(115);
    r.push(101);
    r.push(58);
    r.push(32);
    r.push(118);
    let vt = v.render();
    push_bytes(&mut r, &vt);
    r.push(10);
    r.push(10);
    push_bytes(&mut r, changelog);
    proof {
        assert(r@ =~= spec_commit_msg(*v, changelog@));
    }
    r
}

fn tag_name(v: &Version) -> (r: Vec<u8>)
    ensures
        r@ == spec_tag_name(*v),
{
    let mut r: Vec<u8> = Vec::new();
    r.push(118);
    let vt = v.render();
    push_bytes(&mut r, &vt);
    proof {
        assert(r@ =~= spec_tag_name(*v));
    }
    r
}

/// The publish gate entered after the push stage: offer, run, or stop.
pub open spec fn publish_stage_rel(
    opts: ReleaseOptions,
    s2: ReleaseState,
    a: ReleaseAction,
) -> bool {
    if opts.publish {
        if opts.yes {
            if opts.dry_run {
                s2 is Done && a is Stop
            } else {
                s2 is Publishing && a is Publish
            }
        } else {
            s2 is PublishPrompted && a is AskPublish
        }
    } else {
        s2 is Done && a is Stop
    }
}

/// The exact transition relation of one release step.
pub open spec fn release_step_rel(
    opts: ReleaseOptions,
    s: ReleaseState,
    e: ReleaseEvent,
    s2: ReleaseState,
    a: ReleaseAction,
) -> bool {
    match (s, e) {
        (ReleaseState::Start, ReleaseEvent::ManifestText { text }) => match s2 {
            ReleaseState::VersionRead { manifest, current } => {
                &&& manifest@ == text@
                &&& manifest_version_is(text@, current)
                &&& a is ListTags
            },
            ReleaseState::Failed => match a {
                ReleaseAction::Fail { error } => match error {
                    ReleaseError::ManifestInvalid => parse_rejected(text@),
                    ReleaseError::VersionMissing => manifest_version_missing(text@),
                    ReleaseError::VersionUnparsable => manifest_version_unparsable(text@),
                    _ => false,
                },
                _ => false,
            },
            _ => false,
        },
        (ReleaseState::VersionRead { manifest, current }, ReleaseEvent::Tags { tags }) => match s2 {
            ReleaseState::TagDiscovered { manifest: m2, current: c2 } => {
                &&& m2@ == manifest@
                &&& c2 == current
                &&& match a {
                    ReleaseAction::CollectCommits { since } => match since {
                        Some(t) => spec_best_tag(tags.deep_view()) == Some(t@),
                        None => spec_best_tag(tags.deep_view()) is None,
                    },
                    _ => false,
                }
            },
            _ => false,
        },
        (
            ReleaseState::TagDiscovered { manifest, current },
            ReleaseEvent::Commits { messages },
        ) => {
            if current.major == u64::MAX || current.minor == u64::MAX || current.patch
                == u64::MAX {
                s2 is Failed && (a matches ReleaseAction::Fail {
                    error: ReleaseError::VersionOverflow,
                })
            } else {
                let next = spec_next_version(messages.deep_view(), current);
                match s2 {
                    ReleaseState::ChangelogComputed { manifest: m2, next: n2, changelog } => {
                        &&& m2@ == manifest@
                        &&& n2 == next
                        &&& changelog@ == spec_changelog_of(messages.deep_view())
                        &&& match a {
                            ReleaseAction::Report { next: rn, changelog: rc } => rn == next && rc@
                                == spec_changelog_of(messages.deep_view()),
                            _ => false,
                        }
                    },
                    _ => false,
                }
            }
        },
        (
            ReleaseState::ChangelogComputed { manifest, next, changelog },
            ReleaseEvent::Reported,
        ) => {
            if opts.dry_run {
                s2 is Done && a is Stop
            } else {
                match s2 {
                    ReleaseState::ManifestPrepared { next: n2, changelog: c2 } => {
                        &&& n2 == next
                        &&& c2@ == changelog@
                        &&& match a {
                            ReleaseAction::WriteManifest { text } => updated_manifest(
                                manifest@,
                                next,
                                text@,
                            ),
                            _ => false,
                        }
                    },
                    ReleaseState::Failed => match a {
                        ReleaseAction::Fail { error } => match error {
                            ReleaseError::ManifestInvalid => parse_rejected(manifest@),
                            ReleaseError::VersionKeyMissing => update_key_missing(manifest@),
                            ReleaseError::PackageSectionMissing => update_section_missing(
                                manifest@,
                            ),
                            _ => false,
                        },
                        _ => false,
                    },
                    _ => false,
                }
            }
        },
        (ReleaseState::ManifestPrepared { next, changelog }, ReleaseEvent::Written) => {
            if opts.dry_run {
                s2 is Done && a is Stop
            } else {
                s2 is ManifestWritten && match a {
                    ReleaseAction::CreateCommitAndTag { message, tag } => {
                        &&& message@ == spec_commit_msg(next, changelog@)
                        &&& tag@ == spec_tag_name(next)
                    },
                    _ => false,
                }
            }
        },
        (ReleaseState::ManifestWritten, ReleaseEvent::Committed) => {
            if opts.yes {
                if opts.dry_run {
                    s2 is Done && a is Stop
                } else {
                    s2 is Pushing && a is Push
                }
            } else {
                s2 is PushPrompted && a is AskPush
            }
        },
        (ReleaseState::PushPrompted, ReleaseEvent::PushAnswer { yes }) => {
            if yes && !opts.dry_run {
                s2 is Pushing && a is Push
            } else if yes {
                s2 is Done && a is Stop
            } else {
                publish_stage_rel(opts, s2, a)
            }
        },
        (ReleaseState::Pushing, ReleaseEvent::Pushed) => publish_stage_rel(opts, s2, a),
        (ReleaseState::PublishPrompted, ReleaseEvent::PublishAnswer { yes }) => {
            if yes && !opts.dry_run {
                s2 is Publishing && a is Publish
            } else {
                s2 is Done && a is Stop
            }
        },
        (ReleaseState::Publishing, ReleaseEvent::Published) => s2 is Done && a is Stop,
        _ => s2 is Failed && (a matches ReleaseAction::Fail { error: ReleaseError::OutOfOrder }),
    }
}

impl ReleaseOptions {
    /// The first action of a release: read the manifest.
    pub fn release_start_action(&self) -> (a: ReleaseAction)
        ensures
            a is ReadManifest,
    {
        ReleaseAction::ReadManifest
    }

    /// Take one release step: consume the event, decide the next state
    /// and the next action. On a dry run no returned action mutates
    /// anything.
    pub fn release_step(&self, s: ReleaseState, e: ReleaseEvent) -> (r: (
        ReleaseState,
        ReleaseAction,
    ))
        ensures
            release_step_rel(*self, s, e, r.0, r.1),
            self.dry_run ==> !action_mutates(r.1),
    {
        match (s, e) {
            (ReleaseState::Start, ReleaseEvent::ManifestText { text }) => {
                match self.get_current_version(&text) {
                    Ok(current) => (
                        ReleaseState::VersionRead { manifest: text, current },
                        ReleaseAction::ListTags,
                    ),
                    Err(error) => (ReleaseState::Failed, ReleaseAction::Fail { error }),
                }
            },
            (ReleaseState::VersionRead { manifest, current }, ReleaseEvent::Tags { tags }) => {
                let since = self.get_last_release_tag(&tags);
                (
                    ReleaseState::TagDiscovered { manifest, current },
                    ReleaseAction::CollectCommits { since },
                )
            },
            (
                ReleaseState::TagDiscovered { manifest, current },
                ReleaseEvent::Commits { messages },
            ) => {
                if current.major == u64::MAX || current.minor == u64::MAX || current.patch
                    == u64::MAX {
                    return (
                        ReleaseState::Failed,
                        ReleaseAction::Fail { error: ReleaseError::VersionOverflow },
                    );
                }
                let (changelog, next) = self.generate_git_cliff_compatible_changelog(
                    &messages,
                    &current,
                    false,
                );
                let report = ReleaseAction::Report {
                    next,
                    changelog: crate::edit::clone_bytes(&changelog),
                };
                (ReleaseState::ChangelogComputed { manifest, next, changelog }, report)
            },
            (
                ReleaseState::ChangelogComputed { manifest, next, changelog },
                ReleaseEvent::Reported,
            ) => {
                if self.dry_run {
                    return (ReleaseState::Done, ReleaseAction::Stop);
                }
                match self.update_version(&manifest, &next) {
                    Ok(text) => (
                        ReleaseState::ManifestPrepared { next, changelog },
                        ReleaseAction::WriteManifest { text },
                    ),
                    Err(error) => (ReleaseState::Failed, ReleaseAction::Fail { error }),
                }
            },
            (ReleaseState::ManifestPrepared { next, changelog }, ReleaseEvent::Written) => {
                if self.dry_run {
                    return (ReleaseState::Done, ReleaseAction::Stop);
                }
                let message = commit_msg(&next, &changelog);
                let tag = tag_name(&next);
                (
                    ReleaseState::ManifestWritten,
                    ReleaseAction::CreateCommitAndTag { message, tag },
                )
            },
            (ReleaseState::ManifestWritten, ReleaseEvent::Committed) => {
                if self.yes {
                    if self.dry_run {
                        (ReleaseState::Done, ReleaseAction::Stop)
                    } else {
                        (ReleaseState::Pushing, ReleaseAction::Push)
                    }
                } else {
                    (ReleaseState::PushPrompted, ReleaseAction::AskPush)
                }
            },
            (ReleaseState::PushPrompted, ReleaseEvent::PushAnswer { yes }) => {
                if yes && !self.dry_run {
                    (ReleaseState::Pushing, ReleaseAction::Push)
                } else if yes {
                    (ReleaseState::Done, ReleaseAction::Stop)
                } else {
                    self.publish_stage()
                }
            },
            (ReleaseState::Pushing, ReleaseEvent::Pushed) => self.publish_stage(),
            (ReleaseState::PublishPrompted, ReleaseEvent::PublishAnswer { yes }) => {
                if yes && !self.dry_run {
                    (ReleaseState::Publishing, ReleaseAction::Publish)
                } else {
                    (ReleaseState::Done, ReleaseAction::Stop)
                }
            },
            (ReleaseState::Publishing, ReleaseEvent::Published) => (
                ReleaseState::Done,
                ReleaseAction::Stop,
            ),
            _ => (ReleaseState::Failed, ReleaseAction::Fail { error: ReleaseError::OutOfOrder }),
        }
    }

    /// Decide what follows the push stage.
    fn publish_stage(&self) -> (r: (ReleaseState, ReleaseAction))
        ensures
            publish_stage_rel(*self, r.0, r.1),
            self.dry_run ==> !action_mutates(r.1),
    {
        if self.publish {
            if self.yes {
                if self.dry_run {
                    (ReleaseState::Done, ReleaseAction::Stop)
                } else {
                    (ReleaseState::Publishing, ReleaseAction::Publish)
                }
            } else {
                (ReleaseState::PublishPrompted, ReleaseAction::AskPublish)
            }
        } else {
            (ReleaseState::Done, ReleaseAction::Stop)
        }
    }
}

} // verus!
