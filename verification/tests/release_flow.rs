//! Tests of the release computation: version parsing and ordering,
//! commit classification, bump computation, changelog rendering, tag
//! selection, and the release state machine.

use cargo_verset::flow::{ReleaseAction, ReleaseEvent, ReleaseState};
use cargo_verset::release::{ReleaseError, ReleaseOptions};
use cargo_verset::version::Version;

fn b(s: &str) -> Vec<u8> {
    s.as_bytes().to_vec()
}

fn bs(items: &[&str]) -> Vec<Vec<u8>> {
    items.iter().map(|s| s.as_bytes().to_vec()).collect()
}

fn s(v: &[u8]) -> String {
    String::from_utf8(v.to_vec()).unwrap()
}

fn opts() -> ReleaseOptions {
    ReleaseOptions { path: None, dry_run: false, yes: false, publish: false, registry: None }
}

#[test]
fn test_version_parse_and_render() {
    let v = Version::parse(&b("1.2.3")).unwrap();
    assert_eq!((v.major, v.minor, v.patch), (1, 2, 3));
    assert_eq!(s(&v.render()), "1.2.3");
    assert!(Version::parse(&b("1.2")).is_none());
    assert!(Version::parse(&b("01.2.3")).is_none());
    assert!(Version::parse(&b("1.2.3-alpha")).is_none());
    assert!(Version::parse(&b("")).is_none());
    assert!(Version::parse(&b("18446744073709551616.0.0")).is_none());
    let max = Version::parse(&b("18446744073709551615.0.0")).unwrap();
    assert_eq!(max.major, u64::MAX);
}

#[test]
fn test_get_current_version() {
    let content = b("\n[package]\nname = \"test-package\"\nversion = \"1.2.3\"\nedition = \"2024\"\n");
    let version = opts().get_current_version(&content).unwrap();
    assert_eq!(s(&version.render()), "1.2.3");
}

#[test]
fn test_get_current_version_missing_package() {
    let content = b("\n[workspace]\nmembers = [\"crates/*\"]\n");
    let result = opts().get_current_version(&content);
    assert!(result.is_err());
    assert!(result.unwrap_err().message().contains("Could not find package version"));
}

#[test]
fn test_get_current_version_unparsable() {
    let content = b("[package]\nversion = \"not-a-version\"\n");
    let result = opts().get_current_version(&content);
    assert_eq!(result.unwrap_err(), ReleaseError::VersionUnparsable);
}

#[test]
fn test_update_version() {
    let content = b("\n[package]\nname = \"test-package\"\nversion = \"1.2.3\"\nedition = \"2024\"\n");
    let updated = opts().update_version(&content, &Version::new(2, 0, 0)).unwrap();
    assert!(s(&updated).contains("version = \"2.0.0\""));
}

#[test]
fn test_update_version_missing_section() {
    let content = b("[workspace]\nmembers = [\"foo\"]\n");
    let result = opts().update_version(&content, &Version::new(2, 0, 0));
    assert_eq!(result.unwrap_err(), ReleaseError::PackageSectionMissing);
}

#[test]
fn test_parse_conventional_commit() {
    let o = opts();
    let (ty, breaking) = o.parse_conventional_commit(&b("feat(parser): add thing"));
    assert_eq!(s(&ty), "feat");
    assert!(!breaking);

    let (ty, breaking) = o.parse_conventional_commit(&b("feat!: drop old api"));
    assert_eq!(s(&ty), "feat");
    assert!(breaking);

    let (ty, breaking) = o.parse_conventional_commit(&b("Fix: typo"));
    assert_eq!(s(&ty), "fix");
    assert!(!breaking);

    let (ty, breaking) = o.parse_conventional_commit(&b("no colon here"));
    assert_eq!(s(&ty), "other");
    assert!(!breaking);

    let (_, breaking) = o.parse_conventional_commit(&b("chore: note\n\nBREAKING CHANGE: gone"));
    assert!(breaking);
}

#[test]
fn test_bump_feat_dominates_fix() {
    let o = opts();
    let next = o.compute_version_from_git_cliff_commits(
        &bs(&["feat: x", "fix: y"]),
        &Version::new(0, 1, 0),
    );
    assert_eq!(s(&next.render()), "0.2.0");
}

#[test]
fn test_bump_breaking_dominates_all() {
    let o = opts();
    let next = o.compute_version_from_git_cliff_commits(
        &bs(&["feat: x", "fix: y", "chore!: drop it"]),
        &Version::new(0, 1, 0),
    );
    assert_eq!(s(&next.render()), "1.0.0");
}

#[test]
fn test_bump_defaults_to_patch() {
    let o = opts();
    let next = o.compute_version_from_git_cliff_commits(
        &bs(&["chore: tidy", "docs: readme"]),
        &Version::new(1, 2, 3),
    );
    assert_eq!(s(&next.render()), "1.2.4");
    let next = o.compute_version_from_git_cliff_commits(&bs(&[]), &Version::new(1, 2, 3));
    assert_eq!(s(&next.render()), "1.2.4");
}

#[test]
fn test_format_changelog_sections() {
    let o = opts();
    let out = o.format_git_cliff_compatible_changelog(
        &bs(&["core!: new layout"]),
        &bs(&["feat: add thing"]),
        &bs(&["fix: off by one"]),
        &bs(&[]),
    );
    assert_eq!(
        s(&out),
        "### ⚠ BREAKING CHANGES\n\n- core!: new layout\n\n### Features\n\n- feat: add thing\n\n### Bug Fixes\n\n- fix: off by one"
    );
}

#[test]
fn test_format_changelog_empty() {
    let o = opts();
    let out = o.format_git_cliff_compatible_changelog(&bs(&[]), &bs(&[]), &bs(&[]), &bs(&[]));
    assert_eq!(s(&out), "No changes since last release");
}

#[test]
fn test_generate_changelog_groups_and_version() {
    let o = opts();
    let (changelog, next) = o.generate_git_cliff_compatible_changelog(
        &bs(&["feat: x", "fix: y"]),
        &Version::new(0, 1, 0),
        false,
    );
    assert_eq!(s(&next.render()), "0.2.0");
    assert_eq!(s(&changelog), "### Features\n\n- feat: x\n\n### Bug Fixes\n\n- fix: y");
}

#[test]
fn test_extract_release_section() {
    let o = opts();
    let text = b("# Changelog\nAll notable changes.\n\n## [1.0.0] - 2024-01-01\n\n### Features\n\n- feat: x\n");
    let out = o.extract_release_section(&text);
    assert_eq!(s(&out), "## [1.0.0] - 2024-01-01\n\n### Features\n\n- feat: x");
}

#[test]
fn test_extract_release_section_no_heading() {
    let o = opts();
    let text = b("  plain text\n\n");
    let out = o.extract_release_section(&text);
    assert_eq!(s(&out), "plain text");
}

#[test]
fn test_get_last_release_tag_no_tags() {
    let last_tag = opts().get_last_release_tag(&bs(&[]));
    assert!(last_tag.is_none());
}

#[test]
fn test_get_last_release_tag_with_tags() {
    let last_tag = opts().get_last_release_tag(&bs(&[
        "v0.1.0",
        "v0.2.0",
        "v0.1.5",
        "not-a-version",
    ]));
    assert_eq!(last_tag, Some(b("v0.2.0")));
}

#[test]
fn test_get_last_release_tag_bare_versions() {
    let last_tag = opts().get_last_release_tag(&bs(&["0.9.0", "v1.0.0", "1.0.0"]));
    // equal versions: the later tag wins
    assert_eq!(last_tag, Some(b("1.0.0")));
}

#[test]
fn test_release_dry_run() {
    let manifest = b("\n[package]\nname = \"test-package\"\nversion = \"0.1.0\"\nedition = \"2024\"\n");
    let o = ReleaseOptions { path: None, dry_run: true, yes: true, publish: false, registry: None };

    assert!(matches!(o.release_start_action(), ReleaseAction::ReadManifest));
    let (st, a) = o.release_step(
        ReleaseState::Start,
        ReleaseEvent::ManifestText { text: manifest.clone() },
    );
    assert!(matches!(a, ReleaseAction::ListTags));
    let (st, a) = o.release_step(st, ReleaseEvent::Tags { tags: bs(&[]) });
    assert!(matches!(a, ReleaseAction::CollectCommits { since: None }));
    let (st, a) = o.release_step(st, ReleaseEvent::Commits { messages: bs(&["Initial commit"]) });
    // the would-be next version and changelog are handed out for logging
    match &a {
        ReleaseAction::Report { next, changelog } => {
            assert_eq!(s(&next.render()), "0.1.1");
            assert_eq!(s(changelog), "No changes since last release");
        },
        _ => panic!("expected the dry-run report"),
    }
    // after the report, a dry run stops before any write
    let (st, a) = o.release_step(st, ReleaseEvent::Reported);
    assert!(matches!(st, ReleaseState::Done));
    assert!(matches!(a, ReleaseAction::Stop));
}

#[test]
fn test_release_flow_full_run() {
    let manifest = b("[package]\nname = \"demo\"\nversion = \"0.1.0\"\n");
    let o = ReleaseOptions { path: None, dry_run: false, yes: true, publish: false, registry: None };

    let (st, a) = o.release_step(
        ReleaseState::Start,
        ReleaseEvent::ManifestText { text: manifest.clone() },
    );
    assert!(matches!(a, ReleaseAction::ListTags));
    let (st, a) = o.release_step(st, ReleaseEvent::Tags { tags: bs(&["v0.1.0", "junk"]) });
    match &a {
        ReleaseAction::CollectCommits { since: Some(t) } => assert_eq!(s(t), "v0.1.0"),
        _ => panic!("expected a commit collection bounded by the tag"),
    }
    let (st, a) = o.release_step(st, ReleaseEvent::Commits { messages: bs(&["feat: shiny"]) });
    assert!(matches!(a, ReleaseAction::Report { .. }));
    let (st, a) = o.release_step(st, ReleaseEvent::Reported);
    let written = match &a {
        ReleaseAction::WriteManifest { text } => {
            assert!(s(text).contains("version = \"0.2.0\""));
            text.clone()
        },
        _ => panic!("expected the manifest write"),
    };
    assert!(s(&written).contains("name = \"demo\""));
    let (st, a) = o.release_step(st, ReleaseEvent::Written);
    match &a {
        ReleaseAction::CreateCommitAndTag { message, tag } => {
            assert!(s(message).starts_with("release: v0.2.0\n\n### Features\n\n- feat: shiny"));
            assert_eq!(s(tag), "v0.2.0");
        },
        _ => panic!("expected the release commit"),
    }
    let (st, a) = o.release_step(st, ReleaseEvent::Committed);
    assert!(matches!(a, ReleaseAction::Push));
    let (st, a) = o.release_step(st, ReleaseEvent::Pushed);
    assert!(matches!(st, ReleaseState::Done));
    assert!(matches!(a, ReleaseAction::Stop));
}

#[test]
fn test_release_flow_out_of_order() {
    let o = opts();
    let (st, a) = o.release_step(ReleaseState::Start, ReleaseEvent::Pushed);
    assert!(matches!(st, ReleaseState::Failed));
    match a {
        ReleaseAction::Fail { error } => assert_eq!(error, ReleaseError::OutOfOrder),
        _ => panic!("expected a failure"),
    }
}

#[test]
fn test_release_flow_bad_manifest() {
    let o = opts();
    let (st, a) = o.release_step(
        ReleaseState::Start,
        ReleaseEvent::ManifestText { text: b("[workspace]\nmembers = []\n") },
    );
    assert!(matches!(st, ReleaseState::Failed));
    match a {
        ReleaseAction::Fail { error } => assert_eq!(error, ReleaseError::VersionMissing),
        _ => panic!("expected a failure"),
    }
}

#[test]
fn test_release_flow_publish_prompts() {
    let manifest = b("[package]\nname = \"demo\"\nversion = \"0.1.0\"\n");
    let o = ReleaseOptions {
        path: None,
        dry_run: false,
        yes: false,
        publish: true,
        registry: Some(b("local")),
    };
    let (st, _) = o.release_step(
        ReleaseState::Start,
        ReleaseEvent::ManifestText { text: manifest },
    );
    let (st, _) = o.release_step(st, ReleaseEvent::Tags { tags: bs(&[]) });
    let (st, _) = o.release_step(st, ReleaseEvent::Commits { messages: bs(&["fix: y"]) });
    let (st, a) = o.release_step(st, ReleaseEvent::Reported);
    assert!(matches!(a, ReleaseAction::WriteManifest { .. }));
    let (st, a) = o.release_step(st, ReleaseEvent::Written);
    assert!(matches!(a, ReleaseAction::CreateCommitAndTag { .. }));
    let (st, a) = o.release_step(st, ReleaseEvent::Committed);
    assert!(matches!(a, ReleaseAction::AskPush));
    // declining the push skips only that step
    let (st, a) = o.release_step(st, ReleaseEvent::PushAnswer { yes: false });
    assert!(matches!(a, ReleaseAction::AskPublish));
    let (st, a) = o.release_step(st, ReleaseEvent::PublishAnswer { yes: true });
    assert!(matches!(a, ReleaseAction::Publish));
    let (st, a) = o.release_step(st, ReleaseEvent::Published);
    assert!(matches!(st, ReleaseState::Done));
    assert!(matches!(a, ReleaseAction::Stop));
}

#[test]
fn test_release_patch_bump_from_fix() {
    let o = opts();
    let next = o.compute_version_from_git_cliff_commits(&bs(&["fix: y"]), &Version::new(0, 1, 0));
    assert_eq!(s(&next.render()), "0.1.1");
}

#[test]
fn test_update_version_keeps_trailing_comment() {
    let content = b("[package]\nversion = \"1.0.0\" # keep\n");
    let updated = opts().update_version(&content, &Version::new(1, 1, 0)).unwrap();
    assert_eq!(s(&updated), "[package]\nversion = \"1.1.0\" # keep\n");
}

#[test]
fn test_update_version_non_string_value_keeps_comment() {
    // an unquoted version value is replaced by a quoted one; the comment
    // and every other byte stay
    let content = b("[package]\nversion = 1 # keep\n");
    let updated = opts().update_version(&content, &Version::new(2, 0, 0)).unwrap();
    assert_eq!(s(&updated), "[package]\nversion = \"2.0.0\" # keep\n");
}
