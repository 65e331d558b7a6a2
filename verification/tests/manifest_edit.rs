//! Tests of the format-preserving manifest editor: round trips,
//! package-version setting, and dependency rewriting.

use cargo_verset::cmd::{assert_dep_with_comment, set_dependency_version_text,
    set_package_version_text};
use cargo_verset::deps::DepOutcome;
use cargo_verset::edit::FieldOutcome;
use cargo_verset::parse::{parse, reserialize};
use cargo_verset::doc::serialize;
use cargo_verset::version::Version;

fn b(s: &str) -> Vec<u8> {
    s.as_bytes().to_vec()
}

fn s(v: &[u8]) -> String {
    String::from_utf8(v.to_vec()).unwrap()
}

#[test]
fn test_round_trip_preserves_bytes() {
    let text = b("# top comment\n[package]\nname = \"demo\"   # tail\nversion = \"0.1.0\"\n\n[dependencies]\nserde = { version = \"1.0\", features = [\"derive\"] }\nnums = [1, 2, 3]\nflag = true\n");
    let out = reserialize(&text).unwrap();
    assert_eq!(out, text);
}

#[test]
fn test_round_trip_no_trailing_newline() {
    let text = b("[package]\nversion = \"1.2.3\"");
    let out = reserialize(&text).unwrap();
    assert_eq!(out, text);
}

#[test]
fn test_round_trip_crlf() {
    let text = b("[package]\r\nversion = \"1.2.3\"\r\n");
    let out = reserialize(&text).unwrap();
    assert_eq!(out, text);
}

#[test]
fn test_parse_rejects_unterminated_string() {
    let text = b("[package]\nversion = \"1.2.3\n");
    assert!(parse(&text).is_err());
    assert!(reserialize(&text).is_none());
}

#[test]
fn test_parse_rejects_garbage_line() {
    let text = b("[package]\n= no key here\n");
    assert!(parse(&text).is_err());
}

#[test]
fn test_parse_rejects_duplicate_key() {
    let text = b("[package]\nname = \"a\"\nname = \"b\"\n");
    match parse(&text) {
        Err(cargo_verset::parse::ParseError::DuplicateKey { line }) => assert_eq!(line, 2),
        _ => panic!("expected a duplicate key error"),
    }
}

#[test]
fn test_parse_rejects_duplicate_table() {
    let text = b("[alpha]\n[beta]\n[alpha]\n");
    match parse(&text) {
        Err(cargo_verset::parse::ParseError::DuplicateTable { line }) => assert_eq!(line, 2),
        _ => panic!("expected a duplicate table error"),
    }
}

#[test]
fn test_parse_allows_repeats_across_scopes() {
    // the same key under different tables, and a repeated array-of-tables
    // header, are both fine
    let text = b("[a]\nx = 1\n[b]\nx = 2\n[[bin]]\nname = \"one\"\n[[bin]]\nname = \"two\"\n");
    assert!(parse(&text).is_ok());
}

#[test]
fn test_serialize_unedited_document() {
    let text = b("[workspace]\nmembers = [\"foo\", \"bar\"]  # members\n");
    let doc = parse(&text).unwrap();
    assert_eq!(serialize(&doc), text);
}

#[test]
fn test_set_package_version_preserves_rest() {
    let text = b("[package]\nname = \"demo\"\nversion = \"0.1.0\"  # keep me\nedition = \"2021\"\n");
    let (out, oc) = set_package_version_text(&text, &Version::new(2, 0, 0)).unwrap();
    assert_eq!(oc, FieldOutcome::Updated);
    assert_eq!(
        s(&out),
        "[package]\nname = \"demo\"\nversion = \"2.0.0\"  # keep me\nedition = \"2021\"\n"
    );
}

#[test]
fn test_noop_edit_is_byte_identical() {
    let text = b("[package]\nversion = \"0.1.0\" # pinned\n");
    let (out, oc) = set_package_version_text(&text, &Version::new(0, 1, 0)).unwrap();
    assert_eq!(oc, FieldOutcome::Updated);
    assert_eq!(out, text);
}

#[test]
fn test_workspace_version_set() {
    let content = b("\n[workspace]\n[workspace.package]\nname = \"myws\"\nversion = \"0.1.0\"\n");
    let (out, oc) = set_package_version_text(&content, &Version::new(1, 2, 3)).unwrap();
    assert_eq!(oc, FieldOutcome::Updated);
    assert!(s(&out).contains("version = \"1.2.3\""));
    // the root of the manifest is untouched but for that one field
    assert!(s(&out).starts_with("\n[workspace]\n[workspace.package]\nname = \"myws\"\n"));
}

#[test]
fn test_workspace_no_package_section() {
    let content = b("\n[workspace]\nmembers = [\"foo\"]\n");
    let (out, oc) = set_package_version_text(&content, &Version::new(1, 0, 0)).unwrap();
    assert_eq!(oc, FieldOutcome::SectionMissing);
    assert_eq!(out, content);
    assert!(!s(&out).contains("version = \"1.0.0\""));
}

#[test]
fn test_workspace_no_version_key() {
    let content = b("\n[workspace]\n[workspace.package]\nname = \"myws\"\n");
    let (out, oc) = set_package_version_text(&content, &Version::new(9, 9, 9)).unwrap();
    assert_eq!(oc, FieldOutcome::KeyMissing);
    assert_eq!(out, content);
    assert!(!s(&out).contains("version = \"9.9.9\""));
}

#[test]
fn test_update_dep_string_and_table_and_workspace() {
    let content = b("\n[dependencies]\nserde = \"1.0.0\" # serde comment\nclap = { version = \"4.5\", features = [\"derive\"] } # clap comment\n\n[workspace.dependencies]\nget-size2 = \"0.1.2\" # get-size2 comment\n");

    // string -> string
    let (toml, oc) = set_dependency_version_text(&content, &b("serde"), &Version::new(2, 0, 0))
        .unwrap();
    assert_eq!(oc, DepOutcome::UpdatedRoot { path_warned: false });
    assert!(assert_dep_with_comment(&toml, &b("serde"), &b("2.0.0"), &b("serde comment")));

    // inline table -> inline table, features preserved
    let (toml, _) = set_dependency_version_text(&toml, &b("clap"), &Version::new(3, 0, 0))
        .unwrap();
    assert!(s(&toml).contains("clap"));
    assert!(assert_dep_with_comment(&toml, &b("clap"), &b("3.0.0"), &b("clap comment")));
    assert!(s(&toml).contains("features = [\"derive\"]"));

    // workspace.dependencies string -> string
    let (toml, oc) = set_dependency_version_text(&toml, &b("get-size2"), &Version::new(0, 5, 0))
        .unwrap();
    assert_eq!(oc, DepOutcome::UpdatedWorkspace { path_warned: false });
    assert!(assert_dep_with_comment(
        &toml,
        &b("get-size2"),
        &b("0.5.0"),
        &b("get-size2 comment")
    ));
}

#[test]
fn test_dep_inline_table_round_trip() {
    // the inline table keeps its sibling keys and trailing comment and
    // reports the new version in table form
    let content = b("[dependencies]\nclap = { version = \"4.5\", features = [\"derive\"] } # clap comment\n");
    let (toml, oc) = set_dependency_version_text(&content, &b("clap"), &Version::new(5, 0, 0))
        .unwrap();
    assert_eq!(oc, DepOutcome::UpdatedRoot { path_warned: false });
    assert_eq!(
        s(&toml),
        "[dependencies]\nclap = { version = \"5.0.0\", features = [\"derive\"] } # clap comment\n"
    );
}

#[test]
fn test_dep_path_without_version_warns() {
    let content = b("[dependencies]\nlocal = { path = \"../local\" }\n");
    let (toml, oc) = set_dependency_version_text(&content, &b("local"), &Version::new(1, 0, 0))
        .unwrap();
    assert_eq!(oc, DepOutcome::UpdatedRoot { path_warned: true });
    // the path stays; the version is set explicitly
    assert_eq!(
        s(&toml),
        "[dependencies]\nlocal = { path = \"../local\", version = \"1.0.0\" }\n"
    );
}

#[test]
fn test_dep_inserted_into_existing_table() {
    let content = b("[dependencies]\nserde = \"1.0\"\n\n[features]\ndefault = []\n");
    let (toml, oc) = set_dependency_version_text(&content, &b("anyhow"), &Version::new(1, 0, 0))
        .unwrap();
    assert_eq!(oc, DepOutcome::Inserted);
    assert_eq!(
        s(&toml),
        "[dependencies]\nserde = \"1.0\"\nanyhow = \"1.0.0\"\n\n[features]\ndefault = []\n"
    );
}

#[test]
fn test_dep_inserted_with_new_section() {
    let content = b("[package]\nname = \"demo\"\n");
    let (toml, oc) = set_dependency_version_text(&content, &b("serde"), &Version::new(1, 0, 0))
        .unwrap();
    assert_eq!(oc, DepOutcome::InsertedSection);
    assert_eq!(s(&toml), "[package]\nname = \"demo\"\n[dependencies]\nserde = \"1.0.0\"\n");
}

#[test]
fn test_dep_other_scalar_coerced_to_table() {
    let content = b("[dependencies]\nodd = 17 # odd comment\n");
    let (toml, oc) = set_dependency_version_text(&content, &b("odd"), &Version::new(1, 1, 1))
        .unwrap();
    assert_eq!(oc, DepOutcome::UpdatedRoot { path_warned: false });
    assert_eq!(s(&toml), "[dependencies]\nodd = { version = \"1.1.1\" } # odd comment\n");
}

#[test]
fn test_full() {
    let content = b("\n[package]\nname = \"testdir\"\nversion = \"0.1.0\"\nedition = \"2021\"\n\n[dependencies]\n");
    let opts = cargo_verset::release::ReleaseOptions {
        path: None,
        dry_run: false,
        yes: false,
        publish: false,
        registry: None,
    };
    let before = opts.get_current_version(&content).unwrap();
    assert_eq!(s(&before.render()), "0.1.0");

    let (out, oc) = set_package_version_text(&content, &Version::new(0, 3, 1)).unwrap();
    assert_eq!(oc, FieldOutcome::Updated);
    let after = opts.get_current_version(&out).unwrap();
    assert_eq!(s(&after.render()), "0.3.1", "Version in Cargo.toml is not correct");
}

#[test]
fn test_round_trip_multiline_array() {
    let text = b("[workspace]\nmembers = [\n    \"foo\",    # first\n    \"bar\",\n]\nresolver = \"2\"\n");
    let out = reserialize(&text).unwrap();
    assert_eq!(out, text);
}

#[test]
fn test_round_trip_dotted_and_quoted_keys() {
    let text = b("[dependencies]\nserde.workspace = true\n\"odd.name\".version = \"1.0\"\n");
    let out = reserialize(&text).unwrap();
    assert_eq!(out, text);
}

#[test]
fn test_round_trip_multiline_string() {
    let text = b("[package]\ndescription = \"\"\"\nA tool.\nIt has lines.\n\"\"\"\nversion = \"0.1.0\"\n");
    let out = reserialize(&text).unwrap();
    assert_eq!(out, text);
}

#[test]
fn test_set_version_with_multiline_members() {
    let text = b("[workspace]\nmembers = [\n    \"crates/a\",\n    \"crates/b\",\n]\n\n[workspace.package]\nversion = \"0.1.0\"\n");
    let (out, oc) = set_package_version_text(&text, &Version::new(0, 2, 0)).unwrap();
    assert_eq!(oc, FieldOutcome::Updated);
    assert_eq!(
        s(&out),
        "[workspace]\nmembers = [\n    \"crates/a\",\n    \"crates/b\",\n]\n\n[workspace.package]\nversion = \"0.2.0\"\n"
    );
}

#[test]
fn test_dotted_dependency_left_alone() {
    // a dotted declaration is not doubled by a plain entry
    let text = b("[dependencies]\nserde.workspace = true\n");
    let (out, oc) = set_dependency_version_text(&text, &b("serde"), &Version::new(2, 0, 0))
        .unwrap();
    assert_eq!(oc, DepOutcome::DottedForm);
    assert_eq!(out, text);
}

#[test]
fn test_dotted_keys_duplicate_detected() {
    let text = b("[dependencies]\nserde.workspace = true\nserde.workspace = true\n");
    match parse(&text) {
        Err(cargo_verset::parse::ParseError::DuplicateKey { line }) => assert_eq!(line, 2),
        _ => panic!("expected a duplicate key error"),
    }
}
