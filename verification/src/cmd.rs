//! The version-set commands on manifest text: parse, locate, rewrite,
//! serialize. The caller reads and writes the file; these functions do
//! everything in between.

use vstd::prelude::*;
use crate::doc::{TomlDoc, doc_wf, doc_text, serialize};
use crate::parse::{parse, ParseError, spec_text_parses, parse_rejected};
use crate::edit::{set_field_string, FieldOutcome, spec_target, spec_section_present,
    entry_value_set, plain_str_text};
use crate::deps::{set_dependency_version, DepOutcome, dep_set_post};
use crate::words::{word_package, word_version, spec_word_package, spec_word_version};
use crate::version::{Version, version_text, lemma_version_text_bytes};
use crate::doc::bare_key;
use crate::commits::spec_contains;

verus! {

/// Set the package version in manifest text.
///
/// The field is resolved workspace-first. On success only that field's
/// value token changes; when the key or the section is absent the text
/// comes back byte-identical, and the outcome says which was missing.
pub fn set_package_version_text(manifest: &Vec<u8>, ver: &Version) -> (r: Result<
    (Vec<u8>, FieldOutcome),
    ParseError,
>)
    ensures
        match r {
            Ok((out, oc)) => spec_text_parses(manifest@) && match oc {
                FieldOutcome::Updated => exists|d: TomlDoc, d2: TomlDoc|
                    #![trigger doc_wf(d), doc_wf(d2)]
                    {
                        let t = spec_target(d.lines@, spec_word_package(), spec_word_version());
                        &&& doc_wf(d)
                        &&& doc_text(d) == manifest@
                        &&& t is Some
                        &&& doc_wf(d2)
                        &&& d2.lines@.len() == d.lines@.len()
                        &&& forall|m: int|
                            0 <= m < d.lines@.len() && m != t->Some_0 ==> d2.lines@[m]
                                == #[trigger] d.lines@[m]
                        &&& entry_value_set(
                            d.lines@[t->Some_0],
                            d2.lines@[t->Some_0],
                            version_text(*ver),
                        )
                        &&& out@ == doc_text(d2)
                    },
                FieldOutcome::KeyMissing => out@ == manifest@ && exists|d: TomlDoc|
                    #[trigger] doc_wf(d) && doc_text(d) == manifest@ && spec_target(
                        d.lines@,
                        spec_word_package(),
                        spec_word_version(),
                    ) is None && spec_section_present(d.lines@, spec_word_package()),
                FieldOutcome::SectionMissing => out@ == manifest@ && exists|d: TomlDoc|
                    #[trigger] doc_wf(d) && doc_text(d) == manifest@ && spec_target(
                        d.lines@,
                        spec_word_package(),
                        spec_word_version(),
                    ) is None && !spec_section_present(d.lines@, spec_word_package()),
            },
            Err(_) => parse_rejected(manifest@),
        },
{
    let mut doc = match parse(manifest) {
        Ok(d) => d,
        Err(e) => {
            return Err(e);
        },
    };
    let ghost d0 = doc;
    let vt = ver.render();
    proof {
        lemma_version_text_bytes(*ver);
        assert(plain_str_text(vt@));
    }
    let pw = word_package();
    let vw = word_version();
    let oc = set_field_string(&mut doc, &pw, &vw, &vt);
    let out = serialize(&doc);
    proof {
        match oc {
            FieldOutcome::Updated => {
                assert(doc_wf(d0) && doc_text(d0) == manifest@ && doc_wf(doc) && out@ == doc_text(
                    doc,
                ));
            },
            _ => {
                assert(doc == d0);
                assert(doc_wf(d0) && doc_text(d0) == manifest@);
            },
        }
    }
    Ok((out, oc))
}

/// Set a dependency's version in manifest text.
///
/// A workspace match is final; otherwise the root entry is rewritten or
/// created. Everything outside the touched entry is byte-identical.
pub fn set_dependency_version_text(manifest: &Vec<u8>, name: &Vec<u8>, ver: &Version) -> (r:
    Result<(Vec<u8>, DepOutcome), ParseError>)
    requires
        bare_key(name@),
    ensures
        match r {
            Ok((out, oc)) => spec_text_parses(manifest@) && exists|d: TomlDoc, d2: TomlDoc|
                #![trigger doc_wf(d), doc_wf(d2)]
                {
                    &&& doc_wf(d)
                    &&& doc_text(d) == manifest@
                    &&& doc_wf(d2)
                    &&& dep_set_post(d.lines@, d2.lines@, oc, name@, version_text(*ver))
                    &&& out@ == doc_text(d2)
                },
            Err(_) => parse_rejected(manifest@),
        },
{
    let mut doc = match parse(manifest) {
        Ok(d) => d,
        Err(e) => {
            return Err(e);
        },
    };
    let ghost d0 = doc;
    let vt = ver.render();
    proof {
        lemma_version_text_bytes(*ver);
        assert(plain_str_text(vt@));
    }
    let oc = set_dependency_version(&mut doc, name, &vt);
    let out = serialize(&doc);
    proof {
        assert(doc_wf(d0) && doc_text(d0) == manifest@ && doc_wf(doc) && out@ == doc_text(doc));
    }
    Ok((out, oc))
}

/// `dep = "version"`, as it would stand in manifest text.
pub open spec fn spec_dep_string_pattern(dep: Seq<u8>, version: Seq<u8>) -> Seq<u8> {
    dep + seq![32u8, 61, 32, 34] + version + seq![34u8]
}

/// `dep = { version = "version"`, the head of a table-formed entry.
pub open spec fn spec_dep_table_pattern(dep: Seq<u8>, version: Seq<u8>) -> Seq<u8> {
    dep + seq![32u8, 61, 32, 123, 32] + spec_word_version() + seq![32u8, 61, 32, 34] + version
        + seq![34u8]
}

/// Check that manifest text carries dependency `dep` at `version` —
/// as a bare string or in table form — and still holds `comment`.
pub fn assert_dep_with_comment(toml: &Vec<u8>, dep: &Vec<u8>, version: &Vec<u8>, comment: &Vec<
    u8,
>) -> (r: bool)
    ensures
        r == ((spec_contains(toml@, spec_dep_string_pattern(dep@, version@)) || spec_contains(
            toml@,
            spec_dep_table_pattern(dep@, version@),
        )) && spec_contains(toml@, comment@)),
{
    let mut pat1: Vec<u8> = Vec::new();
    let mut t: usize = 0;
    while t < dep.len()
        invariant
            0 <= t <= dep@.len(),
            pat1@ == dep@.subrange(0, t as int),
        decreases dep@.len() - t,
    {
        pat1.push(dep[t]);
        t = t + 1;
        proof {
            assert(pat1@ =~= dep@.subrange(0, t as int));
        }
    }
    proof {
        assert(dep@.subrange(0, dep@.len() as int) =~= dep@);
    }
    let mut pat2 = crate::edit::clone_bytes(&pat1);
    pat1.push(32);
    pat1.push(61);
    pat1.push(32);
    pat1.push(34);
    let mut t: usize = 0;
    let ghost mark = pat1@;
    while t < version.len()
        invariant
            0 <= t <= version@.len(),
            pat1@ == mark + version@.subrange(0, t as int),
        decreases version@.len() - t,
    {
        pat1.push(version[t]);
        t = t + 1;
        proof {
            assert(pat1@ =~= mark + version@.subrange(0, t as int));
        }
    }
    pat1.push(34);
    proof {
        assert(version@.subrange(0, version@.len() as int) =~= version@);
        assert(pat1@ =~= spec_dep_string_pattern(dep@, version@));
    }
    pat2.push(32);
    pat2.push(61);
    pat2.push(32);
    pat2.push(123);
    pat2.push(32);
    let vw = word_version();
    crate::doc::push_bytes(&mut pat2, &vw);
    pat2.push(32);
    pat2.push(61);
    pat2.push(32);
    pat2.push(34);
    let mut t: usize = 0;
    let ghost mark2 = pat2@;
    while t < version.len()
        invariant
            0 <= t <= version@.len(),
            pat2@ == mark2 + version@.subrange(0, t as int),
        decreases version@.len() - t,
    {
        pat2.push(version[t]);
        t = t + 1;
        proof {
            assert(pat2@ =~= mark2 + version@.subrange(0, t as int));
        }
    }
    pat2.push(34);
    proof {
        assert(version@.subrange(0, version@.len() as int) =~= version@);
        assert(pat2@ =~= spec_dep_table_pattern(dep@, version@));
    }
    let hit1 = crate::commits::contains_sub(toml, &pat1);
    let hit2 = crate::commits::contains_sub(toml, &pat2);
    let hit3 = crate::commits::contains_sub(toml, comment);
    (hit1 || hit2) && hit3
}

} // verus!
