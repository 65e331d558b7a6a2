//! The key names the field locator knows, as byte sequences:
//! a spec constant and a matching runtime builder for each.

use vstd::prelude::*;

verus! {

/// `workspace`
pub open spec fn spec_word_workspace() -> Seq<u8> {
    seq![119u8, 111, 114, 107, 115, 112, 97, 99, 101]
}

pub fn word_workspace() -> (r: Vec<u8>)
    ensures
        r@ == spec_word_workspace(),
{
    let mut r: Vec<u8> = Vec::new();
    r.push(119);
    r.push(111);
    r.push(114);
    r.push(107);
    r.push(115);
    r.push(112);
    r.push(97);
    r.push(99);
    r.push(101);
    proof {
        assert(r@ =~= spec_word_workspace());
    }
    r
}

/// `package`
pub open spec fn spec_word_package() -> Seq<u8> {
    seq![112u8, 97, 99, 107, 97, 103, 101]
}

pub fn word_package() -> (r: Vec<u8>)
    ensures
        r@ == spec_word_package(),
{
    let mut r: Vec<u8> = Vec::new();
    r.push(112);
    r.push(97);
    r.push(99);
    r.push(107);
    r.push(97);
    r.push(103);
    r.push(101);
    proof {
        assert(r@ =~= spec_word_package());
    }
    r
}

/// `dependencies`
pub open spec fn spec_word_dependencies() -> Seq<u8> {
    seq![100u8, 101, 112, 101, 110, 100, 101, 110, 99, 105, 101, 115]
}

pub fn word_dependencies() -> (r: Vec<u8>)
    ensures
        r@ == spec_word_dependencies(),
{
    let mut r: Vec<u8> = Vec::new();
    r.push(100);
    r.push(101);
    r.push(112);
    r.push(101);
    r.push(110);
    r.push(100);
    r.push(101);
    r.push(110);
    r.push(99);
    r.push(105);
    r.push(101);
    r.push(115);
    proof {
        assert(r@ =~= spec_word_dependencies());
    }
    r
}

/// `version`
pub open spec fn spec_word_version() -> Seq<u8> {
    seq![118u8, 101, 114, 115, 105, 111, 110]
}

pub fn word_version() -> (r: Vec<u8>)
    ensures
        r@ == spec_word_version(),
{
    let mut r: Vec<u8> = Vec::new();
    r.push(118);
    r.push(101);
    r.push(114);
    r.push(115);
    r.push(105);
    r.push(111);
    r.push(110);
    proof {
        assert(r@ =~= spec_word_version());
    }
    r
}

/// `path`
pub open spec fn spec_word_path() -> Seq<u8> {
    seq![112u8, 97, 116, 104]
}

pub fn word_path() -> (r: Vec<u8>)
    ensures
        r@ == spec_word_path(),
{
    let mut r: Vec<u8> = Vec::new();
    r.push(112);
    r.push(97);
    r.push(116);
    r.push(104);
    proof {
        assert(r@ =~= spec_word_path());
    }
    r
}

} // verus!
