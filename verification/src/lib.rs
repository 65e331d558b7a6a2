//! Format-preserving manifest editing and release computation.
//!
//! The library parses a package manifest into a document tree that keeps
//! every byte of the original layout (whitespace, comments, quoting),
//! rewrites version fields in place, and serializes the tree back out.
//! A second subsystem classifies conventional commit messages and derives
//! the semantic-version bump they imply.

pub mod cmd;
pub mod commits;
pub mod deps;
pub mod doc;
pub mod edit;
pub mod flow;
pub mod parse;
pub mod release;
pub mod scan;
pub mod version;
pub mod words;
