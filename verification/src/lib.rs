//! A version-and-tracked-file engine: a canonical semantic version kept in a
//! small TOML document, together with a registry of tracked files whose
//! in-file version strings are rewritten to match the canonical version.

pub mod cli;
pub mod digits;
pub mod document;
pub mod engine;
pub mod files;
pub mod grammar;
pub mod ops;
pub mod prerelease;
pub mod quoting;
pub mod re;
pub mod semver;
pub mod store;

use vstd::prelude::*;

verus! {

/// The closed error taxonomy of the engine.
#[derive(Debug, Clone, PartialEq, Eq)]
pub enum VersionError {
    IoError,
    TomlDeError,
    TomlSerError,
    RegexError,
    IncompleteCommand,
    InvalidOperation,
    NoCommand,
    NoValue,
    NoNegatives,
    InvalidCommand,
    EmptyVersion,
    InvalidPrerelease(Vec<u8>),
    InvalidVersion(Vec<u8>),
    PackageNameRequired,
}

} // verus!
