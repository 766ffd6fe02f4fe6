//! The closed operation model: what a command asks of a scope.

use vstd::prelude::*;

use crate::files::TrackedFiles;

verus! {

/// The value a `set` carries.
#[derive(Debug, Clone, PartialEq, Eq)]
pub enum SetTypes {
    AddNumber,
    SubNumber,
    Number(u64),
    String(Vec<u8>),
    NewFile(TrackedFiles),
}

/// An operation on a single target.
#[derive(Debug, Clone, PartialEq, Eq)]
pub enum Operator {
    SetTo(SetTypes),
    Rm,
    Reset,
    Get,
    AddFile(SetTypes),
    SetVersion(Vec<u8>),
    Update(Vec<u8>),
    RmFile(Vec<u8>),
    UpdateAll,
    ListFiles,
}

/// A routed command: a target and its operation, or a whole-scope query.
#[derive(Debug, PartialEq, Eq)]
pub enum Scope {
    Major(Operator),
    Minor(Operator),
    Patch(Operator),
    Alpha(Operator),
    Beta(Operator),
    Pre(Operator),
    RC(Operator),
    Build(Operator),
    Get,
    SetFull(Operator),
    Version,
    Revision,
    File(Operator),
    Package(Vec<u8>, Box<Scope>),
    ListPackages,
    RmPackage,
}

} // verus!
