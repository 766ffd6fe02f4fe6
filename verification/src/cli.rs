//! The plain shape of a parsed command line, and its translation into the
//! operation model. The argument-parsing surface itself is an external
//! collaborator; it hands these values in.

use vstd::prelude::*;

use crate::files::{TrackedFileView, TrackedFiles};
use crate::ops::{Operator, SetTypes};
use crate::VersionError;

verus! {

/// `+`/`up` ask for an increment by one, `-`/`down` for a decrement.
#[derive(Debug, Clone, Copy, PartialEq, Eq)]
pub enum UpDown {
    Plus,
    Minus,
    Up,
    Down,
}

impl UpDown {
    /// The value change an increment or decrement shortcut stands for.
    pub fn to_set_types(&self) -> (r: SetTypes)
        ensures
            r == match self {
                UpDown::Plus => SetTypes::AddNumber,
                UpDown::Up => SetTypes::AddNumber,
                UpDown::Minus => SetTypes::SubNumber,
                UpDown::Down => SetTypes::SubNumber,
            },
    {
        match self {
            UpDown::Plus => SetTypes::AddNumber,
            UpDown::Up => SetTypes::AddNumber,
            UpDown::Minus => SetTypes::SubNumber,
            UpDown::Down => SetTypes::SubNumber,
        }
    }
}

/// The argument of a numeric `set`: an explicit value or a shortcut; with
/// neither, the command carries no value.
#[derive(Debug, Clone, PartialEq, Eq)]
pub struct SetArg {
    pub value: Option<u64>,
    pub command: Option<UpDown>,
}

impl SetArg {
    /// Rejected with `NoValue` exactly when neither a number nor a shortcut
    /// was given; an explicit number wins over a shortcut.
    pub fn to_set_types(&self) -> (r: Result<SetTypes, VersionError>)
        ensures
            match r {
                Ok(st) => match self.value {
                    Some(n) => st == SetTypes::Number(n),
                    None => self.command is Some && st == self.command->Some_0.to_up_down_spec(),
                },
                Err(e) => e == VersionError::NoValue && self.value is None && self.command is None,
            },
    {
        if let Some(value) = &self.value {
            return Ok(SetTypes::Number(*value));
        }
        if let Some(command) = &self.command {
            return Ok(command.to_set_types());
        }
        Err(VersionError::NoValue)
    }
}

impl UpDown {
    /// What the shortcut means, for contracts.
    pub open spec fn to_up_down_spec(&self) -> SetTypes {
        match self {
            UpDown::Plus => SetTypes::AddNumber,
            UpDown::Up => SetTypes::AddNumber,
            UpDown::Minus => SetTypes::SubNumber,
            UpDown::Down => SetTypes::SubNumber,
        }
    }
}

/// A `get`/`set`/`reset` command on a numeric component.
#[derive(Debug, Clone, PartialEq, Eq)]
pub enum GetSetCommand {
    Get,
    SetValue(SetArg),
    Reset,
}

/// A numeric component's command, as the argument surface hands it in.
#[derive(Debug, Clone, PartialEq, Eq)]
pub struct GetSet {
    pub command: GetSetCommand,
}

impl GetSet {
    /// The operator a numeric component's command stands for.
    pub fn to_operator(&self) -> (r: Result<Operator, VersionError>)
        ensures
            match r {
                Ok(op) => match self.command {
                    GetSetCommand::Get => op == Operator::Get,
                    GetSetCommand::SetValue(_) => op is SetTo,
                    GetSetCommand::Reset => op == Operator::Reset,
                },
                Err(e) => e == VersionError::NoValue && (self.command matches GetSetCommand::SetValue(
                    a,
                ) && a.value is None && a.command is None),
            },
    {
        match &self.command {
            GetSetCommand::Get => Ok(Operator::Get),
            GetSetCommand::SetValue(arg) => match arg.to_set_types() {
                Ok(st) => Ok(Operator::SetTo(st)),
                Err(e) => Err(e),
            },
            GetSetCommand::Reset => Ok(Operator::Reset),
        }
    }
}

/// A `get`/`set`/`rm`/`reset` command on a prerelease channel.
#[derive(Debug, Clone, PartialEq, Eq)]
pub enum GetSetRmCommand {
    Get,
    SetValue(SetArg),
    Rm,
    Reset,
}

/// A prerelease channel's command, as the argument surface hands it in.
#[derive(Debug, Clone, PartialEq, Eq)]
pub struct GetSetRm {
    pub command: GetSetRmCommand,
}

impl GetSetRm {
    /// The operator a channel's command stands for.
    pub fn to_operator(&self) -> (r: Result<Operator, VersionError>)
        ensures
            match r {
                Ok(op) => match self.command {
                    GetSetRmCommand::Get => op == Operator::Get,
                    GetSetRmCommand::SetValue(_) => op is SetTo,
                    GetSetRmCommand::Rm => op == Operator::Rm,
                    GetSetRmCommand::Reset => op == Operator::Reset,
                },
                Err(e) => e == VersionError::NoValue && (self.command
                    matches GetSetRmCommand::SetValue(a) && a.value is None && a.command is None),
            },
    {
        match &self.command {
            GetSetRmCommand::Get => Ok(Operator::Get),
            GetSetRmCommand::SetValue(arg) => match arg.to_set_types() {
                Ok(st) => Ok(Operator::SetTo(st)),
                Err(e) => Err(e),
            },
            GetSetRmCommand::Rm => Ok(Operator::Rm),
            GetSetRmCommand::Reset => Ok(Operator::Reset),
        }
    }
}

/// The argument of a build `set`: a verbatim byte string.
#[derive(Debug, Clone, PartialEq, Eq)]
pub struct SetBuild {
    pub value: Vec<u8>,
}

/// A `get`/`set`/`rm` command on the build metadata.
#[derive(Debug, Clone, PartialEq, Eq)]
pub enum GetSetBuildCommand {
    Get,
    SetValue(SetBuild),
    Rm,
}

/// The build component's command, as the argument surface hands it in.
#[derive(Debug, Clone, PartialEq, Eq)]
pub struct GetSetBuild {
    pub command: GetSetBuildCommand,
}

impl GetSetBuild {
    /// The operator the build command stands for.
    pub fn to_operator(self) -> (r: Operator)
        ensures
            r == match self.command {
                GetSetBuildCommand::Get => Operator::Get,
                GetSetBuildCommand::SetValue(sb) => Operator::SetTo(SetTypes::String(sb.value)),
                GetSetBuildCommand::Rm => Operator::Rm,
            },
    {
        match self.command {
            GetSetBuildCommand::Get => Operator::Get,
            GetSetBuildCommand::SetValue(sb) => Operator::SetTo(SetTypes::String(sb.value)),
            GetSetBuildCommand::Rm => Operator::Rm,
        }
    }
}

/// The argument of a whole-version `set`: the semantic version string.
#[derive(Debug, Clone, PartialEq, Eq)]
pub struct SetVer {
    pub val: Vec<u8>,
}

impl SetVer {
    /// The operator a whole-version `set` stands for.
    pub fn to_operator(self) -> (r: Operator)
        ensures
            r == Operator::SetVersion(self.val),
    {
        Operator::SetVersion(self.val)
    }
}

/// A file-scope command, as the argument surface hands it in.
#[derive(Debug, Clone, PartialEq, Eq)]
pub enum FilesCommand {
    Track(TrackedFiles),
    Rm(Vec<u8>),
    Update(Vec<u8>),
    UpdateAll,
    List,
}

impl FilesCommand {
    /// The operator a file-scope command stands for.
    pub fn to_operator(self) -> (r: Operator)
        ensures
            r == match self {
                FilesCommand::Track(tf) => Operator::AddFile(SetTypes::NewFile(tf)),
                FilesCommand::Rm(path) => Operator::RmFile(path),
                FilesCommand::Update(path) => Operator::Update(path),
                FilesCommand::UpdateAll => Operator::UpdateAll,
                FilesCommand::List => Operator::ListFiles,
            },
    {
        match self {
            FilesCommand::Track(tf) => Operator::AddFile(SetTypes::NewFile(tf)),
            FilesCommand::Rm(path) => Operator::RmFile(path),
            FilesCommand::Update(path) => Operator::Update(path),
            FilesCommand::UpdateAll => Operator::UpdateAll,
            FilesCommand::List => Operator::ListFiles,
        }
    }
}

} // verus!
