use version_manager::cli::{FilesCommand, GetSet, GetSetBuild, GetSetBuildCommand, GetSetCommand,
    GetSetRm, GetSetRmCommand, SetArg, SetBuild, SetVer, UpDown};
use version_manager::files::TrackedFiles;
use version_manager::ops::{Operator, SetTypes};
use version_manager::VersionError;

#[test]
fn set_arg_translation() {
    let arg = SetArg { value: Some(5), command: None };
    assert_eq!(arg.to_set_types(), Ok(SetTypes::Number(5)));
    let arg = SetArg { value: None, command: Some(UpDown::Plus) };
    assert_eq!(arg.to_set_types(), Ok(SetTypes::AddNumber));
    let arg = SetArg { value: None, command: Some(UpDown::Up) };
    assert_eq!(arg.to_set_types(), Ok(SetTypes::AddNumber));
    let arg = SetArg { value: None, command: Some(UpDown::Minus) };
    assert_eq!(arg.to_set_types(), Ok(SetTypes::SubNumber));
    let arg = SetArg { value: None, command: Some(UpDown::Down) };
    assert_eq!(arg.to_set_types(), Ok(SetTypes::SubNumber));
    // a `set` without any value is rejected
    let arg = SetArg { value: None, command: None };
    assert_eq!(arg.to_set_types(), Err(VersionError::NoValue));
}

#[test]
fn get_set_translation() {
    let cmd = GetSet { command: GetSetCommand::Get };
    assert_eq!(cmd.to_operator(), Ok(Operator::Get));
    let cmd = GetSet { command: GetSetCommand::Reset };
    assert_eq!(cmd.to_operator(), Ok(Operator::Reset));
    let cmd = GetSet {
        command: GetSetCommand::SetValue(SetArg { value: None, command: None }),
    };
    assert_eq!(cmd.to_operator(), Err(VersionError::NoValue));
}

#[test]
fn get_set_rm_translation() {
    let cmd = GetSetRm { command: GetSetRmCommand::Rm };
    assert_eq!(cmd.to_operator(), Ok(Operator::Rm));
    let cmd = GetSetRm {
        command: GetSetRmCommand::SetValue(SetArg { value: Some(2), command: None }),
    };
    assert_eq!(cmd.to_operator(), Ok(Operator::SetTo(SetTypes::Number(2))));
}

#[test]
fn build_and_version_translation() {
    let cmd = GetSetBuild {
        command: GetSetBuildCommand::SetValue(SetBuild { value: b"b1".to_vec() }),
    };
    assert_eq!(
        cmd.to_operator(),
        Operator::SetTo(SetTypes::String(b"b1".to_vec()))
    );
    let cmd = SetVer { val: b"1.2.3".to_vec() };
    assert_eq!(cmd.to_operator(), Operator::SetVersion(b"1.2.3".to_vec()));
}

#[test]
fn files_translation() {
    let tf = TrackedFiles::new(b"a".to_vec(), b"(x)".to_vec());
    assert_eq!(
        FilesCommand::Track(tf.clone()).to_operator(),
        Operator::AddFile(SetTypes::NewFile(tf))
    );
    assert_eq!(
        FilesCommand::Rm(b"a".to_vec()).to_operator(),
        Operator::RmFile(b"a".to_vec())
    );
    assert_eq!(
        FilesCommand::Update(b"a".to_vec()).to_operator(),
        Operator::Update(b"a".to_vec())
    );
    assert_eq!(FilesCommand::UpdateAll.to_operator(), Operator::UpdateAll);
    assert_eq!(FilesCommand::List.to_operator(), Operator::ListFiles);
}
