use version_manager::document::{Package, VersionFile};
use version_manager::engine::process_run;
use version_manager::files::TrackedFiles;
use version_manager::ops::{Operator, Scope, SetTypes};
use version_manager::semver::Version;
use version_manager::VersionError;

fn fresh() -> VersionFile {
    VersionFile::default()
}

fn fmt(ver: &Version) -> String {
    String::from_utf8(ver.format()).expect("utf8")
}

fn run(scope: Scope, doc: VersionFile) -> (VersionFile, Vec<String>) {
    let (doc, effects) = process_run(scope, doc).expect("run succeeds");
    let prints = effects
        .prints
        .into_iter()
        .map(|l| String::from_utf8(l).expect("utf8"))
        .collect();
    (doc, prints)
}

#[test]
fn major_bump() {
    let (doc, prints) = run(Scope::Major(Operator::SetTo(SetTypes::AddNumber)), fresh());
    // the increment touches the major number alone; nothing is printed
    assert_eq!(fmt(&doc.version), "1.1.0");
    assert!(prints.is_empty());
    let (_, prints) = run(Scope::Get, doc);
    assert_eq!(prints, vec!["1.1.0".to_string()]);
}

#[test]
fn component_get_prints_component() {
    let doc = VersionFile {
        version: Version::parse(b"1.2.3-rc.4+b5").unwrap(),
        files: vec![],
        package: vec![],
    };
    let (doc, prints) = run(Scope::Minor(Operator::Get), doc);
    assert_eq!(prints, vec!["2".to_string()]);
    let (doc, prints) = run(Scope::RC(Operator::Get), doc);
    assert_eq!(prints, vec!["rc.4".to_string()]);
    let (doc, prints) = run(Scope::Build(Operator::Get), doc);
    assert_eq!(prints, vec!["b5".to_string()]);
    let (doc, prints) = run(Scope::Version, doc);
    assert_eq!(prints, vec!["1.2.3".to_string()]);
    let (_, prints) = run(Scope::Revision, doc);
    assert_eq!(prints, vec!["rc.4".to_string()]);
}

#[test]
fn set_full_version() {
    let (doc, _) = run(
        Scope::SetFull(Operator::SetVersion(b"2.0.0-rc.1".to_vec())),
        fresh(),
    );
    assert_eq!(fmt(&doc.version), "2.0.0-rc.1");
    assert_eq!(
        process_run(Scope::SetFull(Operator::SetVersion(b"nope".to_vec())), fresh()).unwrap_err(),
        VersionError::InvalidVersion(b"nope".to_vec())
    );
    assert_eq!(
        process_run(Scope::SetFull(Operator::SetVersion(Vec::new())), fresh()).unwrap_err(),
        VersionError::EmptyVersion
    );
}

#[test]
fn invalid_operation_matrix() {
    // every crossed-out cell of the operator matrix is InvalidOperation
    let cases: Vec<Scope> = vec![
        Scope::Major(Operator::SetTo(SetTypes::String(b"x".to_vec()))),
        Scope::Major(Operator::Rm),
        Scope::Minor(Operator::SetTo(SetTypes::String(b"x".to_vec()))),
        Scope::Minor(Operator::Rm),
        Scope::Patch(Operator::Rm),
        Scope::Alpha(Operator::SetTo(SetTypes::String(b"x".to_vec()))),
        Scope::Beta(Operator::SetTo(SetTypes::String(b"x".to_vec()))),
        Scope::RC(Operator::SetTo(SetTypes::String(b"x".to_vec()))),
        Scope::Build(Operator::SetTo(SetTypes::Number(1))),
        Scope::Build(Operator::SetTo(SetTypes::AddNumber)),
        Scope::Build(Operator::SetTo(SetTypes::SubNumber)),
        Scope::Build(Operator::Reset),
        Scope::Major(Operator::UpdateAll),
        Scope::ListPackages,
        Scope::RmPackage,
    ];
    for scope in cases {
        let err = process_run(scope, fresh()).unwrap_err();
        assert_eq!(err, VersionError::InvalidOperation);
    }
}

#[test]
fn no_negatives_on_zero_fields() {
    assert_eq!(
        process_run(Scope::Major(Operator::SetTo(SetTypes::SubNumber)), fresh()).unwrap_err(),
        VersionError::NoNegatives
    );
    assert_eq!(
        process_run(Scope::Patch(Operator::SetTo(SetTypes::SubNumber)), fresh()).unwrap_err(),
        VersionError::NoNegatives
    );
}

#[test]
fn mutations_plan_a_sync_of_the_scope() {
    let tf = TrackedFiles::new(b"Cargo.toml".to_vec(), b"version = \"(.*)\"".to_vec());
    let doc = VersionFile {
        version: Version::default(),
        files: vec![tf.clone()],
        package: vec![],
    };
    let (doc, effects) = process_run(Scope::Patch(Operator::SetTo(SetTypes::AddNumber)), doc)
        .expect("runs");
    assert_eq!(fmt(&doc.version), "0.1.1");
    assert_eq!(effects.syncs.len(), 1);
    assert_eq!(effects.syncs[0].file, tf);
    assert_eq!(effects.syncs[0].version, b"0.1.1".to_vec());
    // a query plans no sync
    let (_, effects) = process_run(Scope::Get, doc).expect("runs");
    assert!(effects.syncs.is_empty());
}

#[test]
fn file_operations() {
    let tf = TrackedFiles::new(b"a.txt".to_vec(), b"(x)".to_vec());
    let tf2 = TrackedFiles::new(b"b.txt".to_vec(), b"(y)".to_vec());
    let doc = fresh();
    let (doc, effects) = process_run(
        Scope::File(Operator::AddFile(SetTypes::NewFile(tf.clone()))),
        doc,
    )
    .expect("track");
    assert_eq!(doc.files, vec![tf.clone()]);
    // tracking also synchronizes the scope, the new file included
    assert_eq!(effects.syncs.len(), 1);
    let (doc, _) = process_run(
        Scope::File(Operator::AddFile(SetTypes::NewFile(tf2.clone()))),
        doc,
    )
    .expect("track");
    // update of one path plans a rewrite of the first entry with that path
    let (doc, effects) =
        process_run(Scope::File(Operator::Update(b"b.txt".to_vec())), doc).expect("update");
    assert_eq!(effects.syncs.len(), 1);
    assert_eq!(effects.syncs[0].file, tf2);
    // update-all plans one rewrite per entry, in order
    let (doc, effects) = process_run(Scope::File(Operator::UpdateAll), doc).expect("update all");
    assert_eq!(effects.syncs.len(), 2);
    // list prints the JSON line
    let (doc, effects) = process_run(Scope::File(Operator::ListFiles), doc).expect("list");
    assert_eq!(
        String::from_utf8(effects.prints[0].clone()).unwrap(),
        "[{\"file\":\"a.txt\",\"expr\":\"(x)\"},{\"file\":\"b.txt\",\"expr\":\"(y)\"}]"
    );
    // removal is by stored path
    let (doc, _) = process_run(Scope::File(Operator::RmFile(b"a.txt".to_vec())), doc)
        .expect("rm");
    assert_eq!(doc.files, vec![tf2]);
}

#[test]
fn duplicate_tracked_files_are_kept() {
    let tf = TrackedFiles::new(b"a.txt".to_vec(), b"(x)".to_vec());
    let doc = fresh();
    let (doc, _) =
        process_run(Scope::File(Operator::AddFile(SetTypes::NewFile(tf.clone()))), doc).unwrap();
    let (doc, _) =
        process_run(Scope::File(Operator::AddFile(SetTypes::NewFile(tf.clone()))), doc).unwrap();
    assert_eq!(doc.files.len(), 2);
    // removing the path removes every entry with it
    let (doc, _) =
        process_run(Scope::File(Operator::RmFile(b"a.txt".to_vec())), doc).unwrap();
    assert!(doc.files.is_empty());
}

#[test]
fn package_create_and_list() {
    let scope = Scope::Package(
        b"web".to_vec(),
        Box::new(Scope::Minor(Operator::SetTo(SetTypes::AddNumber))),
    );
    let (doc, _) = run(scope, fresh());
    assert_eq!(doc.package.len(), 1);
    assert_eq!(doc.package[0].0, b"web".to_vec());
    assert_eq!(fmt(&doc.package[0].1.version), "0.2.0");
    // the root version is untouched
    assert_eq!(fmt(&doc.version), "0.1.0");
    let (_, prints) = run(
        Scope::Package(Vec::new(), Box::new(Scope::ListPackages)),
        doc,
    );
    assert_eq!(prints, vec!["web: 0.2.0".to_string()]);
}

#[test]
fn package_remove_and_name_required() {
    let make = Scope::Package(b"web".to_vec(), Box::new(Scope::Get));
    let (doc, prints) = run(make, fresh());
    assert_eq!(prints, vec!["0.1.0".to_string()]);
    assert_eq!(doc.package.len(), 1);
    let (doc, _) = run(
        Scope::Package(b"web".to_vec(), Box::new(Scope::RmPackage)),
        doc,
    );
    assert!(doc.package.is_empty());
    // a package operation without a name is rejected
    assert_eq!(
        process_run(Scope::Package(Vec::new(), Box::new(Scope::Get)), fresh()).unwrap_err(),
        VersionError::PackageNameRequired
    );
}

#[test]
fn package_routing_keeps_other_packages() {
    let (doc, _) = run(Scope::Package(b"a".to_vec(), Box::new(Scope::Get)), fresh());
    let (doc, _) = run(
        Scope::Package(
            b"b".to_vec(),
            Box::new(Scope::Major(Operator::SetTo(SetTypes::Number(9)))),
        ),
        doc,
    );
    assert_eq!(doc.package.len(), 2);
    assert_eq!(doc.package[0].0, b"a".to_vec());
    assert_eq!(fmt(&doc.package[0].1.version), "0.1.0");
    assert_eq!(fmt(&doc.package[1].1.version), "9.1.0");
}

#[test]
fn get_package_lookup() {
    let (doc, _) = run(Scope::Package(b"a".to_vec(), Box::new(Scope::Get)), fresh());
    let pkg: &Package = doc.get_package(b"a").expect("found");
    assert_eq!(fmt(&pkg.version), "0.1.0");
    assert_eq!(doc.get_package(b"zzz").unwrap_err(), VersionError::InvalidCommand);
}

#[test]
fn file_list_escapes_quotes_and_backslashes() {
    let tf = TrackedFiles::new(b"a\"b".to_vec(), b"v\\d(x)".to_vec());
    let doc = VersionFile { version: Version::default(), files: vec![tf], package: vec![] };
    let (_, effects) = process_run(Scope::File(Operator::ListFiles), doc).expect("list");
    assert_eq!(
        String::from_utf8(effects.prints[0].clone()).unwrap(),
        "[{\"file\":\"a\\\"b\",\"expr\":\"v\\\\d(x)\"}]"
    );
}
