use version_manager::document::{Package, VersionFile};
use version_manager::files::TrackedFiles;
use version_manager::semver::Version;
use version_manager::store::{parse_document, serialize_document};
use version_manager::VersionError;

fn demo_doc() -> VersionFile {
    VersionFile {
        version: Version::parse(b"1.2.3-alpha.4+build7").unwrap(),
        files: vec![
            TrackedFiles::new(
                b"Cargo.toml".to_vec(),
                b"version = \"([0-9]+\\.[0-9]+\\.[0-9]+[^\"]*)\"".to_vec(),
            ),
            TrackedFiles::new(b"a b.txt".to_vec(), b"(.*)".to_vec()),
        ],
        package: vec![
            (
                b"web".to_vec(),
                Package { version: Version::parse(b"0.2.0").unwrap(), files: vec![] },
            ),
            (
                b"core".to_vec(),
                Package {
                    version: Version::parse(b"3.0.0-rc.1").unwrap(),
                    files: vec![TrackedFiles::new(b"x".to_vec(), b"(v)".to_vec())],
                },
            ),
        ],
    }
}

#[test]
fn persistence_round_trip() {
    let doc = demo_doc();
    let bytes = serialize_document(&doc).expect("serializes");
    let back = parse_document(bytes.as_slice()).expect("parses");
    assert_eq!(back, doc);
}

#[test]
fn serialized_shape() {
    let doc = VersionFile {
        version: Version::default(),
        files: vec![TrackedFiles::new(b"f \"q\"".to_vec(), b"a\\d(b)".to_vec())],
        package: vec![(
            b"web".to_vec(),
            Package { version: Version::parse(b"0.2.0").unwrap(), files: vec![] },
        )],
    };
    let bytes = serialize_document(&doc).expect("serializes");
    let text = String::from_utf8(bytes).unwrap();
    let expected = "version = \"0.1.0\"\nfiles = [{ file = \"f \\\"q\\\"\", expr = \"a\\\\d(b)\" }]\n[package.\"web\"]\nversion = \"0.2.0\"\nfiles = []\n";
    assert_eq!(text, expected);
}

#[test]
fn default_document_round_trip() {
    let doc = VersionFile::default();
    let bytes = serialize_document(&doc).expect("serializes");
    assert_eq!(
        String::from_utf8(bytes.clone()).unwrap(),
        "version = \"0.1.0\"\nfiles = []\n"
    );
    assert_eq!(parse_document(bytes.as_slice()).expect("parses"), doc);
}

#[test]
fn parser_tolerates_crlf() {
    let text = "version = \"0.1.0\"\r\nfiles = []\r\n";
    let doc = parse_document(text.as_bytes()).expect("parses");
    assert_eq!(doc, VersionFile::default());
}

#[test]
fn parser_rejects_other_shapes() {
    for bad in [
        "",
        "version = \"0.1.0\"\n",
        "version = 1\nfiles = []\n",
        "version = \"0.1.0\"\nfiles = [\n",
        "version = \"0.1.0\"\nfiles = []\n[package.\"\"]\nversion = \"0.1.0\"\nfiles = []\n",
        "version = \"0.1.0\"\nfiles = []\n[package.\"a\"]\n",
        "version = \"nope\"\nfiles = []\n",
        "version = \"0.1.0\"\nfiles = [{ file = \"a\" }]\n",
    ] {
        assert_eq!(
            parse_document(bad.as_bytes()).unwrap_err(),
            VersionError::TomlDeError,
            "{bad}"
        );
    }
}

#[test]
fn parser_rejects_duplicate_package_names() {
    let text = "version = \"0.1.0\"\nfiles = []\n[package.\"a\"]\nversion = \"0.1.0\"\nfiles = []\n[package.\"a\"]\nversion = \"0.2.0\"\nfiles = []\n";
    assert_eq!(parse_document(text.as_bytes()).unwrap_err(), VersionError::TomlDeError);
}

#[test]
fn serializer_rejects_control_bytes() {
    let doc = VersionFile {
        version: Version::default(),
        files: vec![TrackedFiles::new(b"a\nb".to_vec(), b"(x)".to_vec())],
        package: vec![],
    };
    assert_eq!(serialize_document(&doc).unwrap_err(), VersionError::TomlSerError);
}

#[test]
fn extreme_numbers_round_trip() {
    let s = format!("{}.{}.{}", u64::MAX, u64::MAX, u64::MAX);
    let doc = VersionFile {
        version: Version::parse(s.as_bytes()).unwrap(),
        files: vec![],
        package: vec![],
    };
    let bytes = serialize_document(&doc).expect("serializes");
    assert_eq!(parse_document(bytes.as_slice()).expect("parses"), doc);
}
