use version_manager::files::{update_file_content, TrackedFiles};
use version_manager::VersionError;

const CARGO_EXPR: &str = "version = \"([0-9]+\\.[0-9]+\\.[0-9]+[^\"]*)\"";

#[test]
fn update_replaces_first_matching_line_only() {
    let content = b"[package]\nname = \"demo\"\nversion = \"0.1.0\"\nrust-version = \"0.1.0\"\n";
    let out = update_file_content(CARGO_EXPR.as_bytes(), content, b"0.1.1").expect("updates");
    assert_eq!(
        String::from_utf8(out).unwrap(),
        "[package]\nname = \"demo\"\nversion = \"0.1.1\"\nrust-version = \"0.1.0\"\n"
    );
}

#[test]
fn update_without_match_copies_content() {
    let content = b"nothing here\nat all\n";
    let out = update_file_content(CARGO_EXPR.as_bytes(), content, b"9.9.9").expect("updates");
    assert_eq!(out, content.to_vec());
}

#[test]
fn update_normalizes_line_endings() {
    let content = b"a\r\nversion = \"0.1.0\"\r\nlast line without newline";
    let out = update_file_content(CARGO_EXPR.as_bytes(), content, b"2.0.0").expect("updates");
    assert_eq!(
        String::from_utf8(out).unwrap(),
        "a\nversion = \"2.0.0\"\nlast line without newline\n"
    );
}

#[test]
fn update_is_idempotent_for_stable_expressions() {
    let content = b"version = \"0.1.0\"\nversion = \"0.1.0\"\n";
    let once = update_file_content(CARGO_EXPR.as_bytes(), content, b"3.1.4").expect("updates");
    let twice =
        update_file_content(CARGO_EXPR.as_bytes(), once.as_slice(), b"3.1.4").expect("updates");
    assert_eq!(twice, once);
    assert_eq!(
        String::from_utf8(once).unwrap(),
        "version = \"3.1.4\"\nversion = \"0.1.0\"\n"
    );
}

#[test]
fn update_empty_file() {
    let out = update_file_content(CARGO_EXPR.as_bytes(), b"", b"1.0.0").expect("updates");
    assert_eq!(out, Vec::<u8>::new());
}

#[test]
fn bad_expressions_are_rejected() {
    // not a valid pattern
    assert_eq!(
        update_file_content(b"version (", b"x\n", b"1.0.0"),
        Err(VersionError::RegexError)
    );
    // valid pattern without a capture group
    assert_eq!(
        update_file_content(b"version", b"x\n", b"1.0.0"),
        Err(VersionError::RegexError)
    );
    // not UTF-8
    assert_eq!(
        update_file_content(&[0xffu8, 0xfe], b"x\n", b"1.0.0"),
        Err(VersionError::RegexError)
    );
}

#[test]
fn capture_group_position_is_respected() {
    // the replacement must land on the captured token, not on the whole match
    let out = update_file_content(b"v=([0-9]+) end", b"start v=1 end tail\n", b"22")
        .expect("updates");
    assert_eq!(String::from_utf8(out).unwrap(), "start v=22 end tail\n");
}

#[test]
fn tracked_file_constructors() {
    let a = TrackedFiles::new(b"Cargo.toml".to_vec(), CARGO_EXPR.as_bytes().to_vec());
    let b = TrackedFiles::new_from_path(b"Cargo.toml".to_vec(), CARGO_EXPR.as_bytes().to_vec());
    assert_eq!(a, b);
    assert_eq!(a.file, b"Cargo.toml".to_vec());
}
