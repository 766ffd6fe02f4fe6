use version_manager::semver::Version;
use version_manager::VersionError;

fn v(s: &str) -> Version {
    Version::parse(s.as_bytes()).expect("valid version")
}

fn fmt(ver: &Version) -> String {
    String::from_utf8(ver.format()).expect("utf8")
}

#[test]
fn parse_format_round_trip_plain() {
    let ver = v("1.2.3");
    assert_eq!(ver.major, 1);
    assert_eq!(ver.minor, 2);
    assert_eq!(ver.patch, 3);
    assert_eq!(ver.pre, None);
    assert_eq!(ver.build, None);
    assert_eq!(fmt(&ver), "1.2.3");
}

#[test]
fn parse_format_round_trip_full() {
    let ver = v("1.2.3-alpha.4+build7");
    assert_eq!(ver.pre, Some(b"alpha.4".to_vec()));
    assert_eq!(ver.build, Some(b"build7".to_vec()));
    assert_eq!(fmt(&ver), "1.2.3-alpha.4+build7");
    let again = Version::parse(ver.format().as_slice()).expect("round trip");
    assert_eq!(again, ver);
}

#[test]
fn parse_large_numbers() {
    let s = format!("{}.{}.{}", u64::MAX, 0, 7);
    let ver = v(&s);
    assert_eq!(ver.major, u64::MAX);
    assert_eq!(fmt(&ver), s);
}

#[test]
fn parse_rejects_empty() {
    assert_eq!(Version::parse(b""), Err(VersionError::EmptyVersion));
}

#[test]
fn parse_rejects_bad_shapes() {
    for bad in [
        "1.2",
        "1.2.3.4",
        "01.2.3",
        "1.02.3",
        "1.2.3-",
        "1.2.3+",
        "1.2.3-a..b",
        "1.2.3-01",
        "1.2.3 ",
        "a.b.c",
        "1.2.3-é",
        "18446744073709551616.0.0",
    ] {
        let r = Version::parse(bad.as_bytes());
        assert_eq!(r, Err(VersionError::InvalidVersion(bad.as_bytes().to_vec())), "{bad}");
    }
}

#[test]
fn parse_accepts_leading_zero_in_build() {
    let ver = v("1.2.3+007");
    assert_eq!(ver.build, Some(b"007".to_vec()));
    let ver = v("1.2.3-alpha.1.2-x+a.0.b");
    assert_eq!(ver.pre, Some(b"alpha.1.2-x".to_vec()));
}

#[test]
fn default_is_zero_one_zero() {
    let ver = Version::default();
    assert_eq!(fmt(&ver), "0.1.0");
}

#[test]
fn monotone_increment_and_reject_negative() {
    let mut ver = Version::default();
    ver.inc_major();
    assert_eq!(fmt(&ver), "1.1.0");
    ver.inc_minor();
    ver.inc_patch();
    assert_eq!(fmt(&ver), "1.2.1");
    assert_eq!(ver.dec_patch(), Ok(()));
    assert_eq!(fmt(&ver), "1.2.0");
    // a zero field is rejected, not clamped
    assert_eq!(ver.dec_patch(), Err(VersionError::NoNegatives));
    assert_eq!(fmt(&ver), "1.2.0");
}

#[test]
fn reset_cascade() {
    let mut ver = v("1.2.3-alpha.4+build7");
    ver.set_minor(5);
    ver.reset_minor();
    assert_eq!(fmt(&ver), "1.5.0");

    let mut ver = v("1.2.3-alpha.4+build7");
    ver.reset_major();
    assert_eq!(fmt(&ver), "1.0.0");

    let mut ver = v("1.2.3-alpha.4+build7");
    ver.reset_patch();
    assert_eq!(fmt(&ver), "1.2.3");

    let mut ver = v("1.2.3-alpha.4+build7");
    ver.reset_alpha();
    assert_eq!(fmt(&ver), "1.2.3-alpha.4");
}

#[test]
fn build_set_and_remove() {
    let mut ver = v("1.2.3");
    assert_eq!(ver.set_build(b"build7".to_vec()), Ok(()));
    assert_eq!(fmt(&ver), "1.2.3+build7");
    ver.rm_build();
    assert_eq!(fmt(&ver), "1.2.3");
    // the empty build string is rejected
    assert_eq!(ver.set_build(Vec::new()), Err(VersionError::InvalidVersion(Vec::new())));
    // an invalid build string is rejected and carried in the error
    assert_eq!(
        ver.set_build(b"a b".to_vec()),
        Err(VersionError::InvalidVersion(b"a b".to_vec()))
    );
}
