use version_manager::prerelease::{Channel, PrereleaseWrapper};
use version_manager::semver::Version;
use version_manager::VersionError;

fn fmt(ver: &Version) -> String {
    String::from_utf8(ver.format()).expect("utf8")
}

#[test]
fn codec_round_trip() {
    for c in [Channel::Alpha, Channel::Beta, Channel::Rc, Channel::Pre] {
        for n in [0u64, 1, 7, 4294967296, u64::MAX] {
            let w = PrereleaseWrapper::new(c, n);
            let bytes = w.encode();
            let back = PrereleaseWrapper::decode(bytes.as_slice()).expect("round trip");
            assert_eq!(back, w);
        }
    }
}

#[test]
fn codec_concrete() {
    let w = PrereleaseWrapper::new(Channel::Rc, 2);
    assert_eq!(w.encode(), b"rc.2".to_vec());
    let w = PrereleaseWrapper::decode(b"alpha.11").expect("decodes");
    assert_eq!((w.pre, w.num), (Channel::Alpha, 11));
    // leading zeros in the counter are read as the number they spell
    let w = PrereleaseWrapper::decode(b"beta.007").expect("decodes");
    assert_eq!((w.pre, w.num), (Channel::Beta, 7));
}

#[test]
fn codec_rejects_other_shapes() {
    for bad in ["alpha", "alpha.", "alpha.x", "alpha.1.2", "foo.1", "", ".1",
        "alpha.18446744073709551616"] {
        assert_eq!(
            PrereleaseWrapper::decode(bad.as_bytes()),
            Err(VersionError::InvalidPrerelease(bad.as_bytes().to_vec())),
            "{bad}"
        );
    }
}

#[test]
fn prerelease_counter_walk() {
    // increment twice, decrement twice: the last step clears the prerelease
    let mut ver = Version::default();
    ver.inc_alpha();
    assert_eq!(fmt(&ver), "0.1.0-alpha.1");
    ver.inc_alpha();
    assert_eq!(fmt(&ver), "0.1.0-alpha.2");
    assert_eq!(ver.dec_alpha(), Ok(()));
    assert_eq!(fmt(&ver), "0.1.0-alpha.1");
    assert_eq!(ver.dec_alpha(), Ok(()));
    assert_eq!(fmt(&ver), "0.1.0");
    assert_eq!(ver.pre, None);
}

#[test]
fn disappear_on_zero() {
    let mut ver = Version::default();
    ver.set_beta(1);
    assert_eq!(fmt(&ver), "0.1.0-beta.1");
    assert_eq!(ver.dec_beta(), Ok(()));
    assert_eq!(ver.pre, None);
    // a counter already at zero is rejected, not clamped
    ver.set_beta(0);
    assert_eq!(ver.dec_beta(), Err(VersionError::NoNegatives));
    assert_eq!(fmt(&ver), "0.1.0-beta.0");
}

#[test]
fn cross_channel_replace() {
    let mut ver = Version::default();
    ver.set_alpha(1);
    assert_eq!(fmt(&ver), "0.1.0-alpha.1");
    ver.set_rc(2);
    assert_eq!(fmt(&ver), "0.1.0-rc.2");
    // an increment on another channel moves the counter onto that channel
    ver.inc_beta();
    assert_eq!(fmt(&ver), "0.1.0-beta.3");
}

#[test]
fn dec_on_undecodable_prerelease() {
    let mut ver = Version::parse(b"0.1.0-foo.bar").expect("valid semver");
    assert_eq!(
        ver.dec_alpha(),
        Err(VersionError::InvalidPrerelease(b"foo.bar".to_vec()))
    );
    // an increment treats it as a fresh channel
    ver.inc_rc();
    assert_eq!(fmt(&ver), "0.1.0-rc.1");
}

#[test]
fn rm_clears_prerelease() {
    let mut ver = Version::parse(b"1.0.0-rc.3+b1").expect("valid");
    ver.rm_rc();
    assert_eq!(fmt(&ver), "1.0.0+b1");
}
