//! The semantic-version value: parsing, formatting, and the numeric field
//! operations with their reset cascade.

use vstd::prelude::*;

use crate::digits::{dec_digits, digits_val, digits_to_u64, is_digit, lemma_dec_digits_shape,
    lemma_digits_val_dec_digits, u64_to_dec, ZERO};
use crate::grammar::{check_build, check_pre, digits_end, find_from, is_ident_char,
    lemma_digits_end_of_run, lemma_digits_end_spec, lemma_find_from_of_run, lemma_find_from_spec,
    lemma_valid_pre_chars, valid_build, valid_pre, DOT, HYPHEN, PLUS};
use crate::VersionError;

verus! {

/// A semantic version `major.minor.patch[-pre][+build]`.
///
/// `pre` and `build`, when present, hold the bytes of the prerelease and
/// build sections (without the leading `-` or `+`).
#[derive(Debug, Clone, PartialEq, Eq)]
pub struct Version {
    pub major: u64,
    pub minor: u64,
    pub patch: u64,
    pub pre: Option<Vec<u8>>,
    pub build: Option<Vec<u8>>,
}

/// The mathematical model of a version.
pub ghost struct VersionView {
    pub major: u64,
    pub minor: u64,
    pub patch: u64,
    pub pre: Option<Seq<u8>>,
    pub build: Option<Seq<u8>>,
}

impl View for Version {
    type V = VersionView;

    open spec fn view(&self) -> VersionView {
        VersionView {
            major: self.major,
            minor: self.minor,
            patch: self.patch,
            pre: match self.pre {
                Some(p) => Some(p@),
                None => None,
            },
            build: match self.build {
                Some(b) => Some(b@),
                None => None,
            },
        }
    }
}

/// Well-formedness: the prerelease and build sections obey the grammar.
pub open spec fn wf_version(m: VersionView) -> bool {
    &&& match m.pre {
        Some(p) => valid_pre(p),
        None => true,
    }
    &&& match m.build {
        Some(b) => valid_build(b),
        None => true,
    }
}

pub open spec fn pre_part(pre: Option<Seq<u8>>) -> Seq<u8> {
    match pre {
        Some(p) => seq![HYPHEN] + p,
        None => Seq::empty(),
    }
}

pub open spec fn build_part(build: Option<Seq<u8>>) -> Seq<u8> {
    match build {
        Some(b) => seq![PLUS] + b,
        None => Seq::empty(),
    }
}

/// The canonical rendering of a version.
pub open spec fn spec_format(m: VersionView) -> Seq<u8> {
    dec_digits(m.major as nat) + seq![DOT] + dec_digits(m.minor as nat) + seq![DOT] + dec_digits(
        m.patch as nat,
    ) + pre_part(m.pre) + build_part(m.build)
}

/// The digit run starting at `from` is a well-formed number: non-empty,
/// no leading zero, and its value fits in a `u64`.
pub open spec fn num_ok(s: Seq<u8>, from: int) -> bool {
    let e = digits_end(s, from);
    &&& e > from
    &&& (s[from] == ZERO ==> e == from + 1)
    &&& digits_val(s.subrange(from, e)) <= u64::MAX
}

/// The value of the digit run starting at `from`.
pub open spec fn num_val(s: Seq<u8>, from: int) -> nat {
    digits_val(s.subrange(from, digits_end(s, from)))
}

/// The parse function of the version grammar. `None` is a grammar violation.
pub open spec fn spec_parse(s: Seq<u8>) -> Option<VersionView> {
    if !num_ok(s, 0) {
        None
    } else {
        let e1 = digits_end(s, 0);
        if !(e1 < s.len() && s[e1] == DOT) {
            None
        } else {
            let b2 = e1 + 1;
            if !num_ok(s, b2) {
                None
            } else {
                let e2 = digits_end(s, b2);
                if !(e2 < s.len() && s[e2] == DOT) {
                    None
                } else {
                    let b3 = e2 + 1;
                    if !num_ok(s, b3) {
                        None
                    } else {
                        spec_parse_tail(s, num_val(s, 0) as u64, num_val(s, b2) as u64, num_val(
                            s, b3) as u64, digits_end(s, b3))
                    }
                }
            }
        }
    }
}

/// Parses the prerelease and build sections that follow the patch number.
pub open spec fn spec_parse_tail(s: Seq<u8>, major: u64, minor: u64, patch: u64, e3: int) -> Option<
    VersionView,
>
    recommends
        0 <= e3 <= s.len(),
{
    if e3 == s.len() {
        Some(VersionView { major, minor, patch, pre: None, build: None })
    } else if s[e3] == HYPHEN {
        let plus = find_from(s, e3 + 1, PLUS);
        let p = s.subrange(e3 + 1, plus);
        if plus == s.len() {
            if valid_pre(p) {
                Some(VersionView { major, minor, patch, pre: Some(p), build: None })
            } else {
                None
            }
        } else {
            let b = s.subrange(plus + 1, s.len() as int);
            if valid_pre(p) && valid_build(b) {
                Some(VersionView { major, minor, patch, pre: Some(p), build: Some(b) })
            } else {
                None
            }
        }
    } else if s[e3] == PLUS {
        let b = s.subrange(e3 + 1, s.len() as int);
        if valid_build(b) {
            Some(VersionView { major, minor, patch, pre: None, build: Some(b) })
        } else {
            None
        }
    } else {
        None
    }
}

/// A rendered number sitting at position `at`, followed by a non-digit (or
/// the end), scans back to exactly its value.
proof fn lemma_number_at(s: Seq<u8>, at: int, n: u64)
    requires
        0 <= at,
        at + dec_digits(n as nat).len() <= s.len(),
        s.subrange(at, at + dec_digits(n as nat).len() as int) == dec_digits(n as nat),
        at + dec_digits(n as nat).len() < s.len() ==> !is_digit(
            s[at + dec_digits(n as nat).len()],
        ),
    ensures
        digits_end(s, at) == at + dec_digits(n as nat).len(),
        num_ok(s, at),
        num_val(s, at) == n,
{
    let d = dec_digits(n as nat);
    let end = at + d.len();
    lemma_dec_digits_shape(n as nat);
    lemma_digits_val_dec_digits(n as nat);
    assert forall|k: int| at <= k < end implies is_digit(#[trigger] s[k]) by {
        assert(s.subrange(at, end)[k - at] == s[k]);
    }
    lemma_digits_end_of_run(s, at, end);
    assert(s[at] == d[0]);
    if s[at] == ZERO {
        assert(n == 0);
        assert(d.len() == 1);
    }
}

/// Round trip: parsing the canonical rendering of any well-formed version
/// yields that version back.
pub proof fn lemma_parse_format(m: VersionView)
    requires
        wf_version(m),
    ensures
        spec_parse(spec_format(m)) == Some(m),
{
    let s = spec_format(m);
    let da = dec_digits(m.major as nat);
    let db = dec_digits(m.minor as nat);
    let dc = dec_digits(m.patch as nat);
    let pp = pre_part(m.pre);
    let bp = build_part(m.build);
    let a = da.len() as int;
    let b2 = a + 1;
    let e2 = b2 + db.len();
    let b3 = e2 + 1;
    let e3 = b3 + dc.len();
    lemma_dec_digits_shape(m.major as nat);
    lemma_dec_digits_shape(m.minor as nat);
    lemma_dec_digits_shape(m.patch as nat);
    assert(s.len() == e3 + pp.len() + bp.len());
    assert(s[a] == DOT);
    assert(s[e2] == DOT);
    assert(s.subrange(0, a) =~= da);
    assert(s.subrange(b2, e2 as int) =~= db);
    assert(s.subrange(b3, e3 as int) =~= dc);
    lemma_number_at(s, 0, m.major);
    lemma_number_at(s, b2, m.minor);
    lemma_number_at(s, b3, m.patch);
    match m.pre {
        Some(p) => {
            assert(s[e3] == HYPHEN);
            lemma_valid_pre_chars(p, 0);
            assert forall|k: int| e3 + 1 <= k < e3 + 1 + p.len() implies s[k] == p[k - (e3
                + 1)] by {}
            assert forall|k: int| e3 + 1 <= k < e3 + 1 + p.len() implies s[k] != PLUS by {
                assert(p[k - (e3 + 1)] == DOT || is_ident_char(p[k - (e3 + 1)]));
            }
            match m.build {
                Some(b) => {
                    let pl = e3 + 1 + p.len();
                    assert(s[pl] == PLUS);
                    lemma_find_from_of_run(s, e3 + 1, PLUS, pl);
                    assert(s.subrange(e3 + 1, pl) =~= p);
                    assert(s.subrange(pl + 1, s.len() as int) =~= b);
                },
                None => {
                    lemma_find_from_of_run(s, e3 + 1, PLUS, s.len() as int);
                    assert(s.subrange(e3 + 1, s.len() as int) =~= p);
                },
            }
        },
        None => {
            match m.build {
                Some(b) => {
                    assert(s[e3] == PLUS);
                    assert(s.subrange(e3 + 1, s.len() as int) =~= b);
                },
                None => {
                    assert(s.len() == e3);
                },
            }
        },
    }
}

impl Version {
    /// The canonical rendering, `major.minor.patch[-pre][+build]`.
    pub fn format(&self) -> (r: Vec<u8>)
        ensures
            r@ == spec_format(self@),
    {
        let mut out: Vec<u8> = u64_to_dec(self.major);
        out.push(DOT);
        let mut minor_digits = u64_to_dec(self.minor);
        out.append(&mut minor_digits);
        out.push(DOT);
        let mut patch_digits = u64_to_dec(self.patch);
        out.append(&mut patch_digits);
        match &self.pre {
            Some(p) => {
                out.push(HYPHEN);
                let mut pre_bytes = p.clone();
                out.append(&mut pre_bytes);
            },
            None => {},
        }
        match &self.build {
            Some(b) => {
                out.push(PLUS);
                let mut build_bytes = b.clone();
                out.append(&mut build_bytes);
            },
            None => {},
        }
        proof {
            assert(out@ =~= spec_format(self@));
        }
        out
    }

    /// Parses a byte string as a semantic version.
    ///
    /// Returns `EmptyVersion` on empty input and `InvalidVersion` on any
    /// other grammar violation, and succeeds exactly on grammar-valid input.
    pub fn parse(s: &[u8]) -> (r: Result<Version, VersionError>)
        ensures
            match r {
                Ok(v) => spec_parse(s@) == Some(v@) && wf_version(v@),
                Err(e) => spec_parse(s@) is None && if s@.len() == 0 {
                    e == VersionError::EmptyVersion
                } else {
                    e matches VersionError::InvalidVersion(b) && b@ == s@
                },
            },
    {
        if s.len() == 0 {
            return Err(VersionError::EmptyVersion);
        }
        let (major, e1) = match scan_number(s, 0) {
            Some(pair) => pair,
            None => {
                return Err(VersionError::InvalidVersion(slice_to_vec_u8(s)));
            },
        };
        if e1 == s.len() || s[e1] != DOT {
            return Err(VersionError::InvalidVersion(slice_to_vec_u8(s)));
        }
        let (minor, e2) = match scan_number(s, e1 + 1) {
            Some(pair) => pair,
            None => {
                return Err(VersionError::InvalidVersion(slice_to_vec_u8(s)));
            },
        };
        if e2 == s.len() || s[e2] != DOT {
            return Err(VersionError::InvalidVersion(slice_to_vec_u8(s)));
        }
        let (patch, e3) = match scan_number(s, e2 + 1) {
            Some(pair) => pair,
            None => {
                return Err(VersionError::InvalidVersion(slice_to_vec_u8(s)));
            },
        };
        if e3 == s.len() {
            return Ok(Version { major, minor, patch, pre: None, build: None });
        }
        if s[e3] == HYPHEN {
            let plus = scan_for(s, e3 + 1, PLUS);
            let pre_bytes = copy_range(s, e3 + 1, plus);
            if !check_pre(pre_bytes.as_slice(), 0) {
                return Err(VersionError::InvalidVersion(slice_to_vec_u8(s)));
            }
            proof {
                assert(pre_bytes@ == s@.subrange(e3 + 1, plus as int));
            }
            if plus == s.len() {
                return Ok(Version { major, minor, patch, pre: Some(pre_bytes), build: None });
            }
            let build_bytes = copy_range(s, plus + 1, s.len());
            if !check_build(build_bytes.as_slice(), 0) {
                return Err(VersionError::InvalidVersion(slice_to_vec_u8(s)));
            }
            return Ok(
                Version { major, minor, patch, pre: Some(pre_bytes), build: Some(build_bytes) },
            );
        }
        if s[e3] == PLUS {
            let build_bytes = copy_range(s, e3 + 1, s.len());
            if !check_build(build_bytes.as_slice(), 0) {
                return Err(VersionError::InvalidVersion(slice_to_vec_u8(s)));
            }
            return Ok(Version { major, minor, patch, pre: None, build: Some(build_bytes) });
        }
        Err(VersionError::InvalidVersion(slice_to_vec_u8(s)))
    }
}

impl Version {
    /// Sets the major number, keeping every other component.
    pub fn set_major(&mut self, value: u64)
        ensures
            final(self)@ == (VersionView { major: value, ..old(self)@ }),
    {
        self.major = value;
    }

    /// Monotone increment: the major number becomes exactly one more.
    pub fn inc_major(&mut self)
        requires
            old(self).major < u64::MAX,
        ensures
            final(self)@ == (VersionView { major: (old(self).major + 1) as u64, ..old(self)@ }),
    {
        self.major = self.major + 1;
    }

    /// Decrements the major number; rejected with `NoNegatives` exactly when
    /// it is already zero, leaving the version unchanged.
    pub fn dec_major(&mut self) -> (r: Result<(), VersionError>)
        ensures
            match r {
                Ok(()) => old(self).major > 0 && final(self)@ == (VersionView {
                    major: (old(self).major - 1) as u64,
                    ..old(self)@
                }),
                Err(e) => e == VersionError::NoNegatives && old(self).major == 0 && *final(self)
                    == *old(self),
            },
    {
        if self.major == 0 {
            return Err(VersionError::NoNegatives);
        }
        self.major = self.major - 1;
        Ok(())
    }

    /// Reset cascade at the major level: minor and patch become zero and the
    /// prerelease and build are cleared; the major number is kept.
    pub fn reset_major(&mut self)
        ensures
            final(self)@ == (VersionView {
                major: old(self).major,
                minor: 0,
                patch: 0,
                pre: None,
                build: None,
            }),
    {
        self.minor = 0;
        self.patch = 0;
        self.pre = None;
        self.build = None;
    }

    /// Sets the minor number, keeping every other component.
    pub fn set_minor(&mut self, value: u64)
        ensures
            final(self)@ == (VersionView { minor: value, ..old(self)@ }),
    {
        self.minor = value;
    }

    /// Monotone increment: the minor number becomes exactly one more.
    pub fn inc_minor(&mut self)
        requires
            old(self).minor < u64::MAX,
        ensures
            final(self)@ == (VersionView { minor: (old(self).minor + 1) as u64, ..old(self)@ }),
    {
        self.minor = self.minor + 1;
    }

    /// Decrements the minor number; rejected with `NoNegatives` exactly when
    /// it is already zero, leaving the version unchanged.
    pub fn dec_minor(&mut self) -> (r: Result<(), VersionError>)
        ensures
            match r {
                Ok(()) => old(self).minor > 0 && final(self)@ == (VersionView {
                    minor: (old(self).minor - 1) as u64,
                    ..old(self)@
                }),
                Err(e) => e == VersionError::NoNegatives && old(self).minor == 0 && *final(self)
                    == *old(self),
            },
    {
        if self.minor == 0 {
            return Err(VersionError::NoNegatives);
        }
        self.minor = self.minor - 1;
        Ok(())
    }

    /// Reset cascade at the minor level: patch becomes zero and the
    /// prerelease and build are cleared; major and minor are kept.
    pub fn reset_minor(&mut self)
        ensures
            final(self)@ == (VersionView {
                major: old(self).major,
                minor: old(self).minor,
                patch: 0,
                pre: None,
                build: None,
            }),
    {
        self.patch = 0;
        self.pre = None;
        self.build = None;
    }

    /// Sets the patch number, keeping every other component.
    pub fn set_patch(&mut self, value: u64)
        ensures
            final(self)@ == (VersionView { patch: value, ..old(self)@ }),
    {
        self.patch = value;
    }

    /// Monotone increment: the patch number becomes exactly one more.
    pub fn inc_patch(&mut self)
        requires
            old(self).patch < u64::MAX,
        ensures
            final(self)@ == (VersionView { patch: (old(self).patch + 1) as u64, ..old(self)@ }),
    {
        self.patch = self.patch + 1;
    }

    /// Decrements the patch number; rejected with `NoNegatives` exactly when
    /// it is already zero, leaving the version unchanged.
    pub fn dec_patch(&mut self) -> (r: Result<(), VersionError>)
        ensures
            match r {
                Ok(()) => old(self).patch > 0 && final(self)@ == (VersionView {
                    patch: (old(self).patch - 1) as u64,
                    ..old(self)@
                }),
                Err(e) => e == VersionError::NoNegatives && old(self).patch == 0 && *final(self)
                    == *old(self),
            },
    {
        if self.patch == 0 {
            return Err(VersionError::NoNegatives);
        }
        self.patch = self.patch - 1;
        Ok(())
    }

    /// Reset cascade at the patch level: the prerelease and build are
    /// cleared; the numbers are kept.
    pub fn reset_patch(&mut self)
        ensures
            final(self)@ == (VersionView { pre: None, build: None, ..old(self)@ }),
    {
        self.pre = None;
        self.build = None;
    }

    /// Sets the build section; rejected with `InvalidVersion` exactly when
    /// `value` is not a valid build identifier list (in particular when it
    /// is empty), leaving the version unchanged.
    pub fn set_build(&mut self, value: Vec<u8>) -> (r: Result<(), VersionError>)
        ensures
            match r {
                Ok(()) => valid_build(value@) && final(self)@ == (VersionView {
                    build: Some(value@),
                    ..old(self)@
                }),
                Err(e) => !valid_build(value@) && (e matches VersionError::InvalidVersion(b) && b@
                    == value@) && *final(self) == *old(self),
            },
    {
        if !check_build(value.as_slice(), 0) {
            return Err(VersionError::InvalidVersion(value));
        }
        self.build = Some(value);
        Ok(())
    }

    /// Removes the build section.
    pub fn rm_build(&mut self)
        ensures
            final(self)@ == (VersionView { build: None, ..old(self)@ }),
    {
        self.build = None;
    }
}

impl Default for Version {
    /// The default version, `0.1.0`.
    fn default() -> (r: Version)
        ensures
            r@ == (VersionView { major: 0, minor: 1, patch: 0, pre: None, build: None }),
    {
        Version { major: 0, minor: 1, patch: 0, pre: None, build: None }
    }
}

/// Whether two byte strings hold the same bytes.
pub fn bytes_eq(a: &[u8], b: &[u8]) -> (r: bool)
    ensures
        r == (a@ == b@),
{
    if a.len() != b.len() {
        return false;
    }
    let n = a.len();
    let mut i: usize = 0;
    while i < n
        invariant
            0 <= i <= n == a@.len() == b@.len(),
            forall|k: int| 0 <= k < i ==> a@[k] == b@[k],
        decreases n - i,
    {
        if a[i] != b[i] {
            return false;
        }
        i = i + 1;
    }
    proof {
        assert(a@ =~= b@);
    }
    true
}

/// Copies `s` into an owned byte vector.
pub fn slice_to_vec_u8(s: &[u8]) -> (r: Vec<u8>)
    ensures
        r@ == s@,
{
    copy_range(s, 0, s.len())
}

/// Copies `s[from..to]` into an owned byte vector.
pub fn copy_range(s: &[u8], from: usize, to: usize) -> (r: Vec<u8>)
    requires
        0 <= from <= to <= s@.len(),
    ensures
        r@ == s@.subrange(from as int, to as int),
{
    let mut out: Vec<u8> = Vec::new();
    let mut i: usize = from;
    while i < to
        invariant
            from <= i <= to <= s@.len(),
            out@ == s@.subrange(from as int, i as int),
        decreases to - i,
    {
        out.push(s[i]);
        proof {
            assert(out@ =~= s@.subrange(from as int, i + 1));
        }
        i = i + 1;
    }
    out
}

/// Finds the first occurrence of `b` at or after `from`, or the length.
pub fn scan_for(s: &[u8], from: usize, b: u8) -> (r: usize)
    requires
        0 <= from <= s@.len(),
    ensures
        r == find_from(s@, from as int, b),
        from <= r <= s@.len(),
{
    let len = s.len();
    let mut i: usize = from;
    while i < len && s[i] != b
        invariant
            from <= i <= len == s@.len(),
            forall|k: int| from <= k < i ==> s@[k] != b,
        decreases len - i,
    {
        i = i + 1;
    }
    proof {
        lemma_find_from_of_run(s@, from as int, b, i as int);
    }
    i
}

/// Scans the decimal number starting at `from`. Succeeds exactly when the
/// digit run is non-empty, has no leading zero, and fits in a `u64`; returns
/// the value and the position one past the run.
pub fn scan_number(s: &[u8], from: usize) -> (r: Option<(u64, usize)>)
    requires
        0 <= from <= s@.len(),
    ensures
        match r {
            Some(pair) => num_ok(s@, from as int) && pair.0 as nat == num_val(s@, from as int)
                && pair.1 == digits_end(s@, from as int) && from < pair.1 <= s@.len(),
            None => !num_ok(s@, from as int),
        },
{
    let len = s.len();
    let mut i: usize = from;
    while i < len && s[i] >= 48 && s[i] <= 57
        invariant
            from <= i <= len == s@.len(),
            forall|k: int| from <= k < i ==> is_digit(#[trigger] s@[k]),
        decreases len - i,
    {
        i = i + 1;
    }
    proof {
        lemma_digits_end_of_run(s@, from as int, i as int);
    }
    if i == from {
        // no digits at all
        return None;
    }
    if s[from] == ZERO && i > from + 1 {
        // leading zero
        return None;
    }
    match digits_to_u64(s, from, i) {
        Some(v) => Some((v, i)),
        None => None,
    }
}

/// The canonical rendering of a well-formed version holds no control bytes,
/// no quotation mark, and no backslash.
pub proof fn lemma_format_clean(m: VersionView)
    requires
        wf_version(m),
    ensures
        crate::quoting::clean(spec_format(m)),
        forall|k: int| 0 <= k < spec_format(m).len() ==> #[trigger] spec_format(m)[k]
            != crate::quoting::QUOTE && spec_format(m)[k] != crate::quoting::BACKSLASH,
{
    let s = spec_format(m);
    lemma_dec_digits_shape(m.major as nat);
    lemma_dec_digits_shape(m.minor as nat);
    lemma_dec_digits_shape(m.patch as nat);
    match m.pre {
        Some(p) => {
            lemma_valid_pre_chars(p, 0);
        },
        None => {},
    }
    match m.build {
        Some(b) => {
            crate::grammar::lemma_valid_build_chars(b, 0);
        },
        None => {},
    }
    let da = dec_digits(m.major as nat);
    let db = dec_digits(m.minor as nat);
    let dc = dec_digits(m.patch as nat);
    let a = da.len() as int;
    let e2 = a + 1 + db.len();
    let e3 = e2 + 1 + dc.len();
    assert forall|k: int| 0 <= k < s.len() implies 32 <= #[trigger] s[k] && s[k]
        != crate::quoting::QUOTE && s[k] != crate::quoting::BACKSLASH by {
        if k < a {
            assert(s[k] == da[k] && is_digit(da[k]));
        } else if k == a {
            assert(s[k] == DOT);
        } else if k < e2 {
            assert(s[k] == db[k - (a + 1)] && is_digit(db[k - (a + 1)]));
        } else if k == e2 {
            assert(s[k] == DOT);
        } else if k < e3 {
            assert(s[k] == dc[k - (e2 + 1)] && is_digit(dc[k - (e2 + 1)]));
        } else {
            match m.pre {
                Some(p) => {
                    if k == e3 {
                        assert(s[k] == HYPHEN);
                    } else if k < e3 + 1 + p.len() {
                        assert(s[k] == p[k - (e3 + 1)]);
                        assert(p[k - (e3 + 1)] == DOT || is_ident_char(p[k - (e3 + 1)]));
                    } else {
                        match m.build {
                            Some(b) => {
                                if k == e3 + 1 + p.len() {
                                    assert(s[k] == PLUS);
                                } else {
                                    assert(s[k] == b[k - (e3 + 1 + p.len() + 1)]);
                                    assert(b[k - (e3 + 1 + p.len() + 1)] == DOT || is_ident_char(
                                        b[k - (e3 + 1 + p.len() + 1)]));
                                }
                            },
                            None => {},
                        }
                    }
                },
                None => {
                    match m.build {
                        Some(b) => {
                            if k == e3 {
                                assert(s[k] == PLUS);
                            } else {
                                assert(s[k] == b[k - (e3 + 1)]);
                                assert(b[k - (e3 + 1)] == DOT || is_ident_char(b[k - (e3 + 1)]));
                            }
                        },
                        None => {},
                    }
                },
            }
        }
    }
}

} // verus!
