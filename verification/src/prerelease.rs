//! The prerelease channel codec: a prerelease of the form `<channel>.<n>`
//! tags a numbered channel, with monotone-counter rules and
//! disappear-on-zero semantics for decrements.

use vstd::prelude::*;

use crate::digits::{dec_digits, digits_val, digits_to_u64, is_digit, lemma_dec_digits_shape,
    lemma_digits_val_dec_digits, u64_to_dec, ZERO};
use crate::grammar::{all_digits, find_from, is_ident_char, lemma_find_from_of_run,
    lemma_find_from_spec, valid_pre, valid_pre_from, valid_pre_ident, DOT, PLUS};
use crate::semver::{scan_for, slice_to_vec_u8, wf_version, Version, VersionView};
use crate::VersionError;

verus! {

/// A named prerelease track.
#[derive(Debug, Clone, Copy, PartialEq, Eq)]
pub enum Channel {
    Alpha,
    Beta,
    Rc,
    Pre,
}

/// The label bytes of a channel ("alpha", "beta", "rc", "pre").
pub open spec fn channel_label(c: Channel) -> Seq<u8> {
    match c {
        Channel::Alpha => seq![97u8, 108u8, 112u8, 104u8, 97u8],
        Channel::Beta => seq![98u8, 101u8, 116u8, 97u8],
        Channel::Rc => seq![114u8, 99u8],
        Channel::Pre => seq![112u8, 114u8, 101u8],
    }
}

/// Labels consist of lower-case letters only; the four labels have pairwise
/// distinct lengths.
pub proof fn lemma_label_shape(c: Channel)
    ensures
        channel_label(c).len() > 0,
        forall|k: int| 0 <= k < channel_label(c).len() ==> 97 <= #[trigger] channel_label(c)[k]
            <= 122,
{
    match c {
        Channel::Alpha => {
            assert forall|k: int| 0 <= k < 5 implies 97 <= #[trigger] channel_label(
                Channel::Alpha,
            )[k] <= 122 by {
                let l = channel_label(Channel::Alpha);
                assert(l[0] == 97 && l[1] == 108 && l[2] == 112 && l[3] == 104 && l[4] == 97);
            }
        },
        Channel::Beta => {
            assert forall|k: int| 0 <= k < 4 implies 97 <= #[trigger] channel_label(
                Channel::Beta,
            )[k] <= 122 by {
                let l = channel_label(Channel::Beta);
                assert(l[0] == 98 && l[1] == 101 && l[2] == 116 && l[3] == 97);
            }
        },
        Channel::Rc => {
            assert forall|k: int| 0 <= k < 2 implies 97 <= #[trigger] channel_label(
                Channel::Rc,
            )[k] <= 122 by {
                let l = channel_label(Channel::Rc);
                assert(l[0] == 114 && l[1] == 99);
            }
        },
        Channel::Pre => {
            assert forall|k: int| 0 <= k < 3 implies 97 <= #[trigger] channel_label(
                Channel::Pre,
            )[k] <= 122 by {
                let l = channel_label(Channel::Pre);
                assert(l[0] == 112 && l[1] == 114 && l[2] == 101);
            }
        },
    }
}

/// The channel whose label is `name`, if any.
pub open spec fn channel_of(name: Seq<u8>) -> Option<Channel> {
    if name == channel_label(Channel::Alpha) {
        Some(Channel::Alpha)
    } else if name == channel_label(Channel::Beta) {
        Some(Channel::Beta)
    } else if name == channel_label(Channel::Rc) {
        Some(Channel::Rc)
    } else if name == channel_label(Channel::Pre) {
        Some(Channel::Pre)
    } else {
        None
    }
}

/// The prerelease bytes `<channel>.<n>`.
pub open spec fn spec_encode(c: Channel, n: u64) -> Seq<u8> {
    channel_label(c) + seq![DOT] + dec_digits(n as nat)
}

/// Reads prerelease bytes as `<channel>.<n>`: the part before the first dot
/// must be a channel label and the rest a decimal number fitting a `u64`.
pub open spec fn spec_decode(s: Seq<u8>) -> Option<(Channel, u64)> {
    let d = find_from(s, 0, DOT);
    if d >= s.len() {
        None
    } else {
        let rest = s.subrange(d + 1, s.len() as int);
        match channel_of(s.subrange(0, d)) {
            Some(c) => {
                if rest.len() > 0 && all_digits(rest) && digits_val(rest) <= u64::MAX {
                    Some((c, digits_val(rest) as u64))
                } else {
                    None
                }
            },
            None => None,
        }
    }
}

/// What the prerelease of a version decodes to, if anything.
pub open spec fn decoded(m: VersionView) -> Option<(Channel, u64)> {
    match m.pre {
        Some(p) => spec_decode(p),
        None => None,
    }
}

/// Round trip: decoding an encoded channel-and-counter pair yields the pair.
pub proof fn lemma_decode_encode(c: Channel, n: u64)
    ensures
        spec_decode(spec_encode(c, n)) == Some((c, n)),
{
    let s = spec_encode(c, n);
    let label = channel_label(c);
    let d = label.len() as int;
    lemma_label_shape(c);
    lemma_dec_digits_shape(n as nat);
    lemma_digits_val_dec_digits(n as nat);
    assert forall|k: int| 0 <= k < d implies s[k] != DOT by {
        assert(s[k] == label[k]);
    }
    assert(s[d] == DOT);
    lemma_find_from_of_run(s, 0, DOT, d);
    assert(s.subrange(0, d) =~= label);
    let rest = s.subrange(d + 1, s.len() as int);
    assert(rest =~= dec_digits(n as nat));
    lemma_label_shape(Channel::Alpha);
    lemma_label_shape(Channel::Beta);
    lemma_label_shape(Channel::Rc);
    lemma_label_shape(Channel::Pre);
    assert(channel_of(label) == Some(c)) by {
        assert(channel_label(Channel::Alpha).len() == 5);
        assert(channel_label(Channel::Beta).len() == 4);
        assert(channel_label(Channel::Rc).len() == 2);
        assert(channel_label(Channel::Pre).len() == 3);
    }
}

/// An encoded prerelease obeys the prerelease grammar.
pub proof fn lemma_encode_valid(c: Channel, n: u64)
    ensures
        valid_pre(spec_encode(c, n)),
{
    let s = spec_encode(c, n);
    let label = channel_label(c);
    let d = label.len() as int;
    lemma_label_shape(c);
    lemma_dec_digits_shape(n as nat);
    assert forall|k: int| 0 <= k < d implies s[k] != DOT by {
        assert(s[k] == label[k]);
    }
    assert(s[d] == DOT);
    lemma_find_from_of_run(s, 0, DOT, d);
    let head = s.subrange(0, d);
    assert(head =~= label);
    assert(valid_pre_ident(head)) by {
        assert forall|k: int| 0 <= k < head.len() implies is_ident_char(#[trigger] head[k]) by {
            assert(head[k] == label[k]);
        }
        assert(!is_digit(head[0]));
    }
    let tail = s.subrange(d + 1, s.len() as int);
    assert(tail =~= dec_digits(n as nat));
    assert forall|k: int| d + 1 <= k < s.len() implies s[k] != DOT && is_digit(#[trigger] s[k]) by {
        assert(s[k] == dec_digits(n as nat)[k - (d + 1)]);
    }
    lemma_find_from_of_run(s, d + 1, DOT, s.len() as int);
    assert(valid_pre_ident(s.subrange(d + 1, s.len() as int))) by {
        if tail[0] == ZERO {
            assert(n == 0);
        }
    }
    assert(valid_pre_from(s, d + 1));
}

/// A `<channel>.<n>` pair, the decoded form of an engine-made prerelease.
#[derive(Debug, Clone, Copy, PartialEq, Eq)]
pub struct PrereleaseWrapper {
    pub pre: Channel,
    pub num: u64,
}

impl PrereleaseWrapper {
    pub fn new(pre: Channel, num: u64) -> (r: PrereleaseWrapper)
        ensures
            r.pre == pre && r.num == num,
    {
        PrereleaseWrapper { pre, num }
    }

    /// Renders the pair as prerelease bytes `<channel>.<n>`.
    pub fn encode(&self) -> (r: Vec<u8>)
        ensures
            r@ == spec_encode(self.pre, self.num),
    {
        let mut out = channel_label_bytes(self.pre);
        out.push(DOT);
        let mut num_digits = u64_to_dec(self.num);
        out.append(&mut num_digits);
        proof {
            assert(out@ =~= spec_encode(self.pre, self.num));
        }
        out
    }

    /// Reads prerelease bytes as `<channel>.<n>`; any other shape is
    /// rejected with `InvalidPrerelease` carrying the offending bytes.
    pub fn decode(s: &[u8]) -> (r: Result<PrereleaseWrapper, VersionError>)
        ensures
            match r {
                Ok(w) => spec_decode(s@) == Some((w.pre, w.num)),
                Err(e) => spec_decode(s@) is None && (e matches VersionError::InvalidPrerelease(b)
                    && b@ == s@),
            },
    {
        let d = scan_for(s, 0, DOT);
        if d == s.len() {
            return Err(VersionError::InvalidPrerelease(slice_to_vec_u8(s)));
        }
        let channel: Channel = if eq_label(s, d, Channel::Alpha) {
            Channel::Alpha
        } else if eq_label(s, d, Channel::Beta) {
            Channel::Beta
        } else if eq_label(s, d, Channel::Rc) {
            Channel::Rc
        } else if eq_label(s, d, Channel::Pre) {
            Channel::Pre
        } else {
            proof {
                assert(channel_of(s@.subrange(0, d as int)) is None);
            }
            return Err(VersionError::InvalidPrerelease(slice_to_vec_u8(s)));
        };
        let len = s.len();
        let mut i: usize = d + 1;
        if i == len {
            return Err(VersionError::InvalidPrerelease(slice_to_vec_u8(s)));
        }
        while i < len
            invariant
                d + 1 <= i <= len == s@.len(),
                d == find_from(s@, 0, DOT),
                forall|k: int| d + 1 <= k < i ==> is_digit(#[trigger] s@[k]),
            decreases len - i,
        {
            if !(s[i] >= 48 && s[i] <= 57) {
                proof {
                    let rest = s@.subrange(d + 1, len as int);
                    assert(!is_digit(rest[i - (d + 1)]));
                }
                return Err(VersionError::InvalidPrerelease(slice_to_vec_u8(s)));
            }
            i = i + 1;
        }
        proof {
            let rest = s@.subrange(d + 1, len as int);
            assert forall|k: int| 0 <= k < rest.len() implies is_digit(#[trigger] rest[k]) by {
                assert(rest[k] == s@[d + 1 + k]);
            }
        }
        match digits_to_u64(s, d + 1, len) {
            Some(v) => Ok(PrereleaseWrapper { pre: channel, num: v }),
            None => Err(VersionError::InvalidPrerelease(slice_to_vec_u8(s))),
        }
    }
}

/// The counter an increment moves to: one past the current counter, or 1 on
/// a version whose prerelease is absent or not of the `<channel>.<n>` form
/// (a fresh channel starts at 0 and the increment applies).
pub open spec fn spec_inc_num(m: VersionView) -> u64 {
    match decoded(m) {
        Some(dk) => (dk.1 + 1) as u64,
        None => 1u64,
    }
}

impl Version {
    /// Sets the prerelease to `<c>.<value>`, replacing any current
    /// prerelease whatever its channel.
    pub fn set_channel(&mut self, c: Channel, value: u64)
        ensures
            final(self)@ == (VersionView { pre: Some(spec_encode(c, value)), ..old(self)@ }),
            wf_version(old(self)@) ==> wf_version(final(self)@),
    {
        let w = PrereleaseWrapper::new(c, value);
        self.pre = Some(w.encode());
        proof {
            lemma_encode_valid(c, value);
        }
    }

    /// Increments the prerelease counter onto channel `c`: the counter grows
    /// by one whatever the current channel, and an absent or undecodable
    /// prerelease starts the channel at `<c>.1`.
    pub fn inc_channel(&mut self, c: Channel)
        requires
            match decoded(old(self)@) {
                Some(dk) => dk.1 < u64::MAX,
                None => true,
            },
        ensures
            final(self)@ == (VersionView {
                pre: Some(spec_encode(c, spec_inc_num(old(self)@))),
                ..old(self)@
            }),
            wf_version(old(self)@) ==> wf_version(final(self)@),
    {
        let cur: Option<PrereleaseWrapper> = match &self.pre {
            None => None,
            Some(p) => match PrereleaseWrapper::decode(p.as_slice()) {
                Ok(w) => Some(w),
                Err(_) => None,
            },
        };
        let n: u64 = match cur {
            Some(w) => w.num + 1,
            None => 1,
        };
        let w = PrereleaseWrapper::new(c, n);
        self.pre = Some(w.encode());
        proof {
            lemma_encode_valid(c, n);
        }
    }

    /// Decrements the prerelease counter onto channel `c`. A counter that
    /// would reach zero makes the prerelease absent; a counter already at
    /// zero is rejected with `NoNegatives`; a version whose prerelease is
    /// absent or not of the `<channel>.<n>` form is rejected with
    /// `InvalidPrerelease`. Rejections leave the version unchanged.
    pub fn dec_channel(&mut self, c: Channel) -> (r: Result<(), VersionError>)
        ensures
            match r {
                Ok(()) => match decoded(old(self)@) {
                    Some(dk) => dk.1 >= 1 && final(self)@ == (VersionView {
                        pre: if dk.1 == 1 {
                            None
                        } else {
                            Some(spec_encode(c, (dk.1 - 1) as u64))
                        },
                        ..old(self)@
                    }),
                    None => false,
                },
                Err(e) => *final(self) == *old(self) && match decoded(old(self)@) {
                    Some(dk) => dk.1 == 0 && e == VersionError::NoNegatives,
                    None => e matches VersionError::InvalidPrerelease(b) && b@ == match old(
                        self,
                    )@.pre {
                        Some(pb) => pb,
                        None => Seq::<u8>::empty(),
                    },
                },
            },
            r is Ok && wf_version(old(self)@) ==> wf_version(final(self)@),
    {
        let dec: Result<PrereleaseWrapper, VersionError> = match &self.pre {
            None => Err(VersionError::InvalidPrerelease(Vec::new())),
            Some(p) => PrereleaseWrapper::decode(p.as_slice()),
        };
        match dec {
            Err(e) => Err(e),
            Ok(w) => {
                if w.num == 0 {
                    Err(VersionError::NoNegatives)
                } else if w.num == 1 {
                    self.pre = None;
                    Ok(())
                } else {
                    let nw = PrereleaseWrapper::new(c, w.num - 1);
                    self.pre = Some(nw.encode());
                    proof {
                        lemma_encode_valid(c, (w.num - 1) as u64);
                    }
                    Ok(())
                }
            },
        }
    }

    /// Removes the prerelease.
    pub fn rm_prerelease(&mut self)
        ensures
            final(self)@ == (VersionView { pre: None, ..old(self)@ }),
    {
        self.pre = None;
    }

    /// Reset cascade at the prerelease level: clears the build only.
    pub fn reset_channel(&mut self)
        ensures
            final(self)@ == (VersionView { build: None, ..old(self)@ }),
    {
        self.build = None;
    }

    /// Sets the prerelease to `alpha.<value>`.
    pub fn set_alpha(&mut self, value: u64)
        ensures
            final(self)@ == (VersionView {
                pre: Some(spec_encode(Channel::Alpha, value)),
                ..old(self)@
            }),
    {
        self.set_channel(Channel::Alpha, value);
    }

    /// Increments the prerelease counter on the alpha channel.
    pub fn inc_alpha(&mut self)
        requires
            match decoded(old(self)@) {
                Some(dk) => dk.1 < u64::MAX,
                None => true,
            },
        ensures
            final(self)@ == (VersionView {
                pre: Some(spec_encode(Channel::Alpha, spec_inc_num(old(self)@))),
                ..old(self)@
            }),
    {
        self.inc_channel(Channel::Alpha);
    }

    /// Decrements the prerelease counter on the alpha channel, with
    /// disappear-on-zero semantics; see `dec_channel`.
    pub fn dec_alpha(&mut self) -> (r: Result<(), VersionError>)
        ensures
            match r {
                Ok(()) => match decoded(old(self)@) {
                    Some(dk) => dk.1 >= 1 && final(self)@ == (VersionView {
                        pre: if dk.1 == 1 {
                            None
                        } else {
                            Some(spec_encode(Channel::Alpha, (dk.1 - 1) as u64))
                        },
                        ..old(self)@
                    }),
                    None => false,
                },
                Err(e) => *final(self) == *old(self),
            },
    {
        self.dec_channel(Channel::Alpha)
    }

    /// Removes the prerelease.
    pub fn rm_alpha(&mut self)
        ensures
            final(self)@ == (VersionView { pre: None, ..old(self)@ }),
    {
        self.rm_prerelease();
    }

    /// Reset cascade at the alpha level: clears the build only.
    pub fn reset_alpha(&mut self)
        ensures
            final(self)@ == (VersionView { build: None, ..old(self)@ }),
    {
        self.reset_channel();
    }

    /// Sets the prerelease to `beta.<value>`.
    pub fn set_beta(&mut self, value: u64)
        ensures
            final(self)@ == (VersionView {
                pre: Some(spec_encode(Channel::Beta, value)),
                ..old(self)@
            }),
    {
        self.set_channel(Channel::Beta, value);
    }

    /// Increments the prerelease counter on the beta channel.
    pub fn inc_beta(&mut self)
        requires
            match decoded(old(self)@) {
                Some(dk) => dk.1 < u64::MAX,
                None => true,
            },
        ensures
            final(self)@ == (VersionView {
                pre: Some(spec_encode(Channel::Beta, spec_inc_num(old(self)@))),
                ..old(self)@
            }),
    {
        self.inc_channel(Channel::Beta);
    }

    /// Decrements the prerelease counter on the beta channel, with
    /// disappear-on-zero semantics; see `dec_channel`.
    pub fn dec_beta(&mut self) -> (r: Result<(), VersionError>)
        ensures
            match r {
                Ok(()) => match decoded(old(self)@) {
                    Some(dk) => dk.1 >= 1 && final(self)@ == (VersionView {
                        pre: if dk.1 == 1 {
                            None
                        } else {
                            Some(spec_encode(Channel::Beta, (dk.1 - 1) as u64))
                        },
                        ..old(self)@
                    }),
                    None => false,
                },
                Err(e) => *final(self) == *old(self),
            },
    {
        self.dec_channel(Channel::Beta)
    }

    /// Removes the prerelease.
    pub fn rm_beta(&mut self)
        ensures
            final(self)@ == (VersionView { pre: None, ..old(self)@ }),
    {
        self.rm_prerelease();
    }

    /// Reset cascade at the beta level: clears the build only.
    pub fn reset_beta(&mut self)
        ensures
            final(self)@ == (VersionView { build: None, ..old(self)@ }),
    {
        self.reset_channel();
    }

    /// Sets the prerelease to `rc.<value>`.
    pub fn set_rc(&mut self, value: u64)
        ensures
            final(self)@ == (VersionView {
                pre: Some(spec_encode(Channel::Rc, value)),
                ..old(self)@
            }),
    {
        self.set_channel(Channel::Rc, value);
    }

    /// Increments the prerelease counter on the rc channel.
    pub fn inc_rc(&mut self)
        requires
            match decoded(old(self)@) {
                Some(dk) => dk.1 < u64::MAX,
                None => true,
            },
        ensures
            final(self)@ == (VersionView {
                pre: Some(spec_encode(Channel::Rc, spec_inc_num(old(self)@))),
                ..old(self)@
            }),
    {
        self.inc_channel(Channel::Rc);
    }

    /// Decrements the prerelease counter on the rc channel, with
    /// disappear-on-zero semantics; see `dec_channel`.
    pub fn dec_rc(&mut self) -> (r: Result<(), VersionError>)
        ensures
            match r {
                Ok(()) => match decoded(old(self)@) {
                    Some(dk) => dk.1 >= 1 && final(self)@ == (VersionView {
                        pre: if dk.1 == 1 {
                            None
                        } else {
                            Some(spec_encode(Channel::Rc, (dk.1 - 1) as u64))
                        },
                        ..old(self)@
                    }),
                    None => false,
                },
                Err(e) => *final(self) == *old(self),
            },
    {
        self.dec_channel(Channel::Rc)
    }

    /// Removes the prerelease.
    pub fn rm_rc(&mut self)
        ensures
            final(self)@ == (VersionView { pre: None, ..old(self)@ }),
    {
        self.rm_prerelease();
    }

    /// Reset cascade at the rc level: clears the build only.
    pub fn reset_rc(&mut self)
        ensures
            final(self)@ == (VersionView { build: None, ..old(self)@ }),
    {
        self.reset_channel();
    }
}

/// The label bytes of a channel.
pub fn channel_label_bytes(c: Channel) -> (r: Vec<u8>)
    ensures
        r@ == channel_label(c),
{
    let mut out: Vec<u8> = Vec::new();
    match c {
        Channel::Alpha => {
            out.push(97);
            out.push(108);
            out.push(112);
            out.push(104);
            out.push(97);
        },
        Channel::Beta => {
            out.push(98);
            out.push(101);
            out.push(116);
            out.push(97);
        },
        Channel::Rc => {
            out.push(114);
            out.push(99);
        },
        Channel::Pre => {
            out.push(112);
            out.push(114);
            out.push(101);
        },
    }
    proof {
        assert(out@ =~= channel_label(c));
    }
    out
}

/// Compares `s[0..d]` against the label of `c`.
fn eq_label(s: &[u8], d: usize, c: Channel) -> (r: bool)
    requires
        0 <= d <= s@.len(),
    ensures
        r == (s@.subrange(0, d as int) == channel_label(c)),
{
    let label = channel_label_bytes(c);
    if d != label.len() {
        proof {
            assert(s@.subrange(0, d as int).len() == d);
        }
        return false;
    }
    let mut i: usize = 0;
    while i < d
        invariant
            0 <= i <= d <= s@.len(),
            label@ == channel_label(c),
            d == label@.len(),
            forall|k: int| 0 <= k < i ==> s@[k] == label@[k],
        decreases d - i,
    {
        if s[i] != label[i] {
            proof {
                assert(s@.subrange(0, d as int)[i as int] == s@[i as int]);
            }
            return false;
        }
        i = i + 1;
    }
    proof {
        assert(s@.subrange(0, d as int) =~= channel_label(c));
    }
    true
}

} // verus!
