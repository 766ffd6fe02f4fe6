//! The character classes and identifier grammar of semantic versions:
//! dot-separated prerelease and build identifier sequences.

use vstd::prelude::*;

use crate::digits::{is_digit, ZERO};

verus! {

/// ASCII '-'.
pub const HYPHEN: u8 = 45;
/// ASCII '.'.
pub const DOT: u8 = 46;
/// ASCII '+'.
pub const PLUS: u8 = 43;

pub open spec fn is_alpha_char(b: u8) -> bool {
    (65 <= b <= 90) || (97 <= b <= 122)
}

/// Characters allowed inside prerelease and build identifiers.
pub open spec fn is_ident_char(b: u8) -> bool {
    is_digit(b) || is_alpha_char(b) || b == HYPHEN
}

/// The first position at or after `from` holding `b`, or the length.
pub open spec fn find_from(s: Seq<u8>, from: int, b: u8) -> int
    decreases s.len() - from,
{
    if from >= s.len() {
        s.len() as int
    } else if s[from] == b {
        from
    } else {
        find_from(s, from + 1, b)
    }
}

pub proof fn lemma_find_from_spec(s: Seq<u8>, from: int, b: u8)
    requires
        0 <= from <= s.len(),
    ensures
        from <= find_from(s, from, b) <= s.len(),
        forall|k: int| from <= k < find_from(s, from, b) ==> s[k] != b,
        find_from(s, from, b) < s.len() ==> s[find_from(s, from, b)] == b,
    decreases s.len() - from,
{
    if from < s.len() && s[from] != b {
        lemma_find_from_spec(s, from + 1, b);
    }
}

/// `find_from` lands exactly at the end of a `b`-free run.
pub proof fn lemma_find_from_of_run(s: Seq<u8>, from: int, b: u8, pos: int)
    requires
        0 <= from <= pos <= s.len(),
        forall|k: int| from <= k < pos ==> s[k] != b,
        pos < s.len() ==> s[pos] == b,
    ensures
        find_from(s, from, b) == pos,
{
    lemma_find_from_spec(s, from, b);
    let e = find_from(s, from, b);
    if e < pos {
        assert(s[e] == b);
    } else if pos < e {
        assert(s[pos] != b);
    }
}

/// The first position at or after `from` holding a non-digit, or the length.
pub open spec fn digits_end(s: Seq<u8>, from: int) -> int
    decreases s.len() - from,
{
    if from >= s.len() || !is_digit(s[from]) {
        from
    } else {
        digits_end(s, from + 1)
    }
}

pub proof fn lemma_digits_end_spec(s: Seq<u8>, from: int)
    requires
        0 <= from <= s.len(),
    ensures
        from <= digits_end(s, from) <= s.len(),
        forall|k: int| from <= k < digits_end(s, from) ==> is_digit(#[trigger] s[k]),
        digits_end(s, from) < s.len() ==> !is_digit(s[digits_end(s, from)]),
    decreases s.len() - from,
{
    if from < s.len() && is_digit(s[from]) {
        lemma_digits_end_spec(s, from + 1);
    }
}

/// `digits_end` lands exactly at the end of a digit run.
pub proof fn lemma_digits_end_of_run(s: Seq<u8>, from: int, pos: int)
    requires
        0 <= from <= pos <= s.len(),
        forall|k: int| from <= k < pos ==> is_digit(#[trigger] s[k]),
        pos < s.len() ==> !is_digit(s[pos]),
    ensures
        digits_end(s, from) == pos,
{
    lemma_digits_end_spec(s, from);
    let e = digits_end(s, from);
    if e < pos {
        assert(is_digit(s[e]));
    } else if pos < e {
        assert(is_digit(s[pos]));
    }
}

pub open spec fn all_digits(t: Seq<u8>) -> bool {
    forall|i: int| 0 <= i < t.len() ==> is_digit(#[trigger] t[i])
}

/// One prerelease identifier: non-empty, identifier characters only, and a
/// purely numeric identifier has no leading zero.
pub open spec fn valid_pre_ident(t: Seq<u8>) -> bool {
    &&& t.len() > 0
    &&& forall|i: int| 0 <= i < t.len() ==> is_ident_char(#[trigger] t[i])
    &&& (all_digits(t) && t.len() > 1 ==> t[0] != ZERO)
}

/// One build identifier: non-empty, identifier characters only.
pub open spec fn valid_build_ident(t: Seq<u8>) -> bool {
    &&& t.len() > 0
    &&& forall|i: int| 0 <= i < t.len() ==> is_ident_char(#[trigger] t[i])
}

/// The suffix `s[from..]` is a valid dot-separated prerelease.
pub open spec fn valid_pre_from(s: Seq<u8>, from: int) -> bool
    recommends
        0 <= from <= s.len(),
    decreases s.len() - from when 0 <= from <= s.len() via valid_pre_from_decreases
{
    let e = find_from(s, from, DOT);
    if e >= s.len() {
        valid_pre_ident(s.subrange(from, s.len() as int))
    } else {
        valid_pre_ident(s.subrange(from, e)) && valid_pre_from(s, e + 1)
    }
}

#[via_fn]
proof fn valid_pre_from_decreases(s: Seq<u8>, from: int) {
    lemma_find_from_spec(s, from, DOT);
}

/// The suffix `s[from..]` is a valid dot-separated build identifier list.
pub open spec fn valid_build_from(s: Seq<u8>, from: int) -> bool
    recommends
        0 <= from <= s.len(),
    decreases s.len() - from when 0 <= from <= s.len() via valid_build_from_decreases
{
    let e = find_from(s, from, DOT);
    if e >= s.len() {
        valid_build_ident(s.subrange(from, s.len() as int))
    } else {
        valid_build_ident(s.subrange(from, e)) && valid_build_from(s, e + 1)
    }
}

#[via_fn]
proof fn valid_build_from_decreases(s: Seq<u8>, from: int) {
    lemma_find_from_spec(s, from, DOT);
}

pub open spec fn valid_pre(p: Seq<u8>) -> bool {
    valid_pre_from(p, 0)
}

pub open spec fn valid_build(b: Seq<u8>) -> bool {
    valid_build_from(b, 0)
}

/// A valid prerelease contains only identifier characters and dots; in
/// particular it never contains '+'.
pub proof fn lemma_valid_pre_chars(s: Seq<u8>, from: int)
    requires
        0 <= from <= s.len(),
        valid_pre_from(s, from),
    ensures
        forall|k: int| from <= k < s.len() ==> (s[k] == DOT || is_ident_char(#[trigger] s[k])),
    decreases s.len() - from,
{
    lemma_find_from_spec(s, from, DOT);
    let e = find_from(s, from, DOT);
    if e >= s.len() {
        let t = s.subrange(from, s.len() as int);
        assert forall|k: int| from <= k < s.len() implies is_ident_char(#[trigger] s[k]) by {
            assert(t[k - from] == s[k]);
        }
    } else {
        let t = s.subrange(from, e);
        assert forall|k: int| from <= k < e implies is_ident_char(#[trigger] s[k]) by {
            assert(t[k - from] == s[k]);
        }
        lemma_valid_pre_chars(s, e + 1);
    }
}

pub proof fn lemma_valid_build_chars(s: Seq<u8>, from: int)
    requires
        0 <= from <= s.len(),
        valid_build_from(s, from),
    ensures
        forall|k: int| from <= k < s.len() ==> (s[k] == DOT || is_ident_char(#[trigger] s[k])),
    decreases s.len() - from,
{
    lemma_find_from_spec(s, from, DOT);
    let e = find_from(s, from, DOT);
    if e >= s.len() {
        let t = s.subrange(from, s.len() as int);
        assert forall|k: int| from <= k < s.len() implies is_ident_char(#[trigger] s[k]) by {
            assert(t[k - from] == s[k]);
        }
    } else {
        let t = s.subrange(from, e);
        assert forall|k: int| from <= k < e implies is_ident_char(#[trigger] s[k]) by {
            assert(t[k - from] == s[k]);
        }
        lemma_valid_build_chars(s, e + 1);
    }
}

/// A non-identifier, non-dot character anywhere makes the whole suffix
/// invalid, both as a prerelease and as a build identifier list.
proof fn lemma_not_ident_at(s: Seq<u8>, from: int, i: int)
    requires
        0 <= from <= i < s.len(),
        forall|k: int| from <= k < i ==> s[k] != DOT,
        s[i] != DOT,
        !is_ident_char(s[i]),
    ensures
        !valid_pre_from(s, from),
        !valid_build_from(s, from),
{
    lemma_find_from_spec(s, from, DOT);
    let e = find_from(s, from, DOT);
    assert(e > i) by {
        if e <= i {
            assert(s[e] == DOT);
            assert(s[e] != DOT);
        }
    }
    if e >= s.len() {
        let t = s.subrange(from, s.len() as int);
        assert(t[i - from] == s[i]);
        assert(!valid_pre_ident(t) && !valid_build_ident(t));
    } else {
        let t = s.subrange(from, e);
        assert(t[i - from] == s[i]);
        assert(!valid_pre_ident(t) && !valid_build_ident(t));
    }
}

/// Checks whether `s[from..]` is a valid prerelease.
pub fn check_pre(s: &[u8], from: usize) -> (r: bool)
    requires
        0 <= from <= s@.len(),
    ensures
        r == valid_pre_from(s@, from as int),
    decreases s@.len() - from,
{
    proof {
        lemma_find_from_spec(s@, from as int, DOT);
    }
    let len = s.len();
    let mut i: usize = from;
    let mut only_digits: bool = true;
    while i < len && s[i] != DOT
        invariant
            from <= i <= len == s@.len(),
            forall|k: int| from <= k < i ==> s@[k] != DOT,
            forall|k: int| from <= k < i ==> is_ident_char(#[trigger] s@[k]),
            only_digits == all_digits(s@.subrange(from as int, i as int)),
        decreases len - i,
    {
        if !(s[i] >= 48 && s[i] <= 57) && !(s[i] >= 65 && s[i] <= 90) && !(s[i] >= 97 && s[i]
            <= 122) && s[i] != HYPHEN {
            // not an identifier character: the current identifier is invalid
            proof {
                lemma_not_ident_at(s@, from as int, i as int);
            }
            return false;
        }
        proof {
            let t2 = s@.subrange(from as int, i + 1);
            assert(t2.drop_last() =~= s@.subrange(from as int, i as int));
            assert(t2.last() == s@[i as int]);
        }
        only_digits = only_digits && (s[i] >= 48 && s[i] <= 57);
        i = i + 1;
    }
    // i is the end of this identifier
    proof {
        lemma_find_from_of_run(s@, from as int, DOT, i as int);
    }
    let ghost t = s@.subrange(from as int, i as int);
    if i == from {
        // empty identifier
        return false;
    }
    if only_digits && i > from + 1 && s[from] == ZERO {
        // numeric identifier with a leading zero
        proof {
            assert(t[0] == s@[from as int]);
        }
        return false;
    }
    proof {
        assert forall|k: int| 0 <= k < t.len() implies is_ident_char(#[trigger] t[k]) by {
            assert(t[k] == s@[from + k]);
        }
        assert(valid_pre_ident(t)) by {
            if all_digits(t) && t.len() > 1 {
                assert(t[0] == s@[from as int]);
                assert(is_digit(t[0]));
            }
        }
    }
    if i == len {
        true
    } else {
        check_pre(s, i + 1)
    }
}

/// Checks whether `s[from..]` is a valid build identifier list.
pub fn check_build(s: &[u8], from: usize) -> (r: bool)
    requires
        0 <= from <= s@.len(),
    ensures
        r == valid_build_from(s@, from as int),
    decreases s@.len() - from,
{
    proof {
        lemma_find_from_spec(s@, from as int, DOT);
    }
    let len = s.len();
    let mut i: usize = from;
    while i < len && s[i] != DOT
        invariant
            from <= i <= len == s@.len(),
            forall|k: int| from <= k < i ==> s@[k] != DOT,
            forall|k: int| from <= k < i ==> is_ident_char(#[trigger] s@[k]),
        decreases len - i,
    {
        if !(s[i] >= 48 && s[i] <= 57) && !(s[i] >= 65 && s[i] <= 90) && !(s[i] >= 97 && s[i]
            <= 122) && s[i] != HYPHEN {
            proof {
                lemma_not_ident_at(s@, from as int, i as int);
            }
            return false;
        }
        i = i + 1;
    }
    proof {
        lemma_find_from_of_run(s@, from as int, DOT, i as int);
    }
    let ghost t = s@.subrange(from as int, i as int);
    if i == from {
        return false;
    }
    proof {
        assert forall|k: int| 0 <= k < t.len() implies is_ident_char(#[trigger] t[k]) by {
            assert(t[k] == s@[from + k]);
        }
    }
    if i == len {
        true
    } else {
        check_build(s, i + 1)
    }
}

} // verus!
