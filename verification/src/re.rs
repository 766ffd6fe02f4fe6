//! The bindings to the outside regular-expression engine. Everything the
//! rest of the crate knows about pattern matching enters through the named
//! results and the trusted wrappers in this file.

use vstd::prelude::*;
use vstd::string::StringSliceAdditionalSpecFns;
use vstd::utf8::valid_utf8;

use crate::VersionError;

verus! {

#[verifier::external_type_specification]
#[verifier::external_body]
pub struct ExRegex(regex::bytes::Regex);

/// The pattern a compiled regular expression was built from.
pub uninterp spec fn regex_pattern(re: regex::bytes::Regex) -> Seq<u8>;

/// Whether the pattern compiles (under the engine's default configuration).
pub uninterp spec fn regex_valid(pattern: Seq<u8>) -> bool;

/// The number of capture groups of a compiled pattern, the implicit
/// whole-match group included.
pub uninterp spec fn regex_groups(pattern: Seq<u8>) -> nat;

/// The byte span of the first capture group in `line`, when the pattern
/// matches `line` and that group participates in the match.
pub uninterp spec fn line_capture(pattern: Seq<u8>, line: Seq<u8>) -> Option<(int, int)>;

/// Relies on core::str::from_utf8: succeeds exactly on valid UTF-8, and the
/// returned string slice has exactly the given bytes.
#[verifier::external_body]
fn bytes_as_str(b: &[u8]) -> (r: Option<&str>)
    ensures
        (r is Some) == valid_utf8(b@),
        r matches Some(s) ==> s.spec_bytes() == b@,
{
    core::str::from_utf8(b).ok()
}

/// Relies on regex::bytes::Regex::new: compilation succeeds or fails as a
/// function of the pattern alone, and the compiled value is built from
/// exactly that pattern.
#[verifier::external_body]
fn regex_new(pattern: &str) -> (r: Option<regex::bytes::Regex>)
    ensures
        (r is Some) == regex_valid(pattern.spec_bytes()),
        r matches Some(re) ==> regex_pattern(re) == pattern.spec_bytes(),
{
    regex::bytes::Regex::new(pattern).ok()
}

/// Relies on regex::bytes::Regex::captures_len: the capture-group count is a
/// function of the pattern and counts the implicit whole-match group, so it
/// is at least one.
#[verifier::external_body]
fn regex_group_count(re: &regex::bytes::Regex) -> (r: usize)
    ensures
        r as nat == regex_groups(regex_pattern(*re)),
        r >= 1,
{
    re.captures_len()
}

/// Relies on regex::bytes::Regex::captures and Captures::get: matching is a
/// function of pattern and haystack; a returned group span lies within the
/// haystack with its start at or before its end.
#[verifier::external_body]
pub fn regex_capture_line(re: &regex::bytes::Regex, line: &[u8]) -> (r: Option<(usize, usize)>)
    ensures
        r matches Some(p) ==> line_capture(regex_pattern(*re), line@) == Some(
            (p.0 as int, p.1 as int),
        ) && p.0 <= p.1 <= line@.len(),
        r is None ==> line_capture(regex_pattern(*re), line@) is None,
{
    match re.captures(line) {
        Some(caps) => match caps.get(1) {
            Some(m) => Some((m.start(), m.end())),
            None => None,
        },
        None => None,
    }
}

/// A usable tracked-file expression: UTF-8, compiles, and has at least one
/// capture group beside the whole-match group.
pub open spec fn expr_ok(expr: Seq<u8>) -> bool {
    &&& valid_utf8(expr)
    &&& regex_valid(expr)
    &&& regex_groups(expr) >= 2
}

/// Compiles a tracked-file expression, rejecting with `RegexError` exactly
/// the expressions that are unusable: not UTF-8, not a valid pattern, or
/// without a capture group.
pub fn compile_expr(expr: &[u8]) -> (r: Result<regex::bytes::Regex, VersionError>)
    ensures
        match r {
            Ok(re) => expr_ok(expr@) && regex_pattern(re) == expr@,
            Err(e) => !expr_ok(expr@) && e == VersionError::RegexError,
        },
{
    let s = match bytes_as_str(expr) {
        Some(s) => s,
        None => {
            return Err(VersionError::RegexError);
        },
    };
    let re = match regex_new(s) {
        Some(re) => re,
        None => {
            return Err(VersionError::RegexError);
        },
    };
    if regex_group_count(&re) < 2 {
        return Err(VersionError::RegexError);
    }
    Ok(re)
}

} // verus!
