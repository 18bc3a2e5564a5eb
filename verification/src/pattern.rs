//! Regular expressions over bytes, as the `regex` crate compiles and runs them.
//!
//! A compiled expression is opaque here.  What the crate's functions return
//! is given a name each, and the rest of the library reasons over those names.

use crate::views::byte_strings;
use regex::bytes::Regex;
use vstd::prelude::*;

verus! {

/// A compiled regular expression over bytes.
#[verifier::external_type_specification]
#[verifier::external_body]
pub struct ExRegex(regex::bytes::Regex);

/// Why a pattern did not compile.
#[verifier::external_type_specification]
#[verifier::external_body]
pub struct ExRegexError(regex::Error);

/// The pattern that `re` was compiled from, as `Regex::as_str` returns it.
pub uninterp spec fn regex_source(re: Regex) -> Seq<char>;

/// The message with which `Regex::new` rejects `pattern`, or `None` where it
/// compiles the pattern.
pub uninterp spec fn regex_rejection(pattern: Seq<char>) -> Option<Seq<char>>;

/// The text that `error` displays as.
pub uninterp spec fn regex_error_text(error: regex::Error) -> Seq<char>;

/// Whether `re` matches anywhere in `haystack`, as `Regex::is_match` decides it.
pub uninterp spec fn regex_is_match(re: Regex, haystack: Seq<u8>) -> bool;

/// The pieces of `haystack` between the matches of `re`, in order, as
/// `Regex::split` yields them.
pub uninterp spec fn regex_split(re: Regex, haystack: Seq<u8>) -> Seq<Seq<u8>>;

/// Calls `Regex::new`.  Trusted: the outcome depends on the pattern alone;
/// a compiled expression remembers the pattern it was given; an error
/// displays as the rejection message.
#[verifier::external_body]
pub(crate) fn compile(pattern: &str) -> (compiled: Result<Regex, regex::Error>)
    ensures
        match compiled {
            Ok(re) => regex_rejection(pattern@) is None && regex_source(re) == pattern@,
            Err(error) => regex_rejection(pattern@) == Some(regex_error_text(error)),
        },
{
    Regex::new(pattern)
}

/// Calls `to_string` on a `regex::Error`.  Trusted: the result is the text
/// that the error displays as.
#[verifier::external_body]
pub(crate) fn error_text(error: &regex::Error) -> (text: String)
    ensures
        text@ == regex_error_text(*error),
{
    error.to_string()
}

/// Calls `Regex::is_match`.  Trusted: the answer depends on the expression
/// and the haystack alone.
#[verifier::external_body]
pub(crate) fn is_match(re: &Regex, haystack: &[u8]) -> (found: bool)
    ensures
        found == regex_is_match(*re, haystack@),
{
    re.is_match(haystack)
}

/// Calls `Regex::split` and copies each piece.  Trusted: the pieces depend on
/// the expression and the haystack alone.
#[verifier::external_body]
pub(crate) fn split(re: &Regex, haystack: &[u8]) -> (pieces: Vec<Vec<u8>>)
    ensures
        byte_strings(pieces@) == regex_split(*re, haystack@),
{
    re.split(haystack).map(|piece| piece.to_vec()).collect()
}

} // verus!
