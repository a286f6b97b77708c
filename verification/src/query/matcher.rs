//! Regular expressions over raw bytes, compiled and run by the `regex`
//! crate. A [`RegexMatcher`] keeps the pattern it was compiled from, so that
//! contracts can speak of what it matches.
use vstd::prelude::*;

use std::sync::Arc;

verus! {

#[verifier::external_type_specification]
#[verifier::external_body]
pub struct ExRegex(regex::bytes::Regex);

#[verifier::external_type_specification]
#[verifier::external_body]
pub struct ExRegexError(regex::Error);

/// Whether `regex::bytes::Regex::new` accepts `pattern` (its syntax is
/// valid and the compiled program stays within the default size limit).
pub uninterp spec fn regex_accepts(pattern: Seq<char>) -> bool;

/// Whether the regex compiled from `pattern` matches somewhere in
/// `haystack` (`regex::bytes::Regex::is_match`).
pub uninterp spec fn regex_is_match(pattern: Seq<char>, haystack: Seq<u8>) -> bool;

/// A compiled regular expression over bytes, with its pattern.
#[derive(Debug, Clone)]
pub struct RegexMatcher {
    pattern: String,
    rx: Arc<regex::bytes::Regex>,
}

impl RegexMatcher {
    /// The pattern this matcher was compiled from.
    pub closed spec fn pattern(&self) -> Seq<char> {
        self.pattern@
    }

    /// A copy sharing the compiled program.
    pub fn duplicate(&self) -> (m: RegexMatcher)
        ensures
            m.pattern() == self.pattern(),
    {
        RegexMatcher { pattern: self.pattern.clone(), rx: Arc::clone(&self.rx) }
    }

    /// The pattern as text.
    pub fn as_str(&self) -> (s: &str)
        ensures
            s@ == self.pattern(),
    {
        self.pattern.as_str()
    }
}

/// `regex::bytes::Regex::new`: compile `pattern`.
///
/// The contract claims that compilation succeeds exactly when
/// [`regex_accepts`] holds of the pattern (a deterministic function of it),
/// and that the matcher returned carries that pattern. The error value is
/// passed through untouched.
#[verifier::external_body]
pub(crate) fn compile_regex(pattern: &str) -> (r: Result<RegexMatcher, regex::Error>)
    ensures
        r is Ok <==> regex_accepts(pattern@),
        r matches Ok(m) ==> m.pattern() == pattern@,
{
    match regex::bytes::Regex::new(pattern) {
        Ok(rx) => Ok(RegexMatcher { pattern: pattern.to_owned(), rx: Arc::new(rx) }),
        Err(e) => Err(e),
    }
}

/// `regex::bytes::Regex::is_match`: whether the matcher matches anywhere in
/// `haystack`.
///
/// The contract claims that the answer is [`regex_is_match`] of the
/// matcher's pattern and the haystack.
#[verifier::external_body]
pub(crate) fn regex_find(m: &RegexMatcher, haystack: &[u8]) -> (b: bool)
    ensures
        b == regex_is_match(m.pattern(), haystack@),
{
    m.rx.is_match(haystack)
}

/// `regex::Error::Syntax` carrying the message `non-utf8 regex`, the error
/// reported for a pattern whose bytes are not UTF-8.
#[verifier::external_body]
pub(crate) fn non_utf8_regex_error() -> (e: regex::Error) {
    regex::Error::Syntax(String::from("non-utf8 regex"))
}

/// `std::str::from_utf8`: the bytes as text when they are valid UTF-8.
///
/// The standard library documents that the conversion succeeds exactly on
/// valid UTF-8 and borrows the same bytes; the contract states that over
/// vstd's description of UTF-8.
#[verifier::external_body]
pub(crate) fn utf8_text(bytes: &[u8]) -> (r: Option<&str>)
    ensures
        r is Some <==> vstd::utf8::valid_utf8(bytes@),
        r matches Some(s) ==> s@ == vstd::utf8::decode_utf8(bytes@),
{
    std::str::from_utf8(bytes).ok()
}

} // verus!
