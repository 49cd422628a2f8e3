//! Calls whose results this library takes from outside code: regular-expression matching
//! (the `regex` crate) and Unicode case and category tables (std). Each result is named by an
//! uninterpreted function of the call's arguments, so contracts can speak of it exactly.
use vstd::prelude::*;
use vstd::string::*;
use vstd::utf8::is_char_boundary;

verus! {

/// Result of compiling `pattern` with the `regex` crate and testing it against `haystack`:
/// `None` when the pattern does not compile, else whether it matches somewhere in the haystack.
pub uninterp spec fn regex_match(pattern: Seq<char>, haystack: Seq<char>) -> Option<bool>;

/// The pattern compiles and matches the haystack.
pub open spec fn pattern_matches(pattern: Seq<char>, haystack: Seq<char>) -> bool {
    regex_match(pattern, haystack) == Some(true)
}

/// Compiles `pattern` with `regex::Regex::new` and tests it with `regex::Regex::is_match`.
/// Trusted: the outcome is a function of the pattern and the haystack alone, which is what
/// the name `regex_match` records; nothing more is claimed of it.
#[verifier::external_body]
pub(crate) fn regex_is_match(pattern: &str, haystack: &str) -> (r: Option<bool>)
    ensures
        r == regex_match(pattern@, haystack@),
{
    match regex::Regex::new(pattern) {
        Ok(re) => Some(re.is_match(haystack)),
        Err(_) => None,
    }
}

/// Result of compiling `pattern` with the `regex` crate and searching `haystack` with it:
/// `None` when the pattern does not compile, else the byte range of the leftmost-first match,
/// if there is one.
pub uninterp spec fn regex_find_result(pattern: Seq<char>, haystack: Seq<char>) -> Option<
    Option<(usize, usize)>,
>;

/// Compiles `pattern` with `regex::Regex::new` and searches with `regex::Regex::find`.
/// Trusted: the outcome is a function of the pattern and the haystack, which the name
/// `regex_find_result` records, and, as the `regex::Match` documentation guarantees, a match's
/// start is at most its end and both fall on character boundaries of the haystack.
#[verifier::external_body]
pub(crate) fn regex_find(pattern: &str, haystack: &str) -> (r: Option<Option<(usize, usize)>>)
    ensures
        r == regex_find_result(pattern@, haystack@),
        r matches Some(Some((s, e))) ==> s <= e <= haystack.spec_bytes().len()
            && is_char_boundary(haystack.spec_bytes(), s as int) && is_char_boundary(
            haystack.spec_bytes(),
            e as int,
        ),
{
    match regex::Regex::new(pattern) {
        Ok(re) => Some(re.find(haystack).map(|m| (m.start(), m.end()))),
        Err(_) => None,
    }
}

/// Whether `c` has the Unicode `Alphabetic` or `Numeric` property (`char::is_alphanumeric`).
pub uninterp spec fn unicode_alphanumeric(c: char) -> bool;

/// `char::is_alphanumeric` from std. Trusted: the result depends on the character alone.
#[verifier::external_body]
pub(crate) fn is_alphanumeric(c: char) -> (r: bool)
    ensures
        r == unicode_alphanumeric(c),
{
    c.is_alphanumeric()
}

/// The Unicode lower-case mapping of a string (`str::to_lowercase`).
pub uninterp spec fn unicode_lowercase(s: Seq<char>) -> Seq<char>;

/// `str::to_lowercase` from std. Trusted: the result depends on the string alone.
#[verifier::external_body]
pub(crate) fn to_lowercase(s: &str) -> (r: String)
    ensures
        r@ == unicode_lowercase(s@),
{
    s.to_lowercase()
}

} // verus!
