//! The character classes and case mapping of the standard library, as far as
//! the tokenizer relies on them. Everything in this module is trusted.

use vstd::prelude::*;

verus! {

/// The characters of the string that `str::to_lowercase` returns for a string
/// with the characters `s`.
pub uninterp spec fn lowercase(s: Seq<char>) -> Seq<char>;

/// Whether `char::is_alphabetic` accepts `c`, that is, whether `c` has the
/// Unicode property `Alphabetic`.
pub uninterp spec fn is_alphabetic(c: char) -> bool;

/// Whether `char::is_whitespace` accepts `c`, that is, whether `c` has the
/// Unicode property `White_Space`.
pub uninterp spec fn is_whitespace(c: char) -> bool;

/// Calls `str::to_lowercase`. Trusted: the result depends on the characters
/// of `s` alone, and [`lowercase`] is the name of that dependency.
#[verifier::external_body]
pub(crate) fn to_lowercase(s: &str) -> (r: String)
    ensures
        r@ == lowercase(s@),
{
    s.to_lowercase()
}

/// Calls `char::is_alphabetic`. Trusted: the answer depends on `c` alone,
/// and [`is_alphabetic`] is the name of that dependency.
#[verifier::external_body]
pub(crate) fn char_is_alphabetic(c: char) -> (r: bool)
    ensures
        r == is_alphabetic(c),
{
    c.is_alphabetic()
}

/// Calls `char::is_whitespace`. Trusted: the answer depends on `c` alone,
/// and [`is_whitespace`] is the name of that dependency.
#[verifier::external_body]
pub(crate) fn char_is_whitespace(c: char) -> (r: bool)
    ensures
        r == is_whitespace(c),
{
    c.is_whitespace()
}

/// Calls `String::push`. Trusted: the string afterwards holds the characters
/// it held before, followed by `c`.
#[verifier::external_body]
pub(crate) fn push_char(s: &mut String, c: char)
    ensures
        final(s)@ == old(s)@.push(c),
{
    s.push(c)
}

} // verus!
