//! Bridges to std's text utilities.
//!
//! Parsing works over `Vec<char>`; these functions cross between `str`/
//! `String` and character vectors, and classify characters by the Unicode
//! tables that only std knows.

use vstd::prelude::*;

verus! {

/// What `char::is_alphabetic` returns: whether the character has Unicode's
/// `Alphabetic` property. The result depends on the character alone.
pub uninterp spec fn alpha_char(c: char) -> bool;

/// What `char::is_alphanumeric` returns: whether the character has Unicode's
/// `Alphabetic` property or is in a numeric general category. The result
/// depends on the character alone.
pub uninterp spec fn alnum_char(c: char) -> bool;

/// Relies on char::is_alphabetic.
#[verifier::external_body]
pub(crate) fn char_is_alphabetic(c: char) -> (r: bool)
    ensures
        r == alpha_char(c),
{
    c.is_alphabetic()
}

/// Relies on char::is_alphanumeric.
#[verifier::external_body]
pub(crate) fn char_is_alphanumeric(c: char) -> (r: bool)
    ensures
        r == alnum_char(c),
{
    c.is_alphanumeric()
}

/// Relies on char::from_u32: `Some` exactly for Unicode scalar values (code
/// points outside the surrogate range 0xD800..=0xDFFF and at most 0x10FFFF),
/// and the returned character is that code point.
#[verifier::external_body]
pub(crate) fn char_from_u32(u: u32) -> (r: Option<char>)
    ensures
        (r is Some) == (u < 0xD800 || (0xE000 <= u && u <= 0x10FFFF)),
        r matches Some(c) ==> c == u as char && c as u32 == u,
{
    char::from_u32(u)
}

/// Relies on str::chars and Vec's FromIterator: the characters of the string,
/// in order.
#[verifier::external_body]
pub(crate) fn str_chars(s: &str) -> (r: Vec<char>)
    ensures
        r@ == s@,
{
    s.chars().collect()
}

/// Relies on String's FromIterator over characters: the string made of
/// exactly these characters, in order.
#[verifier::external_body]
pub(crate) fn chars_string(v: &Vec<char>) -> (r: String)
    ensures
        r@ == v@,
{
    v.iter().collect()
}

} // verus!
