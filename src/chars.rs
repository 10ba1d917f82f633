//! Unicode character classes that the text utilities rely on.

use vstd::prelude::*;
use vstd::utf8::is_scalar;

verus! {

/// Whether a character has the Unicode `White_Space` property.
pub uninterp spec fn white_space(c: char) -> bool;

/// Whether a character is in one of the Unicode number categories
/// (`Nd`, `Nl`, `No`).
pub uninterp spec fn numeric(c: char) -> bool;

/// Whether a character has the Unicode `Lowercase` property.
pub uninterp spec fn lowercase(c: char) -> bool;

/// Whether a character has the Unicode `Uppercase` property.
pub uninterp spec fn uppercase(c: char) -> bool;

/// Whether a character has the Unicode `Alphabetic` property.
pub uninterp spec fn alphabetic(c: char) -> bool;

/// Relies on `char::is_alphabetic`: the `Alphabetic` property.
#[verifier::external_body]
pub(crate) fn is_alphabetic(c: char) -> (r: bool)
    ensures
        r == alphabetic(c),
{
    c.is_alphabetic()
}

/// `A` to `Z` lowered to `a` to `z`; every other character as it is.
pub open spec fn ascii_lower(c: char) -> char {
    if 'A' <= c <= 'Z' {
        ((c as u32) + 32) as char
    } else {
        c
    }
}

/// Relies on `char::to_ascii_lowercase`: ASCII capitals lowered, nothing
/// else changed.
#[verifier::external_body]
pub(crate) fn to_ascii_lower(c: char) -> (r: char)
    ensures
        r == ascii_lower(c),
{
    c.to_ascii_lowercase()
}

/// Relies on `char::is_lowercase`: the `Lowercase` property.
#[verifier::external_body]
pub(crate) fn is_lowercase(c: char) -> (r: bool)
    ensures
        r == lowercase(c),
{
    c.is_lowercase()
}

/// Relies on `char::is_uppercase`: the `Uppercase` property.
#[verifier::external_body]
pub(crate) fn is_uppercase(c: char) -> (r: bool)
    ensures
        r == uppercase(c),
{
    c.is_uppercase()
}

/// Relies on `String`'s `FromIterator<char>`: the characters in order.
#[verifier::external_body]
pub(crate) fn string_from_chars(chars: &Vec<char>) -> (r: String)
    ensures
        r@ == chars@,
{
    chars.iter().collect()
}

/// Relies on `char`'s `TryFrom<u32>`: a character exactly for the Unicode
/// scalar values, with that code point.
#[verifier::external_body]
pub(crate) fn char_from_u32(u: u32) -> (r: Option<char>)
    ensures
        r is Some <==> is_scalar(u),
        r matches Some(c) ==> c as u32 == u,
{
    char::try_from(u).ok()
}

/// The text that UTF-16 code units encode; none when a surrogate is unpaired.
pub uninterp spec fn utf16_text(units: Seq<u16>) -> Option<Seq<char>>;

/// Relies on `char::decode_utf16`, collected into a `String`: the decoded
/// text, or an error at the first unpaired surrogate.
#[verifier::external_body]
pub(crate) fn decode_utf16_units(units: &Vec<u16>) -> (r: Option<String>)
    ensures
        r is Some <==> utf16_text(units@) is Some,
        r matches Some(s) ==> utf16_text(units@) == Some(s@),
{
    char::decode_utf16(units.iter().cloned()).collect::<Result<String, _>>().ok()
}

/// Relies on `char::is_whitespace`: the `White_Space` property.
#[verifier::external_body]
pub(crate) fn is_whitespace(c: char) -> (r: bool)
    ensures
        r == white_space(c),
{
    c.is_whitespace()
}

/// Relies on `char::is_numeric`: the number categories.
#[verifier::external_body]
pub(crate) fn is_numeric(c: char) -> (r: bool)
    ensures
        r == numeric(c),
{
    c.is_numeric()
}

/// Number of `White_Space` characters at the start.
pub open spec fn leading_white(cs: Seq<char>) -> nat
    decreases cs.len(),
{
    if cs.len() > 0 && white_space(cs[0]) {
        1 + leading_white(cs.drop_first())
    } else {
        0
    }
}

/// Number of `White_Space` characters at the end.
pub open spec fn trailing_white(cs: Seq<char>) -> nat
    decreases cs.len(),
{
    if cs.len() > 0 && white_space(cs.last()) {
        1 + trailing_white(cs.drop_last())
    } else {
        0
    }
}

/// The characters without `White_Space` at either end.
pub open spec fn stripped(cs: Seq<char>) -> Seq<char> {
    if leading_white(cs) >= cs.len() {
        Seq::empty()
    } else {
        cs.subrange(leading_white(cs) as int, cs.len() - trailing_white(cs))
    }
}

/// Relies on `str::trim`: leading and trailing `White_Space` removed.
#[verifier::external_body]
pub(crate) fn trim(s: &str) -> (r: &str)
    ensures
        r@ == stripped(s@),
{
    s.trim()
}

} // verus!
