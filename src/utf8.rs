//! Structural classification of single UTF-8 bytes.

use vstd::prelude::*;
use vstd::utf8::{decode_utf8, valid_utf8};

verus! {

/// A byte of the form `10xxxxxx`: it continues a multi-byte sequence.
pub open spec fn continuation(b: u8) -> bool {
    0x80 <= b < 0xC0
}

/// A byte that opens a multi-byte sequence: non-ASCII, not a continuation.
pub open spec fn lead(b: u8) -> bool {
    b >= 0x80 && !continuation(b)
}

/// Total length of the sequence that a byte opens, by its bit prefix.
pub open spec fn size_of_lead(b: u8) -> Option<u8> {
    if b < 0x80 {
        Some(1u8)
    } else if 0xC0 <= b < 0xE0 {
        Some(2u8)
    } else if 0xE0 <= b < 0xF0 {
        Some(3u8)
    } else if 0xF0 <= b < 0xF8 {
        Some(4u8)
    } else {
        None
    }
}

pub fn is_starting_byte(b: u8) -> (r: bool)
    ensures
        r == lead(b),
{
    b > 127 && !is_continuation_byte(b)
}

pub fn is_continuation_byte(b: u8) -> (r: bool)
    ensures
        r == continuation(b),
{
    assert((b & 0xC0 == 0x80) == (0x80 <= b && b < 0xC0)) by (bit_vector);
    (b & 0b1100_0000) == 0b1000_0000
}

/// Whether a byte begins a character: ASCII or a lead byte.
pub fn begins_character(b: u8) -> (r: bool)
    ensures
        r == !continuation(b),
{
    !is_continuation_byte(b)
}

pub fn sequence_size(b: u8) -> (r: Option<u8>)
    ensures
        r == size_of_lead(b),
{
    assert((b & 0x80 == 0) == (b < 0x80)) by (bit_vector);
    assert((b & 0xE0 == 0xC0) == (0xC0 <= b && b < 0xE0)) by (bit_vector);
    assert((b & 0xF0 == 0xE0) == (0xE0 <= b && b < 0xF0)) by (bit_vector);
    assert((b & 0xF8 == 0xF0) == (0xF0 <= b && b < 0xF8)) by (bit_vector);
    if b & 0b1000_0000 == 0 {
        Some(1)
    } else if b & 0b1110_0000 == 0b1100_0000 {
        Some(2)
    } else if b & 0b1111_0000 == 0b1110_0000 {
        Some(3)
    } else if b & 0b1111_1000 == 0b1111_0000 {
        Some(4)
    } else {
        None
    }
}

/// A byte below `0xF8` is a continuation byte exactly when it is not ASCII and
/// opens no sequence. (The bytes `0xF8..=0xFF` open none and continue none.)
pub proof fn continuation_iff_no_size(b: u8)
    requires
        b < 0xF8,
    ensures
        continuation(b) <==> (size_of_lead(b) is None && b >= 0x80),
{
}

/// Relies on `String::from_utf8`: it accepts exactly the well-formed UTF-8
/// byte strings and yields the characters they encode.
#[verifier::external_body]
pub(crate) fn decode_string(bytes: Vec<u8>) -> (r: Option<String>)
    ensures
        r is Some <==> valid_utf8(bytes@),
        r matches Some(s) ==> s@ == decode_utf8(bytes@),
{
    String::from_utf8(bytes).ok()
}

} // verus!
