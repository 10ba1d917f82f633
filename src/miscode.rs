//! Undoing text that was UTF-8, read as Latin-1 and written out as UTF-8
//! again: each character stands for one byte of the real text.

use vstd::prelude::*;
use vstd::utf8::{decode_utf8, valid_utf8};
use crate::utf8::decode_string;

verus! {

/// Every character is below U+0100, so it can stand for one byte.
pub open spec fn all_latin1(cs: Seq<char>) -> bool {
    forall|k: int| 0 <= k < cs.len() ==> (#[trigger] cs[k]) as u32 <= 0xFF
}

/// The bytes that the characters stand for.
pub open spec fn latin1_bytes(cs: Seq<char>) -> Seq<u8> {
    cs.map_values(|c: char| c as u8)
}

/// Reading the characters back as bytes gives well-formed UTF-8.
pub open spec fn repairable(cs: Seq<char>) -> bool {
    all_latin1(cs) && valid_utf8(latin1_bytes(cs))
}

/// The text with one layer of mis-encoding undone.
pub open spec fn repaired(cs: Seq<char>) -> Seq<char> {
    decode_utf8(latin1_bytes(cs))
}

/// Takes each character as one byte and decodes those bytes as UTF-8.
/// `None` when a character is beyond U+00FF or the bytes are not UTF-8.
pub fn decode_miscode(text: &str) -> (r: Option<String>)
    ensures
        r is Some <==> repairable(text@),
        r matches Some(s) ==> s@ == repaired(text@),
{
    let n = text.unicode_len();
    let mut bytes: Vec<u8> = Vec::new();
    let mut k: usize = 0;
    while k < n
        invariant
            n == text@.len(),
            k <= n,
            bytes@ == latin1_bytes(text@.take(k as int)),
            forall|j: int| 0 <= j < k ==> (#[trigger] text@[j]) as u32 <= 0xFF,
        decreases n - k,
    {
        let c = text.get_char(k);
        if c as u32 > 0xFF {
            return None;
        }
        bytes.push(c as u8);
        assert(latin1_bytes(text@.take(k as int + 1)) =~= latin1_bytes(text@.take(k as int)).push(
            c as u8,
        ));
        k += 1;
    }
    assert(text@.take(n as int) =~= text@);
    decode_string(bytes)
}

/// Undoes two layers of mis-encoding.
pub fn decode_double_miscode(text: &str) -> (r: Option<String>)
    ensures
        r is Some <==> (repairable(text@) && repairable(repaired(text@))),
        r matches Some(s) ==> s@ == repaired(repaired(text@)),
{
    match decode_miscode(text) {
        Some(once) => decode_miscode(once.as_str()),
        None => None,
    }
}

} // verus!
