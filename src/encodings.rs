//! Reading a byte string as UTF-8, Latin-1, UTF-16LE or UTF-16BE, each with
//! its byte-order mark where it has one.

use vstd::prelude::*;
use vstd::utf8::{decode_utf8, valid_utf8};
use crate::chars::{decode_utf16_units, string_from_chars, utf16_text};
use crate::hex::{hex_line, hex_pair, parse_bytes};
use crate::utf8::decode_string;

verus! {

/// The bytes without a leading UTF-8 byte-order mark (`EF BB BF`).
pub open spec fn without_utf8_bom(b: Seq<u8>) -> Seq<u8> {
    if b.len() >= 3 && b[0] == 0xEF && b[1] == 0xBB && b[2] == 0xBF {
        b.skip(3)
    } else {
        b
    }
}

/// Little-endian code units of an even number of bytes.
pub open spec fn units_le(b: Seq<u8>) -> Seq<u16> {
    Seq::new(b.len() / 2, |k: int| (b[2 * k] as int + 256 * b[2 * k + 1] as int) as u16)
}

/// Each pair of bytes swapped.
pub open spec fn swapped_pairs(b: Seq<u8>) -> Seq<u8> {
    Seq::new(b.len(), |k: int| if k % 2 == 0 { b[k + 1] } else { b[k - 1] })
}

/// UTF-16LE text: none for no bytes or an odd number; a leading `FEFF` is a
/// byte-order mark, a leading `FFFE` says the text is big-endian.
pub open spec fn utf16le_text(b: Seq<u8>) -> Option<Seq<char>> {
    let u = units_le(b);
    if b.len() == 0 || b.len() % 2 != 0 {
        None
    } else if u[0] == 0xFEFF {
        utf16_text(u.skip(1))
    } else if u[0] == 0xFFFE {
        None
    } else {
        utf16_text(u)
    }
}

pub fn parse_str_utf8(bytes: &[u8]) -> (r: Option<String>)
    ensures
        r is Some <==> valid_utf8(without_utf8_bom(bytes@)),
        r matches Some(s) ==> s@ == decode_utf8(without_utf8_bom(bytes@)),
{
    let n = bytes.len();
    let start: usize = if n >= 3 && bytes[0] == 0xEF && bytes[1] == 0xBB && bytes[2] == 0xBF {
        3
    } else {
        0
    };
    let mut body: Vec<u8> = Vec::new();
    let mut k: usize = start;
    while k < n
        invariant
            n == bytes@.len(),
            start <= k <= n,
            body@ == bytes@.subrange(start as int, k as int),
        decreases n - k,
    {
        body.push(bytes[k]);
        assert(body@ =~= bytes@.subrange(start as int, k as int + 1));
        k += 1;
    }
    assert(body@ =~= without_utf8_bom(bytes@));
    decode_string(body)
}

/// Each byte as the character with that code point.
pub fn parse_str_latin1(bytes: &[u8]) -> (r: String)
    ensures
        r@ == bytes@.map_values(|b: u8| b as char),
{
    let mut out: Vec<char> = Vec::new();
    let mut k: usize = 0;
    while k < bytes.len()
        invariant
            k <= bytes@.len(),
            out@ == bytes@.take(k as int).map_values(|b: u8| b as char),
        decreases bytes@.len() - k,
    {
        out.push(bytes[k] as char);
        assert(bytes@.take(k as int + 1).map_values(|b: u8| b as char) =~= bytes@.take(
            k as int,
        ).map_values(|b: u8| b as char).push(bytes[k as int] as char));
        k += 1;
    }
    assert(bytes@.take(bytes@.len() as int) =~= bytes@);
    string_from_chars(&out)
}

pub fn parse_str_utf16le(bytes: &[u8]) -> (r: Option<String>)
    ensures
        r is Some <==> utf16le_text(bytes@) is Some,
        r matches Some(s) ==> utf16le_text(bytes@) == Some(s@),
{
    let n = bytes.len();
    if n == 0 || n % 2 != 0 {
        return None;
    }
    let ghost u = units_le(bytes@);
    let first = bytes[0] as u16 + 256 * bytes[1] as u16;
    assert(first == u[0]);
    if first == 0xFFFE {
        return None;
    }
    let skip: usize = if first == 0xFEFF {
        1
    } else {
        0
    };
    let mut units: Vec<u16> = Vec::new();
    let mut k: usize = skip;
    while k < n / 2
        invariant
            n == bytes@.len(),
            n % 2 == 0,
            u == units_le(bytes@),
            skip <= k <= n / 2,
            units@ == u.subrange(skip as int, k as int),
        decreases n / 2 - k,
    {
        units.push(bytes[2 * k] as u16 + 256 * bytes[2 * k + 1] as u16);
        assert(units@ =~= u.subrange(skip as int, k as int + 1));
        k += 1;
    }
    assert(units@ =~= u.skip(skip as int));
    assert(u.skip(0) =~= u);
    decode_utf16_units(&units)
}

pub fn parse_str_utf16be(bytes: &[u8]) -> (r: Option<String>)
    ensures
        bytes@.len() % 2 != 0 ==> r is None,
        bytes@.len() % 2 == 0 ==> (r is Some <==> utf16le_text(swapped_pairs(bytes@)) is Some),
        r matches Some(s) ==> utf16le_text(swapped_pairs(bytes@)) == Some(s@),
{
    let n = bytes.len();
    if n % 2 != 0 {
        return None;
    }
    let mut swapped: Vec<u8> = Vec::new();
    let mut k: usize = 0;
    while k < n
        invariant
            n == bytes@.len(),
            n % 2 == 0,
            k <= n,
            k % 2 == 0,
            swapped@ == swapped_pairs(bytes@).take(k as int),
        decreases n - k,
    {
        swapped.push(bytes[k + 1]);
        swapped.push(bytes[k]);
        assert(swapped@ =~= swapped_pairs(bytes@).take(k as int + 2));
        k += 2;
    }
    assert(swapped@ =~= swapped_pairs(bytes@));
    parse_str_utf16le(swapped.as_slice())
}


pub open spec fn optional(t: Option<Seq<char>>) -> Seq<Seq<char>> {
    match t {
        Some(x) => seq![x],
        None => Seq::empty(),
    }
}

/// What a byte string reads as: UTF-8, Latin-1, UTF-16LE and UTF-16BE, in
/// that order, leaving out the encodings it is no valid text of.
pub open spec fn readings(b: Seq<u8>) -> Seq<Seq<char>> {
    let utf8 = if valid_utf8(without_utf8_bom(b)) {
        Some(decode_utf8(without_utf8_bom(b)))
    } else {
        None
    };
    let be = if b.len() % 2 == 0 {
        utf16le_text(swapped_pairs(b))
    } else {
        None
    };
    optional(utf8) + seq![b.map_values(|x: u8| x as char)] + optional(utf16le_text(b)) + optional(be)
}

/// The bytes that a line of hexadecimal pairs writes.
pub open spec fn hex_bytes(cs: Seq<char>) -> Seq<u8> {
    Seq::new(cs.len() / 2, |k: int| hex_pair(cs[2 * k], cs[2 * k + 1]).unwrap())
}

fn push_reading(out: &mut Vec<String>, t: Option<String>)
    ensures
        final(out)@.map_values(|s: String| s@) == old(out)@.map_values(|s: String| s@) + optional(
            match t {
                Some(s) => Some(s@),
                None => None,
            },
        ),
{
    match t {
        Some(s) => {
            let ghost s_view = s@;
            out.push(s);
            assert(out@.map_values(|s: String| s@) =~= old(out)@.map_values(|s: String| s@) + seq![s_view]);
        },
        None => {
            assert(out@.map_values(|s: String| s@) =~= old(out)@.map_values(|s: String| s@) + Seq::<Seq<char>>::empty());
        },
    }
}

/// Every reading of a line of hexadecimal pairs; `None` when the line is no
/// such line.
pub fn parse_line(line: &str) -> (r: Option<Vec<String>>)
    ensures
        r is Some <==> hex_line(line@),
        r matches Some(v) ==> v@.map_values(|s: String| s@) == readings(hex_bytes(line@)),
{
    let bytes = match parse_bytes(line) {
        Some(b) => b,
        None => return None,
    };
    assert(bytes@ =~= hex_bytes(line@));
    let mut out: Vec<String> = Vec::new();
    push_reading(&mut out, parse_str_utf8(bytes.as_slice()));
    let latin1 = parse_str_latin1(bytes.as_slice());
    push_reading(&mut out, Some(latin1));
    push_reading(&mut out, parse_str_utf16le(bytes.as_slice()));
    push_reading(&mut out, parse_str_utf16be(bytes.as_slice()));
    assert(out@.map_values(|s: String| s@) =~= readings(hex_bytes(line@)));
    Some(out)
}

} // verus!
