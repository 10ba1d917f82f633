//! Rows of fragments as written in the input: two hexadecimal digits per byte.

use vstd::prelude::*;

verus! {

pub open spec fn hex_digit(c: char) -> Option<u8> {
    if '0' <= c <= '9' {
        Some((c as u32 - 0x30) as u8)
    } else if 'a' <= c <= 'f' {
        Some((c as u32 - 0x61 + 10) as u8)
    } else if 'A' <= c <= 'F' {
        Some((c as u32 - 0x41 + 10) as u8)
    } else {
        None
    }
}

/// The byte that two characters write in base 16; a leading `+` sign with
/// one digit is read as that digit.
pub open spec fn hex_pair(a: char, b: char) -> Option<u8> {
    if a == '+' {
        hex_digit(b)
    } else {
        match (hex_digit(a), hex_digit(b)) {
            (Some(x), Some(y)) => Some((x * 16 + y) as u8),
            _ => None,
        }
    }
}

/// Every pair of characters writes a byte.
pub open spec fn hex_line(cs: Seq<char>) -> bool {
    cs.len() % 2 == 0 && forall|k: int|
        0 <= k < cs.len() / 2 ==> (#[trigger] hex_pair(cs[2 * k], cs[2 * k + 1])) is Some
}

fn digit(c: char) -> (r: Option<u8>)
    ensures
        r == hex_digit(c),
{
    if '0' <= c && c <= '9' {
        Some((c as u32 - 0x30) as u8)
    } else if 'a' <= c && c <= 'f' {
        Some((c as u32 - 0x61 + 10) as u8)
    } else if 'A' <= c && c <= 'F' {
        Some((c as u32 - 0x41 + 10) as u8)
    } else {
        None
    }
}

/// The bytes that a line of hexadecimal pairs writes; `None` when the line
/// has an odd length or a pair that is no byte.
pub fn parse_bytes(line: &str) -> (r: Option<Vec<u8>>)
    ensures
        r is Some <==> hex_line(line@),
        r matches Some(v) ==> v@.len() == line@.len() / 2 && forall|k: int|
            0 <= k < v@.len() ==> Some(#[trigger] v@[k]) == hex_pair(line@[2 * k], line@[2 * k + 1]),
{
    let n = line.unicode_len();
    if n % 2 != 0 {
        return None;
    }
    let mut out: Vec<u8> = Vec::new();
    let mut k: usize = 0;
    while k < n / 2
        invariant
            n == line@.len(),
            n % 2 == 0,
            k <= n / 2,
            out@.len() == k,
            forall|j: int|
                0 <= j < k ==> Some(#[trigger] out@[j]) == hex_pair(line@[2 * j], line@[2 * j + 1]),
        decreases n / 2 - k,
    {
        let a = line.get_char(2 * k);
        let b = line.get_char(2 * k + 1);
        let byte = if a == '+' {
            digit(b)
        } else {
            match (digit(a), digit(b)) {
                (Some(x), Some(y)) => Some(x * 16 + y),
                _ => None,
            }
        };
        match byte {
            Some(v) => out.push(v),
            None => {
                assert(hex_pair(line@[2 * k as int], line@[2 * k as int + 1]) is None);
                return None;
            },
        }
        k += 1;
    }
    assert forall|j: int| 0 <= j < n / 2 implies (#[trigger] hex_pair(line@[2 * j], line@[2 * j + 1])) is Some by {
        assert(Some(out@[j]) == hex_pair(line@[2 * j], line@[2 * j + 1]));
    }
    Some(out)
}

} // verus!
