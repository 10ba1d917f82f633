//! Rotating Greek letters through their alphabet, as a Caesar cipher would.

use vstd::prelude::*;
use vstd::utf8::char_u32_cast;
use crate::chars::{char_from_u32, string_from_chars};

verus! {

pub const UPPERCASE_ALPHA: char = 'Α';

pub const LOWERCASE_ALPHA: char = 'α';

pub const UPPERCASE_RHO: char = 'Ρ';

pub const LOWERCASE_RHO: char = 'ρ';

pub const UPPERCASE_SIGMA: char = 'Σ';

pub const LOWERCASE_SIGMA: char = 'σ';

pub const UPPERCASE_OMEGA: char = 'Ω';

pub const LOWERCASE_OMEGA: char = 'ω';

/// A letter from Alpha to Omega, in either case.
pub open spec fn greek_letter(c: char) -> bool {
    (UPPERCASE_ALPHA <= c <= UPPERCASE_OMEGA) || (LOWERCASE_ALPHA <= c <= LOWERCASE_OMEGA)
}

/// The next letter of the alphabet: Omega wraps round to Alpha, and Rho
/// goes to Sigma (skipping final sigma). Other characters stay.
pub open spec fn rotated(c: char) -> char {
    if c == UPPERCASE_OMEGA {
        UPPERCASE_ALPHA
    } else if c == LOWERCASE_OMEGA {
        LOWERCASE_ALPHA
    } else if c == UPPERCASE_RHO {
        UPPERCASE_SIGMA
    } else if c == LOWERCASE_RHO {
        LOWERCASE_SIGMA
    } else if greek_letter(c) {
        ((c as u32) + 1) as char
    } else {
        c
    }
}

pub fn is_greek_letter(ch: char) -> (r: bool)
    ensures
        r == greek_letter(ch),
{
    (UPPERCASE_ALPHA <= ch && ch <= UPPERCASE_OMEGA) || (LOWERCASE_ALPHA <= ch && ch
        <= LOWERCASE_OMEGA)
}

pub fn rot_char(ch: char) -> (r: char)
    ensures
        r == rotated(ch),
{
    if ch == UPPERCASE_OMEGA {
        UPPERCASE_ALPHA
    } else if ch == LOWERCASE_OMEGA {
        LOWERCASE_ALPHA
    } else if ch == UPPERCASE_RHO {
        UPPERCASE_SIGMA
    } else if ch == LOWERCASE_RHO {
        LOWERCASE_SIGMA
    } else if is_greek_letter(ch) {
        let u = ch as u32 + 1;
        let next = char_from_u32(u).unwrap();
        proof {
            char_u32_cast(next, u);
        }
        next
    } else {
        ch
    }
}

/// Every character rotated.
pub fn rot_str(input: &str) -> (r: String)
    ensures
        r@ == input@.map_values(|c: char| rotated(c)),
{
    let n = input.unicode_len();
    let mut out: Vec<char> = Vec::new();
    let mut k: usize = 0;
    while k < n
        invariant
            n == input@.len(),
            k <= n,
            out@ == input@.take(k as int).map_values(|c: char| rotated(c)),
        decreases n - k,
    {
        out.push(rot_char(input.get_char(k)));
        assert(input@.take(k as int + 1).map_values(|c: char| rotated(c)) =~= input@.take(
            k as int,
        ).map_values(|c: char| rotated(c)).push(rotated(input@[k as int])));
        k += 1;
    }
    assert(input@.take(n as int) =~= input@);
    string_from_chars(&out)
}

} // verus!
