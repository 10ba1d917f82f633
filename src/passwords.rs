//! The password rule: length, a digit, both cases, and something beyond ASCII.

use vstd::prelude::*;
use crate::chars::{is_lowercase, is_uppercase, lowercase, uppercase};

verus! {

pub open spec fn ascii_digit(c: char) -> bool {
    '0' <= c <= '9'
}

/// From 4 to 12 characters, with an ASCII digit, a lowercase and an
/// uppercase letter, and a character beyond ASCII.
pub open spec fn valid_password(cs: Seq<char>) -> bool {
    &&& 4 <= cs.len() <= 12
    &&& exists|k: int| 0 <= k < cs.len() && ascii_digit(#[trigger] cs[k])
    &&& exists|k: int| 0 <= k < cs.len() && lowercase(#[trigger] cs[k])
    &&& exists|k: int| 0 <= k < cs.len() && uppercase(#[trigger] cs[k])
    &&& exists|k: int| 0 <= k < cs.len() && (#[trigger] cs[k]) as u32 >= 0x80
}

pub fn is_valid(password: &str) -> (r: bool)
    ensures
        r == valid_password(password@),
{
    let n = password.unicode_len();
    if n < 4 || n > 12 {
        return false;
    }
    let mut digit = false;
    let mut lower = false;
    let mut upper = false;
    let mut wide = false;
    let mut k: usize = 0;
    while k < n
        invariant
            n == password@.len(),
            k <= n,
            digit == exists|j: int| 0 <= j < k && ascii_digit(#[trigger] password@[j]),
            lower == exists|j: int| 0 <= j < k && lowercase(#[trigger] password@[j]),
            upper == exists|j: int| 0 <= j < k && uppercase(#[trigger] password@[j]),
            wide == exists|j: int| 0 <= j < k && (#[trigger] password@[j]) as u32 >= 0x80,
        decreases n - k,
    {
        let c = password.get_char(k);
        digit = digit || ('0' <= c && c <= '9');
        lower = lower || is_lowercase(c);
        upper = upper || is_uppercase(c);
        wide = wide || c as u32 >= 0x80;
        k += 1;
    }
    digit && lower && upper && wide
}

} // verus!
