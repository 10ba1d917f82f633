//! What a message costs when it may go out as an SMS, a tweet, or both.

use vstd::prelude::*;
use vstd::utf8::encode_utf8;

verus! {

/// Longest message, in bytes, that an SMS carries.
pub const SMS_THRESHOLD: usize = 160;

/// Longest message, in characters, that a tweet carries.
pub const TWEET_THRESHOLD: usize = 140;

pub open spec fn cost_of(bytes: nat, characters: nat) -> u32 {
    if bytes <= SMS_THRESHOLD && characters <= TWEET_THRESHOLD {
        13
    } else if bytes <= SMS_THRESHOLD {
        11
    } else if characters <= TWEET_THRESHOLD {
        7
    } else {
        0
    }
}

/// Cents earned by a message: 11 as an SMS, 7 as a tweet, 13 as both.
pub fn cost(input: &str) -> (r: u32)
    ensures
        r == cost_of(encode_utf8(input@).len(), input@.len()),
{
    let bytes = input.as_bytes().len();
    let characters = input.unicode_len();
    match (bytes <= SMS_THRESHOLD, characters <= TWEET_THRESHOLD) {
        (true, true) => 13,
        (true, false) => 11,
        (false, true) => 7,
        (false, false) => 0,
    }
}

} // verus!
