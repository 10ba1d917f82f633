//! Crossword clues written as a row of dots with one letter given, and the
//! test of a word against such a clue.

use vstd::prelude::*;
use crate::chars::{stripped, trim};

verus! {

/// A clue: the word's length in characters and one known character at a
/// character position.
#[derive(Debug, Clone, Copy, PartialEq, Eq, Structural)]
pub struct CrosswordEntry {
    word_len: usize,
    ch_index: usize,
    ch: char,
}

impl View for CrosswordEntry {
    type V = (nat, nat, char);

    closed spec fn view(&self) -> (nat, nat, char) {
        (self.word_len as nat, self.ch_index as nat, self.ch)
    }
}

/// Position of the first character that is not a dot, from `i` on.
pub open spec fn first_letter_from(cs: Seq<char>, i: int) -> Option<nat>
    decreases cs.len() - i,
{
    if i < 0 || i >= cs.len() {
        None
    } else if cs[i] != '.' {
        Some(i as nat)
    } else {
        first_letter_from(cs, i + 1)
    }
}

/// The clue that a line gives, once trimmed; none without a letter.
pub open spec fn clue_of(line: Seq<char>) -> Option<(nat, nat, char)> {
    let cs = stripped(line);
    match first_letter_from(cs, 0) {
        Some(k) => Some((cs.len(), k, cs[k as int])),
        None => None,
    }
}

impl CrosswordEntry {
    /// The word has the clue's length and the clue's character at its place.
    pub fn matches(&self, word: &str) -> (r: bool)
        ensures
            r == (word@.len() == self@.0 && self@.1 < word@.len() && word@[self@.1 as int]
                == self@.2),
    {
        let n = word.unicode_len();
        n == self.word_len && self.ch_index < n && word.get_char(self.ch_index) == self.ch
    }

    fn from_line(line: &str) -> (r: Option<CrosswordEntry>)
        ensures
            match r {
                Some(e) => clue_of(line@) == Some(e@),
                None => clue_of(line@) is None,
            },
    {
        let t = trim(line);
        let n = t.unicode_len();
        let mut k: usize = 0;
        while k < n
            invariant
                n == t@.len(),
                t@ == stripped(line@),
                k <= n,
                first_letter_from(t@, 0) == first_letter_from(t@, k as int),
            decreases n - k,
        {
            let c = t.get_char(k);
            if c != '.' {
                return Some(CrosswordEntry { word_len: n, ch_index: k, ch: c });
            }
            k += 1;
        }
        None
    }
}

/// One clue per line; `None` when some line holds no letter.
pub fn parse_crossword(lines: &Vec<String>) -> (r: Option<Vec<CrosswordEntry>>)
    ensures
        match r {
            Some(v) => v@.len() == lines@.len() && forall|i: int|
                0 <= i < lines@.len() ==> clue_of(lines@[i]@) == Some((#[trigger] v@[i])@),
            None => exists|i: int| 0 <= i < lines@.len() && (#[trigger] clue_of(lines@[i]@)) is None,
        },
{
    let mut out: Vec<CrosswordEntry> = Vec::new();
    let mut i: usize = 0;
    while i < lines.len()
        invariant
            i <= lines@.len(),
            out@.len() == i,
            forall|j: int| 0 <= j < i ==> clue_of(lines@[j]@) == Some((#[trigger] out@[j])@),
        decreases lines@.len() - i,
    {
        match CrosswordEntry::from_line(lines[i].as_str()) {
            Some(e) => out.push(e),
            None => return None,
        }
        i += 1;
    }
    Some(out)
}

} // verus!
