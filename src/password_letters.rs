//! The password rule with letters: accents stripped by canonical
//! decomposition, then length, a digit, a vowel, a consonant, and no Latin
//! letter twice.

use vstd::prelude::*;
use itertools::Itertools;
use unicode_normalization::UnicodeNormalization;
use crate::chars::{alphabetic, ascii_lower, is_alphabetic, string_from_chars, to_ascii_lower};

verus! {

/// The first character of a character's canonical decomposition (NFD).
pub uninterp spec fn decomposition_head(c: char) -> Option<char>;

/// Relies on unicode-normalization's `nfd` for one character: the first
/// character of its canonical decomposition.
#[verifier::external_body]
fn nfd_head(c: char) -> (r: Option<char>)
    ensures
        r == decomposition_head(c),
{
    c.nfd().next()
}

/// Relies on itertools' `Itertools::counts`: each distinct character once,
/// with the number of times it occurs, in no stated order.
#[verifier::external_body]
fn letter_counts(letters: &Vec<char>) -> (r: Vec<(char, usize)>)
    ensures
        forall|k: int|
            0 <= k < r@.len() ==> (#[trigger] r@[k]).1 == letters@.to_multiset().count(r@[k].0),
        forall|c: char|
            #![trigger letters@.to_multiset().count(c)]
            letters@.to_multiset().count(c) > 0 ==> exists|k: int| 0 <= k < r@.len() && r@[k].0 == c,
{
    letters.iter().counts().into_iter().map(|(c, n)| (*c, n)).collect()
}

pub open spec fn stripped_char(c: char) -> char {
    match decomposition_head(c) {
        Some(d) => d,
        None => c,
    }
}

/// Each character replaced by the first character of its decomposition: the
/// base letter without its accents.
pub open spec fn deaccented(cs: Seq<char>) -> Seq<char> {
    cs.map_values(|c: char| stripped_char(c))
}

pub open spec fn ascii_letter(c: char) -> bool {
    ('a' <= c <= 'z') || ('A' <= c <= 'Z')
}

pub open spec fn vowel(c: char) -> bool {
    let l = ascii_lower(c);
    l == 'a' || l == 'e' || l == 'i' || l == 'o' || l == 'u'
}

pub open spec fn consonant(c: char) -> bool {
    alphabetic(c) && !vowel(c)
}

/// The Latin letters of the text, lowered.
pub open spec fn folded_letters(cs: Seq<char>) -> Seq<char>
    decreases cs.len(),
{
    if cs.len() == 0 {
        Seq::empty()
    } else {
        let rest = folded_letters(cs.drop_last());
        if ascii_letter(cs.last()) {
            rest.push(ascii_lower(cs.last()))
        } else {
            rest
        }
    }
}

/// Some Latin letter occurs twice, in either case.
pub open spec fn recurring_letters(cs: Seq<char>) -> bool {
    exists|c: char| #[trigger] folded_letters(cs).to_multiset().count(c) > 1
}

pub open spec fn strong_password(cs: Seq<char>) -> bool {
    let d = deaccented(cs);
    &&& 4 <= d.len() <= 12
    &&& exists|k: int| 0 <= k < d.len() && '0' <= #[trigger] d[k] <= '9'
    &&& exists|k: int| 0 <= k < d.len() && vowel(#[trigger] d[k])
    &&& exists|k: int| 0 <= k < d.len() && consonant(#[trigger] d[k])
    &&& !recurring_letters(d)
}

/// Each character replaced by the first character of its decomposition.
pub fn deaccent(text: &str) -> (r: String)
    ensures
        r@ == deaccented(text@),
{
    let n = text.unicode_len();
    let mut out: Vec<char> = Vec::new();
    let mut k: usize = 0;
    while k < n
        invariant
            n == text@.len(),
            k <= n,
            out@ == deaccented(text@.take(k as int)),
        decreases n - k,
    {
        let c = text.get_char(k);
        let d = match nfd_head(c) {
            Some(d) => d,
            None => c,
        };
        out.push(d);
        assert(deaccented(text@.take(k as int + 1)) =~= deaccented(text@.take(k as int)).push(d));
        k += 1;
    }
    assert(text@.take(n as int) =~= text@);
    string_from_chars(&out)
}

pub fn is_vowel(ch: char) -> (r: bool)
    ensures
        r == vowel(ch),
{
    let l = to_ascii_lower(ch);
    l == 'a' || l == 'e' || l == 'i' || l == 'o' || l == 'u'
}

pub fn is_consonant(ch: char) -> (r: bool)
    ensures
        r == consonant(ch),
{
    is_alphabetic(ch) && !is_vowel(ch)
}

/// Whether some Latin letter occurs twice, ignoring case.
pub fn has_recurring_letters(password: &str) -> (r: bool)
    ensures
        r == recurring_letters(password@),
{
    let ghost cs = password@;
    let n = password.unicode_len();
    let mut letters: Vec<char> = Vec::new();
    let mut k: usize = 0;
    assert(cs.take(0) =~= Seq::<char>::empty());
    while k < n
        invariant
            cs == password@,
            n == cs.len(),
            k <= n,
            letters@ == folded_letters(cs.take(k as int)),
        decreases n - k,
    {
        let c = password.get_char(k);
        assert(cs.take(k as int + 1).drop_last() =~= cs.take(k as int));
        if ('a' <= c && c <= 'z') || ('A' <= c && c <= 'Z') {
            letters.push(to_ascii_lower(c));
        }
        k += 1;
    }
    assert(cs.take(n as int) =~= cs);
    let counts = letter_counts(&letters);
    let mut j: usize = 0;
    while j < counts.len()
        invariant
            j <= counts@.len(),
            cs == password@,
            letters@ == folded_letters(cs),
            forall|i: int|
                0 <= i < counts@.len() ==> (#[trigger] counts@[i]).1 == letters@.to_multiset().count(
                    counts@[i].0,
                ),
            forall|i: int| 0 <= i < j ==> (#[trigger] counts@[i]).1 <= 1,
        decreases counts@.len() - j,
    {
        if counts[j].1 > 1 {
            assert(folded_letters(cs).to_multiset().count(counts@[j as int].0) > 1);
            return true;
        }
        j += 1;
    }
    proof {
        assert forall|c: char| !(#[trigger] letters@.to_multiset().count(c) > 1) by {
            if letters@.to_multiset().count(c) > 1 {
                let i = choose|i: int| 0 <= i < counts@.len() && counts@[i].0 == c;
                assert(counts@[i].1 <= 1);
            }
        }
    }
    false
}

/// From 4 to 12 characters once accents are stripped, with an ASCII digit,
/// a vowel and a consonant, and no Latin letter twice.
pub fn is_valid(password: &str) -> (r: bool)
    ensures
        r == strong_password(password@),
{
    let plain = deaccent(password);
    let text = plain.as_str();
    let n = text.unicode_len();
    if n < 4 || n > 12 {
        return false;
    }
    let mut digit = false;
    let mut has_vowel = false;
    let mut has_consonant = false;
    let mut k: usize = 0;
    while k < n
        invariant
            n == text@.len(),
            text@ == deaccented(password@),
            k <= n,
            digit == exists|j: int| 0 <= j < k && '0' <= #[trigger] text@[j] <= '9',
            has_vowel == exists|j: int| 0 <= j < k && vowel(#[trigger] text@[j]),
            has_consonant == exists|j: int| 0 <= j < k && consonant(#[trigger] text@[j]),
        decreases n - k,
    {
        let c = text.get_char(k);
        digit = digit || ('0' <= c && c <= '9');
        has_vowel = has_vowel || is_vowel(c);
        has_consonant = has_consonant || is_consonant(c);
        k += 1;
    }
    digit && has_vowel && has_consonant && !has_recurring_letters(text)
}

} // verus!
