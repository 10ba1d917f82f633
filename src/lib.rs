//! Reassembly of byte-grid fragments cut out of a UTF-8 text image, with the
//! small text utilities that surround it.
//!
//! - `utf8`, `fragment`, `grid`, `reassemble`, `hex`: the fragments, their
//!   edge fingerprints, the placement grid and its greedy search, and the
//!   assembly of the picture.
//! - `numerals`, `miscode`, `chars`, `crossword`, `expression`, `messages`,
//!   `passwords`, `greek`, `encodings`: text rules of other kinds.

pub mod utf8;
pub mod fragment;
pub mod grid;
pub mod reassemble;
pub mod hex;
pub mod numerals;
pub mod miscode;
pub mod chars;
pub mod crossword;
pub mod expression;
pub mod messages;
pub mod passwords;
pub mod password_letters;
pub mod greek;
pub mod encodings;
