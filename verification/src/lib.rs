//! Word-search core for a letter-pool guessing game.
//!
//! Given a pool word and constraints, the library decides which candidate
//! words can be built from the pool's letters (exactly, or with a bounded
//! number of extra letters), scans a dictionary text for all such words,
//! sorts them by length then lexicographically, and packs the result into
//! byte-capped message segments.

pub mod chunker;
pub mod letters;
pub mod matching;
pub mod ordering;
pub mod scanner;
pub mod views;
