//! An approximate-string-matching spell-checking engine.
//!
//! Given a vocabulary of correct words, this library builds two read-only
//! indexes: a Bloom filter for cheap "almost certainly not a word" rejection,
//! and a BK-tree keyed by Damerau-Levenshtein distance for finding vocabulary
//! words within a bounded edit distance of a misspelled token. Both indexes
//! support a deterministic binary round trip for reuse across process runs.

pub mod bk_tree;
pub mod bloom_filter;
pub mod chars;
pub mod codec;
pub mod dictionary;
pub mod distance;
pub mod processor;
pub mod spell_check;
pub mod utils;
