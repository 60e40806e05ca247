//! A word-frequency prefix tree (trie).
//!
//! The trie stores words together with an unsigned frequency and supports
//! insertion (last write wins), exact lookup, and prefix-based autocomplete
//! ranked by frequency, highest first.

pub mod dictionary;
pub mod laws;
pub mod ranking;
