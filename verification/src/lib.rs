//! A dictionary engine: a prefix tree over symbol sequences, with exact
//! membership queries and bounded edit-distance suggestion lookup.

pub mod distance;
pub mod suggest;
pub mod trie;
