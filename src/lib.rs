//! A map from key sequences to values, stored as a prefix-sharing tree.

pub mod laws;
mod trie;

pub use trie::{ElementaryTrie, Trie};
