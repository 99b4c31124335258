//! A prefix tree over strings of Unicode scalar values, with verified
//! insertion, exact and prefix-scoped removal, queries and enumeration.
pub mod laws;
mod node;
mod text;
mod trie;

pub use node::TrieNode;
pub use trie::Trie;
