//! A generic fuzzy compressed radix trie, with a small glob matcher for access rules.
pub mod matcher;
pub mod glob;
pub mod key;
pub mod node;
pub mod iterator;
pub mod trie;
pub mod literal;
