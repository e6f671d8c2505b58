//! Substring indexing and greedy longest-match tokenization over a
//! generalized suffix automaton built on a trie.
//!
//! Every structure is bound to one alphabet, characters or bytes. Inside the
//! library a symbol of either alphabet is held as its code: a character as its
//! scalar value, a byte as its value.

pub mod symbols;
pub mod trie;
pub mod sam;
pub mod tokenizer;
pub mod travel;
mod walk;
mod dfs;
mod bfs;
