//! Finds the highest-scoring words on a 5 by 5 letter grid with bonus tiles and a
//! limited number of letter swaps, against a dictionary held in a compact trie.

pub mod bits;
pub mod letter;
pub mod letter_set;
pub mod word;
pub mod tile;
pub mod board;
pub mod path;
pub mod score;
pub mod trie;
pub mod bounds;
pub mod solution;
pub mod admissible;
pub mod shortlist;
pub mod solve;
pub mod laws;
