//! Groups of words with pairwise disjoint letters: letter masks, the candidate
//! registry, and the backtracking search over it.

pub mod combination;
pub mod cursor;
pub mod lex;
pub mod mask;
pub mod radix;
pub mod registry;
pub mod report;
pub mod search;
pub mod word;
