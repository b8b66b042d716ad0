//! Enumerates sets of dictionary words that together use every letter of an
//! alphabet, with letters ordered by rarity and anagrams merged into one entry.

pub mod corpus;
pub mod mask;
pub mod rank;
pub mod search;
pub mod seqs;
pub mod tally;
pub mod text;
