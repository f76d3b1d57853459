//! Permutations: lexicographic successor, ranking by Lehmer code,
//! minimal-change enumeration and random shuffling.

pub mod lex;
pub mod minimal;
pub mod random;
pub mod ranking;
pub mod sjt_rank;
