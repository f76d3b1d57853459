//! k-combinations of an n-element set: lexicographic generation, random
//! sampling, and ranking and unranking by the combinatorial number system.

pub mod lex;
pub mod random;
pub mod ranking;
