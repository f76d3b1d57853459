//! Partitions of an integer into non-increasing positive parts: generation
//! and ranking.

pub mod generate;
pub mod rank;
