//! Partitions of the set {0, ..., n - 1} into blocks: generation, with or
//! without a fixed number of blocks, and counting by Stirling numbers.

pub mod fixed_k;
pub mod generate_set;
pub mod rank_set;
