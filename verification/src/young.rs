//! Standard Young tableaux: generation by backtracking, and counting by
//! the hook-length formula.

pub mod generate;
pub mod hook;
