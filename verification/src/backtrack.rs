//! Constraint-pruned backtracking searches.

pub mod nqueens;
pub mod subset_sum;
