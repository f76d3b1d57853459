//! Gray codes: orders in which consecutive words differ by one unit of
//! change.

pub mod binary;
pub mod k_subset;
pub mod loopless;
