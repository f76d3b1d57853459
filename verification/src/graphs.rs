//! Simple labeled graphs as adjacency matrices: enumeration and
//! isomorphism testing.

pub mod generate;
pub mod isomorphism;
