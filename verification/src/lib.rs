//! Classic combinatorial enumeration and ranking algorithms, with every
//! function's behaviour stated as a contract and proved.

pub mod combinations;
pub mod sequences;
pub mod order;
pub mod permutations;
pub mod young;
pub mod backtrack;
pub mod partition_set;
pub mod partitions;
pub mod gray;
pub mod graphs;
pub mod table;
pub mod trees;
pub mod viz;
