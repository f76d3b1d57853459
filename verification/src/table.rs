//! Small table utilities: value compression, bounds-checked lookup and a
//! key-to-index map.

pub mod compress;
pub mod look_up;
pub mod perfect_hash;
