//! Labeled trees and their Pruefer sequences.

pub mod bijection;
pub mod connected;
pub mod inverse;
pub mod min_heap;
pub mod pruefer;
pub mod pruefer_decode;
