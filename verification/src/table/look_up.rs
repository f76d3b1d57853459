//! Bounds-checked lookup in a table.

use vstd::prelude::*;

verus! {

/// Look up the entry at `idx`: a copy of it, or `None` where `idx` is out
/// of bounds.
pub fn lookup_table<T: Clone>(table: &[T], idx: usize) -> (res: Option<T>)
    ensures
        idx >= table@.len() ==> res is None,
        idx < table@.len() ==> res is Some && cloned(table@[idx as int], res->0),
{
    table.get(idx).cloned()
}

} // verus!
