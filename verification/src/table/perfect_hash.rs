//! A map from each key of a list to its position.

use std::collections::HashMap;
use vstd::prelude::*;

verus! {

/// What a map from string keys to indices holds: for the characters of each
/// key, its index.
pub uninterp spec fn entries(m: HashMap<&str, usize>) -> Map<Seq<char>, usize>;

/// The map without any key.
pub open spec fn no_entries() -> Map<Seq<char>, usize> {
    Map::empty()
}

/// `HashMap::new` makes an empty map.
#[verifier::external_body]
pub(crate) fn empty_map() -> (m: HashMap<&'static str, usize>)
    ensures
        entries(m) == no_entries(),
{
    HashMap::new()
}

/// `HashMap::insert` puts the value under the key, in place of what was
/// under an equal key before; string keys are equal where their characters
/// are.
#[verifier::external_body]
pub(crate) fn insert_key<'a>(m: &mut HashMap<&'a str, usize>, key: &'a str, index: usize)
    ensures
        entries(*final(m)) == entries(*old(m)).insert(key@, index),
{
    m.insert(key, index);
}

/// The map that the first `n` keys give: each key to the last position
/// among them at which it stands.
pub open spec fn key_positions(keys: Seq<&str>, n: int) -> Map<Seq<char>, usize>
    decreases n,
{
    if n <= 0 {
        no_entries()
    } else {
        key_positions(keys, n - 1).insert(keys[n - 1]@, (n - 1) as usize)
    }
}

/// Build a map from each key to its index in `keys`; of equal keys the last
/// counts.
pub fn perfect_hash<'a>(keys: &'a [&'a str]) -> (m: HashMap<&'a str, usize>)
    ensures
        entries(m) == key_positions(keys@, keys@.len() as int),
{
    let mut m: HashMap<&'a str, usize> = empty_map();
    let mut i: usize = 0;
    while i < keys.len()
        invariant
            i <= keys.len(),
            entries(m) == key_positions(keys@, i as int),
        decreases keys.len() - i,
    {
        insert_key(&mut m, keys[i], i);
        i += 1;
    }
    m
}

} // verus!
