//! Compression of values to compact identifiers.

use std::collections::HashMap;
use std::hash::Hash;
use vstd::prelude::*;
use crate::order::{differs, is_ordered, is_rising, is_strictly_rising, lemma_order_laws, precedes, sort_rising};

verus! {

/// Compress values: the distinct values in rising order, and for every
/// entry of `data` the position of its value among them. The values are
/// of a type with a total order, which a hash map can be keyed by.
#[verifier::rlimit(40)]
pub fn compress<T: Ord + Copy + Hash>(data: &[T]) -> (res: (Vec<usize>, Vec<T>))
    requires
        is_ordered::<T>(),
        vstd::std_specs::hash::obeys_key_model::<T>(),
    ensures
        is_strictly_rising(res.1@),
        forall|j: int| 0 <= j < res.1@.len() ==> data@.contains(#[trigger] res.1@[j]),
        res.0@.len() == data@.len(),
        forall|i: int|
            0 <= i < data@.len() ==> (#[trigger] res.0@[i]) < res.1@.len() && res.1@[res.0@[i] as int]
                == data@[i],
{
    let mut sorted: Vec<T> = Vec::new();
    let mut i: usize = 0;
    while i < data.len()
        invariant
            i <= data.len(),
            sorted@ == data@.take(i as int),
        decreases data.len() - i,
    {
        sorted.push(data[i]);
        i += 1;
        assert(sorted@ =~= data@.take(i as int));
    }
    assert(data@.take(i as int) =~= data@);
    sort_rising(&mut sorted);
    proof {
        lemma_order_laws::<T>();
        data@.to_multiset_ensures();
        sorted@.to_multiset_ensures();
    }
    // drop the repeated values
    let mut uniq: Vec<T> = Vec::new();
    let mut k: usize = 0;
    while k < sorted.len()
        invariant
            k <= sorted.len(),
            is_ordered::<T>(),
            is_rising(sorted@),
            is_strictly_rising(uniq@),
            forall|j: int| 0 <= j < uniq@.len() ==> sorted@.contains(#[trigger] uniq@[j]),
            forall|a: int| 0 <= a < k ==> uniq@.contains(#[trigger] sorted@[a]),
            k > 0 ==> uniq@.len() > 0 && uniq@.last() == sorted@[k - 1],
            k == 0 ==> uniq@.len() == 0,
        decreases sorted.len() - k,
    {
        let ghost before = uniq@;
        if k == 0 || differs(&sorted[k], &sorted[k - 1]) {
            uniq.push(sorted[k]);
            proof {
                assert forall|a: int| 0 <= a < k + 1 implies uniq@.contains(
                    #[trigger] sorted@[a],
                ) by {
                    if a < k {
                        let w = choose|w: int| 0 <= w < before.len() && before[w] == sorted@[a];
                        assert(uniq@[w] == sorted@[a]);
                    } else {
                        assert(uniq@[uniq@.len() - 1] == sorted@[a]);
                    }
                }
                lemma_order_laws::<T>();
                assert forall|x: int, y: int| 0 <= x < y < uniq@.len() implies precedes(
                    uniq@[x],
                    uniq@[y],
                ) by {
                    if y == uniq@.len() - 1 && k > 0 {
                        assert(!precedes(sorted@[k as int], sorted@[k - 1]));
                        assert(precedes(sorted@[k - 1], sorted@[k as int]));
                        if x < before.len() - 1 {
                            assert(precedes(before[x], before.last()));
                        }
                    } else {
                        assert(precedes(before[x], before[y]));
                    }
                }
            }
        } else {
            proof {
                assert forall|a: int| 0 <= a < k + 1 implies uniq@.contains(
                    #[trigger] sorted@[a],
                ) by {
                    if a == k {
                        assert(uniq@[uniq@.len() - 1] == sorted@[a]);
                    }
                }
            }
        }
        k += 1;
    }
    // number the distinct values
    let mut ids: HashMap<T, usize> = HashMap::new();
    let mut m: usize = 0;
    while m < uniq.len()
        invariant
            m <= uniq.len(),
            is_ordered::<T>(),
            vstd::std_specs::hash::obeys_key_model::<T>(),
            is_strictly_rising(uniq@),
            forall|v: T| ids@.contains_key(v) ==> ids@[v] < m && uniq@[ids@[v] as int] == v,
            forall|j: int| 0 <= j < m ==> ids@.contains_key(#[trigger] uniq@[j]),
        decreases uniq.len() - m,
    {
        broadcast use vstd::std_specs::hash::group_hash_axioms;

        proof {
            lemma_order_laws::<T>();
        }
        ids.insert(uniq[m], m);
        m += 1;
    }
    let mut encoded: Vec<usize> = Vec::new();
    let mut p: usize = 0;
    while p < data.len()
        invariant
            p <= data.len(),
            encoded@.len() == p,
            vstd::std_specs::hash::obeys_key_model::<T>(),
            sorted@.to_multiset() == data@.to_multiset(),
            forall|a: int| 0 <= a < sorted@.len() ==> uniq@.contains(#[trigger] sorted@[a]),
            forall|v: T| ids@.contains_key(v) ==> ids@[v] < uniq@.len() && uniq@[ids@[v] as int] == v,
            forall|j: int| 0 <= j < uniq@.len() ==> ids@.contains_key(#[trigger] uniq@[j]),
            forall|i: int|
                0 <= i < p ==> (#[trigger] encoded@[i]) < uniq@.len() && uniq@[encoded@[i] as int]
                    == data@[i],
        decreases data.len() - p,
    {
        broadcast use vstd::std_specs::hash::group_hash_axioms;

        let x: T = data[p];
        proof {
            data@.to_multiset_ensures();
            sorted@.to_multiset_ensures();
            assert(data@.contains(x));
            assert(data@.to_multiset().count(x) > 0);
            assert(sorted@.contains(x));
            let a = choose|a: int| 0 <= a < sorted@.len() && sorted@[a] == x;
            assert(uniq@.contains(sorted@[a]));
            let j = choose|j: int| 0 <= j < uniq@.len() && uniq@[j] == x;
            assert(ids@.contains_key(uniq@[j]));
        }
        let id: usize = match ids.get(&x) {
            Some(id) => *id,
            None => 0,
        };
        encoded.push(id);
        p += 1;
    }
    proof {
        assert forall|j: int| 0 <= j < uniq@.len() implies data@.contains(#[trigger] uniq@[j]) by {
            data@.to_multiset_ensures();
            sorted@.to_multiset_ensures();
            assert(sorted@.contains(uniq@[j]));
            assert(sorted@.to_multiset().count(uniq@[j]) > 0);
        }
    }
    (encoded, uniq)
}

} // verus!
