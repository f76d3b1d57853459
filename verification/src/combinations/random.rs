//! Random combinations: a uniform sample of indices without replacement.

use rand::rngs::ThreadRng;
use vstd::prelude::*;
use crate::combinations::ranking::is_combination;
use crate::sequences::{is_ascending, sort_ascending};

verus! {

/// `rand::seq::index::sample` draws `k` distinct indices from `0..n`, in
/// random order; `into_vec` hands them out as a vector. It panics where
/// `k > n`. For an `n` above the largest 32-bit number it samples by
/// rejection, which in a build with debug assertions panics unless `k < n`.
/// Which indices come is left open.
#[verifier::external_body]
pub(crate) fn sample_indices(rng: &mut ThreadRng, n: usize, k: usize) -> (v: Vec<usize>)
    requires
        k <= n,
        n <= 0xFFFF_FFFF || k < n,
    ensures
        v@.len() == k,
        forall|i: int| 0 <= i < v@.len() ==> (#[trigger] v@[i]) < n,
        v@.no_duplicates(),
{
    rand::seq::index::sample(rng, n, k).into_vec()
}

/// Distinct entries in ascending order are in strictly ascending order.
pub proof fn lemma_sorted_sample(s: Seq<usize>, t: Seq<usize>, n: nat)
    requires
        s.no_duplicates(),
        forall|i: int| 0 <= i < s.len() ==> (#[trigger] s[i]) < n,
        t.to_multiset() == s.to_multiset(),
        is_ascending(t),
    ensures
        t.len() == s.len(),
        is_combination(t, n),
{
    broadcast use vstd::multiset::group_multiset_axioms;

    s.to_multiset_ensures();
    t.to_multiset_ensures();
    s.lemma_multiset_has_no_duplicates();
    t.lemma_multiset_has_no_duplicates_conv();
    assert forall|i: int| 0 <= i < t.len() implies (#[trigger] t[i]) < n by {
        assert(t.contains(t[i]));
        assert(t.to_multiset().count(t[i]) > 0);
        assert(s.to_multiset().count(t[i]) > 0);
        assert(s.contains(t[i]));
        let k = choose|k: int| 0 <= k < s.len() && s[k] == t[i];
        assert(s[k] < n);
    }
    assert forall|i: int, j: int| 0 <= i < j < t.len() implies t[i] < t[j] by {
        assert(t[i] != t[j]);
    }
}

/// Return a random combination of `k` indices out of `n`, in ascending
/// order. All `n` indices can be asked for only where `n` is a 32-bit
/// number: beyond that the sampler takes fewer than `n`.
pub fn random_combination(n: usize, k: usize) -> (c: Vec<usize>)
    requires
        k <= n,
        n <= 0xFFFF_FFFF || k < n,
    ensures
        c@.len() == k,
        is_combination(c@, n as nat),
{
    let mut rng = rand::thread_rng();
    let mut c: Vec<usize> = sample_indices(&mut rng, n, k);
    let ghost drawn = c@;
    sort_ascending(&mut c);
    proof {
        lemma_sorted_sample(drawn, c@, n as nat);
    }
    c
}

} // verus!
