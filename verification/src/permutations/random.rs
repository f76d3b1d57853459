//! Random permutation of a sequence in place (Fisher-Yates).

use rand::rngs::ThreadRng;
use rand::Rng;
use vstd::prelude::*;
use crate::sequences::{filled, swap_entries, swapped};

verus! {

/// The thread-local random number generator of the `rand` crate. Nothing is
/// known of its state.
#[verifier::external_type_specification]
#[verifier::external_body]
pub struct ExThreadRng(ThreadRng);

/// `rand::thread_rng` hands out the generator of the current thread. The
/// contract claims nothing of it.
pub assume_specification[ rand::thread_rng ]() -> ThreadRng;

/// `Rng::gen_range` on the range `low..=high`: a value of that range. It
/// panics on an empty range, so `low` must not be above `high`. Which value
/// comes is left open.
#[verifier::external_body]
pub(crate) fn random_between(rng: &mut ThreadRng, low: usize, high: usize) -> (j: usize)
    requires
        low <= high,
    ensures
        low <= j <= high,
{
    rng.gen_range(low..=high)
}

/// One pick for every position, none beyond its position.
pub open spec fn valid_picks(picks: Seq<usize>, n: nat) -> bool {
    &&& picks.len() == n
    &&& forall|i: int| 0 <= i < n ==> (#[trigger] picks[i]) <= i
}

/// The sequence `s` after the entries at the positions from the last down
/// to `i` have each been exchanged with the entry at their pick.
pub open spec fn shuffled<T>(s: Seq<T>, picks: Seq<usize>, i: int) -> Seq<T>
    decreases s.len() - i,
{
    if i < 1 || i >= s.len() {
        s
    } else {
        swapped(shuffled(s, picks, i + 1), i, picks[i] as int)
    }
}

/// Shuffling keeps the length.
pub proof fn lemma_shuffled_len<T>(s: Seq<T>, picks: Seq<usize>, i: int)
    requires
        valid_picks(picks, s.len()),
    ensures
        shuffled(s, picks, i).len() == s.len(),
    decreases s.len() - i,
{
    if 1 <= i < s.len() {
        lemma_shuffled_len(s, picks, i + 1);
    }
}

/// Shuffling rearranges: the shuffled sequence holds what the sequence
/// held, each entry as often.
pub proof fn lemma_shuffled_multiset<T>(s: Seq<T>, picks: Seq<usize>, i: int)
    requires
        valid_picks(picks, s.len()),
    ensures
        shuffled(s, picks, i).to_multiset() == s.to_multiset(),
    decreases s.len() - i,
{
    if 1 <= i < s.len() {
        lemma_shuffled_multiset(s, picks, i + 1);
        lemma_shuffled_len(s, picks, i + 1);
        crate::sequences::lemma_swapped_multiset(shuffled(s, picks, i + 1), i, picks[i] as int);
    }
}

/// Shuffle `arr` in place with the given picks: for each position from the
/// last down to the second, exchange its entry with the entry at its pick.
pub fn shuffle_with<T>(arr: &mut [T], picks: &[usize])
    requires
        valid_picks(picks@, old(arr)@.len()),
    ensures
        final(arr)@ == shuffled(old(arr)@, picks@, 1),
{
    let n: usize = arr.len();
    let mut i: usize = n;
    while i > 1
        invariant
            i <= n,
            n == arr@.len(),
            n == old(arr)@.len(),
            valid_picks(picks@, n as nat),
            i >= 1 ==> arr@ == shuffled(old(arr)@, picks@, i as int),
            i == 0 ==> n == 0 && arr@ == old(arr)@,
        decreases i,
    {
        i -= 1;
        swap_entries(arr, i, picks[i]);
    }
}

/// Shuffle the entries of `arr` in place, with picks drawn from the random
/// number generator of the thread: the pick for position `i` is one of
/// `0..=i`.
pub fn fisher_yates<T>(arr: &mut [T])
    ensures
        exists|picks: Seq<usize>|
            valid_picks(picks, old(arr)@.len()) && final(arr)@ == #[trigger] shuffled(
                old(arr)@,
                picks,
                1,
            ),
        final(arr)@.to_multiset() == old(arr)@.to_multiset(),
{
    let n: usize = arr.len();
    let mut rng = rand::thread_rng();
    let mut picks: Vec<usize> = filled(0, n);
    let mut i: usize = n;
    while i > 1
        invariant
            i <= n,
            picks.len() == n,
            forall|k: int| 0 <= k < n ==> (#[trigger] picks[k]) <= k,
        decreases i,
    {
        i -= 1;
        let j: usize = random_between(&mut rng, 0, i);
        picks[i] = j;
    }
    shuffle_with(arr, picks.as_slice());
    proof {
        lemma_shuffled_multiset(old(arr)@, picks@, 1);
    }
}

} // verus!
