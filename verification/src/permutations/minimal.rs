//! Minimal-change enumeration of permutations (Steinhaus-Johnson-Trotter):
//! each permutation differs from the one before by one adjacent swap.

use vstd::prelude::*;
use crate::permutations::ranking::{factorial, lemma_all_permutations_listed, lemma_factorial_positive};
use crate::permutations::sjt_rank::{
    dirs_follow,
    lemma_dirs_after_move,
    lemma_final_rank,
    lemma_move,
    lemma_rank_bounds,
    lemma_same_rank,
    lemma_start_rank,
    sjt_rank,
};
use crate::sequences::{filled, identity_seq, iota, is_permutation, swapped};

verus! {

/// A permutation in which every element carries a direction flag.
pub struct Directed {
    pub vals: Seq<usize>,
    pub left: Seq<bool>,
}

/// The identity permutation with every element looking left.
pub open spec fn sjt_start(n: nat) -> Directed {
    Directed { vals: identity_seq(n), left: Seq::new(n, |p: int| true) }
}

/// The index of the neighbour that the element at `i` looks at.
pub open spec fn target(left: Seq<bool>, i: int) -> int {
    if left[i] {
        i - 1
    } else {
        i + 1
    }
}

/// The element at `i` is mobile: its directed neighbour exists and holds a
/// smaller value.
pub open spec fn is_mobile(s: Directed, i: int) -> bool {
    &&& 0 <= i < s.vals.len()
    &&& 0 <= target(s.left, i) < s.vals.len()
    &&& s.vals[target(s.left, i)] < s.vals[i]
}

/// Some element is mobile.
pub open spec fn has_mobile(s: Directed) -> bool {
    exists|i: int| is_mobile(s, i)
}

/// The element at `i` is mobile and no mobile element holds a larger value.
pub open spec fn is_largest_mobile(s: Directed, i: int) -> bool {
    &&& is_mobile(s, i)
    &&& forall|j: int| is_mobile(s, j) ==> s.vals[j] <= s.vals[i]
}

/// Swap the element at `i` with its directed neighbour, then reverse the
/// direction of every element with a larger value.
pub open spec fn sjt_move(s: Directed, i: int) -> Directed {
    let j = target(s.left, i);
    let v = s.vals[i];
    let vals = swapped(s.vals, i, j);
    let left = swapped(s.left, i, j);
    Directed {
        vals,
        left: Seq::new(
            left.len(),
            |p: int|
                if vals[p] > v {
                    !left[p]
                } else {
                    left[p]
                },
        ),
    }
}

/// The state after `k` moves of the largest mobile element, from the start.
pub open spec fn sjt_state(n: nat, k: nat) -> Directed
    decreases k,
{
    if k == 0 {
        sjt_start(n)
    } else {
        let prev = sjt_state(n, (k - 1) as nat);
        sjt_move(prev, choose|i: int| is_largest_mobile(prev, i))
    }
}

/// `s` with the entries at `i` and `i + 1` exchanged.
pub open spec fn swap_at(s: Seq<usize>, i: int) -> Seq<usize> {
    swapped(s, i, i + 1)
}

/// `t` is `s` with two neighbouring entries exchanged.
pub open spec fn adjacent_swap(s: Seq<usize>, t: Seq<usize>) -> bool {
    exists|i: int| 0 <= i < s.len() - 1 && t == #[trigger] swap_at(s, i)
}

/// The state holds a permutation of `0..n`, and a direction for each of
/// its elements.
pub open spec fn well_formed(s: Directed, n: nat) -> bool {
    &&& is_permutation(s.vals, n)
    &&& s.left.len() == n
}

proof fn lemma_largest_unique(s: Directed, n: nat, i: int, j: int)
    requires
        well_formed(s, n),
        is_largest_mobile(s, i),
        is_largest_mobile(s, j),
    ensures
        i == j,
{
    if i < j {
        assert(s.vals[i] != s.vals[j]);
    }
    if j < i {
        assert(s.vals[j] != s.vals[i]);
    }
}

/// What holds of the state after `k` moves.
pub open spec fn state_holds(s: Directed, n: nat, k: nat) -> bool {
    well_formed(s, n) && dirs_follow(s, n) && sjt_rank(s) == k
}

/// The states after 0, 1, ... moves, as far as `states` goes.
pub open spec fn is_run(states: Seq<Directed>, n: nat) -> bool {
    forall|k: int|
        0 <= k < states.len() ==> #[trigger] states[k] == sjt_state(n, k as nat) && state_holds(
            states[k],
            n,
            k as nat,
        )
}

/// One more move of the largest mobile element leads to the next state,
/// with the next rank.
#[verifier::rlimit(40)]
proof fn lemma_advance(states: Seq<Directed>, n: nat, i: int, next: Directed)
    requires
        states.len() >= 1,
        is_run(states, n),
        is_largest_mobile(states.last(), i),
        next.vals =~= sjt_move(states.last(), i).vals,
        next.left =~= sjt_move(states.last(), i).left,
    ensures
        is_run(states.push(next), n),
        sjt_rank(next) < factorial(n),
        has_mobile(states.last()),
        adjacent_swap(states.last().vals, next.vals),
{
    let cur = states.last();
    let k = (states.len() - 1) as nat;
    assert(cur == sjt_state(n, k) && state_holds(cur, n, k));
    let c = choose|x: int| is_largest_mobile(cur, x);
    lemma_largest_unique(cur, n, i, c);
    assert(next == sjt_state(n, k + 1));
    lemma_move(cur, n, i);
    lemma_dirs_after_move(cur, n, i);
    lemma_rank_bounds(next, n, n);
    let j = target(cur.left, i);
    let lo = if i < j {
        i
    } else {
        j
    };
    assert(next.vals =~= swap_at(cur.vals, lo));
    assert(adjacent_swap(cur.vals, next.vals));
    let longer = states.push(next);
    assert forall|x: int| 0 <= x < longer.len() implies #[trigger] longer[x] == sjt_state(
        n,
        x as nat,
    ) && state_holds(longer[x], n, x as nat) by {
        if x < states.len() {
            assert(longer[x] == states[x]);
        }
    }
}

/// The permutations of a complete run are those of `0..n`, each once.
#[verifier::rlimit(40)]
proof fn lemma_complete_run(states: Seq<Directed>, n: nat)
    requires
        n <= usize::MAX,
        states.len() >= 1,
        is_run(states, n),
        !has_mobile(states.last()),
    ensures
        states.len() == factorial(n),
        forall|k: int| 0 <= k < states.len() ==> is_permutation((#[trigger] states[k]).vals, n),
        forall|j: int, k: int|
            0 <= j < k < states.len() ==> (#[trigger] states[j]).vals != (#[trigger] states[k]).vals,
        forall|p: Seq<usize>|
            is_permutation(p, n) ==> exists|k: int|
                0 <= k < states.len() && (#[trigger] states[k]).vals == p,
{
    let end = states.last();
    assert(state_holds(end, n, (states.len() - 1) as nat));
    lemma_final_rank(end, n, n);
    assert forall|j: int, k: int| 0 <= j < k < states.len() implies (#[trigger] states[j]).vals != (
    #[trigger] states[k]).vals by {
        assert(state_holds(states[j], n, j as nat));
        assert(state_holds(states[k], n, k as nat));
        if states[j].vals == states[k].vals {
            lemma_same_rank(states[j], states[k], n, n);
        }
    }
    let list = Seq::new(states.len(), |k: int| states[k].vals);
    assert forall|k: int| 0 <= k < list.len() implies is_permutation(#[trigger] list[k], n) by {
        assert(state_holds(states[k], n, k as nat));
    }
    lemma_all_permutations_listed(list, n);
    assert forall|p: Seq<usize>| is_permutation(p, n) implies exists|k: int|
        0 <= k < states.len() && (#[trigger] states[k]).vals == p by {
        let k = choose|k: int| 0 <= k < list.len() && #[trigger] list[k] == p;
        assert(states[k].vals == p);
    }
}

/// Generate all permutations of `0..n` in minimal-change order: start from
/// the identity, and move the largest mobile element until none is mobile.
#[verifier::rlimit(40)]
pub fn sjt_permutations(n: usize) -> (out: Vec<Vec<usize>>)
    ensures
        out.len() == factorial(n as nat),
        forall|k: int|
            0 <= k < out.len() ==> (#[trigger] out[k])@ == sjt_state(n as nat, k as nat).vals,
        forall|k: nat| k + 1 < out.len() ==> has_mobile(#[trigger] sjt_state(n as nat, k)),
        !has_mobile(sjt_state(n as nat, (out.len() - 1) as nat)),
        forall|k: int| 0 <= k < out.len() ==> is_permutation((#[trigger] out[k])@, n as nat),
        forall|j: int, k: int| 0 <= j < k < out.len() ==> (#[trigger] out[j])@ != (#[trigger] out[k])@,
        forall|p: Seq<usize>|
            is_permutation(p, n as nat) ==> exists|k: int|
                0 <= k < out.len() && (#[trigger] out[k])@ == p,
        forall|k: int|
            0 <= k < out.len() - 1 ==> adjacent_swap((#[trigger] out[k])@, out[k + 1]@),
{
    let mut vals: Vec<usize> = iota(n);
    let mut left: Vec<bool> = filled(true, n);
    let mut out: Vec<Vec<usize>> = Vec::new();
    out.push(vals.clone());
    let ghost mut states: Seq<Directed> = seq![sjt_start(n as nat)];
    proof {
        lemma_start_rank(n as nat, n as nat);
        lemma_factorial_positive(n as nat);
    }
    loop
        invariant
            vals.len() == n,
            left.len() == n,
            states.len() == out.len(),
            out.len() >= 1,
            is_run(states, n as nat),
            states.last() == (Directed { vals: vals@, left: left@ }),
            sjt_rank(states.last()) < factorial(n as nat),
            forall|k: int| 0 <= k < out.len() ==> (#[trigger] out[k])@ == states[k].vals,
            forall|k: int| 0 <= k < states.len() - 1 ==> has_mobile(#[trigger] states[k]),
            forall|k: int|
                0 <= k < out.len() - 1 ==> adjacent_swap((#[trigger] out[k])@, out[k + 1]@),
        ensures
            !has_mobile(states.last()),
        decreases factorial(n as nat) - sjt_rank(states.last()),
    {
        let ghost cur = Directed { vals: vals@, left: left@ };
        // find the largest mobile element
        let mut mobile_idx: Option<usize> = None;
        let mut i: usize = 0;
        while i < n
            invariant
                i <= n,
                vals.len() == n,
                left.len() == n,
                cur == (Directed { vals: vals@, left: left@ }),
                match mobile_idx {
                    None => forall|j: int| 0 <= j < i ==> !is_mobile(cur, j),
                    Some(m) => m < i && is_mobile(cur, m as int) && forall|j: int|
                        0 <= j < i && is_mobile(cur, j) ==> cur.vals[j] <= cur.vals[m as int],
                },
            decreases n - i,
        {
            let mobile: bool = if left[i] {
                i > 0 && vals[i - 1] < vals[i]
            } else {
                i + 1 < n && vals[i + 1] < vals[i]
            };
            if mobile {
                match mobile_idx {
                    None => {
                        mobile_idx = Some(i);
                    },
                    Some(m) => {
                        if vals[i] > vals[m] {
                            mobile_idx = Some(i);
                        }
                    },
                }
            }
            i += 1;
        }
        let i: usize = match mobile_idx {
            Some(idx) => idx,
            None => {
                break ;
            },
        };
        assert(is_largest_mobile(cur, i as int));
        // swap the mobile element with its neighbour
        let j: usize = if left[i] {
            i - 1
        } else {
            i + 1
        };
        let moved: usize = vals[i];
        let dir: bool = left[i];
        vals[i] = vals[j];
        vals[j] = moved;
        left[i] = left[j];
        left[j] = dir;
        // reverse the direction of the larger elements
        let ghost swapped_left = left@;
        let mut p: usize = 0;
        while p < n
            invariant
                p <= n,
                vals.len() == n,
                left.len() == n,
                swapped_left.len() == n,
                forall|q: int|
                    0 <= q < n ==> left[q] == if q < p && vals[q] > moved {
                        !swapped_left[q]
                    } else {
                        swapped_left[q]
                    },
            decreases n - p,
        {
            if vals[p] > moved {
                left[p] = !left[p];
            }
            p += 1;
        }
        proof {
            let next = Directed { vals: vals@, left: left@ };
            assert(vals@ =~= sjt_move(cur, i as int).vals);
            assert(left@ =~= sjt_move(cur, i as int).left);
            lemma_advance(states, n as nat, i as int, next);
            assert(state_holds(cur, n as nat, (states.len() - 1) as nat));
            assert(state_holds(next, n as nat, states.len())) by {
                assert(states.push(next)[states.len() as int] == next);
            }
            states = states.push(next);
        }
        out.push(vals.clone());
    }
    proof {
        lemma_complete_run(states, n as nat);
        assert forall|k: int| 0 <= k < out.len() implies (#[trigger] out[k])@ == sjt_state(
            n as nat,
            k as nat,
        ).vals by {
            assert(states[k] == sjt_state(n as nat, k as nat));
        }
        assert forall|k: nat| k + 1 < out.len() implies has_mobile(
            #[trigger] sjt_state(n as nat, k),
        ) by {
            assert(states[k as int] == sjt_state(n as nat, k));
        }
        assert(states.last() == sjt_state(n as nat, (out.len() - 1) as nat));
        assert forall|p: Seq<usize>| is_permutation(p, n as nat) implies exists|k: int|
            0 <= k < out.len() && (#[trigger] out[k])@ == p by {
            let k = choose|k: int| 0 <= k < states.len() && (#[trigger] states[k]).vals == p;
            assert(out[k]@ == p);
        }
    }
    out
}

} // verus!
