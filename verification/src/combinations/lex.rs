//! Generation of combinations in lexicographic order.

use vstd::prelude::*;
use crate::combinations::ranking::{
    binomial,
    comb_rank,
    comb_unrank,
    is_combination,
    lemma_binomial_full,
    lemma_skipped_telescope,
    lemma_unrank_of_rank,
    rank_tail,
    skipped_weight,
};
use crate::sequences::{ascending, identity_seq, iota, lemma_ascending_unique, sort_ascending};

verus! {

/// The entry at `i` can grow and still leave room for those after it.
pub open spec fn can_advance(s: Seq<usize>, n: nat, i: int) -> bool {
    0 <= i < s.len() && s[i] < n - s.len() + i
}

/// Some entry can grow.
pub open spec fn has_successor(s: Seq<usize>, n: nat) -> bool {
    exists|i: int| can_advance(s, n, i)
}

/// `i` is the last position whose entry can grow.
pub open spec fn is_pivot(s: Seq<usize>, n: nat, i: int) -> bool {
    can_advance(s, n, i) && forall|j: int| i < j < s.len() ==> !can_advance(s, n, j)
}

/// `s` with the entry at `i` raised by one, and the entries after it set to
/// the values that follow.
pub open spec fn advance_at(s: Seq<usize>, i: int) -> Seq<usize> {
    Seq::new(
        s.len(),
        |p: int|
            if p < i {
                s[p]
            } else {
                (s[i] + 1 + (p - i)) as usize
            },
    )
}

/// The combination after `s`: `s` advanced at the last position whose entry
/// can grow.
pub open spec fn successor(s: Seq<usize>, n: nat) -> Seq<usize> {
    advance_at(s, choose|i: int| is_pivot(s, n, i))
}

proof fn lemma_comb_upper(c: Seq<usize>, n: nat, p: int)
    requires
        is_combination(c, n),
        0 <= p < c.len(),
    ensures
        c[p] + (c.len() - p) <= n,
    decreases c.len() - p,
{
    if p + 1 < c.len() {
        lemma_comb_upper(c, n, p + 1);
        assert(c[p] < c[p + 1]);
    }
}

proof fn lemma_rank_tail_max(c: Seq<usize>, n: nat, i: nat, prev: nat)
    requires
        is_combination(c, n),
        i <= c.len() <= n,
        prev <= n,
        i < c.len() ==> prev <= c[i as int],
        forall|p: int| i <= p < c.len() ==> c[p] == n - c.len() + p,
    ensures
        rank_tail(c, n, i, prev) + 1 == binomial((n - prev) as nat, (c.len() - i) as nat),
    decreases c.len() - i,
{
    if i < c.len() {
        let x = c[i as int] as nat;
        let r = (c.len() - i - 1) as nat;
        lemma_skipped_telescope(n, r, prev, x);
        lemma_binomial_full(r + 1);
        lemma_binomial_full(r);
        lemma_rank_tail_max(c, n, i + 1, x + 1);
    }
}

proof fn lemma_rank_tail_min(c: Seq<usize>, n: nat, i: nat, prev: nat)
    requires
        i <= c.len(),
        forall|p: int| i <= p < c.len() ==> c[p] == prev + (p - i),
    ensures
        rank_tail(c, n, i, prev) == 0,
    decreases c.len() - i,
{
    if i < c.len() {
        lemma_rank_tail_min(c, n, i + 1, prev + 1);
    }
}

proof fn lemma_skipped_extend(n: nat, r: nat, lo: nat, hi: nat)
    requires
        lo <= hi < n,
    ensures
        skipped_weight(n, r, lo, hi + 1) == skipped_weight(n, r, lo, hi) + binomial(
            (n - 1 - hi) as nat,
            r,
        ),
{
    lemma_skipped_telescope(n, r, lo, hi + 1);
    lemma_skipped_telescope(n, r, lo, hi);
}

/// Two sequences that agree from `p` up to `i` differ in rank from `p` on
/// by what they differ from `i` on.
proof fn lemma_rank_tail_prefix(c: Seq<usize>, d: Seq<usize>, n: nat, p: nat, prev: nat, i: nat)
    requires
        c.len() == d.len(),
        p <= i <= c.len(),
        forall|q: int| p <= q < i ==> c[q] == d[q],
    ensures
        rank_tail(d, n, p, prev) - rank_tail(c, n, p, prev) == rank_tail(
            d,
            n,
            i,
            if i == p {
                prev
            } else {
                (c[i - 1] + 1) as nat
            },
        ) - rank_tail(
            c,
            n,
            i,
            if i == p {
                prev
            } else {
                (c[i - 1] + 1) as nat
            },
        ),
    decreases i - p,
{
    if p < i {
        assert(c[p as int] == d[p as int]);
        lemma_rank_tail_prefix(c, d, n, p + 1, (c[p as int] + 1) as nat, i);
    }
}

/// Advancing a combination at its pivot gives the combination of the next
/// rank.
#[verifier::rlimit(40)]
pub proof fn lemma_advance_rank(c: Seq<usize>, n: nat, i: int)
    requires
        is_combination(c, n),
        c.len() <= n <= usize::MAX,
        is_pivot(c, n, i),
    ensures
        is_combination(advance_at(c, i), n),
        comb_rank(advance_at(c, i), n) == comb_rank(c, n) + 1,
{
    let k = c.len();
    let d = advance_at(c, i);
    let x = c[i] as nat;
    let r = (k - i - 1) as nat;
    let pi: nat = if i == 0 {
        0
    } else {
        (c[i - 1] + 1) as nat
    };
    lemma_comb_upper(c, n, i);
    assert forall|p: int| i + 1 <= p < k implies c[p] == n - k + p by {
        lemma_comb_upper(c, n, p);
        assert(!can_advance(c, n, p));
    }
    assert forall|p: int| i <= p < k implies d[p] == x + 1 + (p - i) by {
        lemma_comb_upper(c, n, p);
    }
    assert(is_combination(d, n)) by {
        assert forall|a: int, b: int| 0 <= a < b < d.len() implies d[a] < d[b] by {
            if a < i {
                assert(c[a] < c[i]);
                if b < i {
                    assert(c[a] < c[b]);
                }
            }
        }
    }
    if i > 0 {
        assert(c[i - 1] < c[i]);
    }
    if i + 1 < k {
        assert(c[i] < c[i + 1]);
    }
    lemma_rank_tail_prefix(c, d, n, 0, 0, i as nat);
    lemma_rank_tail_max(c, n, (i + 1) as nat, x + 1);
    lemma_rank_tail_min(d, n, (i + 1) as nat, x + 2);
    lemma_skipped_extend(n, r, pi, x);
    assert(d[i] == x + 1);
}

/// A combination in which no entry can grow has the last rank.
pub proof fn lemma_last_rank(c: Seq<usize>, n: nat)
    requires
        is_combination(c, n),
        c.len() <= n,
        !has_successor(c, n),
    ensures
        comb_rank(c, n) + 1 == binomial(n, c.len()),
{
    assert forall|p: int| 0 <= p < c.len() implies c[p] == n - c.len() + p by {
        lemma_comb_upper(c, n, p);
        assert(!can_advance(c, n, p));
    }
    lemma_rank_tail_max(c, n, 0, 0);
}

/// The combination 0, ..., k - 1 has rank 0.
pub proof fn lemma_first_rank(k: nat, n: nat)
    requires
        k <= n,
        n <= usize::MAX,
    ensures
        is_combination(identity_seq(k), n),
        comb_rank(identity_seq(k), n) == 0,
{
    lemma_rank_tail_min(identity_seq(k), n, 0, 0);
}

/// Advance `a` to the next combination of its `a.len()` indices out of `n`
/// in lexicographic order. The entries are first brought into ascending
/// order. Where there is no next combination, `false` is returned, and `a`
/// is left in ascending order.
pub fn next_combination(a: &mut Vec<usize>, n: usize) -> (advanced: bool)
    requires
        old(a).len() <= n,
    ensures
        advanced == has_successor(ascending(old(a)@), n as nat),
        advanced ==> final(a)@ == successor(ascending(old(a)@), n as nat),
        !advanced ==> final(a)@ == ascending(old(a)@),
{
    let k: usize = a.len();
    sort_ascending(a);
    let ghost s = a@;
    let mut i: usize = k;
    while i > 0
        invariant
            i <= k,
            k <= n,
            a@ == s,
            k == s.len(),
            s == ascending(old(a)@),
            forall|j: int| i <= j < k ==> !can_advance(s, n as nat, j),
        decreases i,
    {
        i -= 1;
        if a[i] < n - k + i {
            a[i] += 1;
            let mut j: usize = i + 1;
            while j < k
                invariant
                    i < j <= k,
                    k <= n,
                    k == s.len(),
                    a@.len() == k,
                    s[i as int] < n - k + i,
                    forall|p: int| 0 <= p < i ==> a[p] == s[p],
                    forall|p: int| i <= p < j ==> a[p] == s[i as int] + 1 + (p - i),
                decreases k - j,
            {
                a[j] = a[j - 1] + 1;
                j += 1;
            }
            proof {
                assert(is_pivot(s, n as nat, i as int));
                let c = choose|x: int| is_pivot(s, n as nat, x);
                assert(c == i) by {
                    if c < i {
                        assert(!can_advance(s, n as nat, i as int));
                    }
                    if i < c {
                        assert(!can_advance(s, n as nat, c));
                    }
                }
                assert(a@ =~= advance_at(s, i as int));
            }
            return true;
        }
    }
    false
}

/// Generate all combinations of `k` indices out of `n`, in lexicographic
/// order.
pub fn all_combinations(n: usize, k: usize) -> (result: Vec<Vec<usize>>)
    requires
        k <= n,
    ensures
        result.len() == binomial(n as nat, k as nat),
        forall|t: int|
            0 <= t < result.len() ==> (#[trigger] result[t])@ == comb_unrank(
                t as nat,
                n as nat,
                k as nat,
                0,
            ),
        forall|t: int|
            0 <= t < result.len() ==> (#[trigger] result[t])@.len() == k && is_combination(
                result[t]@,
                n as nat,
            ) && comb_rank(result[t]@, n as nat) == t,
{
    let mut a: Vec<usize> = iota(k);
    let mut result: Vec<Vec<usize>> = Vec::new();
    result.push(a.clone());
    proof {
        lemma_first_rank(k as nat, n as nat);
        crate::combinations::ranking::lemma_comb_rank_bound(a@, n as nat);
    }
    loop
        invariant
            k <= n,
            a@.len() == k,
            is_combination(a@, n as nat),
            result.len() >= 1,
            comb_rank(a@, n as nat) == result.len() - 1,
            forall|t: int|
                0 <= t < result.len() ==> (#[trigger] result[t])@.len() == k && is_combination(
                    result[t]@,
                    n as nat,
                ) && comb_rank(result[t]@, n as nat) == t,
        ensures
            result.len() == binomial(n as nat, k as nat),
            forall|t: int|
                0 <= t < result.len() ==> (#[trigger] result[t])@.len() == k && is_combination(
                    result[t]@,
                    n as nat,
                ) && comb_rank(result[t]@, n as nat) == t,
        decreases binomial(n as nat, k as nat) - comb_rank(a@, n as nat),
    {
        let ghost c = a@;
        proof {
            assert(n <= usize::MAX);
            lemma_ascending_unique(c, c);
            crate::combinations::ranking::lemma_comb_rank_bound(c, n as nat);
        }
        let more: bool = next_combination(&mut a, n);
        if !more {
            proof {
                lemma_last_rank(c, n as nat);
            }
            break ;
        }
        proof {
            let i = choose|i: int| is_pivot(c, n as nat, i);
            assert(is_pivot(c, n as nat, i)) by {
                lemma_pivot_exists(c, n as nat);
            }
            lemma_advance_rank(c, n as nat, i);
            crate::combinations::ranking::lemma_comb_rank_bound(a@, n as nat);
        }
        result.push(a.clone());
    }
    proof {
        assert forall|t: int| 0 <= t < result.len() implies (#[trigger] result[t])@ == comb_unrank(
            t as nat,
            n as nat,
            k as nat,
            0,
        ) by {
            lemma_unrank_of_rank(result[t]@, n as nat);
        }
    }
    result
}

/// Where some entry can grow, there is a last one that can.
proof fn lemma_pivot_exists(s: Seq<usize>, n: nat)
    requires
        has_successor(s, n),
    ensures
        exists|i: int| is_pivot(s, n, i),
{
    let w = choose|i: int| can_advance(s, n, i);
    lemma_pivot_from(s, n, w, s.len() as int);
}

proof fn lemma_pivot_from(s: Seq<usize>, n: nat, w: int, hi: int)
    requires
        can_advance(s, n, w),
        w < hi <= s.len(),
        forall|j: int| hi <= j < s.len() ==> !can_advance(s, n, j),
    ensures
        exists|i: int| is_pivot(s, n, i),
    decreases hi - w,
{
    if can_advance(s, n, hi - 1) {
        assert(is_pivot(s, n, hi - 1));
    } else {
        lemma_pivot_from(s, n, w, hi - 1);
    }
}

} // verus!
