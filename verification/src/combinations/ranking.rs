//! Ranking and unranking of combinations in lexicographic order.

use vstd::prelude::*;

verus! {

/// The binomial coefficient C(n, k), by Pascal's rule.
pub open spec fn binomial(n: nat, k: nat) -> nat
    decreases n,
{
    if k == 0 {
        1
    } else if n == 0 {
        0
    } else {
        binomial((n - 1) as nat, (k - 1) as nat) + binomial((n - 1) as nat, k)
    }
}

/// Every intermediate product of the multiplicative evaluation of C(n, k)
/// fits in a machine word. For `k` above `n` nothing is evaluated.
pub open spec fn binom_fits(n: nat, k: nat) -> bool {
    k <= n ==> forall|j: nat| j < k ==> #[trigger] binomial(n, j) * (n - j) <= usize::MAX
}

/// The ranks of the combinations of `k` indices out of `n` fit in a machine
/// word, and so does every intermediate product of the binomial
/// coefficients that ranking and unranking evaluate.
pub open spec fn ranking_fits(n: nat, k: nat) -> bool {
    &&& binomial(n, k) <= usize::MAX
    &&& n >= 1 && k >= 1 ==> binom_fits((n - 1) as nat, (k - 1) as nat)
}

/// A strictly ascending sequence of indices below `n`.
pub open spec fn is_combination(c: Seq<usize>, n: nat) -> bool {
    &&& forall|i: int| 0 <= i < c.len() ==> (#[trigger] c[i]) < n
    &&& forall|i: int, j: int| 0 <= i < j < c.len() ==> c[i] < c[j]
}

/// Sum of C(n - 1 - j, r) over the skipped values j in [lo, hi).
pub open spec fn skipped_weight(n: nat, r: nat, lo: nat, hi: nat) -> nat
    decreases hi - lo,
{
    if lo >= hi {
        0
    } else {
        binomial((n - 1 - lo) as nat, r) + skipped_weight(n, r, lo + 1, hi)
    }
}

/// Rank contributed by positions `i..` of `c`, when the values below `prev`
/// are already excluded.
pub open spec fn rank_tail(c: Seq<usize>, n: nat, i: nat, prev: nat) -> nat
    decreases c.len() - i,
{
    if i >= c.len() {
        0
    } else {
        skipped_weight(n, (c.len() - i - 1) as nat, prev, c[i as int] as nat) + rank_tail(
            c,
            n,
            i + 1,
            (c[i as int] + 1) as nat,
        )
    }
}

/// The lexicographic rank of the combination `c` among the combinations of
/// `c.len()` indices out of `n`.
pub open spec fn comb_rank(c: Seq<usize>, n: nat) -> nat {
    rank_tail(c, n, 0, 0)
}

/// The combination of `k` indices from `[prev, n)` that has rank `rank`
/// among them: scan the candidates upward, and skip one while the rank is
/// not below the number of combinations that start with it.
pub open spec fn comb_unrank(rank: nat, n: nat, k: nat, prev: nat) -> Seq<usize>
    decreases k, n - prev,
{
    if k == 0 || prev >= n {
        Seq::empty()
    } else {
        let c = binomial((n - prev - 1) as nat, (k - 1) as nat);
        if rank < c {
            seq![prev as usize] + comb_unrank(rank, n, (k - 1) as nat, prev + 1)
        } else {
            comb_unrank((rank - c) as nat, n, k, prev + 1)
        }
    }
}

/// There is no way to choose more than there is: C(n, k) is 0 for k > n.
pub proof fn lemma_binomial_zero(n: nat, k: nat)
    requires
        k > n,
    ensures
        binomial(n, k) == 0,
    decreases n,
{
    if n > 0 {
        lemma_binomial_zero((n - 1) as nat, (k - 1) as nat);
        lemma_binomial_zero((n - 1) as nat, k);
    }
}

/// There is one way to choose all: C(n, n) is 1.
pub proof fn lemma_binomial_full(n: nat)
    ensures
        binomial(n, n) == 1,
    decreases n,
{
    if n > 0 {
        lemma_binomial_full((n - 1) as nat);
        lemma_binomial_zero((n - 1) as nat, n);
    }
}

/// The absorption identity: (k + 1) * C(n, k + 1) == (n - k) * C(n, k).
pub proof fn lemma_binomial_step(n: nat, k: nat)
    requires
        k <= n,
    ensures
        (k + 1) * binomial(n, k + 1) == (n - k) * binomial(n, k),
    decreases n,
{
    if n == 0 {
    } else {
        let m = (n - 1) as nat;
        let a = binomial(m, k) as int;
        let b = binomial(m, k + 1) as int;
        // left: (k + 1) * (a + b)
        if k < n {
            lemma_binomial_step(m, k);
            assert((k + 1) * b == (m - k) * a);
        } else {
            lemma_binomial_zero(m, k);
            lemma_binomial_zero(m, k + 1);
        }
        assert((k + 1) * (a + b) == n * a) by (nonlinear_arith)
            requires
                k < n ==> (k + 1) * b == (n - 1 - k) * a,
                k >= n ==> a == 0 && b == 0,
        ;
        if k == 0 {
            assert((n - k) * binomial(n, k) == n * a);
        } else {
            let z = binomial(m, (k - 1) as nat) as int;
            lemma_binomial_step(m, (k - 1) as nat);
            assert(k * a == (m - (k - 1)) * z);
            assert((n - k) * (z + a) == n * a) by (nonlinear_arith)
                requires
                    k * a == (n - 1 - (k - 1)) * z,
            ;
        }
    }
}

/// Compute C(n, k) by multiplicative accumulation over k terms; 0 when k > n.
pub fn binom(n: usize, k: usize) -> (res: usize)
    requires
        binom_fits(n as nat, k as nat),
    ensures
        res == binomial(n as nat, k as nat),
{
    if k > n {
        proof {
            lemma_binomial_zero(n as nat, k as nat);
        }
        return 0;
    }
    let mut res: usize = 1;
    let mut i: usize = 0;
    while i < k
        invariant
            i <= k <= n,
            res == binomial(n as nat, i as nat),
            binom_fits(n as nat, k as nat),
        decreases k - i,
    {
        proof {
            lemma_binomial_step(n as nat, i as nat);
            assert(binomial(n as nat, i as nat) * (n - i) <= usize::MAX);
            let next = binomial(n as nat, (i + 1) as nat) as int;
            let d = (i + 1) as int;
            assert((d * next) / d == next) by (nonlinear_arith)
                requires
                    d > 0,
            ;
            assert(res * (n - i) == (n - i) * res) by (nonlinear_arith);
        }
        res = res * (n - i) / (i + 1);
        i += 1;
    }
    res
}

/// C(n, k) grows with n.
pub proof fn lemma_binomial_monotone(m: nat, n: nat, k: nat)
    requires
        m <= n,
    ensures
        binomial(m, k) <= binomial(n, k),
    decreases n,
{
    if m < n {
        lemma_binomial_monotone(m, (n - 1) as nat, k);
    }
}

/// What fits for C(n, k), with k <= n, fits for every C(m, l) with m <= n
/// and l <= k.
pub proof fn lemma_binom_fits_smaller(n: nat, k: nat, m: nat, l: nat)
    requires
        binom_fits(n, k),
        k <= n,
        m <= n,
        l <= k,
    ensures
        binom_fits(m, l),
{
    assert forall|j: nat| j < l && j <= m implies #[trigger] binomial(m, j) * (m - j)
        <= usize::MAX by {
        lemma_binomial_monotone(m, n, j);
        assert(binomial(n, j) * (n - j) <= usize::MAX);
        assert(binomial(m, j) * (m - j) <= binomial(n, j) * (n - j)) by (nonlinear_arith)
            requires
                binomial(m, j) <= binomial(n, j),
                0 <= m - j <= n - j,
        ;
    }
}

/// The weights of the skipped values telescope.
pub proof fn lemma_skipped_telescope(n: nat, r: nat, lo: nat, hi: nat)
    requires
        lo <= hi <= n,
    ensures
        skipped_weight(n, r, lo, hi) + binomial((n - hi) as nat, r + 1) == binomial(
            (n - lo) as nat,
            r + 1,
        ),
    decreases hi - lo,
{
    if lo < hi {
        lemma_skipped_telescope(n, r, lo + 1, hi);
    }
}

/// The rank contributed by the positions from `i` on is below the number of
/// ways to choose them.
pub proof fn lemma_rank_tail_bound(c: Seq<usize>, n: nat, i: nat, prev: nat)
    requires
        is_combination(c, n),
        i <= c.len(),
        prev <= n,
        i < c.len() ==> prev <= c[i as int],
    ensures
        rank_tail(c, n, i, prev) < binomial((n - prev) as nat, (c.len() - i) as nat),
    decreases c.len() - i,
{
    if i < c.len() {
        let x = c[i as int] as nat;
        let r = (c.len() - i - 1) as nat;
        if i + 1 < c.len() {
            assert(c[i as int] < c[i as int + 1]);
        }
        lemma_rank_tail_bound(c, n, i + 1, x + 1);
        lemma_skipped_telescope(n, r, prev, x);
    }
}

/// The rank of a combination of `k` indices out of `n` is below C(n, k).
pub proof fn lemma_comb_rank_bound(c: Seq<usize>, n: nat)
    requires
        is_combination(c, n),
    ensures
        comb_rank(c, n) < binomial(n, c.len()),
{
    lemma_rank_tail_bound(c, n, 0, 0);
}

proof fn lemma_unrank_tail(c: Seq<usize>, n: nat, i: nat, prev: nat)
    requires
        is_combination(c, n),
        i <= c.len(),
        prev <= n,
        i < c.len() ==> prev <= c[i as int],
    ensures
        comb_unrank(rank_tail(c, n, i, prev), n, (c.len() - i) as nat, prev) == c.subrange(
            i as int,
            c.len() as int,
        ),
    decreases c.len() - i, n - prev,
{
    let k = c.len();
    if i >= k {
        assert(c.subrange(i as int, k as int) =~= Seq::empty());
    } else {
        let x = c[i as int] as nat;
        let r = (k - i - 1) as nat;
        if prev < x {
            lemma_unrank_tail(c, n, i, prev + 1);
        } else {
            if i + 1 < k {
                assert(c[i as int] < c[i as int + 1]);
            }
            lemma_rank_tail_bound(c, n, i + 1, x + 1);
            lemma_unrank_tail(c, n, i + 1, x + 1);
            assert(seq![prev as usize] + c.subrange(i as int + 1, k as int) =~= c.subrange(
                i as int,
                k as int,
            ));
        }
    }
}

/// Unranking undoes ranking: for every combination `c` of indices below
/// `n`, the combination of `c.len()` indices with the rank of `c` is `c`.
pub proof fn lemma_unrank_of_rank(c: Seq<usize>, n: nat)
    requires
        is_combination(c, n),
    ensures
        comb_unrank(comb_rank(c, n), n, c.len(), 0) == c,
{
    lemma_unrank_tail(c, n, 0, 0);
    assert(c.subrange(0, c.len() as int) =~= c);
}

/// The rank from a position on is the rank of what stands from there on.
proof fn lemma_rank_tail_shift(x: usize, c: Seq<usize>, n: nat, i: nat, prev: nat)
    requires
        i <= c.len(),
    ensures
        rank_tail(seq![x] + c, n, i + 1, prev) == rank_tail(c, n, i, prev),
    decreases c.len() - i,
{
    let d = seq![x] + c;
    if i < c.len() {
        assert(d[i as int + 1] == c[i as int]);
        lemma_rank_tail_shift(x, c, n, i + 1, (c[i as int] + 1) as nat);
    }
}

proof fn lemma_skipped_first(n: nat, r: nat, lo: nat, hi: nat)
    requires
        lo < hi,
    ensures
        skipped_weight(n, r, lo, hi) == binomial((n - 1 - lo) as nat, r) + skipped_weight(
            n,
            r,
            lo + 1,
            hi,
        ),
{
}

/// What unranking gives is a combination of `k` indices from `prev` on,
/// and has the rank that was unranked.
pub proof fn lemma_rank_of_unrank_from(rank: nat, n: nat, k: nat, prev: nat)
    requires
        n <= usize::MAX,
        prev <= n,
        rank < binomial((n - prev) as nat, k),
    ensures
        comb_unrank(rank, n, k, prev).len() == k,
        is_combination(comb_unrank(rank, n, k, prev), n),
        forall|i: int|
            0 <= i < comb_unrank(rank, n, k, prev).len() ==> (#[trigger] comb_unrank(
                rank,
                n,
                k,
                prev,
            )[i]) >= prev,
        rank_tail(comb_unrank(rank, n, k, prev), n, 0, prev) == rank,
    decreases k, n - prev,
{
    let u = comb_unrank(rank, n, k, prev);
    if k == 0 {
    } else {
        if prev >= n {
            lemma_binomial_zero(0, k);
        }
        let c = binomial((n - prev - 1) as nat, (k - 1) as nat);
        if rank < c {
            let rest = comb_unrank(rank, n, (k - 1) as nat, prev + 1);
            lemma_rank_of_unrank_from(rank, n, (k - 1) as nat, prev + 1);
            assert(u == seq![prev as usize] + rest);
            assert(is_combination(u, n)) by {
                assert forall|i: int, j: int| 0 <= i < j < u.len() implies u[i] < u[j] by {
                    if i > 0 {
                        assert(rest[i - 1] < rest[j - 1]);
                    } else {
                        assert(rest[j - 1] >= prev + 1);
                    }
                }
            }
            lemma_rank_tail_shift(prev as usize, rest, n, 0, prev + 1);
        } else {
            lemma_rank_of_unrank_from((rank - c) as nat, n, k, prev + 1);
            assert(u[0] >= prev + 1);
            lemma_skipped_first(n, (k - 1) as nat, prev, u[0] as nat);
        }
    }
}

/// Ranking undoes unranking: for every rank below C(n, k), the combination
/// with that rank is a combination of `k` indices below `n`, and has that
/// rank.
pub proof fn lemma_rank_of_unrank(rank: nat, n: nat, k: nat)
    requires
        n <= usize::MAX,
        rank < binomial(n, k),
    ensures
        comb_unrank(rank, n, k, 0).len() == k,
        is_combination(comb_unrank(rank, n, k, 0), n),
        comb_rank(comb_unrank(rank, n, k, 0), n) == rank,
{
    lemma_rank_of_unrank_from(rank, n, k, 0);
}

/// Rank the combination `comb`, a sorted slice of indices below `n`, among
/// all combinations of as many indices out of `n`.
pub fn rank_comb(comb: &[usize], n: usize) -> (rank: usize)
    requires
        is_combination(comb@, n as nat),
        ranking_fits(n as nat, comb@.len()),
    ensures
        rank == comb_rank(comb@, n as nat),
        rank < binomial(n as nat, comb@.len()),
        comb_unrank(rank as nat, n as nat, comb@.len(), 0) == comb@,
{
    let k: usize = comb.len();
    let mut rank: usize = 0;
    let mut prev: usize = 0;
    let mut i: usize = 0;
    proof {
        lemma_unrank_of_rank(comb@, n as nat);
        lemma_comb_rank_bound(comb@, n as nat);
        if k > n {
            lemma_binomial_zero(n as nat, k as nat);
        }
    }
    while i < k
        invariant
            i <= k <= n,
            k == comb@.len(),
            is_combination(comb@, n as nat),
            ranking_fits(n as nat, k as nat),
            prev <= n,
            i < k ==> prev <= comb[i as int],
            rank + rank_tail(comb@, n as nat, i as nat, prev as nat) == comb_rank(comb@, n as nat),
            comb_rank(comb@, n as nat) <= usize::MAX,
        decreases k - i,
    {
        let c: usize = comb[i];
        let mut j: usize = prev;
        while j < c
            invariant
                prev <= j <= c,
                c == comb[i as int],
                c < n,
                i < k <= n,
                k == comb@.len(),
                ranking_fits(n as nat, k as nat),
                rank + skipped_weight(n as nat, (k - i - 1) as nat, j as nat, c as nat) + rank_tail(
                    comb@,
                    n as nat,
                    (i + 1) as nat,
                    (c + 1) as nat,
                ) == comb_rank(comb@, n as nat),
                comb_rank(comb@, n as nat) <= usize::MAX,
            decreases c - j,
        {
            proof {
                lemma_binom_fits_smaller(
                    (n - 1) as nat,
                    (k - 1) as nat,
                    (n - j - 1) as nat,
                    (k - i - 1) as nat,
                );
            }
            rank += binom(n - j - 1, k - i - 1);
            j += 1;
        }
        proof {
            if i + 1 < k {
                assert(comb[i as int] < comb[i + 1]);
            }
        }
        prev = c + 1;
        i += 1;
    }
    rank
}

/// Retrieve the combination of `k` indices out of `n` at position `rank`.
pub fn unrank_comb(rank: usize, n: usize, k: usize) -> (comb: Vec<usize>)
    requires
        rank < binomial(n as nat, k as nat),
        ranking_fits(n as nat, k as nat),
    ensures
        comb@ == comb_unrank(rank as nat, n as nat, k as nat, 0),
        comb@.len() == k,
        is_combination(comb@, n as nat),
        comb_rank(comb@, n as nat) == rank,
{
    proof {
        lemma_rank_of_unrank(rank as nat, n as nat, k as nat);
        if k > n {
            lemma_binomial_zero(n as nat, k as nat);
        }
    }
    let ghost total = comb_unrank(rank as nat, n as nat, k as nat, 0);
    let mut rank: usize = rank;
    let mut comb: Vec<usize> = Vec::new();
    let mut prev: usize = 0;
    let mut i: usize = 0;
    while i < k
        invariant
            i <= k <= n,
            prev <= n,
            ranking_fits(n as nat, k as nat),
            rank < binomial((n - prev) as nat, (k - i) as nat),
            comb@ + comb_unrank(rank as nat, n as nat, (k - i) as nat, prev as nat) == total,
        decreases k - i,
    {
        let mut j: usize = prev;
        let mut found: bool = false;
        while !found
            invariant
                prev <= j <= n,
                i < k <= n,
                ranking_fits(n as nat, k as nat),
                !found ==> rank < binomial((n - j) as nat, (k - i) as nat),
                !found ==> comb@ + comb_unrank(rank as nat, n as nat, (k - i) as nat, j as nat)
                    == total,
                found ==> j < n && rank < binomial((n - j - 1) as nat, (k - i - 1) as nat),
                found ==> comb@ + comb_unrank(
                    rank as nat,
                    n as nat,
                    (k - i - 1) as nat,
                    (j + 1) as nat,
                ) == total,
            decreases n - j, (if found { 0int } else { 1int }),
        {
            proof {
                if j == n {
                    lemma_binomial_zero(0, (k - i) as nat);
                }
                lemma_binom_fits_smaller(
                    (n - 1) as nat,
                    (k - 1) as nat,
                    (n - j - 1) as nat,
                    (k - i - 1) as nat,
                );
            }
            let c: usize = binom(n - j - 1, k - i - 1);
            let ghost before = comb@;
            if rank < c {
                comb.push(j);
                found = true;
                proof {
                    let rest = comb_unrank(
                        rank as nat,
                        n as nat,
                        (k - i - 1) as nat,
                        (j + 1) as nat,
                    );
                    assert((before + seq![j]) + rest =~= before + (seq![j] + rest));
                    assert(comb@ =~= before + seq![j]);
                }
            } else {
                rank -= c;
                j += 1;
            }
        }
        prev = j + 1;
        i += 1;
    }
    assert(comb@ + Seq::<usize>::empty() =~= comb@);
    comb
}

} // verus!
