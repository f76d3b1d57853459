//! Ranking and unranking of permutations in lexicographic order.

use vstd::prelude::*;
use vstd::arithmetic::div_mod::lemma_fundamental_div_mod_converse;
use crate::order::{in_order, is_rising, lemma_rising_unique, lemma_usize_ordered};
use crate::permutations::lex::{
    first_less_at,
    is_arrangement,
    is_lex_last,
    is_lex_successor,
    lemma_lex_total,
    lex_less,
};
use crate::sequences::{filled, identity_seq, iota, is_permutation, lemma_permutation_multiset};

verus! {

/// n! as a natural number.
pub open spec fn factorial(n: nat) -> nat
    decreases n,
{
    if n == 0 {
        1
    } else {
        n * factorial((n - 1) as nat)
    }
}

/// n! is positive.
pub proof fn lemma_factorial_positive(n: nat)
    ensures
        factorial(n) >= 1,
    decreases n,
{
    if n > 0 {
        lemma_factorial_positive((n - 1) as nat);
        assert(n * factorial((n - 1) as nat) >= 1) by (nonlinear_arith)
            requires
                n >= 1,
                factorial((n - 1) as nat) >= 1,
        ;
    }
}

/// n! grows with n.
pub proof fn lemma_factorial_monotone(m: nat, n: nat)
    requires
        m <= n,
    ensures
        factorial(m) <= factorial(n),
    decreases n,
{
    if m < n {
        lemma_factorial_monotone(m, (n - 1) as nat);
        lemma_factorial_positive((n - 1) as nat);
        assert(n * factorial((n - 1) as nat) >= factorial((n - 1) as nat)) by (nonlinear_arith)
            requires
                n >= 1,
        ;
    }
}

/// The table of 0!, 1!, ..., n!.
pub fn factorials(n: usize) -> (f: Vec<usize>)
    requires
        factorial(n as nat) <= usize::MAX,
    ensures
        f.len() == n + 1,
        forall|i: int| 0 <= i <= n ==> (#[trigger] f[i]) == factorial(i as nat),
{
    let mut f: Vec<usize> = Vec::new();
    f.push(1);
    let mut i: usize = 0;
    while i < n
        invariant
            i <= n,
            f.len() == i + 1,
            factorial(n as nat) <= usize::MAX,
            forall|k: int| 0 <= k <= i ==> (#[trigger] f[k]) == factorial(k as nat),
        decreases n - i,
    {
        i += 1;
        proof {
            lemma_factorial_monotone(i as nat, n as nat);
            assert(f[i - 1] * i == i * f[i - 1]) by (nonlinear_arith);
        }
        let next: usize = f[i - 1] * i;
        f.push(next);
    }
    f
}

/// The values below `x` that do not occur among the first `i` entries of
/// `p`, in ascending order.
pub open spec fn unused_below(p: Seq<usize>, i: int, x: nat) -> Seq<usize>
    decreases x,
{
    if x == 0 {
        Seq::empty()
    } else {
        let rest = unused_below(p, i, (x - 1) as nat);
        if p.take(i).contains((x - 1) as usize) {
            rest
        } else {
            rest.push((x - 1) as usize)
        }
    }
}

/// The digit of position `i` in the Lehmer code of `p`: the number of values
/// below `p[i]` that are not yet placed.
pub open spec fn lehmer_digit(p: Seq<usize>, i: int) -> nat {
    unused_below(p, i, p[i] as nat).len()
}

/// The rank contributed by the positions from `i` on.
pub open spec fn perm_rank_from(p: Seq<usize>, i: nat) -> nat
    decreases p.len() - i,
{
    if i >= p.len() {
        0
    } else {
        lehmer_digit(p, i as int) * factorial((p.len() - 1 - i) as nat) + perm_rank_from(p, i + 1)
    }
}

/// The rank of the permutation `p` in lexicographic order: its Lehmer code
/// read in the factorial number system.
pub open spec fn perm_rank(p: Seq<usize>) -> nat {
    perm_rank_from(p, 0)
}

/// The arrangement of rank `rank` of the values `avail`: the digits of
/// `rank` in the factorial number system select, one after the other, a
/// value among those that remain.
pub open spec fn perm_unrank(rank: nat, avail: Seq<usize>) -> Seq<usize>
    decreases avail.len(),
{
    if avail.len() == 0 {
        Seq::empty()
    } else {
        let block = factorial((avail.len() - 1) as nat);
        let idx = (rank / block) as int;
        if idx < 0 || idx >= avail.len() {
            Seq::empty()
        } else {
            seq![avail[idx]] + perm_unrank(rank % block, avail.remove(idx))
        }
    }
}

proof fn lemma_take_contains(p: Seq<usize>, i: int, v: usize)
    requires
        0 <= i < p.len(),
    ensures
        p.take(i + 1).contains(v) <==> p.take(i).contains(v) || p[i] == v,
{
    let short = p.take(i);
    let long = p.take(i + 1);
    if long.contains(v) {
        let k = choose|k: int| 0 <= k < long.len() && long[k] == v;
        if k < i {
            assert(short[k] == v);
        }
    }
    if short.contains(v) {
        let k = choose|k: int| 0 <= k < short.len() && short[k] == v;
        assert(long[k] == v);
    }
    if p[i] == v {
        assert(long[i] == v);
    }
}

proof fn lemma_unused_start(p: Seq<usize>, x: nat)
    requires
        x <= usize::MAX + 1,
    ensures
        unused_below(p, 0, x) == identity_seq(x),
    decreases x,
{
    if x > 0 {
        lemma_unused_start(p, (x - 1) as nat);
        assert(p.take(0) =~= Seq::empty());
        assert(unused_below(p, 0, x) =~= identity_seq(x));
    } else {
        assert(unused_below(p, 0, x) =~= identity_seq(x));
    }
}

/// The first `i` entries of `p` are distinct values below `n`.
pub open spec fn is_partial(p: Seq<usize>, n: nat, i: int) -> bool {
    &&& 0 <= i <= p.len()
    &&& forall|a: int| 0 <= a < i ==> (#[trigger] p[a]) < n
    &&& forall|a: int, b: int| 0 <= a < b < i ==> p[a] != p[b]
}

proof fn lemma_partial_fresh(p: Seq<usize>, n: nat, i: int)
    requires
        is_partial(p, n, i + 1),
        0 <= i,
    ensures
        !p.take(i).contains(p[i]),
{
    let short = p.take(i);
    if short.contains(p[i]) {
        let k = choose|k: int| 0 <= k < short.len() && short[k] == p[i];
        assert(p[k] != p[i]);
    }
}

/// Placing `p[i]` removes it from the unused values.
#[verifier::rlimit(40)]
proof fn lemma_unused_place(p: Seq<usize>, n: nat, i: int, y: nat)
    requires
        0 <= i < p.len(),
        !p.take(i).contains(p[i]),
        y <= n <= usize::MAX,
    ensures
        y <= p[i] ==> unused_below(p, i + 1, y) == unused_below(p, i, y),
        y > p[i] ==> lehmer_digit(p, i) < unused_below(p, i, y).len() && unused_below(p, i, y)[lehmer_digit(
            p,
            i,
        ) as int] == p[i] && unused_below(p, i + 1, y) == unused_below(p, i, y).remove(
            lehmer_digit(p, i) as int,
        ),
    decreases y,
{
    if y > 0 {
        let v = (y - 1) as usize;
        lemma_unused_place(p, n, i, (y - 1) as nat);
        lemma_take_contains(p, i, v);
        let d = lehmer_digit(p, i) as int;
        let before = unused_below(p, i, (y - 1) as nat);
        if v == p[i] {
            assert(before.push(v).remove(d) =~= before);
        } else if v > p[i] {
            if !p.take(i).contains(v) {
                assert(before.push(v).remove(d) =~= before.remove(d).push(v));
            }
        }
    }
}

proof fn lemma_unused_step(p: Seq<usize>, n: nat, i: int, y: nat)
    requires
        is_permutation(p, n),
        0 <= i < n,
        y <= n <= usize::MAX,
    ensures
        y <= p[i] ==> unused_below(p, i + 1, y) == unused_below(p, i, y),
        y > p[i] ==> lehmer_digit(p, i) < unused_below(p, i, y).len() && unused_below(p, i, y)[lehmer_digit(
            p,
            i,
        ) as int] == p[i] && unused_below(p, i + 1, y) == unused_below(p, i, y).remove(
            lehmer_digit(p, i) as int,
        ),
{
    lemma_partial_fresh(p, n, i);
    lemma_unused_place(p, n, i, y);
}

/// The unused values are in strictly ascending order, below the bound, and
/// not among the entries that are placed.
proof fn lemma_unused_members(p: Seq<usize>, i: int, x: nat)
    requires
        x <= usize::MAX,
    ensures
        forall|k: int|
            0 <= k < unused_below(p, i, x).len() ==> (#[trigger] unused_below(p, i, x)[k]) < x
                && !p.take(i).contains(unused_below(p, i, x)[k]),
        forall|a: int, b: int|
            0 <= a < b < unused_below(p, i, x).len() ==> unused_below(p, i, x)[a] < unused_below(
                p,
                i,
                x,
            )[b],
    decreases x,
{
    let s = unused_below(p, i, x);
    if x > 0 {
        let prev = unused_below(p, i, (x - 1) as nat);
        lemma_unused_members(p, i, (x - 1) as nat);
        assert forall|k: int| 0 <= k < s.len() implies (#[trigger] s[k]) < x && !p.take(i).contains(
            s[k],
        ) by {
            if k < prev.len() {
                assert(s[k] == prev[k]);
            }
        }
        assert forall|a: int, b: int| 0 <= a < b < s.len() implies s[a] < s[b] by {
            assert(s[a] == prev[a]);
            if b < prev.len() {
                assert(s[b] == prev[b]);
            }
        }
    }
}

proof fn lemma_partial_len(p: Seq<usize>, n: nat, i: int)
    requires
        is_partial(p, n, i),
        n <= usize::MAX,
    ensures
        unused_below(p, i, n).len() == n - i,
    decreases i,
{
    if i == 0 {
        lemma_unused_start(p, n);
    } else {
        lemma_partial_len(p, n, i - 1);
        lemma_partial_fresh(p, n, i - 1);
        lemma_unused_place(p, n, i - 1, n);
    }
}

proof fn lemma_unused_len(p: Seq<usize>, n: nat, i: int)
    requires
        is_permutation(p, n),
        0 <= i <= n,
        n <= usize::MAX,
    ensures
        unused_below(p, i, n).len() == n - i,
    decreases i,
{
    if i == 0 {
        lemma_unused_start(p, n);
    } else {
        lemma_unused_len(p, n, i - 1);
        lemma_unused_step(p, n, i - 1, n);
    }
}

proof fn lemma_digit_bound(p: Seq<usize>, n: nat, i: int)
    requires
        is_permutation(p, n),
        0 <= i < n,
        n <= usize::MAX,
    ensures
        lehmer_digit(p, i) <= n - 1 - i,
{
    lemma_unused_len(p, n, i);
    lemma_unused_step(p, n, i, n);
}

/// The rank contributed by the positions from `i` on is below the number of
/// arrangements of the values that remain.
pub proof fn lemma_perm_rank_bound(p: Seq<usize>, n: nat, i: nat)
    requires
        is_permutation(p, n),
        i <= n,
        n <= usize::MAX,
    ensures
        perm_rank_from(p, i) < factorial((n - i) as nat),
    decreases n - i,
{
    if i < n {
        lemma_perm_rank_bound(p, n, i + 1);
        lemma_digit_bound(p, n, i as int);
        let d = lehmer_digit(p, i as int) as int;
        let m = (n - 1 - i) as int;
        let f = factorial(m as nat) as int;
        let rest = perm_rank_from(p, i + 1) as int;
        assert(d * f + rest < (m + 1) * f) by (nonlinear_arith)
            requires
                0 <= d <= m,
                0 <= rest < f,
        ;
    } else {
        lemma_factorial_positive(0);
    }
}

proof fn lemma_unrank_from(p: Seq<usize>, n: nat, i: nat)
    requires
        is_permutation(p, n),
        i <= n,
        n <= usize::MAX,
    ensures
        perm_unrank(perm_rank_from(p, i), unused_below(p, i as int, n)) == p.subrange(
            i as int,
            n as int,
        ),
    decreases n - i,
{
    let avail = unused_below(p, i as int, n);
    lemma_unused_len(p, n, i as int);
    if i >= n {
        assert(p.subrange(i as int, n as int) =~= Seq::empty());
    } else {
        let d = lehmer_digit(p, i as int) as int;
        let block = factorial((n - 1 - i) as nat) as int;
        let rest = perm_rank_from(p, i + 1) as int;
        lemma_perm_rank_bound(p, n, i + 1);
        lemma_factorial_positive((n - 1 - i) as nat);
        lemma_fundamental_div_mod_converse(d * block + rest, block, d, rest);
        lemma_unused_step(p, n, i as int, n);
        lemma_unrank_from(p, n, i + 1);
        assert(seq![p[i as int]] + p.subrange(i as int + 1, n as int) =~= p.subrange(
            i as int,
            n as int,
        ));
    }
}

/// Unranking undoes ranking: for every permutation `p` of `0..n`, the
/// permutation of `0..n` with the rank of `p` is `p`.
pub proof fn lemma_unrank_of_rank(p: Seq<usize>, n: nat)
    requires
        is_permutation(p, n),
        n <= usize::MAX,
    ensures
        perm_unrank(perm_rank(p), identity_seq(n)) == p,
{
    lemma_unrank_from(p, n, 0);
    lemma_unused_start(p, n);
    assert(p.subrange(0, n as int) =~= p);
}

proof fn lemma_unused_same(p: Seq<usize>, q: Seq<usize>, i: int, x: nat)
    requires
        p.take(i) == q.take(i),
    ensures
        unused_below(p, i, x) == unused_below(q, i, x),
    decreases x,
{
    if x > 0 {
        lemma_unused_same(p, q, i, (x - 1) as nat);
    }
}

proof fn lemma_rank_prefix(p: Seq<usize>, q: Seq<usize>, k: int, i: nat)
    requires
        p.len() == q.len(),
        i <= k <= p.len(),
        p.take(k) == q.take(k),
    ensures
        perm_rank_from(p, i) - perm_rank_from(q, i) == perm_rank_from(p, k as nat)
            - perm_rank_from(q, k as nat),
    decreases k - i,
{
    if i < k {
        lemma_rank_prefix(p, q, k, i + 1);
        assert(p.take(i as int) =~= p.take(k).take(i as int));
        assert(q.take(i as int) =~= q.take(k).take(i as int));
        assert(p[i as int] == p.take(k)[i as int]);
        assert(q[i as int] == q.take(k)[i as int]);
        lemma_unused_same(p, q, i as int, p[i as int] as nat);
    }
}

/// The rank grows with the lexicographic order: of two permutations of
/// `0..n`, the one that comes first has the smaller rank.
pub proof fn lemma_rank_monotone(p: Seq<usize>, q: Seq<usize>, n: nat)
    requires
        is_permutation(p, n),
        is_permutation(q, n),
        n <= usize::MAX,
        lex_less(p, q),
    ensures
        perm_rank(p) < perm_rank(q),
{
    lemma_usize_ordered();
    let k = choose|k: int| first_less_at(p, q, k);
    assert(p[k] < q[k]);
    lemma_rank_prefix(p, q, k, 0);
    let dp = lehmer_digit(p, k) as int;
    let dq = lehmer_digit(q, k) as int;
    let f = factorial((n - 1 - k) as nat) as int;
    lemma_unused_same(p, q, k, q[k] as nat);
    lemma_unused_step(p, n, k, q[k] as nat);
    assert(dp < dq);
    lemma_perm_rank_bound(p, n, (k + 1) as nat);
    let rest_p = perm_rank_from(p, (k + 1) as nat) as int;
    let rest_q = perm_rank_from(q, (k + 1) as nat) as int;
    assert(dp * f + rest_p < dq * f + rest_q) by (nonlinear_arith)
        requires
            0 <= dp < dq,
            0 <= rest_p < f,
            0 <= rest_q,
    ;
}

/// The arrangement that unranking appends to a partial permutation
/// completes it to a permutation whose rank from there on is the rank that
/// was unranked.
#[verifier::rlimit(40)]
proof fn lemma_rank_of_unrank_from(pre: Seq<usize>, r: nat, n: nat)
    requires
        n <= usize::MAX,
        is_partial(pre, n, pre.len() as int),
        pre.len() <= n,
        r < factorial((n - pre.len()) as nat),
    ensures
        is_permutation(pre + perm_unrank(r, unused_below(pre, pre.len() as int, n)), n),
        perm_rank_from(
            pre + perm_unrank(r, unused_below(pre, pre.len() as int, n)),
            pre.len(),
        ) == r,
    decreases n - pre.len(),
{
    let i = pre.len() as int;
    let avail = unused_below(pre, i, n);
    let q = pre + perm_unrank(r, avail);
    lemma_partial_len(pre, n, i);
    if avail.len() == 0 {
        assert(q =~= pre);
    } else {
        let m = avail.len() as int;
        let block = factorial((m - 1) as nat) as int;
        lemma_factorial_positive((m - 1) as nat);
        let idx = r as int / block;
        assert(0 <= idx < m) by (nonlinear_arith)
            requires
                0 <= r < m * block,
                block >= 1,
                idx == r as int / block,
        ;
        let v = avail[idx];
        let rest = perm_unrank((r as int % block) as nat, avail.remove(idx));
        assert(perm_unrank(r, avail) == seq![v] + rest);
        let next = pre.push(v);
        lemma_unused_members(pre, i, n);
        assert(pre.take(i) =~= pre);
        assert(next.take(i) =~= pre);
        assert(is_partial(next, n, i + 1)) by {
            assert forall|a: int, b: int| 0 <= a < b < i + 1 implies next[a] != next[b] by {
                if b == i {
                    assert(pre.contains(pre[a]));
                }
            }
        }
        lemma_unused_same(pre, next, i, n);
        lemma_unused_place(next, n, i, n);
        let d = lehmer_digit(next, i) as int;
        assert(d == idx) by {
            if d < idx {
                assert(avail[d] < avail[idx]);
            }
            if idx < d {
                assert(avail[idx] < avail[d]);
            }
        }
        assert(0 <= r as int % block < block) by (nonlinear_arith)
            requires
                r >= 0,
                block >= 1,
        ;
        lemma_rank_of_unrank_from(next, (r as int % block) as nat, n);
        assert(next + rest =~= q);
        assert(q.take(i) =~= next.take(i));
        lemma_unused_same(next, q, i, q[i] as nat);
        assert(r == idx * block + r as int % block) by (nonlinear_arith)
            requires
                block >= 1,
                idx == r as int / block,
        ;
    }
}

/// Ranking undoes unranking: for every rank below n!, the permutation with
/// that rank is a permutation of `0..n`, and has that rank.
pub proof fn lemma_rank_of_unrank(r: nat, n: nat)
    requires
        n <= usize::MAX,
        r < factorial(n),
    ensures
        is_permutation(perm_unrank(r, identity_seq(n)), n),
        perm_rank(perm_unrank(r, identity_seq(n))) == r,
{
    let pre = Seq::<usize>::empty();
    lemma_rank_of_unrank_from(pre, r, n);
    lemma_unused_start(pre, n);
    assert(pre + perm_unrank(r, identity_seq(n)) =~= perm_unrank(r, identity_seq(n)));
}

/// The lexicographic successor has the next rank.
pub proof fn lemma_successor_rank(p: Seq<usize>, q: Seq<usize>, n: nat)
    requires
        n <= usize::MAX,
        is_permutation(p, n),
        is_lex_successor(p, q),
    ensures
        is_permutation(q, n),
        perm_rank(q) == perm_rank(p) + 1,
{
    lemma_usize_ordered();
    lemma_permutation_multiset(p, n);
    lemma_permutation_multiset(q, n);
    lemma_rank_monotone(p, q, n);
    lemma_perm_rank_bound(q, n, 0);
    if perm_rank(q) > perm_rank(p) + 1 {
        let m = perm_unrank(perm_rank(p) + 1, identity_seq(n));
        lemma_rank_of_unrank(perm_rank(p) + 1, n);
        lemma_permutation_multiset(m, n);
        assert(is_arrangement(m, p));
        lemma_lex_total(p, m);
        if lex_less(m, p) {
            lemma_rank_monotone(m, p, n);
        }
        lemma_lex_total(m, q);
        if lex_less(q, m) {
            lemma_rank_monotone(q, m, n);
        }
    }
}

/// The last permutation in lexicographic order has the last rank, and only
/// it.
pub proof fn lemma_last_rank(p: Seq<usize>, n: nat)
    requires
        n <= usize::MAX,
        is_permutation(p, n),
    ensures
        is_lex_last(p) <==> perm_rank(p) + 1 == factorial(n),
{
    lemma_usize_ordered();
    lemma_permutation_multiset(p, n);
    lemma_perm_rank_bound(p, n, 0);
    if is_lex_last(p) && perm_rank(p) + 1 < factorial(n) {
        let m = perm_unrank(perm_rank(p) + 1, identity_seq(n));
        lemma_rank_of_unrank(perm_rank(p) + 1, n);
        lemma_permutation_multiset(m, n);
        assert(is_arrangement(m, p));
        lemma_lex_total(p, m);
        if lex_less(m, p) {
            lemma_rank_monotone(m, p, n);
        }
    }
    if perm_rank(p) + 1 == factorial(n) {
        assert forall|m: Seq<usize>| #[trigger] is_arrangement(m, p) implies !lex_less(p, m) by {
            if lex_less(p, m) {
                lemma_permutation_multiset(m, n);
                lemma_rank_monotone(p, m, n);
                lemma_perm_rank_bound(m, n, 0);
            }
        }
    }
}

/// The identity, the first permutation in lexicographic order, has rank 0.
pub proof fn lemma_identity_rank(n: nat)
    requires
        n <= usize::MAX,
    ensures
        perm_rank(identity_seq(n)) == 0,
{
    let id = identity_seq(n);
    lemma_factorial_positive(n);
    let m = perm_unrank(0, id);
    lemma_rank_of_unrank(0, n);
    assert(is_permutation(id, n));
    lemma_permutation_multiset(m, n);
    lemma_permutation_multiset(id, n);
    lemma_usize_ordered();
    crate::permutations::lex::lemma_rising_first(id);
    assert(is_arrangement(m, id));
    lemma_lex_total(id, m);
    if lex_less(id, m) {
        lemma_rank_monotone(id, m, n);
    }
}

/// A walk from the identity of `0..n`: every entry but the first is the
/// lexicographic successor of the entry before it.
pub open spec fn is_lex_walk(walk: Seq<Seq<usize>>, n: nat) -> bool {
    &&& walk.len() > 0
    &&& walk[0] == identity_seq(n)
    &&& forall|k: int| 0 <= k < walk.len() - 1 ==> is_lex_successor(#[trigger] walk[k], walk[k + 1])
}

proof fn lemma_lex_walk_rank(walk: Seq<Seq<usize>>, n: nat, k: int)
    requires
        n <= usize::MAX,
        is_lex_walk(walk, n),
        0 <= k < walk.len(),
    ensures
        is_permutation(walk[k], n),
        perm_rank(walk[k]) == k,
    decreases k,
{
    if k == 0 {
        lemma_identity_rank(n);
    } else {
        lemma_lex_walk_rank(walk, n, k - 1);
        assert(is_lex_successor(walk[k - 1], walk[k - 1 + 1]));
        lemma_successor_rank(walk[k - 1], walk[k], n);
    }
}

/// Stepping from the identity of `0..n` to the lexicographic successor, time
/// after time, visits the permutations of `0..n` by their rank: the entry
/// after `k` steps has rank `k`, so the entries come in strictly increasing
/// order and there are n! of them at most. The walk has reached the last
/// permutation, from which no step leads on, exactly when it holds n!
/// entries, and it then holds every permutation of `0..n`. The entries of
/// every entry, in rising order, are the identity again.
pub proof fn lemma_lex_walk(walk: Seq<Seq<usize>>, n: nat)
    requires
        n <= usize::MAX,
        is_lex_walk(walk, n),
    ensures
        walk.len() <= factorial(n),
        forall|k: int|
            0 <= k < walk.len() ==> is_permutation(#[trigger] walk[k], n) && perm_rank(walk[k])
                == k,
        forall|j: int, k: int|
            0 <= j < k < walk.len() ==> lex_less(#[trigger] walk[j], #[trigger] walk[k]),
        is_lex_last(walk.last()) <==> walk.len() == factorial(n),
        walk.len() == factorial(n) ==> forall|p: Seq<usize>|
            is_permutation(p, n) ==> #[trigger] walk.contains(p),
        forall|k: int| 0 <= k < walk.len() ==> in_order(#[trigger] walk[k]) == identity_seq(n),
{
    lemma_usize_ordered();
    let last = walk.len() - 1;
    assert forall|k: int| 0 <= k < walk.len() implies is_permutation(#[trigger] walk[k], n)
        && perm_rank(walk[k]) == k by {
        lemma_lex_walk_rank(walk, n, k);
    }
    lemma_perm_rank_bound(walk[last], n, 0);
    assert forall|j: int, k: int| 0 <= j < k < walk.len() implies lex_less(
        #[trigger] walk[j],
        #[trigger] walk[k],
    ) by {
        lemma_lex_total(walk[j], walk[k]);
        if lex_less(walk[k], walk[j]) {
            lemma_rank_monotone(walk[k], walk[j], n);
        }
    }
    lemma_last_rank(walk[last], n);
    if walk.len() == factorial(n) {
        assert forall|p: Seq<usize>| is_permutation(p, n) implies #[trigger] walk.contains(p) by {
            lemma_perm_rank_bound(p, n, 0);
            let k = perm_rank(p) as int;
            lemma_unrank_of_rank(p, n);
            lemma_unrank_of_rank(walk[k], n);
            assert(walk[k] == p);
        }
    }
    assert forall|k: int| 0 <= k < walk.len() implies in_order(#[trigger] walk[k])
        == identity_seq(n) by {
        lemma_permutation_multiset(walk[k], n);
        lemma_permutation_multiset(identity_seq(n), n);
        assert(is_rising(identity_seq(n)));
        lemma_rising_unique(walk[k], identity_seq(n));
    }
}

/// A list of n! distinct permutations of `0..n` holds every permutation of
/// `0..n`.
#[verifier::rlimit(40)]
pub proof fn lemma_all_permutations_listed(list: Seq<Seq<usize>>, n: nat)
    requires
        n <= usize::MAX,
        list.len() == factorial(n),
        forall|k: int| 0 <= k < list.len() ==> is_permutation(#[trigger] list[k], n),
        forall|j: int, k: int| 0 <= j < k < list.len() ==> #[trigger] list[j] != #[trigger] list[k],
    ensures
        forall|p: Seq<usize>|
            is_permutation(p, n) ==> exists|k: int| 0 <= k < list.len() && #[trigger] list[k] == p,
{
    let total = factorial(n) as int;
    let ranks = vstd::set_lib::set_int_range(0, total);
    vstd::set_lib::lemma_int_range(0, total);
    let all = Set::new(|p: Seq<usize>| is_permutation(p, n));
    let unrank = |r: int| perm_unrank(r as nat, identity_seq(n));
    let entry = |k: int| list[k];
    let listed = ranks.map(entry);
    assert(ranks.map(unrank) =~= all) by {
        assert forall|p: Seq<usize>| all.contains(p) implies ranks.map(unrank).contains(p) by {
            lemma_unrank_of_rank(p, n);
            lemma_perm_rank_bound(p, n, 0);
            assert(ranks.contains(perm_rank(p) as int));
            assert(unrank(perm_rank(p) as int) == p);
        }
        assert forall|p: Seq<usize>| ranks.map(unrank).contains(p) implies all.contains(p) by {
            let r = choose|r: int| ranks.contains(r) && p == unrank(r);
            lemma_rank_of_unrank(r as nat, n);
        }
    }
    assert(vstd::relations::injective_on(unrank, ranks)) by {
        assert forall|a: int, b: int|
            ranks.contains(a) && ranks.contains(b) && #[trigger] unrank(a) == #[trigger] unrank(
                b,
            ) implies a == b by {
            lemma_rank_of_unrank(a as nat, n);
            lemma_rank_of_unrank(b as nat, n);
        }
    }
    vstd::set_lib::lemma_map_size(ranks, all, unrank);
    assert(vstd::relations::injective_on(entry, ranks)) by {
        assert forall|a: int, b: int|
            ranks.contains(a) && ranks.contains(b) && #[trigger] entry(a) == #[trigger] entry(
                b,
            ) implies a == b by {
            if a < b {
                assert(list[a] != list[b]);
            }
            if b < a {
                assert(list[b] != list[a]);
            }
        }
    }
    vstd::set_lib::lemma_map_size(ranks, listed, entry);
    assert(listed.subset_of(all)) by {
        assert forall|p: Seq<usize>| listed.contains(p) implies all.contains(p) by {
            let k = choose|k: int| ranks.contains(k) && p == entry(k);
            assert(is_permutation(list[k], n));
        }
    }
    vstd::set_lib::lemma_subset_equality(listed, all);
    assert forall|p: Seq<usize>| is_permutation(p, n) implies exists|k: int|
        0 <= k < list.len() && #[trigger] list[k] == p by {
        assert(all.contains(p));
        assert(listed.contains(p));
        let k = choose|k: int| ranks.contains(k) && p == entry(k);
        assert(0 <= k < list.len() && list[k] == p);
    }
}

/// Compute the rank of the permutation `p` of `0..p.len()` in
/// lexicographic order.
pub fn rank_perm(p: &[usize]) -> (rank: usize)
    requires
        is_permutation(p@, p@.len()),
        factorial(p@.len()) <= usize::MAX,
    ensures
        rank == perm_rank(p@),
        rank < factorial(p@.len()),
        perm_unrank(rank as nat, identity_seq(p@.len())) == p@,
{
    let n: usize = p.len();
    let f = factorials(n);
    let mut rank: usize = 0;
    let mut used: Vec<bool> = filled(false, n);
    proof {
        lemma_unrank_of_rank(p@, n as nat);
        lemma_perm_rank_bound(p@, n as nat, 0);
        assert(p@.take(0) =~= Seq::empty());
    }
    let mut i: usize = 0;
    while i < n
        invariant
            i <= n,
            n == p@.len(),
            is_permutation(p@, n as nat),
            f.len() == n + 1,
            forall|k: int| 0 <= k <= n ==> (#[trigger] f[k]) == factorial(k as nat),
            used.len() == n,
            forall|v: int| 0 <= v < n ==> (#[trigger] used[v] <==> p@.take(i as int).contains(v as usize)),
            rank + perm_rank_from(p@, i as nat) == perm_rank(p@),
            perm_rank(p@) < factorial(n as nat) <= usize::MAX,
        decreases n - i,
    {
        let mut cnt: usize = 0;
        let mut j: usize = 0;
        while j < p[i]
            invariant
                j <= p[i as int] < n,
                i < n,
                n == p@.len(),
                used.len() == n,
                forall|v: int|
                    0 <= v < n ==> (#[trigger] used[v] <==> p@.take(i as int).contains(v as usize)),
                cnt == unused_below(p@, i as int, j as nat).len(),
                cnt <= j,
            decreases p[i as int] - j,
        {
            if !used[j] {
                cnt += 1;
            }
            j += 1;
        }
        proof {
            let d = lehmer_digit(p@, i as int) as int;
            let fac = factorial((n - 1 - i) as nat) as int;
            assert(0 <= d * fac) by (nonlinear_arith)
                requires
                    0 <= d,
                    0 <= fac,
            ;
            assert forall|v: int| 0 <= v < n implies ((v == p[i as int] || used[v])
                <==> p@.take(i + 1).contains(v as usize)) by {
                lemma_take_contains(p@, i as int, v as usize);
            }
        }
        rank += cnt * f[n - 1 - i];
        used[p[i]] = true;
        i += 1;
    }
    rank
}

/// Reconstruct the permutation of `0..n` with the given rank in
/// lexicographic order.
pub fn unrank_perm(rank: usize, n: usize) -> (out: Vec<usize>)
    requires
        factorial(n as nat) <= usize::MAX,
        rank < factorial(n as nat),
    ensures
        out@ == perm_unrank(rank as nat, identity_seq(n as nat)),
        is_permutation(out@, n as nat),
        perm_rank(out@) == rank,
{
    proof {
        lemma_rank_of_unrank(rank as nat, n as nat);
    }
    let ghost total = perm_unrank(rank as nat, identity_seq(n as nat));
    let mut rank: usize = rank;
    let f = factorials(n);
    let mut avail: Vec<usize> = iota(n);
    let mut out: Vec<usize> = Vec::new();
    let mut i: usize = 0;
    while i < n
        invariant
            i <= n,
            f.len() == n + 1,
            forall|k: int| 0 <= k <= n ==> (#[trigger] f[k]) == factorial(k as nat),
            avail.len() == n - i,
            rank < factorial((n - i) as nat),
            out@ + perm_unrank(rank as nat, avail@) == total,
        decreases n - i,
    {
        let block: usize = f[n - 1 - i];
        proof {
            lemma_factorial_positive((n - 1 - i) as nat);
            let b = block as int;
            let r = rank as int;
            let m = (n - i) as int;
            assert(r / b < m) by (nonlinear_arith)
                requires
                    0 <= r < m * b,
                    b >= 1,
            ;
            assert(0 <= r % b < b) by (nonlinear_arith)
                requires
                    b >= 1,
            ;
        }
        let idx: usize = rank / block;
        let ghost before = out@;
        let ghost old_avail = avail@;
        let ghost old_rank = rank;
        rank = rank % block;
        let v: usize = avail.remove(idx);
        out.push(v);
        proof {
            let rest = perm_unrank(rank as nat, avail@);
            assert(perm_unrank(old_rank as nat, old_avail) == seq![v] + rest);
            assert((before + seq![v]) + rest =~= before + (seq![v] + rest));
            assert(out@ =~= before + seq![v]);
        }
        i += 1;
    }
    assert(out@ + Seq::<usize>::empty() =~= out@);
    out
}

} // verus!
