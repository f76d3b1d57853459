//! The position of a state in the minimal-change order: a mixed-radix
//! number whose digits say how far every value has come in its sweep
//! across the smaller values.

use vstd::prelude::*;
use crate::permutations::minimal::{has_mobile, is_mobile, sjt_move, sjt_start, target, well_formed, Directed};
use crate::permutations::ranking::factorial;
use crate::sequences::{is_permutation, lemma_permutation_onto, swapped};

verus! {

/// The number of entries before position `q` that are below `x`.
pub open spec fn count_below(s: Seq<usize>, q: int, x: int) -> int
    decreases q,
{
    if q <= 0 {
        0
    } else {
        count_below(s, q - 1, x) + if s[q - 1] < x {
            1int
        } else {
            0int
        }
    }
}

/// The position of the value `v`.
pub open spec fn pos_of(vals: Seq<usize>, v: int) -> int {
    choose|p: int| 0 <= p < vals.len() && vals[p] == v
}

/// The number of smaller values to the left of position `p`.
pub open spec fn before(vals: Seq<usize>, p: int) -> int {
    count_below(vals, p, vals[p] as int)
}

/// How far the value `v` has come in its sweep across the smaller values.
pub open spec fn progress(s: Directed, v: int) -> int {
    let p = pos_of(s.vals, v);
    if s.left[p] {
        v - before(s.vals, p)
    } else {
        before(s.vals, p)
    }
}

/// The mixed-radix number whose digits are the progress of the values
/// below `m`, the smallest value most significant.
pub open spec fn rank_upto(s: Directed, m: nat) -> int
    decreases m,
{
    if m == 0 {
        0
    } else {
        m * rank_upto(s, (m - 1) as nat) + progress(s, m - 1)
    }
}

/// The number of moves that lead from the start to `s`.
pub open spec fn sjt_rank(s: Directed) -> int {
    rank_upto(s, s.vals.len())
}

/// Every value looks left exactly when the smaller values have made an
/// even number of moves.
pub open spec fn dirs_follow(s: Directed, n: nat) -> bool {
    forall|w: nat| w < n ==> (s.left[#[trigger] pos_of(s.vals, w as int)] <==> rank_upto(s, w) % 2 == 0)
}

proof fn lemma_count_agree(s: Seq<usize>, t: Seq<usize>, q: int, x: int)
    requires
        q <= s.len(),
        q <= t.len(),
        forall|k: int| 0 <= k < q ==> s[k] == t[k],
    ensures
        count_below(s, q, x) == count_below(t, q, x),
    decreases q,
{
    if q > 0 {
        lemma_count_agree(s, t, q - 1, x);
    }
}

proof fn lemma_count_swap(s: Seq<usize>, i: int, q: int, x: int)
    requires
        0 <= i,
        i + 1 < q <= s.len(),
    ensures
        count_below(swapped(s, i, i + 1), q, x) == count_below(s, q, x),
    decreases q,
{
    let t = swapped(s, i, i + 1);
    if q == i + 2 {
        lemma_count_agree(s, t, i, x);
        assert(count_below(t, i + 1, x) == count_below(t, i, x) + if t[i] < x { 1int } else { 0int });
        assert(count_below(s, i + 1, x) == count_below(s, i, x) + if s[i] < x { 1int } else { 0int });
    } else {
        lemma_count_swap(s, i, q - 1, x);
    }
}

proof fn lemma_count_absent(s: Seq<usize>, q: int, x: int)
    requires
        q <= s.len(),
        forall|k: int| 0 <= k < q ==> s[k] != x,
    ensures
        count_below(s, q, x + 1) == count_below(s, q, x),
    decreases q,
{
    if q > 0 {
        lemma_count_absent(s, q - 1, x);
    }
}

proof fn lemma_count_next(s: Seq<usize>, q: int, x: int)
    requires
        q <= s.len(),
        forall|a: int, b: int| 0 <= a < b < q ==> s[a] != s[b],
    ensures
        count_below(s, q, x) <= count_below(s, q, x + 1) <= count_below(s, q, x) + 1,
    decreases q,
{
    if q > 0 {
        if s[q - 1] == x {
            lemma_count_absent(s, q - 1, x);
        } else {
            lemma_count_next(s, q - 1, x);
        }
    }
}

/// A value that stands before `q` counts once it is below the threshold.
proof fn lemma_count_present(s: Seq<usize>, q: int, x: int, t: int)
    requires
        0 <= t < q <= s.len(),
        s[t] == x,
        forall|a: int, b: int| 0 <= a < b < q ==> s[a] != s[b],
    ensures
        count_below(s, q, x + 1) == count_below(s, q, x) + 1,
    decreases q,
{
    if t == q - 1 {
        lemma_count_absent(s, q - 1, x);
    } else {
        lemma_count_present(s, q - 1, x, t);
    }
}

proof fn lemma_count_zero(s: Seq<usize>, q: int)
    requires
        q <= s.len(),
    ensures
        count_below(s, q, 0) == 0,
    decreases q,
{
    if q > 0 {
        lemma_count_zero(s, q - 1);
    }
}

proof fn lemma_count_none(s: Seq<usize>, q: int, x: int)
    requires
        q <= s.len(),
        forall|t: int| 0 <= t < q ==> s[t] >= x,
    ensures
        count_below(s, q, x) == 0,
    decreases q,
{
    if q > 0 {
        lemma_count_none(s, q - 1, x);
    }
}

proof fn lemma_count_some(s: Seq<usize>, q: int, x: int, t: int)
    requires
        0 <= t < q <= s.len(),
        s[t] < x,
    ensures
        count_below(s, q, x) >= 1,
        count_below(s, q, x) >= 0,
    decreases q,
{
    lemma_count_nonnegative(s, q - 1, x);
    if t < q - 1 {
        lemma_count_some(s, q - 1, x, t);
    }
}

proof fn lemma_count_nonnegative(s: Seq<usize>, q: int, x: int)
    ensures
        count_below(s, q, x) >= 0,
    decreases q,
{
    if q > 0 {
        lemma_count_nonnegative(s, q - 1, x);
    }
}

/// Between two thresholds the count grows by at most their distance.
proof fn lemma_count_growth(s: Seq<usize>, q: int, y: int, x: int)
    requires
        q <= s.len(),
        0 <= y <= x,
        forall|a: int, b: int| 0 <= a < b < q ==> s[a] != s[b],
    ensures
        count_below(s, q, y) <= count_below(s, q, x) <= count_below(s, q, y) + (x - y),
    decreases x - y,
{
    if y < x {
        lemma_count_growth(s, q, y, x - 1);
        lemma_count_next(s, q, x - 1);
    }
}

/// A permutation holds exactly `x` values below `x`.
proof fn lemma_count_full(s: Seq<usize>, n: nat, x: int)
    requires
        is_permutation(s, n),
        0 <= x <= n,
    ensures
        count_below(s, n as int, x) == x,
    decreases x,
{
    if x == 0 {
        lemma_count_zero(s, n as int);
    } else {
        lemma_count_full(s, n, x - 1);
        lemma_permutation_onto(s, n, x - 1);
        let t = choose|t: int| 0 <= t < n && s[t] == x - 1;
        lemma_count_present(s, n as int, x - 1, t);
    }
}

/// Where a value below `x` does not stand before `q`, fewer than `x`
/// values below `x` do.
proof fn lemma_count_missing(s: Seq<usize>, q: int, w: int, x: int)
    requires
        q <= s.len(),
        0 <= w < x,
        forall|a: int, b: int| 0 <= a < b < q ==> s[a] != s[b],
        forall|t: int| 0 <= t < q ==> s[t] != w,
    ensures
        count_below(s, q, x) <= x - 1,
{
    lemma_count_zero(s, q);
    lemma_count_growth(s, q, 0, w);
    lemma_count_absent(s, q, w);
    lemma_count_growth(s, q, w + 1, x);
}

/// The position of the value at `p` is `p`.
pub proof fn lemma_pos_of(vals: Seq<usize>, n: nat, p: int)
    requires
        is_permutation(vals, n),
        0 <= p < n,
    ensures
        pos_of(vals, vals[p] as int) == p,
{
    let q = pos_of(vals, vals[p] as int);
    assert(0 <= q < vals.len() && vals[q] == vals[p]);
    if q < p {
        assert(vals[q] != vals[p]);
    }
    if p < q {
        assert(vals[p] != vals[q]);
    }
}

/// Every value below `n` has a position, at which it stands.
pub proof fn lemma_pos_valid(vals: Seq<usize>, n: nat, v: int)
    requires
        is_permutation(vals, n),
        0 <= v < n,
    ensures
        0 <= pos_of(vals, v) < n,
        vals[pos_of(vals, v)] == v,
{
    lemma_permutation_onto(vals, n, v);
}

proof fn lemma_progress_bounds(s: Directed, n: nat, v: int)
    requires
        well_formed(s, n),
        0 <= v < n,
    ensures
        0 <= progress(s, v) <= v,
{
    lemma_pos_valid(s.vals, n, v);
    let p = pos_of(s.vals, v);
    lemma_count_zero(s.vals, p);
    lemma_count_growth(s.vals, p, 0, v);
}

/// The rank of the values below `m` is below `m!`.
pub proof fn lemma_rank_bounds(s: Directed, n: nat, m: nat)
    requires
        well_formed(s, n),
        m <= n,
    ensures
        0 <= rank_upto(s, m) < factorial(m),
    decreases m,
{
    if m > 0 {
        let k = (m - 1) as nat;
        lemma_rank_bounds(s, n, k);
        lemma_progress_bounds(s, n, m - 1);
        let r = rank_upto(s, k);
        let f = factorial(k) as int;
        assert(0 <= m * r && m * r + (m - 1) < m * f) by (nonlinear_arith)
            requires
                0 <= r < f,
                m >= 1,
        ;
    }
}

proof fn lemma_swapped_permutation(vals: Seq<usize>, n: nat, i: int, j: int)
    requires
        is_permutation(vals, n),
        0 <= i < n,
        0 <= j < n,
    ensures
        is_permutation(swapped(vals, i, j), n),
{
    let t = swapped(vals, i, j);
    assert forall|a: int, b: int| 0 <= a < b < t.len() implies t[a] != t[b] by {
        let a0 = if a == i { j } else if a == j { i } else { a };
        let b0 = if b == i { j } else if b == j { i } else { b };
        assert(t[a] == vals[a0] && t[b] == vals[b0]);
        if a0 < b0 {
            assert(vals[a0] != vals[b0]);
        } else {
            assert(vals[b0] != vals[a0]);
        }
    }
}

/// What one move does to the progress and the direction of each value:
/// nothing to the smaller ones; the moved value advances by one step; and
/// the larger ones turn round, which turns their progress into what is left
/// of their sweep.
#[verifier::rlimit(40)]
pub proof fn lemma_move(s: Directed, n: nat, i: int)
    requires
        well_formed(s, n),
        is_mobile(s, i),
    ensures
        well_formed(sjt_move(s, i), n),
        sjt_move(s, i).vals == swapped(s.vals, i, target(s.left, i)),
        progress(sjt_move(s, i), s.vals[i] as int) == progress(s, s.vals[i] as int) + 1,
        forall|w: int| 0 <= w < s.vals[i] ==> progress(sjt_move(s, i), w) == #[trigger] progress(s, w),
        forall|w: int|
            s.vals[i] < w < n ==> progress(sjt_move(s, i), w) == w - #[trigger] progress(s, w),
        forall|w: int|
            0 <= w < n ==> sjt_move(s, i).left[#[trigger] pos_of(sjt_move(s, i).vals, w)] == (if w
                > s.vals[i] {
                !s.left[pos_of(s.vals, w)]
            } else {
                s.left[pos_of(s.vals, w)]
            }),
{
    let j = target(s.left, i);
    let v = s.vals[i] as int;
    let t = sjt_move(s, i);
    lemma_swapped_permutation(s.vals, n, i, j);
    let lo = if i < j { i } else { j };
    assert(t.vals == swapped(s.vals, lo, lo + 1)) by {
        assert(t.vals =~= swapped(s.vals, lo, lo + 1));
    }
    // the moved value
    lemma_pos_of(s.vals, n, i);
    lemma_pos_of(t.vals, n, j);
    assert(t.vals[j] == v);
    lemma_count_agree(s.vals, t.vals, lo, v);
    if j == i - 1 {
        assert(count_below(s.vals, i, v) == count_below(s.vals, i - 1, v) + 1);
    } else {
        assert(count_below(t.vals, i + 1, v) == count_below(t.vals, i, v) + 1);
    }
    assert(progress(t, v) == progress(s, v) + 1);
    // the other values
    assert forall|w: int| 0 <= w < n && w != v implies (#[trigger] progress(t, w) == if w < v {
        progress(s, w)
    } else {
        w - progress(s, w)
    }) && t.left[pos_of(t.vals, w)] == (if w > v {
        !s.left[pos_of(s.vals, w)]
    } else {
        s.left[pos_of(s.vals, w)]
    }) by {
        lemma_pos_valid(s.vals, n, w);
        let p = pos_of(s.vals, w);
        let landing = if p == j { i } else { p };
        assert(p != i);
        assert(t.vals[landing] == w);
        lemma_pos_of(t.vals, n, landing);
        if p == j {
            lemma_count_agree(s.vals, t.vals, lo, w);
            if j == i - 1 {
                assert(count_below(t.vals, i, w) == count_below(t.vals, i - 1, w));
            } else {
                assert(count_below(s.vals, i + 1, w) == count_below(s.vals, i, w));
            }
        } else if p < lo {
            lemma_count_agree(s.vals, t.vals, p, w);
        } else {
            lemma_count_swap(s.vals, lo, p, w);
        }
    }
    assert forall|w: int| 0 <= w < s.vals[i] implies progress(t, w) == #[trigger] progress(s, w) by {
        assert(progress(t, w) == progress(s, w));
    }
    assert forall|w: int| s.vals[i] < w < n implies progress(t, w) == w - #[trigger] progress(
        s,
        w,
    ) by {
        assert(progress(t, w) == w - progress(s, w));
    }
    assert forall|w: int| 0 <= w < n implies t.left[#[trigger] pos_of(t.vals, w)] == (if w > v {
        !s.left[pos_of(s.vals, w)]
    } else {
        s.left[pos_of(s.vals, w)]
    }) by {
        lemma_pos_valid(s.vals, n, w);
        let p = pos_of(s.vals, w);
        let landing = if p == j {
            i
        } else if p == i {
            j
        } else {
            p
        };
        assert(t.vals[landing] == w);
        lemma_pos_of(t.vals, n, landing);
        assert(swapped(s.left, i, j)[landing] == s.left[p]);
    }
}

/// A value is at the end of its sweep where neither it nor any larger
/// value is mobile.
#[verifier::rlimit(40)]
pub proof fn lemma_stuck(s: Directed, n: nat, w: int)
    requires
        well_formed(s, n),
        0 <= w < n,
        forall|u: int| w <= u < n ==> !is_mobile(s, #[trigger] pos_of(s.vals, u)),
    ensures
        progress(s, w) == w,
    decreases n - w,
{
    let vals = s.vals;
    lemma_pos_valid(vals, n, w);
    let p = pos_of(vals, w);
    assert(!is_mobile(s, p));
    if s.left[p] {
        if p > 0 {
            assert(vals[p - 1] != vals[p]);
            let x = vals[p - 1] as int;
            lemma_pos_of(vals, n, p - 1);
            lemma_stuck(s, n, x);
            if s.left[p - 1] {
                assert forall|t: int| 0 <= t < p implies vals[t] >= w by {
                    if t < p - 1 && vals[t] < x {
                        lemma_count_some(vals, p - 1, x, t);
                    }
                }
                lemma_count_none(vals, p, w);
            } else {
                assert forall|t: int| 0 <= t < p - 1 implies vals[t] != w by {
                    assert(vals[t] != vals[p]);
                }
                lemma_count_missing(vals, p - 1, w, x);
            }
        }
    } else {
        if p == n - 1 {
            lemma_count_full(vals, n, w);
        } else {
            assert(vals[p] != vals[p + 1]);
            let x = vals[p + 1] as int;
            lemma_pos_of(vals, n, p + 1);
            lemma_stuck(s, n, x);
            if s.left[p + 1] {
                lemma_count_some(vals, p + 1, x, p);
            } else {
                lemma_count_growth(vals, p + 1, w, x);
                lemma_count_zero(vals, p + 1);
                lemma_count_growth(vals, p + 1, 0, w);
            }
        }
    }
}

/// A move of the value `v`, after which the larger values start their
/// sweeps anew, raises the rank by one from `v` on.
pub proof fn lemma_rank_exact(s: Directed, t: Directed, n: nat, v: int, m: nat)
    requires
        0 <= v < n,
        m <= n,
        progress(t, v) == progress(s, v) + 1,
        forall|w: int| 0 <= w < v ==> progress(t, w) == #[trigger] progress(s, w),
        forall|w: int| v < w < n ==> #[trigger] progress(s, w) == w && progress(t, w) == 0,
    ensures
        m <= v ==> rank_upto(t, m) == rank_upto(s, m),
        m > v ==> rank_upto(t, m) == rank_upto(s, m) + 1,
    decreases m,
{
    if m > 0 {
        let k = (m - 1) as nat;
        lemma_rank_exact(s, t, n, v, k);
        if m - 1 > v {
            let a = rank_upto(s, k);
            assert(progress(s, m - 1) == m - 1 && progress(t, m - 1) == 0);
            assert(m * (a + 1) == m * a + m) by (nonlinear_arith);
        } else if m - 1 == v {
        } else {
            assert(progress(t, m - 1) == progress(s, m - 1));
        }
    }
}

/// Where the smaller values keep their direction and rank, and the larger
/// ones change both their direction and the parity of their rank, the
/// directions still follow the ranks.
#[verifier::rlimit(40)]
proof fn lemma_dirs_transfer(s: Directed, t: Directed, n: nat, v: int)
    requires
        0 <= v < n,
        dirs_follow(s, n),
        forall|m: nat| m <= v ==> #[trigger] rank_upto(t, m) == rank_upto(s, m),
        forall|m: nat| v < m <= n ==> #[trigger] rank_upto(t, m) == rank_upto(s, m) + 1,
        forall|w: int|
            0 <= w < n ==> t.left[#[trigger] pos_of(t.vals, w)] == (if w > v {
                !s.left[pos_of(s.vals, w)]
            } else {
                s.left[pos_of(s.vals, w)]
            }),
    ensures
        dirs_follow(t, n),
{
    assert forall|w: nat| w < n implies (t.left[#[trigger] pos_of(t.vals, w as int)] <==> rank_upto(
        t,
        w,
    ) % 2 == 0) by {
        assert(s.left[pos_of(s.vals, w as int)] <==> rank_upto(s, w) % 2 == 0);
        if w > v {
            assert(rank_upto(t, w) == rank_upto(s, w) + 1);
        } else {
            assert(rank_upto(t, w) == rank_upto(s, w));
        }
    }
}

/// After a move of the largest mobile value, the larger values are at the
/// start of their sweeps, and were at the end before.
#[verifier::rlimit(40)]
proof fn lemma_larger_restart(s: Directed, n: nat, i: int)
    requires
        well_formed(s, n),
        is_mobile(s, i),
        forall|j: int| is_mobile(s, j) ==> s.vals[j] <= s.vals[i],
    ensures
        forall|w: int|
            s.vals[i] < w < n ==> #[trigger] progress(s, w) == w && progress(sjt_move(s, i), w) == 0,
{
    let t = sjt_move(s, i);
    let v = s.vals[i] as int;
    lemma_move(s, n, i);
    assert forall|w: int| v < w < n implies #[trigger] progress(s, w) == w && progress(t, w)
        == 0 by {
        assert forall|u: int| w <= u < n implies !is_mobile(s, #[trigger] pos_of(s.vals, u)) by {
            lemma_pos_valid(s.vals, n, u);
        }
        lemma_stuck(s, n, w);
        assert(progress(t, w) == w - progress(s, w));
    }
}

/// After a move of the largest mobile value, the directions still follow
/// the ranks, and the rank is the next.
#[verifier::rlimit(40)]
pub proof fn lemma_dirs_after_move(s: Directed, n: nat, i: int)
    requires
        well_formed(s, n),
        dirs_follow(s, n),
        is_mobile(s, i),
        forall|j: int| is_mobile(s, j) ==> s.vals[j] <= s.vals[i],
    ensures
        dirs_follow(sjt_move(s, i), n),
        sjt_rank(sjt_move(s, i)) == sjt_rank(s) + 1,
{
    let t = sjt_move(s, i);
    let v = s.vals[i] as int;
    lemma_move(s, n, i);
    lemma_larger_restart(s, n, i);
    assert forall|m: nat| m <= n implies (if m <= v {
        #[trigger] rank_upto(t, m) == rank_upto(s, m)
    } else {
        rank_upto(t, m) == rank_upto(s, m) + 1
    }) by {
        lemma_rank_exact(s, t, n, v, m);
    }
    lemma_dirs_transfer(s, t, n, v);
    assert(rank_upto(t, n) == rank_upto(s, n) + 1);
}

/// States with the same permutation whose directions follow the ranks have
/// the same rank.
pub proof fn lemma_same_rank(s: Directed, t: Directed, n: nat, m: nat)
    requires
        s.vals == t.vals,
        dirs_follow(s, n),
        dirs_follow(t, n),
        m <= n,
    ensures
        rank_upto(s, m) == rank_upto(t, m),
    decreases m,
{
    if m > 0 {
        let w = (m - 1) as nat;
        lemma_same_rank(s, t, n, w);
        assert(s.left[pos_of(s.vals, w as int)] <==> rank_upto(s, w) % 2 == 0);
        assert(t.left[pos_of(t.vals, w as int)] <==> rank_upto(t, w) % 2 == 0);
    }
}

/// A state without a mobile value has the last rank.
pub proof fn lemma_final_rank(s: Directed, n: nat, m: nat)
    requires
        well_formed(s, n),
        !has_mobile(s),
        m <= n,
    ensures
        rank_upto(s, m) + 1 == factorial(m),
    decreases m,
{
    if m > 0 {
        let w = m - 1;
        lemma_final_rank(s, n, (m - 1) as nat);
        lemma_stuck(s, n, w);
        let a = rank_upto(s, (m - 1) as nat);
        assert(m * a + (m - 1) + 1 == m * (a + 1)) by (nonlinear_arith);
    }
}

/// The start has rank 0, and its directions follow the ranks.
pub proof fn lemma_start_rank(n: nat, m: nat)
    requires
        n <= usize::MAX,
        m <= n,
    ensures
        well_formed(sjt_start(n), n),
        rank_upto(sjt_start(n), m) == 0,
        dirs_follow(sjt_start(n), n),
    decreases m,
{
    let s = sjt_start(n);
    assert(well_formed(s, n));
    if m > 0 {
        lemma_start_rank(n, (m - 1) as nat);
        let w = m - 1;
        lemma_pos_of(s.vals, n, w);
        assert forall|t: int| 0 <= t < w implies s.vals[t] < w by {}
        lemma_count_all(s.vals, w, w);
        assert(m * 0 == 0);
    }
    assert forall|w: nat| w < n implies (s.left[#[trigger] pos_of(s.vals, w as int)] <==> rank_upto(
        s,
        w,
    ) % 2 == 0) by {
        lemma_start_rank_zero(n, w);
        lemma_pos_valid(s.vals, n, w as int);
    }
}

proof fn lemma_start_rank_zero(n: nat, m: nat)
    requires
        n <= usize::MAX,
        m <= n,
    ensures
        rank_upto(sjt_start(n), m) == 0,
    decreases m,
{
    let s = sjt_start(n);
    assert(well_formed(s, n));
    if m > 0 {
        lemma_start_rank_zero(n, (m - 1) as nat);
        let w = m - 1;
        lemma_pos_of(s.vals, n, w);
        lemma_count_all(s.vals, w, w);
        assert(m * 0 == 0);
    }
}

proof fn lemma_count_all(s: Seq<usize>, q: int, x: int)
    requires
        0 <= q <= s.len(),
        forall|t: int| 0 <= t < q ==> s[t] < x,
    ensures
        count_below(s, q, x) == q,
    decreases q,
{
    if q > 0 {
        lemma_count_all(s, q - 1, x);
    }
}

} // verus!
