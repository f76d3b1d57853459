//! Counting the standard Young tableaux of a shape by the hook-length
//! formula.

use vstd::prelude::*;
use crate::permutations::ranking::{factorial, lemma_factorial_monotone};
use crate::sequences::rows;

verus! {

/// The number of occupied cells right of (i, j) in its row, up to the first
/// gap.
pub open spec fn arm(g: Seq<Seq<bool>>, i: int, j: int) -> nat
    decreases g[i].len() - j,
{
    if 0 <= j && j + 1 < g[i].len() && g[i][j + 1] {
        1 + arm(g, i, j + 1)
    } else {
        0
    }
}

/// The number of occupied cells below (i, j) in its column, up to the first
/// gap.
pub open spec fn leg(g: Seq<Seq<bool>>, i: int, j: int) -> nat
    decreases g.len() - i,
{
    if 0 <= i && i + 1 < g.len() && 0 <= j < g[i + 1].len() && g[i + 1][j] {
        1 + leg(g, i + 1, j)
    } else {
        0
    }
}

/// The hook length of the cell (i, j): the cell itself, its leg and its arm.
pub open spec fn hook(g: Seq<Seq<bool>>, i: int, j: int) -> nat {
    1 + leg(g, i, j) + arm(g, i, j)
}

/// The hook lengths of the occupied cells among the first `j` of row `i`.
pub open spec fn row_hooks(g: Seq<Seq<bool>>, i: int, j: int) -> Seq<nat>
    decreases j,
{
    if j <= 0 {
        Seq::empty()
    } else if g[i][j - 1] {
        row_hooks(g, i, j - 1).push(hook(g, i, j - 1))
    } else {
        row_hooks(g, i, j - 1)
    }
}

/// The hook lengths of the occupied cells of the first `i` rows.
pub open spec fn rows_hooks(g: Seq<Seq<bool>>, i: int) -> Seq<nat>
    decreases i,
{
    if i <= 0 {
        Seq::empty()
    } else {
        rows_hooks(g, i - 1) + row_hooks(g, i - 1, g[i - 1].len() as int)
    }
}

/// The hook lengths of all occupied cells, in row-major order.
pub open spec fn hook_lengths(g: Seq<Seq<bool>>) -> Seq<nat> {
    rows_hooks(g, g.len() as int)
}

/// The product of the entries.
pub open spec fn product(s: Seq<nat>) -> nat
    decreases s.len(),
{
    if s.len() == 0 {
        1
    } else {
        product(s.drop_last()) * s.last()
    }
}

/// The number of standard Young tableaux that the hook-length formula gives
/// for a diagram with `g` as its occupied cells.
pub open spec fn hook_count(g: Seq<Seq<bool>>) -> nat {
    factorial(hook_lengths(g).len()) / product(hook_lengths(g))
}

proof fn lemma_product_bounds(s: Seq<nat>, k: int)
    requires
        0 <= k <= s.len(),
        forall|m: int| 0 <= m < s.len() ==> #[trigger] s[m] >= 1,
    ensures
        1 <= product(s.take(k)) <= product(s),
        k < s.len() ==> product(s.take(k)) * s[k] <= product(s),
    decreases s.len() - k,
{
    if k == s.len() {
        assert(s.take(k) =~= s);
        lemma_product_positive(s);
    } else {
        lemma_product_bounds(s, k + 1);
        assert(s.take(k + 1).drop_last() =~= s.take(k));
        assert(s.take(k + 1).last() == s[k]);
        lemma_product_positive(s.take(k));
        assert(product(s.take(k)) <= product(s.take(k)) * s[k]) by (nonlinear_arith)
            requires
                s[k] >= 1,
        ;
    }
}

proof fn lemma_product_positive(s: Seq<nat>)
    requires
        forall|m: int| 0 <= m < s.len() ==> #[trigger] s[m] >= 1,
    ensures
        product(s) >= 1,
    decreases s.len(),
{
    if s.len() > 0 {
        lemma_product_positive(s.drop_last());
        assert(product(s.drop_last()) * s.last() >= 1) by (nonlinear_arith)
            requires
                product(s.drop_last()) >= 1,
                s.last() >= 1,
        ;
    }
}

proof fn lemma_row_hooks_positive(g: Seq<Seq<bool>>, i: int, j: int)
    ensures
        forall|m: int| 0 <= m < row_hooks(g, i, j).len() ==> #[trigger] row_hooks(g, i, j)[m] >= 1,
    decreases j,
{
    let s = row_hooks(g, i, j);
    if j > 0 {
        lemma_row_hooks_positive(g, i, j - 1);
        let prev = row_hooks(g, i, j - 1);
        assert forall|m: int| 0 <= m < s.len() implies #[trigger] s[m] >= 1 by {
            if m < prev.len() {
                assert(s[m] == prev[m]);
            }
        }
    }
}

proof fn lemma_rows_hooks_positive(g: Seq<Seq<bool>>, i: int)
    ensures
        forall|m: int| 0 <= m < rows_hooks(g, i).len() ==> #[trigger] rows_hooks(g, i)[m] >= 1,
    decreases i,
{
    let s = rows_hooks(g, i);
    if i > 0 {
        lemma_rows_hooks_positive(g, i - 1);
        lemma_row_hooks_positive(g, i - 1, g[i - 1].len() as int);
        let prev = rows_hooks(g, i - 1);
        let row = row_hooks(g, i - 1, g[i - 1].len() as int);
        assert forall|m: int| 0 <= m < s.len() implies #[trigger] s[m] >= 1 by {
            if m < prev.len() {
                assert(s[m] == prev[m]);
            } else {
                assert(s[m] == row[m - prev.len()]);
            }
        }
    }
}

/// The hooks collected up to a cell are a prefix of all of them.
proof fn lemma_hooks_prefix(g: Seq<Seq<bool>>, i: int, j: int)
    requires
        0 <= i < g.len(),
        0 <= j <= g[i].len(),
    ensures
        (rows_hooks(g, i) + row_hooks(g, i, j)).is_prefix_of(hook_lengths(g)),
    decreases g.len() - i, g[i].len() - j,
{
    let here = rows_hooks(g, i) + row_hooks(g, i, j);
    if j < g[i].len() {
        lemma_hooks_prefix(g, i, j + 1);
        let next = rows_hooks(g, i) + row_hooks(g, i, j + 1);
        assert(here.is_prefix_of(next)) by {
            if g[i][j] {
                assert(next =~= here.push(hook(g, i, j)));
            }
        }
        assert(here.is_prefix_of(hook_lengths(g)));
    } else if i + 1 < g.len() {
        lemma_hooks_prefix(g, i + 1, 0);
        assert(rows_hooks(g, i + 1) + row_hooks(g, i + 1, 0) =~= here);
    } else {
        assert(here =~= hook_lengths(g));
    }
}

/// Count the standard Young tableaux of a diagram, given as a grid of
/// occupied cells, by the hook-length formula: n! over the product of the
/// hook lengths of the n occupied cells.
#[verifier::rlimit(40)]
pub fn hook_length(shape: &[Vec<bool>]) -> (res: usize)
    requires
        product(hook_lengths(rows(shape@))) <= usize::MAX,
        factorial(hook_lengths(rows(shape@)).len()) <= usize::MAX,
    ensures
        res == hook_count(rows(shape@)),
{
    let ghost g = rows(shape@);
    let ghost all = hook_lengths(g);
    proof {
        lemma_rows_hooks_positive(g, g.len() as int);
    }
    let mut hooks: Vec<usize> = Vec::new();
    let mut i: usize = 0;
    while i < shape.len()
        invariant
            i <= shape.len(),
            g == rows(shape@),
            all == hook_lengths(g),
            product(all) <= usize::MAX,
            forall|m: int| 0 <= m < all.len() ==> #[trigger] all[m] >= 1,
            hooks@.map_values(|h: usize| h as nat) == rows_hooks(g, i as int),
        decreases shape.len() - i,
    {
        let mut j: usize = 0;
        while j < shape[i].len()
            invariant
                i < shape.len(),
                j <= shape[i as int].len(),
                g == rows(shape@),
                all == hook_lengths(g),
                product(all) <= usize::MAX,
                forall|m: int| 0 <= m < all.len() ==> #[trigger] all[m] >= 1,
                hooks@.map_values(|h: usize| h as nat) == rows_hooks(g, i as int) + row_hooks(
                    g,
                    i as int,
                    j as int,
                ),
            decreases shape[i as int].len() - j,
        {
            assert(g[i as int] == shape[i as int]@);
            if shape[i][j] {
                proof {
                    lemma_hooks_prefix(g, i as int, j as int);
                    lemma_hooks_prefix(g, i as int, j + 1);
                    let k = hooks@.len() as int;
                    let next = rows_hooks(g, i as int) + row_hooks(g, i as int, j + 1);
                    assert(next =~= (rows_hooks(g, i as int) + row_hooks(g, i as int, j as int)).push(
                        hook(g, i as int, j as int),
                    ));
                    assert(all[k] == next[k]);
                    lemma_product_bounds(all, k);
                    assert(all[k] <= product(all)) by (nonlinear_arith)
                        requires
                            product(all.take(k)) * all[k] <= product(all),
                            product(all.take(k)) >= 1,
                    ;
                }
                let mut h: usize = 1;
                // down
                let mut ii: usize = i + 1;
                while ii < shape.len() && j < shape[ii].len() && shape[ii][j]
                    invariant
                        i < ii <= shape.len(),
                        g == rows(shape@),
                        h == ii - i,
                        leg(g, i as int, j as int) == (ii - 1 - i) + leg(g, ii - 1, j as int),
                        hook(g, i as int, j as int) <= usize::MAX,
                    decreases shape.len() - ii,
                {
                    assert(g[ii as int] == shape[ii as int]@);
                    h += 1;
                    ii += 1;
                }
                assert(leg(g, ii - 1, j as int) == 0) by {
                    if ii < shape.len() {
                        assert(g[ii as int] == shape[ii as int]@);
                    }
                }
                // right
                let mut jj: usize = j + 1;
                while jj < shape[i].len() && shape[i][jj]
                    invariant
                        i < shape.len(),
                        j < jj <= shape[i as int].len(),
                        g == rows(shape@),
                        h == 1 + leg(g, i as int, j as int) + (jj - 1 - j),
                        arm(g, i as int, j as int) == (jj - 1 - j) + arm(g, i as int, jj - 1),
                        hook(g, i as int, j as int) <= usize::MAX,
                    decreases shape[i as int].len() - jj,
                {
                    assert(g[i as int] == shape[i as int]@);
                    h += 1;
                    jj += 1;
                }
                assert(h == hook(g, i as int, j as int));
                hooks.push(h);
                assert(hooks@.map_values(|h: usize| h as nat) =~= (rows_hooks(g, i as int)
                    + row_hooks(g, i as int, j as int)).push(hook(g, i as int, j as int)));
            }
            j += 1;
        }
        i += 1;
        assert(rows_hooks(g, i as int) + row_hooks(g, i as int, 0) =~= rows_hooks(g, i as int));
    }
    assert(hooks@.map_values(|h: usize| h as nat) == all);
    let n: usize = hooks.len();
    let mut num: usize = 1;
    let mut k: usize = 0;
    while k < n
        invariant
            k <= n,
            num == factorial(k as nat),
            factorial(n as nat) <= usize::MAX,
        decreases n - k,
    {
        k += 1;
        proof {
            lemma_factorial_monotone(k as nat, n as nat);
            assert(num * k == k * num) by (nonlinear_arith);
        }
        num = num * k;
    }
    let mut den: usize = 1;
    let mut m: usize = 0;
    while m < n
        invariant
            m <= n,
            n == hooks.len(),
            hooks@.map_values(|h: usize| h as nat) == all,
            den == product(all.take(m as int)),
            product(all) <= usize::MAX,
            forall|x: int| 0 <= x < all.len() ==> #[trigger] all[x] >= 1,
        decreases n - m,
    {
        proof {
            lemma_product_bounds(all, m as int);
            assert(all.take(m + 1).drop_last() =~= all.take(m as int));
            assert(all[m as int] == hooks[m as int] as nat);
        }
        den = den * hooks[m];
        m += 1;
    }
    proof {
        assert(all.take(n as int) =~= all);
        lemma_product_positive(all);
    }
    num / den
}

} // verus!
