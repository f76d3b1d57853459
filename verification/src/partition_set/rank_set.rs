//! Counting set partitions by Stirling numbers of the second kind.

use vstd::prelude::*;
use crate::sequences::filled;

verus! {

/// The Stirling number of the second kind S(n, k): the number of partitions
/// of an n-element set into k non-empty blocks.
pub open spec fn stirling2(n: nat, k: nat) -> nat
    decreases n,
{
    if n == 0 {
        if k == 0 {
            1
        } else {
            0
        }
    } else if k == 0 {
        0
    } else {
        k * stirling2((n - 1) as nat, k) + stirling2((n - 1) as nat, (k - 1) as nat)
    }
}

/// Every Stirling number that the table for S(n, k) holds fits in a machine
/// word.
pub open spec fn stirling_fits(n: nat, k: nat) -> bool {
    forall|i: nat, j: nat| i <= n && j <= k ==> #[trigger] stirling2(i, j) <= usize::MAX
}

/// There is no partition into more blocks than elements: S(n, k) is 0 for
/// k > n.
pub proof fn lemma_stirling_zero(n: nat, k: nat)
    requires
        k > n,
    ensures
        stirling2(n, k) == 0,
    decreases n,
{
    if n > 0 {
        lemma_stirling_zero((n - 1) as nat, k);
        lemma_stirling_zero((n - 1) as nat, (k - 1) as nat);
        assert(k * 0 == 0);
    }
}

/// The number of ways to place `r` further elements where there are `m`
/// blocks and `k` more are to be opened: the last element goes into one of
/// the `m + k` blocks, or is alone in the last block that is opened.
pub open spec fn placements(r: nat, m: nat, k: int) -> nat
    decreases r,
{
    if k < 0 {
        0
    } else if r == 0 {
        if k == 0 {
            1
        } else {
            0
        }
    } else {
        ((m + k) * placements((r - 1) as nat, m, k) + placements((r - 1) as nat, m, k - 1)) as nat
    }
}

/// The placements, counted by where the first element goes: into one of the
/// `m` blocks that are there, or into a new block.
pub proof fn lemma_placements_front(r: nat, m: nat, k: int)
    requires
        r >= 1,
    ensures
        placements(r, m, k) == m * placements((r - 1) as nat, m, k) + placements(
            (r - 1) as nat,
            m + 1,
            k - 1,
        ),
    decreases r,
{
    let r1 = (r - 1) as nat;
    if k < 0 {
        assert(m * 0 == 0);
    } else if r == 1 {
        assert(placements(1, m, k) == (m + k) * placements(0, m, k) + placements(0, m, k - 1));
        if k == 0 {
            assert((m + k) * 1 == m * 1);
        } else {
            assert((m + k) * 0 == 0);
            assert(m * 0 == 0);
        }
    } else {
        let r2 = (r - 2) as nat;
        lemma_placements_front(r1, m, k);
        lemma_placements_front(r1, m, k - 1);
        let a = placements(r2, m, k) as int;
        let b = placements(r2, m + 1, k - 1) as int;
        let c = placements(r2, m, k - 1) as int;
        let d = placements(r2, m + 1, k - 2) as int;
        assert(placements(r1, m, k) == m * a + b);
        assert(placements(r1, m, k - 1) == m * c + d);
        assert(placements(r1, m + 1, k - 1) == (m + k) * b + d) by {
            if k - 1 < 0 {
                assert((m + k) * 0 == 0);
            } else {
                assert(m + 1 + (k - 1) == m + k);
            }
        }
        assert(placements(r, m, k) == (m + k) * (m * a + b) + (m * c + d));
        assert((m + k) * (m * a + b) + (m * c + d) == m * ((m + k) * a + c) + ((m + k) * b + d))
            by (nonlinear_arith);
        assert(placements(r1, m, k) == (m + k) * a + c) by {
            assert(placements(r1, m, k) == (m + k) * placements(r2, m, k) + placements(
                r2,
                m,
                k - 1,
            ));
        }
    }
}

/// With no block there, the placements are counted by the Stirling numbers.
pub proof fn lemma_placements_stirling(n: nat, k: nat)
    ensures
        placements(n, 0, k as int) == stirling2(n, k),
    decreases n,
{
    if n > 0 {
        let n1 = (n - 1) as nat;
        lemma_placements_stirling(n1, k);
        let a = placements(n1, 0, k as int) as int;
        let b = placements(n1, 0, k - 1) as int;
        assert(placements(n, 0, k as int) == (0 + k) * a + b);
        assert((0 + k) * a == k * a);
        if k > 0 {
            lemma_placements_stirling(n1, (k - 1) as nat);
            assert(stirling2(n, k) == k * stirling2(n1, k) + stirling2(n1, (k - 1) as nat));
        } else {
            assert(k * a == 0) by (nonlinear_arith)
                requires
                    k == 0,
            ;
        }
    }
}

/// The sum of the placements of `r` further elements, where there are `m`
/// blocks, over the numbers 0, ..., `top` of blocks that are opened.
pub open spec fn placements_upto(r: nat, m: nat, top: int) -> nat
    decreases top + 1,
{
    if top < 0 {
        0
    } else {
        placements_upto(r, m, top - 1) + placements(r, m, top)
    }
}

/// The sum of the Stirling numbers S(n, 0), ..., S(n, top).
pub open spec fn stirling_sum(n: nat, top: int) -> nat
    decreases top + 1,
{
    if top < 0 {
        0
    } else {
        stirling_sum(n, top - 1) + stirling2(n, top as nat)
    }
}

/// The Bell number B(n): the number of partitions of an n-element set, the
/// sum of the Stirling numbers S(n, 0), ..., S(n, n).
pub open spec fn bell(n: nat) -> nat {
    stirling_sum(n, n as int)
}

/// With no block there, the sums of the placements are the sums of the
/// Stirling numbers.
pub proof fn lemma_placements_sum(n: nat, top: int)
    ensures
        placements_upto(n, 0, top) == stirling_sum(n, top),
    decreases top + 1,
{
    if top >= 0 {
        lemma_placements_sum(n, top - 1);
        lemma_placements_stirling(n, top as nat);
    }
}

/// No more blocks can be opened than there are elements left.
pub proof fn lemma_placements_zero(r: nat, m: nat, k: int)
    requires
        k > r,
    ensures
        placements(r, m, k) == 0,
    decreases r,
{
    if r > 0 {
        lemma_placements_zero((r - 1) as nat, m, k);
        lemma_placements_zero((r - 1) as nat, m, k - 1);
        assert((m + k) * 0 == 0);
    }
}

/// The sum of the placements, by where the first element goes.
pub proof fn lemma_placements_upto_front(r: nat, m: nat, top: int)
    requires
        r >= 1,
        top >= -1,
    ensures
        placements_upto(r, m, top) == m * placements_upto((r - 1) as nat, m, top) + placements_upto(
            (r - 1) as nat,
            m + 1,
            top - 1,
        ),
    decreases top + 1,
{
    let r1 = (r - 1) as nat;
    if top < 0 {
        assert(m * 0 == 0);
    } else {
        lemma_placements_upto_front(r, m, top - 1);
        lemma_placements_front(r, m, top);
        let a = placements_upto(r1, m, top - 1) as int;
        let b = placements(r1, m, top) as int;
        assert(m * (a + b) == m * a + m * b) by (nonlinear_arith);
        assert(placements_upto(r1, m + 1, top - 1) == placements_upto(r1, m + 1, top - 2)
            + placements(r1, m + 1, top - 1)) by {
            if top - 1 < 0 {
                assert(placements(r1, m + 1, top - 1) == 0);
            }
        }
    }
}

/// Compute the Stirling number of the second kind S(n, k) by its
/// recurrence.
pub fn stirling(n: usize, k: usize) -> (res: usize)
    requires
        n < usize::MAX,
        k < usize::MAX,
        stirling_fits(n as nat, k as nat),
    ensures
        res == stirling2(n as nat, k as nat),
{
    let mut dp: Vec<Vec<usize>> = Vec::new();
    let mut first: Vec<usize> = filled(0, k + 1);
    first[0] = 1;
    dp.push(first);
    let mut i: usize = 1;
    while i <= n
        invariant
            1 <= i <= n + 1,
            n < usize::MAX,
            k < usize::MAX,
            stirling_fits(n as nat, k as nat),
            dp.len() == i,
            forall|a: int| 0 <= a < i ==> (#[trigger] dp[a]).len() == k + 1,
            forall|a: int, b: int|
                0 <= a < i && 0 <= b <= k ==> #[trigger] dp[a][b] == stirling2(a as nat, b as nat),
        decreases n + 1 - i,
    {
        let mut row: Vec<usize> = filled(0, k + 1);
        let top: usize = if k < i {
            k
        } else {
            i
        };
        let mut j: usize = 1;
        while j <= top
            invariant
                1 <= j <= top + 1,
                top <= k,
                top <= i,
                1 <= i <= n,
                k < usize::MAX,
                stirling_fits(n as nat, k as nat),
                dp.len() == i,
                row.len() == k + 1,
                forall|a: int| 0 <= a < i ==> (#[trigger] dp[a]).len() == k + 1,
                forall|a: int, b: int|
                    0 <= a < i && 0 <= b <= k ==> #[trigger] dp[a][b] == stirling2(
                        a as nat,
                        b as nat,
                    ),
                forall|b: int| 0 <= b < j ==> #[trigger] row[b] == stirling2(i as nat, b as nat),
                forall|b: int| j <= b <= k ==> #[trigger] row[b] == 0,
            decreases top + 1 - j,
        {
            proof {
                let a = stirling2((i - 1) as nat, j as nat);
                let b = stirling2((i - 1) as nat, (j - 1) as nat);
                assert(stirling2(i as nat, j as nat) == j * a + b);
                assert(stirling2(i as nat, j as nat) <= usize::MAX);
                assert(j * a <= j * a + b);
            }
            let entry: usize = j * dp[i - 1][j] + dp[i - 1][j - 1];
            row[j] = entry;
            j += 1;
        }
        proof {
            assert forall|b: int| 0 <= b <= k implies #[trigger] row[b] == stirling2(
                i as nat,
                b as nat,
            ) by {
                if b >= j {
                    lemma_stirling_zero(i as nat, b as nat);
                }
            }
        }
        dp.push(row);
        i += 1;
    }
    dp[n][k]
}

/// The number of partitions of an `n`-element set into `k` blocks.
pub fn count_set_partitions(n: usize, k: usize) -> (res: usize)
    requires
        n < usize::MAX,
        k < usize::MAX,
        stirling_fits(n as nat, k as nat),
    ensures
        res == stirling2(n as nat, k as nat),
{
    stirling(n, k)
}

} // verus!
