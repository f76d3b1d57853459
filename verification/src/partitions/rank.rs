//! Ranking of the partitions of an integer, by a table of partition counts.

use vstd::prelude::*;
use crate::partitions::generate::{
    is_bounded_partition,
    is_partition,
    lemma_part_bound,
    lemma_sum_first,
    parts_sum,
    partitions_with,
};
use crate::sequences::filled;

verus! {

/// The number of partitions of `i` into parts none of which exceeds `j`.
pub open spec fn bounded_partitions(i: nat, j: nat) -> nat
    decreases i, j,
{
    if i == 0 {
        1
    } else if j == 0 {
        0
    } else {
        bounded_partitions(i, (j - 1) as nat) + if j <= i {
            bounded_partitions((i - j) as nat, j)
        } else {
            0
        }
    }
}

/// `x`, or the largest machine integer where `x` is beyond it.
pub open spec fn capped(x: nat) -> usize {
    if x > usize::MAX {
        usize::MAX
    } else {
        x as usize
    }
}

/// The number of partitions of `rem` whose first part is one of
/// `lo`, ..., `hi`.
pub open spec fn larger_starts(rem: nat, lo: nat, hi: nat) -> nat
    decreases hi + 1 - lo,
{
    if lo > hi {
        0
    } else {
        (if lo <= rem {
            bounded_partitions((rem - lo) as nat, lo)
        } else {
            0
        }) + larger_starts(rem, lo + 1, hi)
    }
}

/// The rank contributed by the parts from position `k` on, where `rem` is
/// still to be partitioned and no part may exceed `prev_max`: for each part,
/// the number of partitions that have a larger part in its place.
pub open spec fn partition_rank_from(part: Seq<usize>, k: nat, rem: int, prev_max: nat) -> nat
    decreases part.len() - k,
{
    if k >= part.len() || rem < 0 {
        0
    } else {
        let x = part[k as int] as nat;
        larger_starts(rem as nat, x + 1, prev_max) + partition_rank_from(part, k + 1, rem - x, x)
    }
}

/// The rank of the partition `part` of `n` among all partitions of `n`,
/// those with the larger parts first.
pub open spec fn partition_rank(part: Seq<usize>, n: nat) -> nat {
    partition_rank_from(part, 0, n as int, n)
}

/// As many sequences are generated as there are partitions.
pub proof fn lemma_partitions_count(rem: nat, max_part: nat, prefix: Seq<usize>)
    ensures
        partitions_with(rem, max_part, prefix).len() == bounded_partitions(rem, max_part),
    decreases rem, max_part,
{
    if rem != 0 && max_part != 0 {
        lemma_partitions_count(rem, (max_part - 1) as nat, prefix);
        if max_part <= rem {
            lemma_partitions_count(
                (rem - max_part) as nat,
                max_part,
                prefix.push(max_part as usize),
            );
        }
    }
}

proof fn lemma_larger_starts_last(rem: nat, lo: nat, hi: nat)
    requires
        1 <= lo <= hi,
    ensures
        larger_starts(rem, lo, hi) == larger_starts(rem, lo, (hi - 1) as nat) + if hi <= rem {
            bounded_partitions((rem - hi) as nat, hi)
        } else {
            0
        },
    decreases hi - lo,
{
    if lo < hi {
        lemma_larger_starts_last(rem, lo + 1, hi);
        assert(larger_starts(rem, lo, (hi - 1) as nat) == (if lo <= rem {
            bounded_partitions((rem - lo) as nat, lo)
        } else {
            0
        }) + larger_starts(rem, lo + 1, (hi - 1) as nat));
    } else {
        assert(larger_starts(rem, lo + 1, hi) == 0);
        assert(larger_starts(rem, lo, (hi - 1) as nat) == 0);
    }
}

/// The rank of a partition from a position on is its position among the
/// sequences that are generated from there on.
#[verifier::rlimit(40)]
proof fn lemma_rank_from_is_position(rem: nat, max_part: nat, prefix: Seq<usize>, p: Seq<usize>)
    requires
        max_part <= usize::MAX,
        prefix.is_prefix_of(p),
        is_bounded_partition(p.skip(prefix.len() as int), rem, max_part),
    ensures
        partition_rank_from(p, prefix.len(), rem as int, max_part) < partitions_with(
            rem,
            max_part,
            prefix,
        ).len(),
        partitions_with(rem, max_part, prefix)[partition_rank_from(
            p,
            prefix.len(),
            rem as int,
            max_part,
        ) as int] == p,
    decreases rem, max_part,
{
    let k = prefix.len() as int;
    let tail = p.skip(k);
    let list = partitions_with(rem, max_part, prefix);
    if rem == 0 {
        if tail.len() > 0 {
            lemma_sum_first(tail);
            assert(tail[0] >= 1);
        }
        assert(p =~= prefix);
    } else {
        if tail.len() == 0 {
            assert(parts_sum(tail) == 0);
        }
        assert(tail[0] >= 1);
        let x = tail[0] as nat;
        assert(p[k] == tail[0]);
        lemma_sum_first(tail);
        let next = prefix.push(max_part as usize);
        let with_max = if max_part <= rem {
            partitions_with((rem - max_part) as nat, max_part, next)
        } else {
            Seq::empty()
        };
        let rest = partitions_with(rem, (max_part - 1) as nat, prefix);
        assert(list == with_max + rest);
        if x == max_part {
            assert(next =~= p.subrange(0, k + 1)) by {
                assert(prefix =~= p.subrange(0, k));
            }
            assert(p.skip(k + 1) =~= tail.skip(1));
            assert(is_bounded_partition(tail.skip(1), (rem - max_part) as nat, max_part)) by {
                assert forall|i: int| 0 <= i < tail.skip(1).len() implies 1 <= (#[trigger] tail.skip(
                    1,
                )[i]) <= max_part by {
                    assert(tail.skip(1)[i] == tail[i + 1]);
                }
                assert forall|i: int, j: int| 0 <= i <= j < tail.skip(1).len() implies tail.skip(
                    1,
                )[i] >= tail.skip(1)[j] by {
                    assert(tail[i + 1] >= tail[j + 1]);
                }
            }
            lemma_rank_from_is_position((rem - max_part) as nat, max_part, next, p);
            assert(larger_starts(rem, x + 1, max_part) == 0);
        } else {
            assert(is_bounded_partition(tail, rem, (max_part - 1) as nat)) by {
                assert forall|i: int| 0 <= i < tail.len() implies 1 <= (#[trigger] tail[i])
                    <= max_part - 1 by {
                    assert(tail[0] >= tail[i]);
                }
            }
            lemma_rank_from_is_position(rem, (max_part - 1) as nat, prefix, p);
            lemma_larger_starts_last(rem, x + 1, max_part);
            if max_part <= rem {
                lemma_partitions_count((rem - max_part) as nat, max_part, next);
            }
            let inner = partition_rank_from(p, prefix.len(), rem as int, (max_part - 1) as nat);
            assert(list[with_max.len() as int + inner as int] == rest[inner as int]);
        }
    }
}

/// The rank of a partition of `n` is its position among the partitions of
/// `n` as they are generated, those with the larger parts first.
pub proof fn lemma_rank_is_position(p: Seq<usize>, n: nat)
    requires
        n <= usize::MAX,
        is_partition(p, n),
    ensures
        partition_rank(p, n) < bounded_partitions(n, n),
        partitions_with(n, n, Seq::empty()).len() == bounded_partitions(n, n),
        partitions_with(n, n, Seq::empty())[partition_rank(p, n) as int] == p,
{
    assert(p.skip(0) =~= p);
    assert(Seq::<usize>::empty() =~= p.subrange(0, 0));
    assert forall|i: int| 0 <= i < p.len() implies (#[trigger] p[i]) <= n by {
        lemma_part_bound(p, i);
    }
    lemma_rank_from_is_position(n, n, Seq::empty(), p);
    lemma_partitions_count(n, n, Seq::empty());
}

/// Build the table of partition counts: entry (i, j), for i and j up to `n`,
/// is the number of partitions of i into parts of at most j, capped at the
/// largest machine integer.
pub fn partition_table(n: usize) -> (p: Vec<Vec<usize>>)
    requires
        n < usize::MAX,
    ensures
        p.len() == n + 1,
        forall|i: int| 0 <= i <= n ==> (#[trigger] p[i]).len() == n + 1,
        forall|i: int, j: int|
            0 <= i <= n && 0 <= j <= n ==> #[trigger] p[i][j] == capped(
                bounded_partitions(i as nat, j as nat),
            ),
{
    let mut p: Vec<Vec<usize>> = Vec::new();
    p.push(filled(1, n + 1));
    let mut i: usize = 1;
    while i <= n
        invariant
            1 <= i <= n + 1,
            n < usize::MAX,
            p.len() == i,
            forall|a: int| 0 <= a < i ==> (#[trigger] p[a]).len() == n + 1,
            forall|a: int, b: int|
                0 <= a < i && 0 <= b <= n ==> #[trigger] p[a][b] == capped(
                    bounded_partitions(a as nat, b as nat),
                ),
        decreases n + 1 - i,
    {
        let mut row: Vec<usize> = Vec::new();
        row.push(0);
        let mut j: usize = 1;
        while j <= n
            invariant
                1 <= j <= n + 1,
                1 <= i <= n,
                n < usize::MAX,
                p.len() == i,
                row.len() == j,
                forall|a: int| 0 <= a < i ==> (#[trigger] p[a]).len() == n + 1,
                forall|a: int, b: int|
                    0 <= a < i && 0 <= b <= n ==> #[trigger] p[a][b] == capped(
                        bounded_partitions(a as nat, b as nat),
                    ),
                forall|b: int|
                    0 <= b < j ==> #[trigger] row[b] == capped(
                        bounded_partitions(i as nat, b as nat),
                    ),
            decreases n + 1 - j,
        {
            let mut entry: usize = row[j - 1];
            if j <= i {
                entry = entry.saturating_add(p[i - j][j]);
            }
            row.push(entry);
            j += 1;
        }
        p.push(row);
        i += 1;
    }
    p
}

proof fn lemma_prefix_sum(p: Seq<usize>, k: int)
    requires
        0 <= k <= p.len(),
    ensures
        parts_sum(p.take(k)) <= parts_sum(p),
    decreases p.len() - k,
{
    if k < p.len() {
        lemma_prefix_sum(p, k + 1);
        assert(p.take(k + 1).drop_last() =~= p.take(k));
    } else {
        assert(p.take(k) =~= p);
    }
}

/// Compute the rank of a partition of `n` among all partitions of `n`,
/// capped at the largest machine integer.
pub fn rank_partition(part: &[usize], n: usize) -> (rank: usize)
    requires
        n < usize::MAX,
        is_partition(part@, n as nat),
    ensures
        rank == capped(partition_rank(part@, n as nat)),
        partition_rank(part@, n as nat) < bounded_partitions(n as nat, n as nat),
        partitions_with(n as nat, n as nat, Seq::empty())[partition_rank(part@, n as nat) as int]
            == part@,
{
    proof {
        lemma_rank_is_position(part@, n as nat);
    }
    let p = partition_table(n);
    let mut rank: usize = 0;
    let mut rem: usize = n;
    let mut prev_max: usize = n;
    let ghost mut acc: nat = 0;
    let mut k: usize = 0;
    while k < part.len()
        invariant
            k <= part.len(),
            n < usize::MAX,
            is_partition(part@, n as nat),
            rem == n - parts_sum(part@.take(k as int)),
            prev_max <= n,
            rank == capped(acc),
            acc + partition_rank_from(part@, k as nat, rem as int, prev_max as nat)
                == partition_rank(part@, n as nat),
            p.len() == n + 1,
            forall|i: int| 0 <= i <= n ==> (#[trigger] p[i]).len() == n + 1,
            forall|i: int, j: int|
                0 <= i <= n && 0 <= j <= n ==> #[trigger] p[i][j] == capped(
                    bounded_partitions(i as nat, j as nat),
                ),
        decreases part.len() - k,
    {
        let x: usize = part[k];
        proof {
            lemma_prefix_sum(part@, k + 1);
            assert(part@.take(k + 1).drop_last() =~= part@.take(k as int));
            assert(part@.take(k + 1).last() == x);
        }
        if x + 1 <= prev_max {
            let mut v: usize = x + 1;
            while v <= prev_max
                invariant
                    x + 1 <= v <= prev_max + 1,
                    prev_max <= n,
                    rem <= n,
                    n < usize::MAX,
                    rank == capped(acc),
                    acc + larger_starts(rem as nat, v as nat, prev_max as nat)
                        + partition_rank_from(part@, (k + 1) as nat, rem - x, x as nat)
                        == partition_rank(part@, n as nat),
                    p.len() == n + 1,
                    forall|i: int| 0 <= i <= n ==> (#[trigger] p[i]).len() == n + 1,
                    forall|i: int, j: int|
                        0 <= i <= n && 0 <= j <= n ==> #[trigger] p[i][j] == capped(
                            bounded_partitions(i as nat, j as nat),
                        ),
                decreases prev_max + 1 - v,
            {
                if v <= rem {
                    rank = rank.saturating_add(p[rem - v][v]);
                    proof {
                        acc = acc + bounded_partitions((rem - v) as nat, v as nat);
                    }
                }
                v += 1;
            }
        }
        rem = rem - x;
        prev_max = x;
        k += 1;
    }
    rank
}

} // verus!
