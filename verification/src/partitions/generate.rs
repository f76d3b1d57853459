//! Generation of the partitions of an integer.

use vstd::prelude::*;
use crate::sequences::{lemma_concat_contains, lemma_rows_push, rows};

verus! {

/// The sum of the parts.
pub open spec fn parts_sum(p: Seq<usize>) -> nat
    decreases p.len(),
{
    if p.len() == 0 {
        0
    } else {
        parts_sum(p.drop_last()) + p.last() as nat
    }
}

/// A non-increasing sequence of positive parts that sum to `n`.
pub open spec fn is_partition(p: Seq<usize>, n: nat) -> bool {
    &&& parts_sum(p) == n
    &&& forall|i: int| 0 <= i < p.len() ==> (#[trigger] p[i]) >= 1
    &&& forall|i: int, j: int| 0 <= i <= j < p.len() ==> p[i] >= p[j]
}

/// The sequences that continue `prefix` with non-increasing parts, none
/// above `max_part`, that sum to `rem`; those with the larger next part
/// come first.
pub open spec fn partitions_with(rem: nat, max_part: nat, prefix: Seq<usize>) -> Seq<Seq<usize>>
    decreases rem, max_part,
{
    if rem == 0 {
        seq![prefix]
    } else if max_part == 0 {
        Seq::empty()
    } else {
        let with_max = if max_part <= rem {
            partitions_with((rem - max_part) as nat, max_part, prefix.push(max_part as usize))
        } else {
            Seq::empty()
        };
        with_max + partitions_with(rem, (max_part - 1) as nat, prefix)
    }
}

/// A non-increasing sequence of positive parts, none above `max_part`, that
/// sum to `rem`.
pub open spec fn is_bounded_partition(q: Seq<usize>, rem: nat, max_part: nat) -> bool {
    &&& parts_sum(q) == rem
    &&& forall|i: int| 0 <= i < q.len() ==> 1 <= (#[trigger] q[i]) <= max_part
    &&& forall|i: int, j: int| 0 <= i <= j < q.len() ==> q[i] >= q[j]
}

/// The sum of the parts is the first part and the sum of the others.
pub proof fn lemma_sum_first(q: Seq<usize>)
    requires
        q.len() > 0,
    ensures
        parts_sum(q) == q[0] + parts_sum(q.skip(1)),
    decreases q.len(),
{
    if q.len() == 1 {
        assert(q.drop_last() =~= Seq::empty());
        assert(q.skip(1) =~= Seq::empty());
    } else {
        lemma_sum_first(q.drop_last());
        assert(q.drop_last().skip(1) =~= q.skip(1).drop_last());
    }
}

/// A sequence of parts that sum to a positive number is not empty, and one
/// of positive parts that sum to 0 is.
proof fn lemma_sum_zero(q: Seq<usize>)
    requires
        forall|i: int| 0 <= i < q.len() ==> (#[trigger] q[i]) >= 1,
    ensures
        parts_sum(q) == 0 <==> q.len() == 0,
{
    if q.len() > 0 {
        lemma_sum_first(q);
    }
}

/// The generation from a prefix lists exactly the sequences that continue
/// the prefix by a partition of what remains into parts of at most
/// `max_part`.
#[verifier::rlimit(40)]
pub proof fn lemma_partitions_with(rem: nat, max_part: nat, prefix: Seq<usize>, p: Seq<usize>)
    requires
        max_part <= usize::MAX,
    ensures
        partitions_with(rem, max_part, prefix).contains(p) <==> prefix.is_prefix_of(p)
            && is_bounded_partition(p.skip(prefix.len() as int), rem, max_part),
    decreases rem, max_part,
{
    let list = partitions_with(rem, max_part, prefix);
    let k = prefix.len() as int;
    let tail = p.skip(k);
    if prefix.is_prefix_of(p) && forall|i: int| 0 <= i < tail.len() ==> (#[trigger] tail[i]) >= 1 {
        lemma_sum_zero(tail);
    }
    if rem == 0 {
        assert(list[0] == prefix);
        if list.contains(p) {
            assert(p == prefix);
            assert(tail =~= Seq::empty());
            assert(prefix =~= p.subrange(0, k));
        }
        if prefix.is_prefix_of(p) && is_bounded_partition(tail, rem, max_part) {
            assert(p =~= prefix);
        }
    } else if max_part == 0 {
        if prefix.is_prefix_of(p) && is_bounded_partition(tail, rem, max_part) {
            assert(tail[0] >= 1);
        }
    } else {
        let next = prefix.push(max_part as usize);
        let with_max = if max_part <= rem {
            partitions_with((rem - max_part) as nat, max_part, next)
        } else {
            Seq::empty()
        };
        let rest = partitions_with(rem, (max_part - 1) as nat, prefix);
        lemma_concat_contains(with_max, rest, p);
        lemma_partitions_with(rem, (max_part - 1) as nat, prefix, p);
        if max_part <= rem {
            lemma_partitions_with((rem - max_part) as nat, max_part, next, p);
        }
        if next.is_prefix_of(p) {
            assert(p[k] == next[k]);
            assert(prefix =~= p.subrange(0, k));
            assert(p.skip(k + 1) =~= tail.skip(1));
            lemma_sum_first(tail);
            if max_part <= rem && is_bounded_partition(tail.skip(1), (rem - max_part) as nat, max_part) {
                assert(is_bounded_partition(tail, rem, max_part)) by {
                    assert forall|i: int| 0 <= i < tail.len() implies 1 <= (#[trigger] tail[i])
                        <= max_part by {
                        if i > 0 {
                            assert(tail.skip(1)[i - 1] == tail[i]);
                        }
                    }
                    assert forall|i: int, j: int| 0 <= i <= j < tail.len() implies tail[i]
                        >= tail[j] by {
                        if i > 0 {
                            assert(tail.skip(1)[i - 1] >= tail.skip(1)[j - 1]);
                        } else if j > 0 {
                            assert(tail.skip(1)[j - 1] == tail[j]);
                        }
                    }
                }
            }
        }
        if prefix.is_prefix_of(p) && is_bounded_partition(tail, rem, max_part) {
            assert(tail.len() > 0);
            lemma_sum_first(tail);
            if tail[0] == max_part {
                assert(next =~= p.subrange(0, k + 1)) by {
                    assert(prefix =~= p.subrange(0, k));
                    assert(p[k] == tail[0]);
                }
                assert(p.skip(k + 1) =~= tail.skip(1));
                assert(is_bounded_partition(tail.skip(1), (rem - max_part) as nat, max_part)) by {
                    assert forall|i: int| 0 <= i < tail.skip(1).len() implies 1 <= (
                    #[trigger] tail.skip(1)[i]) <= max_part by {
                        assert(tail.skip(1)[i] == tail[i + 1]);
                    }
                    assert forall|i: int, j: int| 0 <= i <= j < tail.skip(1).len() implies tail.skip(
                        1,
                    )[i] >= tail.skip(1)[j] by {
                        assert(tail[i + 1] >= tail[j + 1]);
                    }
                }
            } else {
                assert(is_bounded_partition(tail, rem, (max_part - 1) as nat)) by {
                    assert forall|i: int| 0 <= i < tail.len() implies 1 <= (#[trigger] tail[i])
                        <= max_part - 1 by {
                        assert(tail[0] >= tail[i]);
                    }
                }
            }
        }
        if prefix.is_prefix_of(p) && is_bounded_partition(tail, rem, (max_part - 1) as nat) {
            assert(is_bounded_partition(tail, rem, max_part));
        }
    }
}

/// No sequence is generated twice: those that continue with the largest
/// part differ at that part from those that continue with a smaller one.
pub proof fn lemma_partitions_distinct(rem: nat, max_part: nat, prefix: Seq<usize>)
    requires
        max_part <= usize::MAX,
    ensures
        partitions_with(rem, max_part, prefix).no_duplicates(),
    decreases rem, max_part,
{
    if rem > 0 && max_part > 0 {
        let k = prefix.len() as int;
        let longer = prefix.push(max_part as usize);
        let with_max = if max_part <= rem {
            partitions_with((rem - max_part) as nat, max_part, longer)
        } else {
            Seq::empty()
        };
        let rest = partitions_with(rem, (max_part - 1) as nat, prefix);
        if max_part <= rem {
            lemma_partitions_distinct((rem - max_part) as nat, max_part, longer);
        }
        lemma_partitions_distinct(rem, (max_part - 1) as nat, prefix);
        assert forall|s: int, w: int| 0 <= s < with_max.len() && 0 <= w < rest.len() implies with_max[s]
            != rest[w] by {
            let p = with_max[s];
            if p == rest[w] {
                assert(with_max.contains(p));
                assert(rest.contains(p));
                lemma_partitions_with((rem - max_part) as nat, max_part, longer, p);
                lemma_partitions_with(rem, (max_part - 1) as nat, prefix, p);
                assert(p[k] == longer[k]);
                assert(p.skip(k)[0] == p[k]);
            }
        }
        vstd::seq_lib::lemma_no_dup_in_concat(with_max, rest);
    }
}

/// The generated sequences are exactly the partitions of `n`.
pub proof fn lemma_partitions_are_complete(n: nat, p: Seq<usize>)
    requires
        n <= usize::MAX,
    ensures
        partitions_with(n, n, Seq::empty()).contains(p) <==> is_partition(p, n),
{
    lemma_partitions_with(n, n, Seq::empty(), p);
    assert(p.skip(0) =~= p);
    assert(Seq::<usize>::empty() =~= p.subrange(0, 0));
    if is_partition(p, n) {
        assert forall|i: int| 0 <= i < p.len() implies (#[trigger] p[i]) <= n by {
            lemma_part_bound(p, i);
        }
    }
}

/// No part is above the sum.
pub proof fn lemma_part_bound(p: Seq<usize>, i: int)
    requires
        0 <= i < p.len(),
    ensures
        p[i] <= parts_sum(p),
    decreases p.len(),
{
    if i < p.len() - 1 {
        lemma_part_bound(p.drop_last(), i);
    }
}

fn helper(rem: usize, max_part: usize, current: &mut Vec<usize>, result: &mut Vec<Vec<usize>>)
    ensures
        final(current)@ == old(current)@,
        rows(final(result)@) == rows(old(result)@) + partitions_with(
            rem as nat,
            max_part as nat,
            old(current)@,
        ),
    decreases rem, max_part,
{
    if rem == 0 {
        proof {
            lemma_rows_push(result@, *current);
        }
        result.push(current.clone());
        return ;
    }
    let mut part: usize = max_part;
    while part >= 1
        invariant
            rem > 0,
            part <= max_part,
            current@ == old(current)@,
            rows(result@) + partitions_with(rem as nat, part as nat, current@) == rows(
                old(result)@,
            ) + partitions_with(rem as nat, max_part as nat, current@),
        decreases part,
    {
        let ghost before = rows(result@);
        let ghost c = current@;
        if part <= rem {
            current.push(part);
            helper(rem - part, part, current, result);
            current.pop();
            assert(current@ =~= c);
        }
        proof {
            let here = if part <= rem {
                partitions_with((rem - part) as nat, part as nat, c.push(part))
            } else {
                Seq::empty()
            };
            let rest = partitions_with(rem as nat, (part - 1) as nat, c);
            assert(rows(result@) == before + here);
            assert((before + here) + rest =~= before + (here + rest));
        }
        part -= 1;
    }
    assert(rows(result@) + Seq::<Seq<usize>>::empty() =~= rows(result@));
}

/// Generate all partitions of `n`, each as a non-increasing sequence of
/// positive parts, those with the larger parts first.
pub fn generate_partitions(n: usize) -> (result: Vec<Vec<usize>>)
    ensures
        rows(result@) == partitions_with(n as nat, n as nat, Seq::empty()),
        forall|p: Seq<usize>| #[trigger] rows(result@).contains(p) <==> is_partition(p, n as nat),
        rows(result@).no_duplicates(),
{
    proof {
        lemma_partitions_distinct(n as nat, n as nat, Seq::empty());
        assert forall|p: Seq<usize>| #[trigger]
            partitions_with(n as nat, n as nat, Seq::empty()).contains(p) <==> is_partition(
                p,
                n as nat,
            ) by {
            lemma_partitions_are_complete(n as nat, p);
        }
    }
    let mut result: Vec<Vec<usize>> = Vec::new();
    let mut current: Vec<usize> = Vec::new();
    assert(rows(result@) =~= Seq::empty());
    helper(n, n, &mut current, &mut result);
    assert(Seq::<Seq<usize>>::empty() + partitions_with(n as nat, n as nat, Seq::empty())
        =~= partitions_with(n as nat, n as nat, Seq::empty()));
    result
}

} // verus!
