//! Generation of the partitions of {0, ..., n - 1} into exactly k blocks.

use vstd::prelude::*;
use crate::partition_set::generate_set::{
    add_to_block,
    is_canonical,
    lemma_add_then_drop,
    lemma_distinct_from,
    lemma_set_partitions_complete,
    open_block,
    partitions_from,
    place_from,
};
use crate::partition_set::rank_set::{
    lemma_placements_front,
    lemma_placements_stirling,
    placements,
    stirling2,
};
use crate::sequences::{clone_rows, lemma_filter_distinct, lemma_tables_push, rows, tables};

verus! {

/// The partitions into exactly `k` blocks that arise from `parts` by placing
/// the elements `i`, ..., `n - 1` in order, where a new block is opened only
/// while there are fewer than `k`.
pub open spec fn k_partitions_from(n: nat, k: nat, parts: Seq<Seq<usize>>, i: nat) -> Seq<
    Seq<Seq<usize>>,
>
    decreases n - i, 1int, 0int,
{
    if i >= n {
        if parts.len() == k {
            seq![parts]
        } else {
            Seq::empty()
        }
    } else {
        k_place_from(n, k, parts, i, 0)
    }
}

/// The partitions into exactly `k` blocks that arise from `parts` by placing
/// `i` into one of the blocks `b`, ... or, while there are fewer than `k`
/// blocks, into a new one, and then the elements after `i`.
pub open spec fn k_place_from(n: nat, k: nat, parts: Seq<Seq<usize>>, i: nat, b: nat) -> Seq<
    Seq<Seq<usize>>,
>
    decreases n - i, 0int, parts.len() - b,
{
    if i >= n {
        Seq::empty()
    } else if b >= parts.len() {
        if parts.len() < k {
            k_partitions_from(n, k, open_block(parts, i as usize), i + 1)
        } else {
            Seq::empty()
        }
    } else {
        k_partitions_from(n, k, add_to_block(parts, b as int, i as usize), i + 1) + k_place_from(
            n,
            k,
            parts,
            i,
            b + 1,
        )
    }
}

/// One of the elements of `list` is `x`, and all have `lo` blocks at least.
pub open spec fn blocks_from(list: Seq<Seq<Seq<usize>>>, lo: nat) -> bool {
    forall|t: int| 0 <= t < list.len() ==> (#[trigger] list[t]).len() >= lo
}

/// The arrangements with exactly `k` blocks.
pub open spec fn with_blocks(k: nat) -> spec_fn(Seq<Seq<usize>>) -> bool {
    |p: Seq<Seq<usize>>| p.len() == k
}

proof fn lemma_filter_none(list: Seq<Seq<Seq<usize>>>, k: nat)
    requires
        blocks_from(list, k + 1),
    ensures
        list.filter(with_blocks(k)) == Seq::<Seq<Seq<usize>>>::empty(),
    decreases list.len(),
{
    reveal(Seq::filter);
    if list.len() > 0 {
        assert(list.last() == list[list.len() - 1]);
        assert(blocks_from(list.drop_last(), k + 1)) by {
            assert forall|t: int| 0 <= t < list.drop_last().len() implies (
            #[trigger] list.drop_last()[t]).len() >= k + 1 by {
                assert(list.drop_last()[t] == list[t]);
            }
        }
        lemma_filter_none(list.drop_last(), k);
    }
}

/// Every arrangement that is generated has at least the blocks that it was
/// generated from.
proof fn lemma_blocks_grow(n: nat, parts: Seq<Seq<usize>>, i: nat)
    ensures
        blocks_from(partitions_from(n, parts, i), parts.len()),
    decreases n - i, 1int, 0int,
{
    let list = partitions_from(n, parts, i);
    if i >= n {
        assert(list[0] == parts);
    } else {
        lemma_place_grow(n, parts, i, 0);
    }
}

proof fn lemma_place_grow(n: nat, parts: Seq<Seq<usize>>, i: nat, b: nat)
    requires
        i < n,
    ensures
        blocks_from(place_from(n, parts, i, b), parts.len()),
    decreases n - i, 0int, parts.len() - b,
{
    let list = place_from(n, parts, i, b);
    if b >= parts.len() {
        lemma_blocks_grow(n, open_block(parts, i as usize), i + 1);
    } else {
        let here = partitions_from(n, add_to_block(parts, b as int, i as usize), i + 1);
        let rest = place_from(n, parts, i, b + 1);
        lemma_blocks_grow(n, add_to_block(parts, b as int, i as usize), i + 1);
        lemma_place_grow(n, parts, i, b + 1);
        assert forall|t: int| 0 <= t < list.len() implies (#[trigger] list[t]).len()
            >= parts.len() by {
            if t < here.len() {
                assert(list[t] == here[t]);
            } else {
                assert(list[t] == rest[t - here.len()]);
            }
        }
    }
}

/// The partitions into exactly `k` blocks are those among all partitions
/// that have `k` blocks, in the same order.
pub proof fn lemma_fixed_k_from(n: nat, k: nat, parts: Seq<Seq<usize>>, i: nat)
    ensures
        k_partitions_from(n, k, parts, i) == partitions_from(n, parts, i).filter(with_blocks(k)),
    decreases n - i, 1int, 0int,
{
    if i >= n {
        reveal(Seq::filter);
        let one = seq![parts];
        let none = one.drop_last();
        assert(none.len() == 0);
        assert(none.filter(with_blocks(k)) =~= Seq::empty());
        assert(one.last() == parts);
        assert(one.filter(with_blocks(k)) =~= if parts.len() == k {
            one
        } else {
            Seq::empty()
        });
    } else {
        lemma_fixed_k_place(n, k, parts, i, 0);
    }
}

proof fn lemma_fixed_k_place(n: nat, k: nat, parts: Seq<Seq<usize>>, i: nat, b: nat)
    requires
        i < n,
    ensures
        k_place_from(n, k, parts, i, b) == place_from(n, parts, i, b).filter(with_blocks(k)),
    decreases n - i, 0int, parts.len() - b,
{
    if b >= parts.len() {
        if parts.len() < k {
            lemma_fixed_k_from(n, k, open_block(parts, i as usize), i + 1);
        } else {
            lemma_blocks_grow(n, open_block(parts, i as usize), i + 1);
            let list = partitions_from(n, open_block(parts, i as usize), i + 1);
            assert(blocks_from(list, k + 1));
            lemma_filter_none(list, k);
        }
    } else {
        let here = partitions_from(n, add_to_block(parts, b as int, i as usize), i + 1);
        let rest = place_from(n, parts, i, b + 1);
        lemma_fixed_k_from(n, k, add_to_block(parts, b as int, i as usize), i + 1);
        lemma_fixed_k_place(n, k, parts, i, b + 1);
        Seq::filter_distributes_over_add(here, rest, with_blocks(k));
    }
}

/// The partitions of {0, ..., n - 1} into exactly `k` blocks are the
/// partitions of {0, ..., n - 1} that have `k` blocks, in the order of
/// their generation.
pub proof fn lemma_fixed_k_is_filter(n: nat, k: nat)
    ensures
        k_partitions_from(n, k, Seq::empty(), 0) == partitions_from(n, Seq::empty(), 0).filter(
            with_blocks(k),
        ),
{
    lemma_fixed_k_from(n, k, Seq::empty(), 0);
}

/// The arrangements that are generated are exactly the partitions of
/// {0, ..., n - 1} with `k` blocks, in the form in which partitions are
/// generated.
pub proof fn lemma_fixed_k_members(n: nat, k: nat, x: Seq<Seq<usize>>)
    requires
        n <= usize::MAX,
    ensures
        k_partitions_from(n, k, Seq::empty(), 0).contains(x) <==> is_canonical(x, n) && x.len()
            == k,
{
    let all = partitions_from(n, Seq::empty(), 0);
    let pred = with_blocks(k);
    let some = all.filter(pred);
    lemma_fixed_k_is_filter(n, k);
    lemma_set_partitions_complete(n, x);
    if some.contains(x) {
        all.lemma_filter_contains_rev(pred, x);
        let i = choose|i: int| 0 <= i < some.len() && some[i] == x;
        all.lemma_filter_pred(pred, i);
    }
    if all.contains(x) && x.len() == k {
        let i = choose|i: int| 0 <= i < all.len() && all[i] == x;
        all.lemma_filter_contains(pred, i);
    }
}

/// As many partitions are generated from a state as there are placements
/// of the elements that remain.
proof fn lemma_count_from(n: nat, k: nat, parts: Seq<Seq<usize>>, i: nat)
    requires
        i <= n,
    ensures
        k_partitions_from(n, k, parts, i).len() == placements(
            (n - i) as nat,
            parts.len(),
            k - parts.len(),
        ),
    decreases n - i, 1int, 0int,
{
    if i < n {
        lemma_count_place(n, k, parts, i, 0);
        lemma_placements_front((n - i) as nat, parts.len(), k - parts.len());
        assert((parts.len() - 0) * placements((n - i - 1) as nat, parts.len(), k - parts.len())
            == parts.len() * placements((n - i - 1) as nat, parts.len(), k - parts.len()));
    }
}

proof fn lemma_count_place(n: nat, k: nat, parts: Seq<Seq<usize>>, i: nat, b: nat)
    requires
        i < n,
        b <= parts.len(),
    ensures
        k_place_from(n, k, parts, i, b).len() == (parts.len() - b) * placements(
            (n - i - 1) as nat,
            parts.len(),
            k - parts.len(),
        ) + placements((n - i - 1) as nat, parts.len() + 1, k - parts.len() - 1),
    decreases n - i, 0int, parts.len() - b,
{
    let m = parts.len();
    let each = placements((n - i - 1) as nat, m, k - m) as int;
    if b >= m {
        assert((m - b) * each == 0) by (nonlinear_arith)
            requires
                m - b == 0,
        ;
        if m < k {
            lemma_count_from(n, k, open_block(parts, i as usize), i + 1);
        }
    } else {
        lemma_count_from(n, k, add_to_block(parts, b as int, i as usize), i + 1);
        lemma_count_place(n, k, parts, i, b + 1);
        assert((m - b) * each == (m - (b + 1)) * each + each) by (nonlinear_arith);
    }
}

/// The partitions of {0, ..., n - 1} into exactly `k` blocks are counted by
/// the Stirling number of the second kind S(n, k).
pub proof fn lemma_fixed_k_count(n: nat, k: nat)
    ensures
        k_partitions_from(n, k, Seq::empty(), 0).len() == stirling2(n, k),
{
    lemma_count_from(n, k, Seq::empty(), 0);
    lemma_placements_stirling(n, k);
}

fn helper(
    i: usize,
    k: usize,
    parts: &mut Vec<Vec<usize>>,
    out: &mut Vec<Vec<Vec<usize>>>,
    n: usize,
)
    requires
        i <= n,
    ensures
        rows(final(parts)@) == rows(old(parts)@),
        tables(final(out)@) == tables(old(out)@) + k_partitions_from(
            n as nat,
            k as nat,
            rows(old(parts)@),
            i as nat,
        ),
    decreases n - i,
{
    let ghost p = rows(parts@);
    if i == n {
        if parts.len() == k {
            let copy = clone_rows(parts);
            proof {
                lemma_tables_push(out@, copy);
            }
            out.push(copy);
        } else {
            assert(tables(out@) + Seq::<Seq<Seq<usize>>>::empty() =~= tables(out@));
        }
        return ;
    }
    let mut block: usize = 0;
    while block < parts.len()
        invariant
            i < n,
            block <= parts.len(),
            rows(parts@) == p,
            tables(out@) + k_place_from(n as nat, k as nat, p, i as nat, block as nat) == tables(
                old(out)@,
            ) + k_place_from(n as nat, k as nat, p, i as nat, 0),
        decreases parts.len() - block,
    {
        let ghost before = tables(out@);
        parts[block].push(i);
        proof {
            assert(rows(parts@) =~= add_to_block(p, block as int, i));
        }
        helper(i + 1, k, parts, out, n);
        let ghost grown = rows(parts@);
        parts[block].pop();
        proof {
            lemma_add_then_drop(p, block as int, i);
            assert(rows(parts@) =~= grown.update(block as int, grown[block as int].drop_last()));
            let here = k_partitions_from(
                n as nat,
                k as nat,
                add_to_block(p, block as int, i),
                (i + 1) as nat,
            );
            let rest = k_place_from(n as nat, k as nat, p, i as nat, (block + 1) as nat);
            assert((before + here) + rest =~= before + (here + rest));
        }
        block += 1;
    }
    if parts.len() < k {
        let mut single: Vec<usize> = Vec::new();
        single.push(i);
        parts.push(single);
        proof {
            assert(rows(parts@) =~= open_block(p, i));
        }
        helper(i + 1, k, parts, out, n);
        let ghost grown = rows(parts@);
        parts.pop();
        proof {
            assert(rows(parts@) =~= grown.drop_last());
            assert(open_block(p, i).drop_last() =~= p);
        }
    } else {
        assert(tables(out@) + Seq::<Seq<Seq<usize>>>::empty() =~= tables(out@));
    }
}

/// Generate all partitions of the set {0, ..., n - 1} into exactly `k`
/// non-empty blocks.
pub fn fixed_k_partitions(n: usize, k: usize) -> (result: Vec<Vec<Vec<usize>>>)
    ensures
        tables(result@) == k_partitions_from(n as nat, k as nat, Seq::empty(), 0),
        tables(result@) == partitions_from(n as nat, Seq::empty(), 0).filter(with_blocks(k as nat)),
        result.len() == stirling2(n as nat, k as nat),
        forall|x: Seq<Seq<usize>>| #[trigger]
            tables(result@).contains(x) <==> is_canonical(x, n as nat) && x.len() == k,
        tables(result@).no_duplicates(),
{
    proof {
        lemma_fixed_k_is_filter(n as nat, k as nat);
        assert(is_canonical(Seq::<Seq<usize>>::empty(), 0));
        lemma_distinct_from(n as nat, Seq::empty(), 0);
        lemma_filter_distinct(partitions_from(n as nat, Seq::empty(), 0), with_blocks(k as nat));
        lemma_fixed_k_count(n as nat, k as nat);
        assert forall|x: Seq<Seq<usize>>| #[trigger]
            k_partitions_from(n as nat, k as nat, Seq::empty(), 0).contains(x) <==> is_canonical(
                x,
                n as nat,
            ) && x.len() == k by {
            lemma_fixed_k_members(n as nat, k as nat, x);
        }
    }
    let mut result: Vec<Vec<Vec<usize>>> = Vec::new();
    let mut parts: Vec<Vec<usize>> = Vec::new();
    assert(tables(result@) =~= Seq::empty());
    assert(rows(parts@) =~= Seq::empty());
    helper(0, k, &mut parts, &mut result, n);
    assert(Seq::<Seq<Seq<usize>>>::empty() + k_partitions_from(
        n as nat,
        k as nat,
        Seq::empty(),
        0,
    ) =~= k_partitions_from(n as nat, k as nat, Seq::empty(), 0));
    result
}

} // verus!
