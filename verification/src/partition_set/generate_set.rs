//! Generation of all partitions of {0, ..., n - 1}.

use vstd::prelude::*;
use crate::partition_set::rank_set::{
    bell,
    lemma_placements_sum,
    lemma_placements_upto_front,
    lemma_placements_zero,
    placements_upto,
};
use crate::sequences::{clone_rows, lemma_concat_contains, lemma_tables_push, rows, tables};

verus! {

/// `parts` with the element `x` appended to block `b`.
pub open spec fn add_to_block(parts: Seq<Seq<usize>>, b: int, x: usize) -> Seq<Seq<usize>> {
    parts.update(b, parts[b].push(x))
}

/// `parts` with the new block {x} appended.
pub open spec fn open_block(parts: Seq<Seq<usize>>, x: usize) -> Seq<Seq<usize>> {
    parts.push(seq![x])
}

/// The partitions that arise from `parts` by placing the elements
/// `i`, ..., `n - 1` in order: each into one of the existing blocks, taken
/// from the first to the last, or into a new block.
pub open spec fn partitions_from(n: nat, parts: Seq<Seq<usize>>, i: nat) -> Seq<Seq<Seq<usize>>>
    decreases n - i, 1int, 0int,
{
    if i >= n {
        seq![parts]
    } else {
        place_from(n, parts, i, 0)
    }
}

/// The partitions that arise from `parts` by placing `i` into one of the
/// blocks `b`, ... or into a new block, and then the elements after `i`.
pub open spec fn place_from(n: nat, parts: Seq<Seq<usize>>, i: nat, b: nat) -> Seq<
    Seq<Seq<usize>>,
>
    decreases n - i, 0int, parts.len() - b,
{
    if i >= n {
        Seq::empty()
    } else if b >= parts.len() {
        partitions_from(n, open_block(parts, i as usize), i + 1)
    } else {
        partitions_from(n, add_to_block(parts, b as int, i as usize), i + 1) + place_from(
            n,
            parts,
            i,
            b + 1,
        )
    }
}

/// Taking the added element away again gives the blocks back.
pub proof fn lemma_add_then_drop(parts: Seq<Seq<usize>>, b: int, x: usize)
    requires
        0 <= b < parts.len(),
    ensures
        add_to_block(parts, b, x).update(b, add_to_block(parts, b, x)[b].drop_last()) == parts,
{
    let added = add_to_block(parts, b, x);
    assert(added[b].drop_last() =~= parts[b]);
    assert(added.update(b, parts[b]) =~= parts);
}

/// (a, b) is a place in a block of `parts`.
pub open spec fn is_place(parts: Seq<Seq<usize>>, a: int, b: int) -> bool {
    0 <= a < parts.len() && 0 <= b < parts[a].len()
}

/// The element `v` stands in some block of `parts`.
pub open spec fn holds(parts: Seq<Seq<usize>>, v: usize) -> bool {
    exists|a: int, b: int| is_place(parts, a, b) && #[trigger] parts[a][b] == v
}

/// `parts` is a partition of {0, ..., m - 1} into non-empty blocks: every
/// entry is below `m`, no two places hold one element, and every element
/// below `m` stands somewhere.
pub open spec fn is_set_partition(parts: Seq<Seq<usize>>, m: nat) -> bool {
    &&& forall|a: int| 0 <= a < parts.len() ==> (#[trigger] parts[a]).len() > 0
    &&& forall|a: int, b: int| is_place(parts, a, b) ==> (#[trigger] parts[a][b]) < m
    &&& forall|a: int, b: int, c: int, d: int|
        is_place(parts, a, b) && is_place(parts, c, d) && (a != c || b != d) ==> #[trigger] parts[a][b]
            != #[trigger] parts[c][d]
    &&& forall|v: usize| v < m ==> #[trigger] holds(parts, v)
}

/// Adding the next element to a block of a partition gives a partition.
#[verifier::rlimit(40)]
proof fn lemma_add_keeps(parts: Seq<Seq<usize>>, b: int, i: usize)
    requires
        is_set_partition(parts, i as nat),
        0 <= b < parts.len(),
        i < usize::MAX,
    ensures
        is_set_partition(add_to_block(parts, b, i), (i + 1) as nat),
{
    let q = add_to_block(parts, b, i);
    let last = parts[b].len() as int;
    assert forall|a: int, c: int| is_place(q, a, c) && !(a == b && c == last) implies is_place(
        parts,
        a,
        c,
    ) && q[a][c] == parts[a][c] by {}
    assert(q[b][last] == i);
    assert forall|a: int| 0 <= a < q.len() implies (#[trigger] q[a]).len() > 0 by {
        if a != b {
            assert(parts[a].len() > 0);
        }
    }
    assert forall|a: int, c: int| is_place(q, a, c) implies (#[trigger] q[a][c]) < i + 1 by {
        if !(a == b && c == last) {
            assert(parts[a][c] < i);
        }
    }
    assert forall|a: int, c: int, e: int, f: int|
        is_place(q, a, c) && is_place(q, e, f) && (a != e || c != f) implies #[trigger] q[a][c]
        != #[trigger] q[e][f] by {
        if a == b && c == last {
            assert(parts[e][f] < i);
        } else if e == b && f == last {
            assert(parts[a][c] < i);
        } else {
            assert(parts[a][c] != parts[e][f]);
        }
    }
    assert forall|v: usize| v < i + 1 implies #[trigger] holds(q, v) by {
        if v == i {
            assert(is_place(q, b, last) && q[b][last] == v);
        } else {
            assert(holds(parts, v));
            let (a, c) = choose|a: int, c: int| is_place(parts, a, c) && #[trigger] parts[a][c] == v;
            assert(is_place(q, a, c) && q[a][c] == v);
        }
    }
}

/// Opening a block for the next element of a partition gives a partition.
#[verifier::rlimit(40)]
proof fn lemma_open_keeps(parts: Seq<Seq<usize>>, i: usize)
    requires
        is_set_partition(parts, i as nat),
        i < usize::MAX,
    ensures
        is_set_partition(open_block(parts, i), (i + 1) as nat),
{
    let q = open_block(parts, i);
    let b = parts.len() as int;
    assert forall|a: int, c: int| is_place(q, a, c) && a != b implies is_place(parts, a, c)
        && q[a][c] == parts[a][c] by {}
    assert(q[b] == seq![i]);
    assert(q[b][0] == i);
    assert forall|a: int| 0 <= a < q.len() implies (#[trigger] q[a]).len() > 0 by {
        if a != b {
            assert(parts[a].len() > 0);
        }
    }
    assert forall|a: int, c: int| is_place(q, a, c) implies (#[trigger] q[a][c]) < i + 1 by {
        if a != b {
            assert(parts[a][c] < i);
        }
    }
    assert forall|a: int, c: int, e: int, f: int|
        is_place(q, a, c) && is_place(q, e, f) && (a != e || c != f) implies #[trigger] q[a][c]
        != #[trigger] q[e][f] by {
        if a == b {
            assert(parts[e][f] < i);
        } else if e == b {
            assert(parts[a][c] < i);
        } else {
            assert(parts[a][c] != parts[e][f]);
        }
    }
    assert forall|v: usize| v < i + 1 implies #[trigger] holds(q, v) by {
        if v == i {
            assert(is_place(q, b, 0) && q[b][0] == v);
        } else {
            assert(holds(parts, v));
            let (a, c) = choose|a: int, c: int| is_place(parts, a, c) && #[trigger] parts[a][c] == v;
            assert(is_place(q, a, c) && q[a][c] == v);
        }
    }
}

/// The entries of every block are in ascending order, and the blocks in the
/// order of their first entries.
pub open spec fn is_ordered(x: Seq<Seq<usize>>) -> bool {
    &&& forall|a: int, b: int, c: int|
        is_place(x, a, c) && 0 <= b < c ==> #[trigger] x[a][b] < #[trigger] x[a][c]
    &&& forall|a: int, b: int| 0 <= a < b < x.len() ==> (#[trigger] x[a])[0] < (#[trigger] x[b])[0]
}

/// `x` is a partition of {0, ..., m - 1} in the form in which partitions
/// are generated: the entries of every block ascending, and the blocks in
/// the order of their first entries.
pub open spec fn is_canonical(x: Seq<Seq<usize>>, m: nat) -> bool {
    is_set_partition(x, m) && is_ordered(x)
}

/// The blocks of `parts` are the starts of the first blocks of `x`, and
/// whatever else stands in `x` is `i` at least.
pub open spec fn continues_blocks(parts: Seq<Seq<usize>>, x: Seq<Seq<usize>>, i: nat) -> bool {
    &&& parts.len() <= x.len()
    &&& forall|a: int| 0 <= a < parts.len() ==> (#[trigger] parts[a]).is_prefix_of(x[a])
    &&& forall|a: int, c: int|
        is_place(x, a, c) && (a >= parts.len() || c >= parts[a].len()) ==> #[trigger] x[a][c] >= i
}

/// The element `v` stands in one of the blocks of `x` from block `b` on.
pub open spec fn holds_from(x: Seq<Seq<usize>>, v: usize, b: int) -> bool {
    exists|a: int, c: int| is_place(x, a, c) && a >= b && #[trigger] x[a][c] == v
}

proof fn lemma_add_ordered(parts: Seq<Seq<usize>>, b: int, i: usize)
    requires
        is_canonical(parts, i as nat),
        0 <= b < parts.len(),
    ensures
        is_ordered(add_to_block(parts, b, i)),
{
    let q = add_to_block(parts, b, i);
    let last = parts[b].len() as int;
    assert forall|a: int, e: int, c: int| is_place(q, a, c) && 0 <= e < c implies #[trigger] q[a][e]
        < #[trigger] q[a][c] by {
        if a == b && c == last {
            assert(is_place(parts, a, e));
            assert(parts[a][e] < i);
        } else {
            assert(is_place(parts, a, c));
            assert(parts[a][e] < parts[a][c]);
        }
    }
    assert forall|a: int, e: int| 0 <= a < e < q.len() implies (#[trigger] q[a])[0] < (
    #[trigger] q[e])[0] by {
        assert(parts[a].len() > 0 && parts[e].len() > 0);
        assert(parts[a][0] < parts[e][0]);
    }
}

proof fn lemma_open_ordered(parts: Seq<Seq<usize>>, i: usize)
    requires
        is_canonical(parts, i as nat),
    ensures
        is_ordered(open_block(parts, i)),
{
    let q = open_block(parts, i);
    let b = parts.len() as int;
    assert(q[b] == seq![i]);
    assert forall|a: int, e: int, c: int| is_place(q, a, c) && 0 <= e < c implies #[trigger] q[a][e]
        < #[trigger] q[a][c] by {
        assert(a != b);
        assert(is_place(parts, a, c));
        assert(parts[a][e] < parts[a][c]);
    }
    assert forall|a: int, e: int| 0 <= a < e < q.len() implies (#[trigger] q[a])[0] < (
    #[trigger] q[e])[0] by {
        assert(parts[a].len() > 0);
        if e == b {
            assert(is_place(parts, a, 0));
            assert(parts[a][0] < i);
        } else {
            assert(parts[e].len() > 0);
            assert(parts[a][0] < parts[e][0]);
        }
    }
}

/// A partition continues a state with `i` added to block `b` exactly if it
/// continues the state and holds `i` in block `b`.
#[verifier::rlimit(40)]
proof fn lemma_continue_add(parts: Seq<Seq<usize>>, b: int, i: usize, n: nat, x: Seq<Seq<usize>>)
    requires
        is_canonical(parts, i as nat),
        is_canonical(x, n),
        0 <= b < parts.len(),
        i < n <= usize::MAX,
    ensures
        continues_blocks(add_to_block(parts, b, i), x, (i + 1) as nat) <==> continues_blocks(
            parts,
            x,
            i as nat,
        ) && exists|c: int| is_place(x, b, c) && #[trigger] x[b][c] == i,
{
    let q = add_to_block(parts, b, i);
    let last = parts[b].len() as int;
    if continues_blocks(q, x, (i + 1) as nat) {
        assert(q[b].is_prefix_of(x[b]));
        assert(x[b][last] == q[b][last]);
        assert(is_place(x, b, last) && x[b][last] == i);
        assert forall|a: int| 0 <= a < parts.len() implies (#[trigger] parts[a]).is_prefix_of(
            x[a],
        ) by {
            assert(q[a].is_prefix_of(x[a]));
            if a == b {
                assert(parts[a] =~= q[a].drop_last());
                assert(parts[a] =~= x[a].subrange(0, parts[a].len() as int));
            }
        }
        assert forall|a: int, c: int|
            is_place(x, a, c) && (a >= parts.len() || c >= parts[a].len()) implies #[trigger] x[a][c]
            >= i by {
            if !(a == b && c == last) {
                assert(a >= q.len() || c >= q[a].len());
            }
        }
    }
    if continues_blocks(parts, x, i as nat) && exists|c: int|
        is_place(x, b, c) && #[trigger] x[b][c] == i {
        let c = choose|c: int| is_place(x, b, c) && #[trigger] x[b][c] == i;
        assert(parts[b].is_prefix_of(x[b]));
        assert(c >= last) by {
            if c < last {
                assert(x[b][c] == parts[b][c]);
                assert(is_place(parts, b, c));
                assert(parts[b][c] < i);
            }
        }
        assert(x[b][last] >= i);
        assert(c == last) by {
            if last < c {
                assert(x[b][last] < x[b][c]);
            }
        }
        assert(q[b] =~= x[b].subrange(0, last + 1)) by {
            assert forall|e: int| 0 <= e < last implies q[b][e] == x[b][e] by {
                assert(parts[b][e] == x[b][e]);
            }
        }
        assert forall|a: int| 0 <= a < q.len() implies (#[trigger] q[a]).is_prefix_of(x[a]) by {
            if a != b {
                assert(parts[a].is_prefix_of(x[a]));
            }
        }
        assert forall|a: int, e: int|
            is_place(x, a, e) && (a >= q.len() || e >= q[a].len()) implies #[trigger] x[a][e] >= i
            + 1 by {
            assert(a >= parts.len() || e >= parts[a].len());
            assert(x[a][e] >= i);
            assert(x[a][e] != x[b][last]);
        }
    }
}

/// A partition continues a state with a new block for `i` exactly if it
/// continues the state and holds `i` in a block that the state has not.
#[verifier::rlimit(40)]
proof fn lemma_continue_open(parts: Seq<Seq<usize>>, i: usize, n: nat, x: Seq<Seq<usize>>)
    requires
        is_canonical(parts, i as nat),
        is_canonical(x, n),
        i < n <= usize::MAX,
    ensures
        continues_blocks(open_block(parts, i), x, (i + 1) as nat) <==> continues_blocks(
            parts,
            x,
            i as nat,
        ) && holds_from(x, i, parts.len() as int),
{
    let q = open_block(parts, i);
    let b = parts.len() as int;
    assert(q[b] == seq![i]);
    if continues_blocks(q, x, (i + 1) as nat) {
        assert(q[b].is_prefix_of(x[b]));
        assert(x[b][0] == q[b][0]);
        assert(is_place(x, b, 0) && b >= parts.len() && x[b][0] == i);
        assert forall|a: int| 0 <= a < parts.len() implies (#[trigger] parts[a]).is_prefix_of(
            x[a],
        ) by {
            assert(q[a].is_prefix_of(x[a]));
        }
        assert forall|a: int, c: int|
            is_place(x, a, c) && (a >= parts.len() || c >= parts[a].len()) implies #[trigger] x[a][c]
            >= i by {
            if !(a == b && c == 0) {
                assert(a >= q.len() || c >= q[a].len());
            }
        }
    }
    if continues_blocks(parts, x, i as nat) && holds_from(x, i, b) {
        let (a, c) = choose|a: int, c: int| is_place(x, a, c) && a >= b && #[trigger] x[a][c] == i;
        assert(x[a].len() > 0);
        assert(x[a][0] >= i);
        assert(c == 0) by {
            if c > 0 {
                assert(x[a][0] < x[a][c]);
            }
        }
        assert(a == b) by {
            if a > b {
                assert(x[b].len() > 0);
                assert(is_place(x, b, 0));
                assert(x[b][0] >= i);
                assert(x[b][0] < x[a][0]);
            }
        }
        assert(q[b] =~= x[b].subrange(0, 1));
        assert forall|e: int| 0 <= e < q.len() implies (#[trigger] q[e]).is_prefix_of(x[e]) by {
            if e != b {
                assert(parts[e].is_prefix_of(x[e]));
            }
        }
        assert forall|e: int, f: int|
            is_place(x, e, f) && (e >= q.len() || f >= q[e].len()) implies #[trigger] x[e][f] >= i
            + 1 by {
            assert(e >= parts.len() || f >= parts[e].len());
            assert(x[e][f] >= i);
            assert(x[e][f] != x[b][0]);
        }
    }
}

/// What is generated from a state are exactly the partitions, in the form
/// in which they are generated, that continue the state.
#[verifier::rlimit(40)]
pub proof fn lemma_partitions_canonical(n: nat, parts: Seq<Seq<usize>>, i: nat, x: Seq<Seq<usize>>)
    requires
        i <= n <= usize::MAX,
        is_canonical(parts, i),
    ensures
        partitions_from(n, parts, i).contains(x) <==> is_canonical(x, n) && continues_blocks(
            parts,
            x,
            i,
        ),
    decreases n - i, 1int, 0int,
{
    let list = partitions_from(n, parts, i);
    if i >= n {
        assert(list[0] == parts);
        assert(continues_blocks(parts, parts, i));
        if is_canonical(x, n) && continues_blocks(parts, x, i) {
            assert(x.len() == parts.len()) by {
                if x.len() > parts.len() {
                    let a = parts.len() as int;
                    assert(x[a].len() > 0);
                    assert(is_place(x, a, 0));
                    assert(x[a][0] >= i);
                    assert(x[a][0] < n);
                }
            }
            assert forall|a: int| 0 <= a < x.len() implies x[a] =~= parts[a] by {
                assert(parts[a].is_prefix_of(x[a]));
                if x[a].len() > parts[a].len() {
                    let c = parts[a].len() as int;
                    assert(is_place(x, a, c));
                    assert(x[a][c] >= i);
                    assert(x[a][c] < n);
                }
            }
            assert(x =~~= parts);
        }
    } else {
        lemma_place_canonical(n, parts, i, 0, x);
        if is_canonical(x, n) {
            assert(holds(x, i as usize));
            let (a, c) = choose|a: int, c: int| is_place(x, a, c) && #[trigger] x[a][c] == i as usize;
            assert(is_place(x, a, c) && a >= 0 && x[a][c] == i as usize);
        }
    }
}

/// What is generated by placing `i` into one of the blocks from `b` on, or
/// into a new block, are exactly the partitions that continue the state and
/// hold `i` in such a block.
#[verifier::rlimit(40)]
pub proof fn lemma_place_canonical(n: nat, parts: Seq<Seq<usize>>, i: nat, b: nat, x: Seq<Seq<usize>>)
    requires
        i < n <= usize::MAX,
        is_canonical(parts, i),
        b <= parts.len(),
    ensures
        place_from(n, parts, i, b).contains(x) <==> is_canonical(x, n) && continues_blocks(
            parts,
            x,
            i,
        ) && holds_from(x, i as usize, b as int),
    decreases n - i, 0int, parts.len() - b,
{
    let v = i as usize;
    if b >= parts.len() {
        let q = open_block(parts, v);
        lemma_open_keeps(parts, v);
        lemma_open_ordered(parts, v);
        lemma_partitions_canonical(n, q, i + 1, x);
        if is_canonical(x, n) {
            lemma_continue_open(parts, v, n, x);
        }
    } else {
        let q = add_to_block(parts, b as int, v);
        let here = partitions_from(n, q, i + 1);
        let rest = place_from(n, parts, i, b + 1);
        lemma_concat_contains(here, rest, x);
        lemma_add_keeps(parts, b as int, v);
        lemma_add_ordered(parts, b as int, v);
        lemma_partitions_canonical(n, q, i + 1, x);
        lemma_place_canonical(n, parts, i, b + 1, x);
        if is_canonical(x, n) {
            lemma_continue_add(parts, b as int, v, n, x);
            if exists|c: int| is_place(x, b as int, c) && #[trigger] x[b as int][c] == v {
                let c = choose|c: int| is_place(x, b as int, c) && #[trigger] x[b as int][c] == v;
                assert(is_place(x, b as int, c) && b as int >= b && x[b as int][c] == v);
            }
            if holds_from(x, v, b as int) {
                let (a, c) = choose|a: int, c: int|
                    is_place(x, a, c) && a >= b && #[trigger] x[a][c] == v;
                if a > b {
                    assert(is_place(x, a, c) && a >= b + 1 && x[a][c] == v);
                }
            }
            if holds_from(x, v, b as int + 1) {
                let (a, c) = choose|a: int, c: int|
                    is_place(x, a, c) && a >= b + 1 && #[trigger] x[a][c] == v;
                assert(is_place(x, a, c) && a >= b && x[a][c] == v);
            }
        }
    }
}

/// The arrangements that are generated are exactly the partitions of
/// {0, ..., n - 1} into non-empty blocks, each in the form with ascending
/// blocks in the order of their first entries.
pub proof fn lemma_set_partitions_complete(n: nat, x: Seq<Seq<usize>>)
    requires
        n <= usize::MAX,
    ensures
        partitions_from(n, Seq::empty(), 0).contains(x) <==> is_canonical(x, n),
{
    let none = Seq::<Seq<usize>>::empty();
    assert(is_canonical(none, 0));
    lemma_partitions_canonical(n, none, 0, x);
    if is_canonical(x, n) {
        assert(continues_blocks(none, x, 0));
    }
}

/// No partition is generated twice from a state.
pub proof fn lemma_distinct_from(n: nat, parts: Seq<Seq<usize>>, i: nat)
    requires
        i <= n <= usize::MAX,
        is_canonical(parts, i),
    ensures
        partitions_from(n, parts, i).no_duplicates(),
    decreases n - i, 1int, 0int,
{
    if i < n {
        lemma_distinct_place(n, parts, i, 0);
    }
}

/// No partition is generated twice by placing `i` into one of the blocks
/// from `b` on, or into a new block: what holds `i` in block `b` does not
/// hold it in a later block.
#[verifier::rlimit(40)]
pub proof fn lemma_distinct_place(n: nat, parts: Seq<Seq<usize>>, i: nat, b: nat)
    requires
        i < n <= usize::MAX,
        is_canonical(parts, i),
        b <= parts.len(),
    ensures
        place_from(n, parts, i, b).no_duplicates(),
    decreases n - i, 0int, parts.len() - b,
{
    let v = i as usize;
    if b >= parts.len() {
        lemma_open_keeps(parts, v);
        lemma_open_ordered(parts, v);
        lemma_distinct_from(n, open_block(parts, v), i + 1);
    } else {
        let q = add_to_block(parts, b as int, v);
        let here = partitions_from(n, q, i + 1);
        let rest = place_from(n, parts, i, b + 1);
        lemma_add_keeps(parts, b as int, v);
        lemma_add_ordered(parts, b as int, v);
        lemma_distinct_from(n, q, i + 1);
        lemma_distinct_place(n, parts, i, b + 1);
        assert forall|s: int, t: int| 0 <= s < here.len() && 0 <= t < rest.len() implies here[s]
            != rest[t] by {
            let x = here[s];
            if x == rest[t] {
                assert(here.contains(x));
                assert(rest.contains(x));
                lemma_partitions_canonical(n, q, i + 1, x);
                lemma_place_canonical(n, parts, i, b + 1, x);
                let at = parts[b as int].len() as int;
                assert(q[b as int].is_prefix_of(x[b as int]));
                assert(x[b as int][at] == q[b as int][at]);
                assert(is_place(x, b as int, at));
                let (a, c) = choose|a: int, c: int|
                    is_place(x, a, c) && a >= b + 1 && #[trigger] x[a][c] == v;
                assert(x[a][c] != x[b as int][at]);
            }
        }
        vstd::seq_lib::lemma_no_dup_in_concat(here, rest);
    }
}

/// As many partitions are generated from a state as there are placements
/// of the elements that remain, with any number of new blocks.
proof fn lemma_count_from(n: nat, parts: Seq<Seq<usize>>, i: nat)
    requires
        i <= n,
    ensures
        partitions_from(n, parts, i).len() == placements_upto(
            (n - i) as nat,
            parts.len(),
            n - i,
        ),
    decreases n - i, 1int, 0int,
{
    let r = (n - i) as nat;
    let m = parts.len();
    if i < n {
        lemma_count_place(n, parts, i, 0);
        lemma_placements_upto_front(r, m, r as int);
        lemma_placements_zero((r - 1) as nat, m, r as int);
        assert((m - 0) * placements_upto((r - 1) as nat, m, r - 1) == m * placements_upto(
            (r - 1) as nat,
            m,
            r - 1,
        ));
    } else {
        assert(placements_upto(0, m, 0) == placements_upto(0, m, -1) + 1);
    }
}

proof fn lemma_count_place(n: nat, parts: Seq<Seq<usize>>, i: nat, b: nat)
    requires
        i < n,
        b <= parts.len(),
    ensures
        place_from(n, parts, i, b).len() == (parts.len() - b) * placements_upto(
            (n - i - 1) as nat,
            parts.len(),
            n - i - 1,
        ) + placements_upto((n - i - 1) as nat, parts.len() + 1, n - i - 1),
    decreases n - i, 0int, parts.len() - b,
{
    let m = parts.len();
    let each = placements_upto((n - i - 1) as nat, m, n - i - 1) as int;
    if b >= m {
        assert((m - b) * each == 0) by (nonlinear_arith)
            requires
                m - b == 0,
        ;
        lemma_count_from(n, open_block(parts, i as usize), i + 1);
    } else {
        lemma_count_from(n, add_to_block(parts, b as int, i as usize), i + 1);
        lemma_count_place(n, parts, i, b + 1);
        assert((m - b) * each == (m - (b + 1)) * each + each) by (nonlinear_arith);
    }
}

/// The partitions of {0, ..., n - 1} are counted by the Bell number B(n).
pub proof fn lemma_set_partitions_count(n: nat)
    ensures
        partitions_from(n, Seq::empty(), 0).len() == bell(n),
{
    lemma_count_from(n, Seq::empty(), 0);
    lemma_placements_sum(n, n as int);
}

fn helper(i: usize, parts: &mut Vec<Vec<usize>>, out: &mut Vec<Vec<Vec<usize>>>, n: usize)
    requires
        i <= n,
    ensures
        rows(final(parts)@) == rows(old(parts)@),
        tables(final(out)@) == tables(old(out)@) + partitions_from(
            n as nat,
            rows(old(parts)@),
            i as nat,
        ),
    decreases n - i,
{
    let ghost p = rows(parts@);
    if i == n {
        let copy = clone_rows(parts);
        proof {
            lemma_tables_push(out@, copy);
        }
        out.push(copy);
        return ;
    }
    // try adding to the existing blocks
    let mut block: usize = 0;
    while block < parts.len()
        invariant
            i < n,
            block <= parts.len(),
            rows(parts@) == p,
            tables(out@) + place_from(n as nat, p, i as nat, block as nat) == tables(old(out)@)
                + place_from(n as nat, p, i as nat, 0),
        decreases parts.len() - block,
    {
        let ghost before = tables(out@);
        parts[block].push(i);
        proof {
            assert(rows(parts@) =~= add_to_block(p, block as int, i));
        }
        helper(i + 1, parts, out, n);
        let ghost grown = rows(parts@);
        parts[block].pop();
        proof {
            lemma_add_then_drop(p, block as int, i);
            assert(rows(parts@) =~= grown.update(block as int, grown[block as int].drop_last()));
            let here = partitions_from(
                n as nat,
                add_to_block(p, block as int, i),
                (i + 1) as nat,
            );
            let rest = place_from(n as nat, p, i as nat, (block + 1) as nat);
            assert((before + here) + rest =~= before + (here + rest));
        }
        block += 1;
    }
    // or open a new block
    let ghost before = tables(out@);
    let mut single: Vec<usize> = Vec::new();
    single.push(i);
    parts.push(single);
    proof {
        assert(rows(parts@) =~= open_block(p, i));
    }
    helper(i + 1, parts, out, n);
    let ghost grown = rows(parts@);
    parts.pop();
    proof {
        assert(rows(parts@) =~= grown.drop_last());
        assert(open_block(p, i).drop_last() =~= p);
    }
}

/// Generate all partitions of the set {0, ..., n - 1} into non-empty blocks.
pub fn generate_set_partitions(n: usize) -> (result: Vec<Vec<Vec<usize>>>)
    ensures
        tables(result@) == partitions_from(n as nat, Seq::empty(), 0),
        result.len() == bell(n as nat),
        forall|x: Seq<Seq<usize>>| #[trigger]
            tables(result@).contains(x) <==> is_canonical(x, n as nat),
        tables(result@).no_duplicates(),
{
    proof {
        lemma_set_partitions_count(n as nat);
        assert(is_canonical(Seq::<Seq<usize>>::empty(), 0));
        lemma_distinct_from(n as nat, Seq::empty(), 0);
        assert forall|x: Seq<Seq<usize>>| #[trigger]
            partitions_from(n as nat, Seq::empty(), 0).contains(x) <==> is_canonical(
                x,
                n as nat,
            ) by {
            lemma_set_partitions_complete(n as nat, x);
        }
    }
    let mut result: Vec<Vec<Vec<usize>>> = Vec::new();
    let mut parts: Vec<Vec<usize>> = Vec::new();
    assert(tables(result@) =~= Seq::empty());
    assert(rows(parts@) =~= Seq::empty());
    helper(0, &mut parts, &mut result, n);
    assert(Seq::<Seq<Seq<usize>>>::empty() + partitions_from(n as nat, Seq::empty(), 0)
        =~= partitions_from(n as nat, Seq::empty(), 0));
    result
}

} // verus!
