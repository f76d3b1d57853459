//! Decoding undoes encoding: the Pruefer sequence of a tree decodes to the
//! edges of that tree.

use vstd::prelude::*;
use crate::sequences::{below, lemma_below_len};
use crate::trees::connected::{is_tree, lemma_tree_is_rooted};
use crate::trees::pruefer::{
    code_from,
    ends_in_range,
    is_leaf,
    is_live,
    is_live_neighbor,
    is_only_edge,
    is_rooting,
    is_smallest_leaf,
    is_rooted_tree,
    joins,
    lemma_degree_after_removal,
    lemma_degree_only_edge,
    lemma_leaf_edge,
    lemma_leaf_exists,
    lemma_least_leaf,
    lemma_step,
    live_degree,
    live_neighbor,
    other_end,
    parent,
    pruefer_code,
    smallest_leaf,
    touches,
    Rooting,
};
use crate::trees::pruefer_decode::{
    count_from,
    decode_from,
    decoded,
    is_code,
    is_free,
    is_next_leaf,
    lemma_count_occurs,
    next_leaf,
    occurs_from,
};

verus! {

/// Some edge of `b` joins `x` and `y`.
pub open spec fn joined_in(b: Seq<(usize, usize)>, x: usize, y: usize) -> bool {
    exists|j: int| 0 <= j < b.len() && joins(#[trigger] b[j], x, y)
}

/// Every edge of `a` joins the ends of some edge of `b`.
pub open spec fn edges_within(a: Seq<(usize, usize)>, b: Seq<(usize, usize)>) -> bool {
    forall|i: int| 0 <= i < a.len() ==> joined_in(b, (#[trigger] a[i]).0, a[i].1)
}

/// The two lists hold the same edges, as unordered pairs, and as many.
pub open spec fn same_edges(a: Seq<(usize, usize)>, b: Seq<(usize, usize)>) -> bool {
    a.len() == b.len() && edges_within(a, b) && edges_within(b, a)
}

/// Some edge that is left joins `x` and `y`.
pub open spec fn joined_live(edges: Seq<(usize, usize)>, removed: Set<usize>, x: usize, y: usize) -> bool {
    exists|f: int| 0 <= f < edges.len() && is_live(edges[f], removed) && joins(#[trigger] edges[f], x, y)
}

/// Some pair of `d` holds the ends of `e`.
pub open spec fn ends_listed(d: Seq<(usize, usize)>, e: (usize, usize)) -> bool {
    exists|i: int| 0 <= i < d.len() && joins(e, (#[trigger] d[i]).0, d[i].1)
}

/// What `lemma_trace` shows of the rest of the code from step `k` on.
pub open spec fn trace_holds(
    n: nat,
    edges: Seq<(usize, usize)>,
    code: Seq<usize>,
    removed: Set<usize>,
    k: int,
) -> bool {
    let d = decode_from(code, removed, k);
    &&& forall|v: usize|
        v < n && !removed.contains(v) ==> #[trigger] live_degree(
            edges,
            removed,
            v,
            edges.len() as int,
        ) == 1 + count_from(code, k, v)
    &&& forall|j: int| k <= j < code.len() ==> (#[trigger] code[j]) < n && !removed.contains(code[j])
    &&& d.len() == n - 1 - k
    &&& forall|i: int| 0 <= i < d.len() ==> joined_live(edges, removed, (#[trigger] d[i]).0, d[i].1)
    &&& forall|f: int|
        0 <= f < edges.len() && is_live(#[trigger] edges[f], removed) ==> ends_listed(d, edges[f])
}

/// Besides any vertex another is left, while fewer than `n - 1` have been
/// removed.
pub proof fn lemma_second_vertex(n: nat, removed: Set<usize>, a: usize) -> (x: usize)
    requires
        n <= usize::MAX,
        removed.finite(),
        removed.len() + 1 < n,
    ensures
        x < n,
        !removed.contains(x),
        x != a,
{
    let all = below(n);
    let taken = removed.insert(a);
    lemma_below_len(n);
    vstd::set_lib::lemma_set_difference_len(all, taken);
    vstd::set_lib::lemma_len_subset(all.intersect(taken), taken);
    let free = all.difference(taken);
    assert(free.len() > 0);
    let x = free.choose();
    assert(free.contains(x));
    x
}

/// Where all but two vertices have been removed, no third is left.
pub proof fn lemma_no_third_vertex(n: nat, removed: Set<usize>, a: usize, b: usize, y: usize)
    requires
        n <= usize::MAX,
        removed.finite(),
        removed.len() + 2 == n,
        forall|v: usize| removed.contains(v) ==> v < n,
        a < n,
        b < n,
        y < n,
        a != b,
        !removed.contains(a),
        !removed.contains(b),
        !removed.contains(y),
    ensures
        y == a || y == b,
{
    if y != a && y != b {
        let all = below(n);
        let taken = removed.insert(a).insert(b).insert(y);
        lemma_below_len(n);
        assert(taken.subset_of(all));
        vstd::set_lib::lemma_len_subset(taken, all);
        assert(false);
    }
}

/// A vertex is the smallest leaf at a step of decoding where it is the
/// smallest leaf of what is left of the tree, given that the leaves of both
/// are the same.
pub proof fn lemma_same_leaf(n: nat, edges: Seq<(usize, usize)>, code: Seq<usize>, removed: Set<usize>, k: int, u: usize)
    requires
        code.len() + 2 == n,
        0 <= k,
        forall|v: usize| v < n ==> (is_leaf(n, edges, removed, v) <==> is_free(code, removed, k, v)),
        is_smallest_leaf(n, edges, removed, u),
    ensures
        next_leaf(code, removed, k) == u,
{
    assert(is_next_leaf(code, removed, k, u));
    let s = next_leaf(code, removed, k);
    assert(is_next_leaf(code, removed, k, s));
    if s < u {
        assert(!is_free(code, removed, k, s));
    }
    if u < s {
        assert(!is_free(code, removed, k, u));
    }
}

/// At the end, two vertices are left, joined by the one edge that is left,
/// and decoding joins them.
#[verifier::rlimit(40)]
proof fn lemma_trace_end(
    n: nat,
    edges: Seq<(usize, usize)>,
    code: Seq<usize>,
    removed: Set<usize>,
    r: Rooting,
    k: int,
)
    requires
        2 <= n <= usize::MAX,
        edges.len() + 1 == n,
        ends_in_range(n, edges),
        is_rooting(n, edges, removed, r),
        removed.finite(),
        removed.len() == k,
        forall|v: usize| removed.contains(v) ==> v < n,
        code.len() + 2 == n,
        k == n - 2,
    ensures
        trace_holds(n, edges, code, removed, k),
{
    let m = edges.len() as int;
    let d = decode_from(code, removed, k);
    let x = lemma_second_vertex(n, removed, r.root);
    let f0 = r.up[x as int];
    assert(parent(edges, r, x) == r.root) by {
        let p = parent(edges, r, x);
        assert(p < n);
        lemma_no_third_vertex(n, removed, r.root, x, p);
    }
    assert forall|f: int| 0 <= f < m && is_live(#[trigger] edges[f], removed) implies f == f0 by {
        let c = r.down[f];
        lemma_no_third_vertex(n, removed, r.root, x, c);
    }
    assert(is_only_edge(edges, removed, x, f0));
    assert(is_only_edge(edges, removed, r.root, f0));
    lemma_degree_only_edge(edges, removed, x, f0, m);
    lemma_degree_only_edge(edges, removed, r.root, f0, m);
    assert forall|v: usize| v < n && !removed.contains(v) implies #[trigger] live_degree(
        edges,
        removed,
        v,
        m,
    ) == 1 + count_from(code, k, v) by {
        lemma_no_third_vertex(n, removed, r.root, x, v);
    }
    assert forall|v: usize| v < n implies (is_free(code, removed, k, v) <==> !removed.contains(v)) by {
        lemma_count_occurs(code, k, v);
    }
    let lo = if r.root < x {
        r.root
    } else {
        x
    };
    let hi = if r.root < x {
        x
    } else {
        r.root
    };
    assert(is_next_leaf(code, removed, k, lo)) by {
        assert forall|w: usize| w < lo implies !is_free(code, removed, k, w) by {
            if !removed.contains(w) {
                lemma_no_third_vertex(n, removed, r.root, x, w);
            }
        }
    }
    let a = next_leaf(code, removed, k);
    assert(a == lo) by {
        assert(is_next_leaf(code, removed, k, a));
        if a < lo {
            assert(!is_free(code, removed, k, a));
        }
        if lo < a {
            assert(!is_free(code, removed, k, lo));
        }
    }
    let used2 = removed.insert(a);
    assert forall|v: usize| v < n implies (is_free(code, used2, k, v) <==> !used2.contains(v)) by {
        lemma_count_occurs(code, k, v);
    }
    assert(is_next_leaf(code, used2, k, hi)) by {
        assert forall|w: usize| w < hi implies !is_free(code, used2, k, w) by {
            if !used2.contains(w) {
                lemma_no_third_vertex(n, removed, r.root, x, w);
            }
        }
    }
    let b = next_leaf(code, used2, k);
    assert(b == hi) by {
        assert(is_next_leaf(code, used2, k, b));
        if b < hi {
            assert(!is_free(code, used2, k, b));
        }
        if hi < b {
            assert(!is_free(code, used2, k, hi));
        }
    }
    assert(d == seq![(a, b)]);
    assert(joins(edges[f0], d[0].0, d[0].1));
    assert(joined_live(edges, removed, d[0].0, d[0].1));
    assert forall|f: int| 0 <= f < edges.len() && is_live(#[trigger] edges[f], removed) implies ends_listed(
        d,
        edges[f],
    ) by {
        assert(f == f0);
        assert(joins(edges[f], d[0].0, d[0].1));
    }
}

/// From step `k` on, where `removed` has been taken away from the tree and
/// the rest of the code is the code of what is left: the degree of every
/// vertex that is left is one more than the number of times it stands in
/// the rest of the code, and the edges that decoding gives from there on
/// are the edges that are left.
#[verifier::rlimit(40)]
proof fn lemma_trace(
    n: nat,
    edges: Seq<(usize, usize)>,
    code: Seq<usize>,
    removed: Set<usize>,
    r: Rooting,
    k: int,
)
    requires
        2 <= n <= usize::MAX,
        edges.len() + 1 == n,
        ends_in_range(n, edges),
        is_rooting(n, edges, removed, r),
        removed.finite(),
        removed.len() == k,
        forall|v: usize| removed.contains(v) ==> v < n,
        code.len() + 2 == n,
        0 <= k <= n - 2,
        code.skip(k) == code_from(n, edges, removed, (n - 2 - k) as nat),
    ensures
        trace_holds(n, edges, code, removed, k),
    decreases n - 2 - k,
{
    let m = edges.len() as int;
    let d = decode_from(code, removed, k);
    if k == n - 2 {
        lemma_trace_end(n, edges, code, removed, r, k);
    } else {
        let some_leaf = lemma_leaf_exists(n, edges, removed, r);
        lemma_least_leaf(n, edges, removed, some_leaf, 0);
        let u = smallest_leaf(n, edges, removed);
        assert(is_smallest_leaf(n, edges, removed, u));
        let e = lemma_leaf_edge(edges, removed, u);
        let w = other_end(edges[e], u);
        let r2 = lemma_step(n, edges, removed, r, u, e);
        assert(joins(edges[e], u, w));
        assert(is_live_neighbor(edges, removed, u, w));
        assert forall|x: usize| is_live_neighbor(edges, removed, u, x) implies x == w by {
            let f = choose|f: int| 0 <= f < edges.len() && joins(#[trigger] edges[f], u, x);
            assert(is_live(edges[f], removed) && touches(edges[f], u));
        }
        assert(live_neighbor(edges, removed, u) == w);
        let removed2 = removed.insert(u);
        let tail = code_from(n, edges, removed2, (n - 3 - k) as nat);
        assert(code.skip(k) == seq![w] + tail);
        assert(code[k] == code.skip(k)[0]);
        assert(code.skip(k + 1) =~= code.skip(k).skip(1));
        assert(code.skip(k).skip(1) =~= tail);
        lemma_trace(n, edges, code, removed2, r2, k + 1);
        lemma_trace_step(n, edges, code, removed, k, u, e);
    }
}

/// What holds from step `k + 1` on, after the smallest leaf `u` has been
/// taken away, holds from step `k` on.
#[verifier::rlimit(40)]
proof fn lemma_trace_step(
    n: nat,
    edges: Seq<(usize, usize)>,
    code: Seq<usize>,
    removed: Set<usize>,
    k: int,
    u: usize,
    e: int,
)
    requires
        2 <= n <= usize::MAX,
        edges.len() + 1 == n,
        code.len() + 2 == n,
        0 <= k < n - 2,
        is_smallest_leaf(n, edges, removed, u),
        is_only_edge(edges, removed, u, e),
        code[k] == other_end(edges[e], u),
        !removed.contains(code[k]),
        code[k] < n,
        trace_holds(n, edges, code, removed.insert(u), k + 1),
    ensures
        trace_holds(n, edges, code, removed, k),
{
    let m = edges.len() as int;
    let d = decode_from(code, removed, k);
    let w = other_end(edges[e], u);
    let removed2 = removed.insert(u);
    let d2 = decode_from(code, removed2, k + 1);
    assert forall|j: int| k <= j < code.len() implies (#[trigger] code[j]) < n && !removed.contains(
        code[j],
    ) by {
        if j > k {
            assert(!removed2.contains(code[j]));
        }
    }
    assert(count_from(code, k, u) == 0) by {
        lemma_count_occurs(code, k + 1, u);
        if occurs_from(code, k + 1, u) {
            let j = choose|j: int| k + 1 <= j < code.len() && #[trigger] code[j] == u;
            assert(!removed2.contains(code[j]));
        }
    }
    assert forall|v: usize| v < n && !removed.contains(v) implies #[trigger] live_degree(
        edges,
        removed,
        v,
        m,
    ) == 1 + count_from(code, k, v) by {
        if v != u {
            lemma_degree_after_removal(edges, removed, u, e, v, m);
            assert(live_degree(edges, removed2, v, m) == 1 + count_from(code, k + 1, v));
        }
    }
    assert forall|v: usize| v < n implies (is_leaf(n, edges, removed, v) <==> is_free(
        code,
        removed,
        k,
        v,
    )) by {
        lemma_count_occurs(code, k, v);
        if !removed.contains(v) {
            assert(live_degree(edges, removed, v, m) == 1 + count_from(code, k, v));
        }
    }
    lemma_same_leaf(n, edges, code, removed, k, u);
    assert(d == seq![(u, w)] + d2);
    assert forall|i: int| 0 <= i < d.len() implies joined_live(
        edges,
        removed,
        (#[trigger] d[i]).0,
        d[i].1,
    ) by {
        if i == 0 {
            assert(is_live(edges[e], removed) && joins(edges[e], d[0].0, d[0].1));
        } else {
            assert(d[i] == d2[i - 1]);
            assert(joined_live(edges, removed2, d2[i - 1].0, d2[i - 1].1));
            let f = choose|f: int|
                0 <= f < edges.len() && is_live(edges[f], removed2) && joins(
                    #[trigger] edges[f],
                    d2[i - 1].0,
                    d2[i - 1].1,
                );
            assert(is_live(edges[f], removed) && joins(edges[f], d[i].0, d[i].1));
        }
    }
    assert forall|f: int| 0 <= f < edges.len() && is_live(#[trigger] edges[f], removed) implies ends_listed(
        d,
        edges[f],
    ) by {
        if is_live(edges[f], removed2) {
            assert(ends_listed(d2, edges[f]));
            let i2 = choose|i: int|
                0 <= i < d2.len() && joins(edges[f], (#[trigger] d2[i]).0, d2[i].1);
            assert(d[i2 + 1] == d2[i2]);
            assert(joins(edges[f], d[i2 + 1].0, d[i2 + 1].1));
        } else {
            assert(touches(edges[f], u));
            assert(f == e);
            assert(joins(edges[f], d[0].0, d[0].1));
        }
    }
}

/// Decoding undoes encoding: the symbols of the Pruefer sequence of a tree
/// on `n` vertices are vertices, and decoding the sequence gives the edges
/// of the tree: as many, and the same as unordered pairs.
pub proof fn lemma_decode_of_encode(n: nat, edges: Seq<(usize, usize)>)
    requires
        2 <= n <= usize::MAX,
        is_tree(n, edges),
    ensures
        pruefer_code(n, edges).len() + 2 == n,
        is_code(pruefer_code(n, edges)),
        same_edges(decoded(pruefer_code(n, edges)), edges),
{
    lemma_tree_is_rooted(n, edges);
    lemma_decode_of_encode_rooted(n, edges);
}

/// Decoding undoes encoding, for a tree that is given as hanging from a
/// root.
pub proof fn lemma_decode_of_encode_rooted(n: nat, edges: Seq<(usize, usize)>)
    requires
        2 <= n <= usize::MAX,
        is_rooted_tree(n, edges),
    ensures
        pruefer_code(n, edges).len() + 2 == n,
        is_code(pruefer_code(n, edges)),
        same_edges(decoded(pruefer_code(n, edges)), edges),
{
    let code = pruefer_code(n, edges);
    let none = Set::<usize>::empty();
    let r = choose|r: Rooting| is_rooting(n, edges, none, r);
    lemma_code_len(n, edges, none, (n - 2) as nat);
    assert(code.skip(0) =~= code);
    lemma_trace(n, edges, code, none, r, 0);
    let d = decoded(code);
    assert forall|i: int| 0 <= i < d.len() implies joined_in(edges, (#[trigger] d[i]).0, d[i].1) by {
        assert(joined_live(edges, none, d[i].0, d[i].1));
        let f = choose|f: int|
            0 <= f < edges.len() && is_live(edges[f], none) && joins(
                #[trigger] edges[f],
                d[i].0,
                d[i].1,
            );
        assert(joins(edges[f], d[i].0, d[i].1));
    }
    assert forall|f: int| 0 <= f < edges.len() implies joined_in(
        d,
        (#[trigger] edges[f]).0,
        edges[f].1,
    ) by {
        assert(is_live(edges[f], none));
        assert(ends_listed(d, edges[f]));
        let i = choose|i: int| 0 <= i < d.len() && joins(edges[f], (#[trigger] d[i]).0, d[i].1);
        assert(joins(d[i], edges[f].0, edges[f].1));
    }
}

proof fn lemma_code_len(n: nat, edges: Seq<(usize, usize)>, removed: Set<usize>, steps: nat)
    ensures
        code_from(n, edges, removed, steps).len() == steps,
    decreases steps,
{
    if steps > 0 {
        lemma_code_len(
            n,
            edges,
            removed.insert(smallest_leaf(n, edges, removed)),
            (steps - 1) as nat,
        );
    }
}

} // verus!
