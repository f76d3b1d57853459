//! Encoding of a labeled tree as its Pruefer sequence.

use vstd::prelude::*;
use crate::sequences::{below, filled, lemma_below_len};
use crate::trees::bijection::{lemma_decode_of_encode, same_edges};
use crate::trees::connected::{is_tree, lemma_tree_is_rooted};
use crate::trees::min_heap::MinHeap;
use crate::trees::pruefer_decode::{decoded, is_code};

verus! {

/// The edge `e` joins the vertices `a` and `b`.
pub open spec fn joins(e: (usize, usize), a: usize, b: usize) -> bool {
    (e.0 == a && e.1 == b) || (e.0 == b && e.1 == a)
}

/// The vertex `v` is an end of the edge `e`.
pub open spec fn touches(e: (usize, usize), v: usize) -> bool {
    e.0 == v || e.1 == v
}

/// The end of `e` other than `v`.
pub open spec fn other_end(e: (usize, usize), v: usize) -> usize {
    if e.0 == v {
        e.1
    } else {
        e.0
    }
}

/// How many ends of `e` are `v`.
pub open spec fn ends_at(e: (usize, usize), v: usize) -> nat {
    (if e.0 == v {
        1nat
    } else {
        0nat
    }) + (if e.1 == v {
        1nat
    } else {
        0nat
    })
}

/// Neither end of `e` has been removed.
pub open spec fn is_live(e: (usize, usize), removed: Set<usize>) -> bool {
    !removed.contains(e.0) && !removed.contains(e.1)
}

/// The degree of `v` in what is left of the first `m` edges when the
/// vertices of `removed` are taken away.
pub open spec fn live_degree(edges: Seq<(usize, usize)>, removed: Set<usize>, v: usize, m: int) -> nat
    decreases m,
{
    if m <= 0 {
        0
    } else {
        live_degree(edges, removed, v, m - 1) + if is_live(edges[m - 1], removed) {
            ends_at(edges[m - 1], v)
        } else {
            0
        }
    }
}

/// The neighbours of `v` along the first `m` edges, in the order of the
/// edges.
pub open spec fn neighbors(edges: Seq<(usize, usize)>, v: usize, m: int) -> Seq<usize>
    decreases m,
{
    if m <= 0 {
        Seq::empty()
    } else {
        let e = edges[m - 1];
        let first = if e.0 == v {
            neighbors(edges, v, m - 1).push(e.1)
        } else {
            neighbors(edges, v, m - 1)
        };
        if e.1 == v {
            first.push(e.0)
        } else {
            first
        }
    }
}

/// A way to hang a graph from a root: for every vertex its distance from
/// the top, for every vertex but the root the edge that leads up from it,
/// and for every edge the vertex from which it leads up.
pub struct Rooting {
    pub root: usize,
    pub depth: Seq<nat>,
    pub up: Seq<int>,
    pub down: Seq<usize>,
}

/// The vertex at the upper end of the edge that leads up from `v`.
pub open spec fn parent(edges: Seq<(usize, usize)>, r: Rooting, v: usize) -> usize {
    other_end(edges[r.up[v as int]], v)
}

/// What is left of the graph when the vertices of `removed` are taken away
/// hangs from the root of `r`: every vertex but the root is joined by an
/// edge of its own to a vertex nearer to the top, and there is no other
/// edge.
pub open spec fn is_rooting(n: nat, edges: Seq<(usize, usize)>, removed: Set<usize>, r: Rooting) -> bool {
    &&& r.root < n
    &&& !removed.contains(r.root)
    &&& r.depth.len() == n
    &&& r.up.len() == n
    &&& r.down.len() == edges.len()
    &&& forall|v: usize|
        v < n && !removed.contains(v) && v != r.root ==> {
            &&& 0 <= #[trigger] r.up[v as int] < edges.len()
            &&& is_live(edges[r.up[v as int]], removed)
            &&& touches(edges[r.up[v as int]], v)
            &&& parent(edges, r, v) != v
            &&& r.depth[parent(edges, r, v) as int] < r.depth[v as int]
            &&& r.down[r.up[v as int]] == v
        }
    &&& forall|e: int|
        0 <= e < edges.len() && is_live(edges[e], removed) ==> {
            &&& (#[trigger] r.down[e]) < n
            &&& r.down[e] != r.root
            &&& touches(edges[e], r.down[e])
            &&& r.up[r.down[e] as int] == e
        }
}

/// Every end of an edge is a vertex.
pub open spec fn ends_in_range(n: nat, edges: Seq<(usize, usize)>) -> bool {
    forall|e: int| 0 <= e < edges.len() ==> (#[trigger] edges[e]).0 < n && edges[e].1 < n
}

/// The edges form a rooted tree on the vertices `0..n`: there are `n - 1` of
/// them, and the graph hangs from a root.
pub open spec fn is_rooted_tree(n: nat, edges: Seq<(usize, usize)>) -> bool {
    &&& edges.len() + 1 == n
    &&& ends_in_range(n, edges)
    &&& exists|r: Rooting| is_rooting(n, edges, Set::empty(), r)
}

/// `v` is a leaf of what is left: a vertex of degree one.
pub open spec fn is_leaf(n: nat, edges: Seq<(usize, usize)>, removed: Set<usize>, v: usize) -> bool {
    v < n && !removed.contains(v) && live_degree(edges, removed, v, edges.len() as int) == 1
}

/// `u` is the smallest leaf of what is left.
pub open spec fn is_smallest_leaf(
    n: nat,
    edges: Seq<(usize, usize)>,
    removed: Set<usize>,
    u: usize,
) -> bool {
    is_leaf(n, edges, removed, u) && forall|w: usize| w < u ==> !is_leaf(n, edges, removed, w)
}

/// The smallest leaf of what is left.
pub open spec fn smallest_leaf(n: nat, edges: Seq<(usize, usize)>, removed: Set<usize>) -> usize {
    choose|u: usize| is_smallest_leaf(n, edges, removed, u)
}

/// `w` is left, and an edge joins it to `u`.
pub open spec fn is_live_neighbor(
    edges: Seq<(usize, usize)>,
    removed: Set<usize>,
    u: usize,
    w: usize,
) -> bool {
    !removed.contains(w) && exists|e: int| 0 <= e < edges.len() && joins(#[trigger] edges[e], u, w)
}

/// The neighbour of the leaf `u` in what is left.
pub open spec fn live_neighbor(edges: Seq<(usize, usize)>, removed: Set<usize>, u: usize) -> usize {
    choose|w: usize| is_live_neighbor(edges, removed, u, w)
}

/// The sequence of `steps` symbols that arises when, `steps` times, the
/// smallest leaf of what is left is taken away and its neighbour noted.
pub open spec fn code_from(
    n: nat,
    edges: Seq<(usize, usize)>,
    removed: Set<usize>,
    steps: nat,
) -> Seq<usize>
    decreases steps,
{
    if steps == 0 {
        Seq::empty()
    } else {
        let u = smallest_leaf(n, edges, removed);
        seq![live_neighbor(edges, removed, u)] + code_from(
            n,
            edges,
            removed.insert(u),
            (steps - 1) as nat,
        )
    }
}

/// The Pruefer sequence of the tree with the given edges on `n` vertices.
pub open spec fn pruefer_code(n: nat, edges: Seq<(usize, usize)>) -> Seq<usize> {
    code_from(n, edges, Set::empty(), (n - 2) as nat)
}

/// `e` is the one live edge among the first `m` that touches `u`.
pub open spec fn is_only_edge(
    edges: Seq<(usize, usize)>,
    removed: Set<usize>,
    u: usize,
    e: int,
) -> bool {
    &&& 0 <= e < edges.len()
    &&& is_live(edges[e], removed)
    &&& touches(edges[e], u)
    &&& other_end(edges[e], u) != u
    &&& forall|f: int|
        0 <= f < edges.len() && is_live(#[trigger] edges[f], removed) && touches(edges[f], u) ==> f
            == e
}

proof fn lemma_degree_zero(edges: Seq<(usize, usize)>, removed: Set<usize>, v: usize, m: int)
    requires
        m <= edges.len(),
        forall|f: int| 0 <= f < m && is_live(#[trigger] edges[f], removed) ==> !touches(edges[f], v),
    ensures
        live_degree(edges, removed, v, m) == 0,
    decreases m,
{
    if m > 0 {
        lemma_degree_zero(edges, removed, v, m - 1);
        assert(is_live(edges[m - 1], removed) ==> !touches(edges[m - 1], v));
    }
}

proof fn lemma_degree_monotone(edges: Seq<(usize, usize)>, removed: Set<usize>, v: usize, a: int, b: int)
    requires
        a <= b,
    ensures
        live_degree(edges, removed, v, a) <= live_degree(edges, removed, v, b),
    decreases b - a,
{
    if a < b {
        lemma_degree_monotone(edges, removed, v, a, b - 1);
    }
}

/// An edge that touches `v` counts.
pub proof fn lemma_degree_one_edge(edges: Seq<(usize, usize)>, removed: Set<usize>, v: usize, e: int)
    requires
        0 <= e < edges.len(),
        is_live(edges[e], removed),
        touches(edges[e], v),
    ensures
        live_degree(edges, removed, v, e + 1) >= live_degree(edges, removed, v, e) + 1,
        live_degree(edges, removed, v, edges.len() as int) >= 1,
{
    lemma_degree_monotone(edges, removed, v, e + 1, edges.len() as int);
}

/// Two edges that touch `v` count twice.
pub proof fn lemma_degree_two_edges(
    edges: Seq<(usize, usize)>,
    removed: Set<usize>,
    v: usize,
    e: int,
    f: int,
)
    requires
        0 <= e < f < edges.len(),
        is_live(edges[e], removed),
        touches(edges[e], v),
        is_live(edges[f], removed),
        touches(edges[f], v),
    ensures
        live_degree(edges, removed, v, edges.len() as int) >= 2,
{
    lemma_degree_one_edge(edges, removed, v, e);
    lemma_degree_one_edge(edges, removed, v, f);
    lemma_degree_monotone(edges, removed, v, e + 1, f);
    lemma_degree_monotone(edges, removed, v, f + 1, edges.len() as int);
}

/// Where exactly one live edge touches `v`, and is no loop, `v` has degree
/// one.
pub proof fn lemma_degree_only_edge(edges: Seq<(usize, usize)>, removed: Set<usize>, v: usize, e: int, m: int)
    requires
        is_only_edge(edges, removed, v, e),
        0 <= m <= edges.len(),
    ensures
        live_degree(edges, removed, v, m) == if e < m {
            1nat
        } else {
            0nat
        },
    decreases m,
{
    if m > 0 {
        lemma_degree_only_edge(edges, removed, v, e, m - 1);
        if m - 1 != e && is_live(edges[m - 1], removed) {
            assert(!touches(edges[m - 1], v));
        }
    }
}

/// A vertex of degree one is touched by exactly one live edge, and this is
/// no loop.
pub proof fn lemma_leaf_edge(edges: Seq<(usize, usize)>, removed: Set<usize>, v: usize) -> (e: int)
    requires
        live_degree(edges, removed, v, edges.len() as int) == 1,
    ensures
        is_only_edge(edges, removed, v, e),
{
    let m = edges.len() as int;
    if forall|f: int| 0 <= f < m && is_live(#[trigger] edges[f], removed) ==> !touches(edges[f], v) {
        lemma_degree_zero(edges, removed, v, m);
    }
    let e = choose|f: int| 0 <= f < m && is_live(#[trigger] edges[f], removed) && touches(edges[f], v);
    lemma_degree_one_edge(edges, removed, v, e);
    lemma_degree_monotone(edges, removed, v, 0, e);
    lemma_degree_monotone(edges, removed, v, e + 1, m);
    assert(other_end(edges[e], v) != v) by {
        if other_end(edges[e], v) == v {
            assert(ends_at(edges[e], v) == 2);
        }
    }
    assert forall|f: int|
        0 <= f < edges.len() && is_live(#[trigger] edges[f], removed) && touches(edges[f], v) implies f
        == e by {
        if f < e {
            lemma_degree_two_edges(edges, removed, v, f, e);
        }
        if e < f {
            lemma_degree_two_edges(edges, removed, v, e, f);
        }
    }
    e
}

/// Taking a leaf away lowers the degree of its neighbour by one and leaves
/// the degrees of the other vertices alone.
pub proof fn lemma_degree_after_removal(
    edges: Seq<(usize, usize)>,
    removed: Set<usize>,
    u: usize,
    e: int,
    v: usize,
    m: int,
)
    requires
        is_only_edge(edges, removed, u, e),
        0 <= m <= edges.len(),
        v != u,
    ensures
        live_degree(edges, removed.insert(u), v, m) + (if e < m && other_end(edges[e], u) == v {
            1nat
        } else {
            0nat
        }) == live_degree(edges, removed, v, m),
    decreases m,
{
    if m > 0 {
        lemma_degree_after_removal(edges, removed, u, e, v, m - 1);
        let f = m - 1;
        if is_live(edges[f], removed) && touches(edges[f], u) {
            assert(f == e);
        }
    }
}

/// The other end of an edge that touches `v` is among the neighbours of `v`.
proof fn lemma_neighbors_hold(edges: Seq<(usize, usize)>, v: usize, e: int, m: int)
    requires
        0 <= e < m <= edges.len(),
        touches(edges[e], v),
    ensures
        neighbors(edges, v, m).contains(other_end(edges[e], v)),
    decreases m,
{
    let list = neighbors(edges, v, m);
    let w = other_end(edges[e], v);
    if e == m - 1 {
        let last = edges[m - 1];
        if last.1 == v {
            assert(list[list.len() - 1] == w);
        } else {
            assert(list[list.len() - 1] == w);
        }
    } else {
        lemma_neighbors_hold(edges, v, e, m - 1);
        let prev = neighbors(edges, v, m - 1);
        let i = choose|i: int| 0 <= i < prev.len() && prev[i] == w;
        assert(list[i] == w);
    }
}

/// Every neighbour of `v` is joined to `v` by an edge.
proof fn lemma_neighbors_joined(edges: Seq<(usize, usize)>, v: usize, m: int, i: int) -> (e: int)
    requires
        0 <= m <= edges.len(),
        0 <= i < neighbors(edges, v, m).len(),
    ensures
        0 <= e < m,
        joins(edges[e], v, neighbors(edges, v, m)[i]),
    decreases m,
{
    let prev = neighbors(edges, v, m - 1);
    if i < prev.len() {
        let e = lemma_neighbors_joined(edges, v, m - 1, i);
        e
    } else {
        m - 1
    }
}

/// Some vertex that is left is as deep as any.
proof fn lemma_deepest(n: nat, removed: Set<usize>, depth: Seq<nat>, x: usize, j: nat) -> (v: usize)
    requires
        x < j <= n,
        n <= usize::MAX,
        !removed.contains(x),
        depth.len() == n,
    ensures
        v < j,
        !removed.contains(v),
        forall|w: usize| w < j && !removed.contains(w) ==> depth[w as int] <= depth[v as int],
    decreases j,
{
    let last = (j - 1) as usize;
    if x == last {
        if exists|y: usize| y < last && !removed.contains(y) {
            let y = choose|y: usize| y < last && !removed.contains(y);
            let v = lemma_deepest(n, removed, depth, y, (j - 1) as nat);
            if depth[v as int] >= depth[last as int] {
                v
            } else {
                last
            }
        } else {
            last
        }
    } else {
        let v = lemma_deepest(n, removed, depth, x, (j - 1) as nat);
        if removed.contains(last) || depth[v as int] >= depth[last as int] {
            v
        } else {
            last
        }
    }
}

/// From a vertex other than the root the way up ends at a child of the
/// root.
proof fn lemma_root_child(n: nat, edges: Seq<(usize, usize)>, removed: Set<usize>, r: Rooting, x: usize) -> (y: usize)
    requires
        is_rooting(n, edges, removed, r),
        ends_in_range(n, edges),
        x < n,
        !removed.contains(x),
        x != r.root,
    ensures
        y < n,
        !removed.contains(y),
        y != r.root,
        parent(edges, r, y) == r.root,
    decreases r.depth[x as int],
{
    let p = parent(edges, r, x);
    assert(0 <= r.up[x as int] < edges.len());
    if p == r.root {
        x
    } else {
        lemma_root_child(n, edges, removed, r, p)
    }
}

/// From a vertex other than `u` and the root the way up ends at a child of
/// the root other than `u`, where `u` has no child.
proof fn lemma_root_other_child(
    n: nat,
    edges: Seq<(usize, usize)>,
    removed: Set<usize>,
    r: Rooting,
    u: usize,
    x: usize,
) -> (y: usize)
    requires
        is_rooting(n, edges, removed, r),
        ends_in_range(n, edges),
        x < n,
        !removed.contains(x),
        x != r.root,
        x != u,
        forall|v: usize| v < n && !removed.contains(v) && v != r.root ==> #[trigger] parent(edges, r, v) != u,
    ensures
        y < n,
        !removed.contains(y),
        y != r.root,
        y != u,
        parent(edges, r, y) == r.root,
    decreases r.depth[x as int],
{
    let p = parent(edges, r, x);
    assert(0 <= r.up[x as int] < edges.len());
    if p == r.root {
        x
    } else {
        lemma_root_other_child(n, edges, removed, r, u, p)
    }
}

/// From a vertex other than the root and its only child `c` the way up
/// ends at a child of `c`.
proof fn lemma_grandchild(
    n: nat,
    edges: Seq<(usize, usize)>,
    removed: Set<usize>,
    r: Rooting,
    c: usize,
    x: usize,
) -> (y: usize)
    requires
        is_rooting(n, edges, removed, r),
        ends_in_range(n, edges),
        x < n,
        !removed.contains(x),
        x != r.root,
        x != c,
        forall|v: usize|
            v < n && !removed.contains(v) && v != r.root && v != c ==> #[trigger] parent(edges, r, v)
                != r.root,
    ensures
        y < n,
        !removed.contains(y),
        y != r.root,
        y != c,
        parent(edges, r, y) == c,
    decreases r.depth[x as int],
{
    let p = parent(edges, r, x);
    assert(0 <= r.up[x as int] < edges.len());
    if p == c {
        x
    } else {
        lemma_grandchild(n, edges, removed, r, c, p)
    }
}

/// Besides any two vertices a third is left, while fewer than `n - 2` have
/// been removed.
pub proof fn lemma_third_vertex(n: nat, removed: Set<usize>, a: usize, b: usize) -> (x: usize)
    requires
        n <= usize::MAX,
        removed.finite(),
        removed.len() + 2 < n,
    ensures
        x < n,
        !removed.contains(x),
        x != a,
        x != b,
{
    let all = below(n);
    let taken = removed.insert(a).insert(b);
    lemma_below_len(n);
    vstd::set_lib::lemma_set_difference_len(all, taken);
    vstd::set_lib::lemma_len_subset(all.intersect(taken), taken);
    let free = all.difference(taken);
    assert(free.len() > 0);
    let x = free.choose();
    assert(free.contains(x));
    x
}

/// What is left of a tree with at least three vertices has a leaf.
#[verifier::rlimit(40)]
pub proof fn lemma_leaf_exists(n: nat, edges: Seq<(usize, usize)>, removed: Set<usize>, r: Rooting) -> (v: usize)
    requires
        is_rooting(n, edges, removed, r),
        ends_in_range(n, edges),
        n <= usize::MAX,
        removed.finite(),
        removed.len() + 2 < n,
    ensures
        is_leaf(n, edges, removed, v),
{
    let v = lemma_deepest(n, removed, r.depth, r.root, n);
    if v == r.root {
        let x = lemma_third_vertex(n, removed, r.root, r.root);
        let y = lemma_root_child(n, edges, removed, r, x);
        assert(0 <= r.up[y as int] < edges.len());
        assert(false);
    }
    let e = r.up[v as int];
    assert(is_only_edge(edges, removed, v, e)) by {
        assert forall|f: int|
            0 <= f < edges.len() && is_live(#[trigger] edges[f], removed) && touches(
                edges[f],
                v,
            ) implies f == e by {
            let c = r.down[f];
            if c != v {
                assert(r.up[c as int] == f);
                assert(parent(edges, r, c) == v);
                assert(r.depth[v as int] < r.depth[c as int]);
            }
        }
    }
    lemma_degree_only_edge(edges, removed, v, e, edges.len() as int);
    v
}

/// Below a leaf `v`, from `lo` on, there is a smallest leaf.
pub proof fn lemma_least_leaf(n: nat, edges: Seq<(usize, usize)>, removed: Set<usize>, v: usize, lo: usize)
    requires
        is_leaf(n, edges, removed, v),
        lo <= v,
        forall|w: usize| w < lo ==> !is_leaf(n, edges, removed, w),
    ensures
        exists|u: usize| is_smallest_leaf(n, edges, removed, u),
    decreases v - lo,
{
    if is_leaf(n, edges, removed, lo) {
        assert(is_smallest_leaf(n, edges, removed, lo));
    } else {
        lemma_least_leaf(n, edges, removed, v, (lo + 1) as usize);
    }
}

/// Taking a leaf away from what is left of a tree with at least three
/// vertices leaves a tree, and the neighbour of the leaf had degree two at
/// least.
#[verifier::rlimit(40)]
pub proof fn lemma_step(
    n: nat,
    edges: Seq<(usize, usize)>,
    removed: Set<usize>,
    r: Rooting,
    u: usize,
    e: int,
) -> (r2: Rooting)
    requires
        is_rooting(n, edges, removed, r),
        ends_in_range(n, edges),
        n <= usize::MAX,
        removed.finite(),
        removed.len() + 2 < n,
        u < n,
        !removed.contains(u),
        is_only_edge(edges, removed, u, e),
    ensures
        is_rooting(n, edges, removed.insert(u), r2),
        live_degree(edges, removed, other_end(edges[e], u), edges.len() as int) >= 2,
{
    let w = other_end(edges[e], u);
    if u != r.root {
        assert(r.up[u as int] == e);
        assert forall|v: usize|
            v < n && !removed.contains(v) && v != r.root implies #[trigger] parent(edges, r, v)
            != u by {
            if parent(edges, r, v) == u {
                assert(touches(edges[r.up[v as int]], u));
                assert(r.up[v as int] == e);
            }
        }
        if w != r.root {
            let f = r.up[w as int];
            assert(f != e);
            if f < e {
                lemma_degree_two_edges(edges, removed, w, f, e);
            } else {
                lemma_degree_two_edges(edges, removed, w, e, f);
            }
        } else {
            let x = lemma_third_vertex(n, removed, u, r.root);
            let y = lemma_root_other_child(n, edges, removed, r, u, x);
            let f = r.up[y as int];
            assert(touches(edges[f], w));
            assert(f != e);
            if f < e {
                lemma_degree_two_edges(edges, removed, w, f, e);
            } else {
                lemma_degree_two_edges(edges, removed, w, e, f);
            }
        }
        assert(is_rooting(n, edges, removed.insert(u), r)) by {
            let rem2 = removed.insert(u);
            assert forall|v: usize| v < n && !rem2.contains(v) && v != r.root implies {
                &&& 0 <= #[trigger] r.up[v as int] < edges.len()
                &&& is_live(edges[r.up[v as int]], rem2)
                &&& touches(edges[r.up[v as int]], v)
                &&& parent(edges, r, v) != v
                &&& r.depth[parent(edges, r, v) as int] < r.depth[v as int]
                &&& r.down[r.up[v as int]] == v
            } by {
                assert(parent(edges, r, v) != u);
            }
        }
        r
    } else {
        let c = r.down[e];
        assert(w == c);
        assert forall|v: usize|
            v < n && !removed.contains(v) && v != r.root && v != c implies #[trigger] parent(
                edges,
                r,
                v,
            ) != r.root by {
            if parent(edges, r, v) == r.root {
                assert(touches(edges[r.up[v as int]], u));
                assert(r.up[v as int] == e);
            }
        }
        let x = lemma_third_vertex(n, removed, u, c);
        let y = lemma_grandchild(n, edges, removed, r, c, x);
        let f = r.up[y as int];
        assert(touches(edges[f], c));
        assert(f != e);
        if f < e {
            lemma_degree_two_edges(edges, removed, c, f, e);
        } else {
            lemma_degree_two_edges(edges, removed, c, e, f);
        }
        let r2 = Rooting { root: c, depth: r.depth, up: r.up, down: r.down };
        assert(is_rooting(n, edges, removed.insert(u), r2)) by {
            let rem2 = removed.insert(u);
            assert forall|v: usize| v < n && !rem2.contains(v) && v != r2.root implies {
                &&& 0 <= #[trigger] r2.up[v as int] < edges.len()
                &&& is_live(edges[r2.up[v as int]], rem2)
                &&& touches(edges[r2.up[v as int]], v)
                &&& parent(edges, r2, v) != v
                &&& r2.depth[parent(edges, r2, v) as int] < r2.depth[v as int]
                &&& r2.down[r2.up[v as int]] == v
            } by {
                assert(parent(edges, r, v) != r.root);
                assert(parent(edges, r2, v) == parent(edges, r, v));
            }
            assert forall|f: int| 0 <= f < edges.len() && is_live(edges[f], rem2) implies {
                &&& (#[trigger] r2.down[f]) < n
                &&& r2.down[f] != r2.root
                &&& touches(edges[f], r2.down[f])
                &&& r2.up[r2.down[f] as int] == f
            } by {
                assert(is_live(edges[f], removed));
                if r.down[f] == c {
                    assert(f == e);
                }
            }
        }
        r2
    }
}

/// Encode the tree with the given edges on the vertices `0..n` as its
/// Pruefer sequence: `n - 2` times, take the smallest leaf away and note
/// its neighbour.
#[verifier::rlimit(40)]
pub fn pruefer_encode(n: usize, edges: &[(usize, usize)]) -> (code: Vec<usize>)
    requires
        n >= 2,
        is_tree(n as nat, edges@),
    ensures
        code@ == pruefer_code(n as nat, edges@),
        is_code(code@),
        same_edges(decoded(code@), edges@),
{
    proof {
        lemma_tree_is_rooted(n as nat, edges@);
        lemma_decode_of_encode(n as nat, edges@);
    }
    let ghost es = edges@;
    let ghost none: Set<usize> = Set::empty();
    let ghost mut rooting = choose|r: Rooting| is_rooting(n as nat, es, none, r);
    let mut deg: Vec<usize> = filled(0, n);
    let mut adj: Vec<Vec<usize>> = Vec::new();
    let mut a: usize = 0;
    while a < n
        invariant
            a <= n,
            adj.len() == a,
            forall|v: int| 0 <= v < a ==> (#[trigger] adj[v])@ == Seq::<usize>::empty(),
        decreases n - a,
    {
        adj.push(Vec::new());
        a += 1;
    }
    let mut i: usize = 0;
    while i < edges.len()
        invariant
            i <= edges.len(),
            es == edges@,
            es.len() + 1 == n,
            ends_in_range(n as nat, es),
            is_rooting(n as nat, es, none, rooting),
            none == Set::<usize>::empty(),
            deg.len() == n,
            adj.len() == n,
            forall|v: usize| v < n ==> #[trigger] deg[v as int] == live_degree(es, none, v, i as int),
            forall|v: usize| v < n ==> #[trigger] deg[v as int] <= i,
            forall|v: usize| v < n ==> (#[trigger] adj[v as int])@ == neighbors(es, v, i as int),
        decreases edges.len() - i,
    {
        let u: usize = edges[i].0;
        let v: usize = edges[i].1;
        proof {
            assert(is_live(es[i as int], none));
            let c = rooting.down[i as int];
            assert(rooting.up[c as int] == i);
            assert(parent(es, rooting, c) != c);
            assert(u != v);
        }
        deg[u] += 1;
        deg[v] += 1;
        adj[u].push(v);
        adj[v].push(u);
        i += 1;
    }
    let mut leaves = MinHeap::new();
    let mut j: usize = 0;
    while j < n
        invariant
            j <= n,
            es == edges@,
            deg.len() == n,
            none == Set::<usize>::empty(),
            forall|v: usize| v < n ==> #[trigger] deg[v as int] == live_degree(es, none, v, es.len() as int),
            leaves.well_formed(),
            forall|v: usize| #[trigger]
                leaves@.count(v) == if v < j && is_leaf(n as nat, es, none, v) {
                    1nat
                } else {
                    0nat
                },
        decreases n - j,
    {
        broadcast use vstd::multiset::group_multiset_axioms;

        if deg[j] == 1 {
            leaves.push(j);
        }
        j += 1;
    }
    let mut code: Vec<usize> = Vec::new();
    let ghost mut removed: Set<usize> = Set::empty();
    let mut k: usize = 0;
    while k < n - 2
        invariant
            n >= 2,
            k <= n - 2,
            es == edges@,
            es.len() + 1 == n,
            ends_in_range(n as nat, es),
            is_rooting(n as nat, es, removed, rooting),
            removed.finite(),
            removed.len() == k,
            forall|v: usize| removed.contains(v) ==> v < n,
            deg.len() == n,
            adj.len() == n,
            forall|v: usize| v < n ==> (#[trigger] adj[v as int])@ == neighbors(es, v, es.len() as int),
            forall|v: usize|
                v < n ==> #[trigger] deg[v as int] == if removed.contains(v) {
                    0nat
                } else {
                    live_degree(es, removed, v, es.len() as int)
                },
            leaves.well_formed(),
            forall|v: usize| #[trigger]
                leaves@.count(v) == if is_leaf(n as nat, es, removed, v) {
                    1nat
                } else {
                    0nat
                },
            code@ + code_from(n as nat, es, removed, (n - 2 - k) as nat) == pruefer_code(n as nat, es),
        decreases n - 2 - k,
    {
        broadcast use vstd::multiset::group_multiset_axioms;

        proof {
            let leaf = lemma_leaf_exists(n as nat, es, removed, rooting);
            assert(leaves@.count(leaf) == 1);
        }
        let u: usize = leaves.pop().unwrap();
        let ghost e = lemma_leaf_edge(es, removed, u);
        let ghost w = other_end(es[e], u);
        let ghost next_rooting = lemma_step(n as nat, es, removed, rooting, u, e);
        let ghost iw: int;
        proof {
            assert(is_smallest_leaf(n as nat, es, removed, u)) by {
                assert forall|x: usize| x < u implies !is_leaf(n as nat, es, removed, x) by {
                    if is_leaf(n as nat, es, removed, x) {
                        assert(leaves@.count(x) == 1);
                    }
                }
            }
            let s = smallest_leaf(n as nat, es, removed);
            assert(s == u) by {
                assert(is_smallest_leaf(n as nat, es, removed, s));
                if s < u {
                    assert(!is_leaf(n as nat, es, removed, s));
                }
                if u < s {
                    assert(!is_leaf(n as nat, es, removed, u));
                }
            }
            // the neighbour stands in the list of u
            lemma_neighbors_hold(es, u, e, es.len() as int);
            let list = neighbors(es, u, es.len() as int);
            iw = choose|x: int| 0 <= x < list.len() && list[x] == w;
            assert(joins(es[e], u, w));
            assert(is_live_neighbor(es, removed, u, w));
            assert forall|x: usize| is_live_neighbor(es, removed, u, x) implies x == w by {
                let f = choose|f: int| 0 <= f < es.len() && joins(#[trigger] es[f], u, x);
                assert(is_live(es[f], removed) && touches(es[f], u));
                assert(f == e);
            }
            assert(live_neighbor(es, removed, u) == w);
            assert forall|x: int| 0 <= x < list.len() implies (#[trigger] list[x]) < n by {
                let f = lemma_neighbors_joined(es, u, es.len() as int, x);
            }
        }
        // find the neighbour that is left
        let mut t: usize = 0;
        while t < adj[u].len() && deg[adj[u][t]] == 0
            invariant
                u < n,
                t <= iw,
                adj.len() == n,
                deg.len() == n,
                es == edges@,
                ends_in_range(n as nat, es),
                adj[u as int]@ == neighbors(es, u, es.len() as int),
                forall|x: int| 0 <= x < adj[u as int]@.len() ==> (#[trigger] adj[u as int]@[x]) < n,
                0 <= iw < adj[u as int]@.len(),
                adj[u as int]@[iw] == w,
                w < n,
                deg[w as int] > 0,
            decreases iw - t,
        {
            t += 1;
        }
        let v: usize = adj[u][t];
        proof {
            let f = lemma_neighbors_joined(es, u, es.len() as int, t as int);
            assert(!removed.contains(v));
            assert(is_live_neighbor(es, removed, u, v));
            assert(v == w);
        }
        let ghost before = code@;
        code.push(v);
        deg[v] -= 1;
        if deg[v] == 1 {
            leaves.push(v);
        }
        deg[u] = 0;
        proof {
            let old_removed = removed;
            removed = removed.insert(u);
            rooting = next_rooting;
            assert forall|x: usize| x < n implies #[trigger] deg[x as int] == if removed.contains(x) {
                0nat
            } else {
                live_degree(es, removed, x, es.len() as int)
            } by {
                if x != u {
                    lemma_degree_after_removal(es, old_removed, u, e, x, es.len() as int);
                }
            }
            assert forall|x: usize| #[trigger]
                leaves@.count(x) == if is_leaf(n as nat, es, removed, x) {
                    1nat
                } else {
                    0nat
                } by {
                if x != u && x < n {
                    lemma_degree_after_removal(es, old_removed, u, e, x, es.len() as int);
                }
            }
            let rest = code_from(n as nat, es, removed, (n - 3 - k) as nat);
            assert((before + seq![v]) + rest =~= before + (seq![v] + rest));
            assert(code@ =~= before + seq![v]);
        }
        k += 1;
    }
    assert(code@ + Seq::<usize>::empty() =~= code@);
    code
}

} // verus!
