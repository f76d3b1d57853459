//! Trees as connected graphs: a graph on n vertices with n - 1 edges is
//! connected exactly if it hangs from a root, each vertex but the root by an
//! edge of its own.

use vstd::prelude::*;
use crate::trees::bijection::joined_in;
use crate::trees::pruefer::{
    ends_in_range,
    is_live,
    is_rooted_tree,
    is_rooting,
    joins,
    other_end,
    parent,
    touches,
    Rooting,
};

verus! {

/// A walk: a sequence of vertices, each joined to the next by an edge.
pub open spec fn is_walk(edges: Seq<(usize, usize)>, w: Seq<usize>) -> bool {
    &&& w.len() >= 1
    &&& forall|i: int| 0 <= i < w.len() - 1 ==> joined_in(edges, #[trigger] w[i], w[i + 1])
}

/// `w` is a walk from `a` to `b`.
pub open spec fn walks(edges: Seq<(usize, usize)>, w: Seq<usize>, a: usize, b: usize) -> bool {
    is_walk(edges, w) && w[0] == a && w.last() == b
}

/// The vertex `v` can be reached from the vertex 0 by a walk.
pub open spec fn is_reached(edges: Seq<(usize, usize)>, v: usize) -> bool {
    exists|w: Seq<usize>| #[trigger] walks(edges, w, 0, v)
}

/// Every vertex can be reached from the vertex 0 by a walk.
pub open spec fn is_connected(n: nat, edges: Seq<(usize, usize)>) -> bool {
    forall|v: usize| v < n ==> #[trigger] is_reached(edges, v)
}

/// The edges form a tree on the vertices `0..n`: there are `n - 1` of them,
/// between vertices, and the graph is connected. (Such a graph has no
/// cycle.)
pub open spec fn is_tree(n: nat, edges: Seq<(usize, usize)>) -> bool {
    &&& edges.len() + 1 == n
    &&& ends_in_range(n, edges)
    &&& is_connected(n, edges)
}

/// `w` is a shortest walk from 0 to `v`.
pub open spec fn is_shortest(edges: Seq<(usize, usize)>, w: Seq<usize>, v: usize) -> bool {
    walks(edges, w, 0, v) && forall|x: Seq<usize>| #[trigger] walks(edges, x, 0, v) ==> w.len() <= x.len()
}

/// A shortest walk from 0 to `v`.
pub open spec fn shortest(edges: Seq<(usize, usize)>, v: usize) -> Seq<usize> {
    choose|w: Seq<usize>| is_shortest(edges, w, v)
}

/// Where there is a walk of some length, there is a shortest.
proof fn lemma_shortest_exists(edges: Seq<(usize, usize)>, v: usize, w: Seq<usize>, lo: nat)
    requires
        walks(edges, w, 0, v),
        lo <= w.len(),
        forall|x: Seq<usize>| #[trigger] walks(edges, x, 0, v) ==> x.len() >= lo,
    ensures
        exists|s: Seq<usize>| is_shortest(edges, s, v),
    decreases w.len() - lo,
{
    if exists|x: Seq<usize>| #[trigger] walks(edges, x, 0, v) && x.len() == lo {
        let x = choose|x: Seq<usize>| #[trigger] walks(edges, x, 0, v) && x.len() == lo;
        assert(is_shortest(edges, x, v));
    } else {
        lemma_shortest_exists(edges, v, w, lo + 1);
    }
}

/// In a tree every vertex can be reached from the root.
proof fn lemma_walk_from_root(n: nat, edges: Seq<(usize, usize)>, r: Rooting, v: usize) -> (w: Seq<usize>)
    requires
        is_rooting(n, edges, Set::empty(), r),
        ends_in_range(n, edges),
        v < n,
    ensures
        walks(edges, w, r.root, v),
    decreases r.depth[v as int],
{
    if v == r.root {
        seq![v]
    } else {
        let e = r.up[v as int];
        let p = parent(edges, r, v);
        assert(0 <= e < edges.len());
        assert(joins(edges[e], p, v));
        let before = lemma_walk_from_root(n, edges, r, p);
        let w = before.push(v);
        assert forall|i: int| 0 <= i < w.len() - 1 implies joined_in(edges, #[trigger] w[i], w[i + 1]) by {
            if i < before.len() - 1 {
                assert(joined_in(edges, before[i], before[i + 1]));
            }
        }
        w
    }
}

/// A walk read backwards is a walk.
proof fn lemma_walk_back(edges: Seq<(usize, usize)>, w: Seq<usize>)
    requires
        is_walk(edges, w),
    ensures
        is_walk(edges, w.reverse()),
{
    let back = w.reverse();
    assert forall|i: int| 0 <= i < back.len() - 1 implies joined_in(
        edges,
        #[trigger] back[i],
        back[i + 1],
    ) by {
        let j = w.len() - 2 - i;
        assert(joined_in(edges, w[j], w[j + 1]));
        let e = choose|e: int| 0 <= e < edges.len() && joins(#[trigger] edges[e], w[j], w[j + 1]);
        assert(joins(edges[e], back[i], back[i + 1]));
    }
}

/// A walk to a vertex and a walk on from it make a walk.
proof fn lemma_walk_on(edges: Seq<(usize, usize)>, a: Seq<usize>, b: Seq<usize>)
    requires
        is_walk(edges, a),
        is_walk(edges, b),
        a.last() == b[0],
    ensures
        is_walk(edges, a + b.skip(1)),
        (a + b.skip(1))[0] == a[0],
        (a + b.skip(1)).last() == b.last(),
{
    let w = a + b.skip(1);
    assert forall|i: int| 0 <= i < w.len() - 1 implies joined_in(edges, #[trigger] w[i], w[i + 1]) by {
        if i < a.len() - 1 {
            assert(joined_in(edges, a[i], a[i + 1]));
        } else {
            let j = i - (a.len() - 1);
            assert(joined_in(edges, b[j], b[j + 1]));
        }
    }
}

/// A graph that hangs from a root is a tree.
pub proof fn lemma_rooted_is_tree(n: nat, edges: Seq<(usize, usize)>)
    requires
        n >= 1,
        is_rooted_tree(n, edges),
    ensures
        is_tree(n, edges),
{
    let r = choose|r: Rooting| is_rooting(n, edges, Set::empty(), r);
    assert forall|v: usize| v < n implies #[trigger] is_reached(edges, v) by {
        let down = lemma_walk_from_root(n, edges, r, 0);
        let on = lemma_walk_from_root(n, edges, r, v);
        lemma_walk_back(edges, down);
        lemma_walk_on(edges, down.reverse(), on);
        let w = down.reverse() + on.skip(1);
        assert(walks(edges, w, 0, v));
    }
}

/// The way up that the shortest walks give: for every vertex but 0 the last
/// edge of a shortest walk to it.
pub open spec fn up_edge(edges: Seq<(usize, usize)>, v: usize) -> int {
    let w = shortest(edges, v);
    choose|e: int| 0 <= e < edges.len() && joins(#[trigger] edges[e], w[w.len() - 2], v)
}

/// The distance of a vertex from the vertex 0.
pub open spec fn distance(edges: Seq<(usize, usize)>, v: usize) -> nat {
    (shortest(edges, v).len() - 1) as nat
}

/// The last edge of a shortest walk leads to a vertex nearer to 0.
#[verifier::rlimit(40)]
proof fn lemma_up_edge(n: nat, edges: Seq<(usize, usize)>, v: usize)
    requires
        is_connected(n, edges),
        ends_in_range(n, edges),
        0 < v < n,
    ensures
        0 <= up_edge(edges, v) < edges.len(),
        touches(edges[up_edge(edges, v)], v),
        other_end(edges[up_edge(edges, v)], v) != v,
        other_end(edges[up_edge(edges, v)], v) < n,
        distance(edges, other_end(edges[up_edge(edges, v)], v)) < distance(edges, v),
{
    assert(is_reached(edges, v));
    let some = choose|w: Seq<usize>| #[trigger] walks(edges, w, 0, v);
    lemma_shortest_exists(edges, v, some, 0);
    let w = shortest(edges, v);
    assert(is_shortest(edges, w, v));
    assert(w.len() >= 2);
    let p = w[w.len() - 2];
    assert(joined_in(edges, p, w[w.len() - 2 + 1]));
    let e = up_edge(edges, v);
    assert(0 <= e < edges.len() && joins(edges[e], p, v));
    // the walk up to p is a walk from 0 to p
    let short = w.drop_last();
    assert(walks(edges, short, 0, p)) by {
        assert forall|i: int| 0 <= i < short.len() - 1 implies joined_in(
            edges,
            #[trigger] short[i],
            short[i + 1],
        ) by {
            assert(joined_in(edges, w[i], w[i + 1]));
        }
    }
    lemma_shortest_exists(edges, p, short, 0);
    let wp = shortest(edges, p);
    assert(is_shortest(edges, wp, p));
    assert(wp.len() <= short.len());
    if p == v {
        assert(walks(edges, short, 0, v));
    }
}

/// Two vertices have different edges up.
proof fn lemma_up_edges_differ(n: nat, edges: Seq<(usize, usize)>, v: usize, u: usize)
    requires
        is_connected(n, edges),
        ends_in_range(n, edges),
        0 < v < n,
        0 < u < n,
        u != v,
    ensures
        up_edge(edges, v) != up_edge(edges, u),
{
    lemma_up_edge(n, edges, v);
    lemma_up_edge(n, edges, u);
}

/// A tree hangs from the vertex 0: every other vertex by the last edge of
/// a shortest walk to it, and these are all the edges.
#[verifier::rlimit(40)]
pub proof fn lemma_tree_is_rooted(n: nat, edges: Seq<(usize, usize)>)
    requires
        1 <= n <= usize::MAX,
        is_tree(n, edges),
    ensures
        is_rooted_tree(n, edges),
{
    let m = edges.len() as int;
    let others = vstd::set_lib::set_int_range(1, n as int);
    let indices = vstd::set_lib::set_int_range(0, m);
    vstd::set_lib::lemma_int_range(1, n as int);
    vstd::set_lib::lemma_int_range(0, m);
    let up = |v: int| up_edge(edges, v as usize);
    let image = others.map(up);
    assert(vstd::relations::injective_on(up, others)) by {
        assert forall|a: int, b: int|
            others.contains(a) && others.contains(b) && #[trigger] up(a) == #[trigger] up(
                b,
            ) implies a == b by {
            if a != b {
                lemma_up_edges_differ(n, edges, a as usize, b as usize);
            }
        }
    }
    vstd::set_lib::lemma_map_size(others, image, up);
    assert(image.subset_of(indices)) by {
        assert forall|e: int| image.contains(e) implies indices.contains(e) by {
            let v = choose|v: int| others.contains(v) && e == up(v);
            lemma_up_edge(n, edges, v as usize);
        }
    }
    vstd::set_lib::lemma_subset_equality(image, indices);
    let none = Set::<usize>::empty();
    let r = Rooting {
        root: 0,
        depth: Seq::new(n, |v: int| distance(edges, v as usize)),
        up: Seq::new(n, |v: int| up_edge(edges, v as usize)),
        down: Seq::new(
            edges.len(),
            |e: int| (choose|v: int| others.contains(v) && e == up(v)) as usize,
        ),
    };
    assert(is_rooting(n, edges, none, r)) by {
        assert forall|e: int| 0 <= e < edges.len() implies others.contains(r.down[e] as int)
            && up(r.down[e] as int) == e by {
            assert(indices.contains(e));
            assert(image.contains(e));
            let v = choose|v: int| others.contains(v) && e == up(v);
            assert(r.down[e] == v as usize);
        }
        assert forall|v: usize| v < n && !none.contains(v) && v != r.root implies {
            &&& 0 <= #[trigger] r.up[v as int] < edges.len()
            &&& is_live(edges[r.up[v as int]], none)
            &&& touches(edges[r.up[v as int]], v)
            &&& parent(edges, r, v) != v
            &&& r.depth[parent(edges, r, v) as int] < r.depth[v as int]
            &&& r.down[r.up[v as int]] == v
        } by {
            lemma_up_edge(n, edges, v);
            let e = r.up[v as int];
            let c = r.down[e];
            assert(others.contains(c as int) && up(c as int) == e);
            if c != v {
                lemma_up_edges_differ(n, edges, v, c);
            }
        }
        assert forall|e: int| 0 <= e < edges.len() && is_live(edges[e], none) implies {
            &&& (#[trigger] r.down[e]) < n
            &&& r.down[e] != r.root
            &&& touches(edges[e], r.down[e])
            &&& r.up[r.down[e] as int] == e
        } by {
            let c = r.down[e];
            assert(others.contains(c as int) && up(c as int) == e);
            lemma_up_edge(n, edges, c);
        }
    }
}

} // verus!
