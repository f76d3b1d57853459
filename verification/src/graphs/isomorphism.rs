//! Isomorphism of graphs given as adjacency matrices, by trying every
//! permutation of the vertices.

use vstd::prelude::*;
use crate::graphs::generate::is_simple_graph;
use crate::order::lemma_usize_ordered;
use crate::permutations::lex::{
    is_arrangement,
    lemma_rising_first,
    lemma_lex_total,
    lex_less,
    next_lex_perm,
};
use crate::permutations::ranking::{factorial, lemma_perm_rank_bound, lemma_rank_monotone, perm_rank};
use crate::sequences::{
    identity_seq,
    iota,
    is_permutation,
    lemma_permutation_multiset,
    lemma_permutation_onto,
    rows,
};

verus! {

/// Every row is as long as there are rows.
pub open spec fn is_square(g: Seq<Seq<bool>>) -> bool {
    forall|i: int| 0 <= i < g.len() ==> (#[trigger] g[i]).len() == g.len()
}

/// Vertices are joined in `g1` exactly where their images under `perm` are
/// joined in `g2`.
pub open spec fn preserves_edges(g1: Seq<Seq<bool>>, g2: Seq<Seq<bool>>, perm: Seq<usize>) -> bool {
    forall|i: int, j: int|
        0 <= i < g1.len() && 0 <= j < g1.len() ==> #[trigger] g1[i][j] == g2[perm[i] as int][perm[j] as int]
}

/// The graphs have as many vertices, and some permutation of them carries
/// the edges of `g1` onto those of `g2`.
pub open spec fn isomorphic(g1: Seq<Seq<bool>>, g2: Seq<Seq<bool>>) -> bool {
    g1.len() == g2.len() && exists|perm: Seq<usize>|
        is_permutation(perm, g1.len()) && #[trigger] preserves_edges(g1, g2, perm)
}

/// The position at which the permutation `perm` holds `v`.
pub open spec fn place_of(perm: Seq<usize>, v: int) -> int {
    choose|p: int| 0 <= p < perm.len() && perm[p] == v
}

/// The permutation that undoes `perm`.
pub open spec fn inverse(perm: Seq<usize>) -> Seq<usize> {
    Seq::new(perm.len(), |v: int| place_of(perm, v) as usize)
}

/// First `first`, then `second`.
pub open spec fn composed(first: Seq<usize>, second: Seq<usize>) -> Seq<usize> {
    Seq::new(first.len(), |i: int| second[first[i] as int])
}

/// The inverse of a permutation of `0..n` is a permutation of `0..n`, and
/// the permutation leads back from it.
pub proof fn lemma_inverse(perm: Seq<usize>, n: nat)
    requires
        n <= usize::MAX,
        is_permutation(perm, n),
    ensures
        is_permutation(inverse(perm), n),
        forall|v: int| 0 <= v < n ==> perm[(#[trigger] inverse(perm)[v]) as int] == v,
{
    let q = inverse(perm);
    assert forall|v: int| 0 <= v < n implies 0 <= place_of(perm, v) < n && perm[place_of(
        perm,
        v,
    )] == v && #[trigger] q[v] == place_of(perm, v) by {
        lemma_permutation_onto(perm, n, v);
    }
    assert forall|i: int, j: int| 0 <= i < j < q.len() implies q[i] != q[j] by {
        assert(perm[q[i] as int] == i);
        assert(perm[q[j] as int] == j);
    }
    assert forall|v: int| 0 <= v < n implies perm[(#[trigger] q[v]) as int] == v by {}
    assert forall|i: int| 0 <= i < q.len() implies (#[trigger] q[i]) < n by {}
}

/// To be isomorphic is an equivalence of adjacency matrices, so it sorts
/// graphs into classes: every graph is isomorphic to itself, two
/// graphs are isomorphic in either order or in neither, and two graphs
/// isomorphic to a third are isomorphic to each other.
pub proof fn lemma_isomorphic_is_equivalence(
    a: Seq<Seq<bool>>,
    b: Seq<Seq<bool>>,
    c: Seq<Seq<bool>>,
)
    requires
        a.len() <= usize::MAX,
    ensures
        isomorphic(a, a),
        isomorphic(a, b) ==> isomorphic(b, a),
        isomorphic(a, b) && isomorphic(b, c) ==> isomorphic(a, c),
{
    let n = a.len();
    let id = identity_seq(n);
    assert(is_permutation(id, n));
    assert(preserves_edges(a, a, id));
    if isomorphic(a, b) {
        let p = choose|p: Seq<usize>| is_permutation(p, n) && #[trigger] preserves_edges(a, b, p);
        let q = inverse(p);
        lemma_inverse(p, n);
        assert forall|i: int, j: int| 0 <= i < b.len() && 0 <= j < b.len() implies #[trigger] b[i][j]
            == a[q[i] as int][q[j] as int] by {
            let x = q[i] as int;
            let y = q[j] as int;
            assert(p[x] == i && p[y] == j);
            assert(a[x][y] == b[p[x] as int][p[y] as int]);
        }
        assert(preserves_edges(b, a, q));
        if isomorphic(b, c) {
            let r = choose|r: Seq<usize>|
                is_permutation(r, n) && #[trigger] preserves_edges(b, c, r);
            let t = composed(p, r);
            assert forall|i: int| 0 <= i < t.len() implies (#[trigger] t[i]) < n by {
                assert(p[i] < n);
                assert(r[p[i] as int] < n);
            }
            assert forall|i: int, j: int| 0 <= i < j < t.len() implies t[i] != t[j] by {
                assert(p[i] != p[j]);
                assert(p[i] < n && p[j] < n);
                if p[i] < p[j] {
                    assert(r[p[i] as int] != r[p[j] as int]);
                } else {
                    assert(r[p[j] as int] != r[p[i] as int]);
                }
            }
            assert forall|i: int, j: int| 0 <= i < n && 0 <= j < n implies #[trigger] a[i][j]
                == c[t[i] as int][t[j] as int] by {
                assert(p[i] < n && p[j] < n);
                assert(a[i][j] == b[p[i] as int][p[j] as int]);
                assert(b[p[i] as int][p[j] as int] == c[r[p[i] as int] as int][r[p[j] as int] as int]);
            }
            assert(preserves_edges(a, c, t));
        }
    }
}

/// The number of edges of a graph on the three vertices 0, 1 and 2.
pub open spec fn edges_of_three(g: Seq<Seq<bool>>) -> nat {
    (if g[0][1] {
        1nat
    } else {
        0
    }) + (if g[0][2] {
        1nat
    } else {
        0
    }) + (if g[1][2] {
        1nat
    } else {
        0
    })
}

/// The vertices 0, 1, 2 of `g` go to `a`, `b`, `c` of `h`, edges to edges
/// and no others.
pub open spec fn carries_three(g: Seq<Seq<bool>>, h: Seq<Seq<bool>>, a: int, b: int, c: int) -> bool {
    &&& g[0][1] == h[a][b]
    &&& g[0][2] == h[a][c]
    &&& g[1][2] == h[b][c]
}

proof fn lemma_carries_three(g: Seq<Seq<bool>>, h: Seq<Seq<bool>>, a: usize, b: usize, c: usize)
    requires
        is_simple_graph(g, 3),
        is_simple_graph(h, 3),
        a < 3 && b < 3 && c < 3,
        a != b && a != c && b != c,
        carries_three(g, h, a as int, b as int, c as int),
    ensures
        isomorphic(g, h),
{
    let p = seq![a, b, c];
    assert(is_permutation(p, 3));
    assert forall|i: int, j: int| 0 <= i < 3 && 0 <= j < 3 implies #[trigger] g[i][j] == h[p[i] as int][p[j] as int] by {
        assert(g[i][j] == g[j][i]);
        assert(h[p[i] as int][p[j] as int] == h[p[j] as int][p[i] as int]);
        assert(!g[i][i]);
        assert(!h[p[i] as int][p[i] as int]);
    }
    assert(preserves_edges(g, h, p));
}

/// Two graphs on three vertices are isomorphic exactly if they have as many
/// edges: by the number of edges, 0 to 3, the graphs on three vertices fall
/// into four classes.
pub proof fn lemma_three_vertices_by_edges(g: Seq<Seq<bool>>, h: Seq<Seq<bool>>)
    requires
        is_simple_graph(g, 3),
        is_simple_graph(h, 3),
    ensures
        isomorphic(g, h) <==> edges_of_three(g) == edges_of_three(h),
{
    assert(h[0][1] == h[1][0] && h[0][2] == h[2][0] && h[1][2] == h[2][1]);
    if isomorphic(g, h) {
        let p = choose|p: Seq<usize>| is_permutation(p, 3) && #[trigger] preserves_edges(g, h, p);
        let a = p[0] as int;
        let b = p[1] as int;
        let c = p[2] as int;
        assert(a != b && a != c && b != c);
        assert(g[0][1] == h[a][b]);
        assert(g[0][2] == h[a][c]);
        assert(g[1][2] == h[b][c]);
    }
    if edges_of_three(g) == edges_of_three(h) {
        if carries_three(g, h, 0, 1, 2) {
            lemma_carries_three(g, h, 0, 1, 2);
        } else if carries_three(g, h, 0, 2, 1) {
            lemma_carries_three(g, h, 0, 2, 1);
        } else if carries_three(g, h, 1, 0, 2) {
            lemma_carries_three(g, h, 1, 0, 2);
        } else if carries_three(g, h, 1, 2, 0) {
            lemma_carries_three(g, h, 1, 2, 0);
        } else if carries_three(g, h, 2, 0, 1) {
            lemma_carries_three(g, h, 2, 0, 1);
        } else {
            assert(carries_three(g, h, 2, 1, 0));
            lemma_carries_three(g, h, 2, 1, 0);
        }
    }
}

/// Does `perm` carry the edges of `g1` onto those of `g2`?
fn matches(g1: &[Vec<bool>], g2: &[Vec<bool>], perm: &Vec<usize>) -> (res: bool)
    requires
        g1.len() == g2.len(),
        is_square(rows(g1@)),
        is_square(rows(g2@)),
        is_permutation(perm@, g1.len() as nat),
    ensures
        res == preserves_edges(rows(g1@), rows(g2@), perm@),
{
    let n: usize = g1.len();
    let ghost a = rows(g1@);
    let ghost b = rows(g2@);
    let mut match_all: bool = true;
    let mut i: usize = 0;
    while i < n && match_all
        invariant
            i <= n,
            n == g1.len(),
            n == g2.len(),
            a == rows(g1@),
            b == rows(g2@),
            is_square(a),
            is_square(b),
            is_permutation(perm@, n as nat),
            match_all ==> forall|x: int, y: int|
                0 <= x < i && 0 <= y < n ==> #[trigger] a[x][y] == b[perm[x] as int][perm[y] as int],
            !match_all ==> !preserves_edges(a, b, perm@),
        decreases n - i,
    {
        let mut j: usize = 0;
        while j < n && match_all
            invariant
                j <= n,
                i < n,
                n == g1.len(),
                n == g2.len(),
                a == rows(g1@),
                b == rows(g2@),
                is_square(a),
                is_square(b),
                is_permutation(perm@, n as nat),
                match_all ==> forall|x: int, y: int|
                    0 <= x < i && 0 <= y < n ==> #[trigger] a[x][y] == b[perm[x] as int][perm[y] as int],
                match_all ==> forall|y: int|
                    0 <= y < j ==> #[trigger] a[i as int][y] == b[perm[i as int] as int][perm[y] as int],
                !match_all ==> !preserves_edges(a, b, perm@),
            decreases n - j,
        {
            assert(a[i as int] == g1[i as int]@);
            assert(a[i as int].len() == n);
            assert(perm[i as int] < n && perm[j as int] < n);
            assert(b[perm[i as int] as int] == g2[perm[i as int] as int]@);
            assert(b[perm[i as int] as int].len() == n);
            if g1[i][j] != g2[perm[i]][perm[j]] {
                match_all = false;
                assert(a[i as int][j as int] != b[perm[i as int] as int][perm[j as int] as int]);
            }
            j += 1;
        }
        i += 1;
    }
    match_all
}

/// Test whether two adjacency matrices represent isomorphic graphs.
#[verifier::rlimit(40)]
pub fn are_isomorphic(g1: &[Vec<bool>], g2: &[Vec<bool>]) -> (res: bool)
    requires
        g1@.len() == g2@.len() ==> is_square(rows(g1@)) && is_square(rows(g2@)),
    ensures
        res == isomorphic(rows(g1@), rows(g2@)),
{
    let n: usize = g1.len();
    if n != g2.len() {
        return false;
    }
    let ghost a = rows(g1@);
    let ghost b = rows(g2@);
    let mut perm: Vec<usize> = iota(n);
    proof {
        lemma_usize_ordered();
        lemma_rising_first(perm@);
        lemma_perm_rank_bound(perm@, n as nat, 0);
        assert forall|q: Seq<usize>| is_permutation(q, n as nat) && #[trigger] lex_less(
            q,
            perm@,
        ) implies !preserves_edges(a, b, q) by {
            lemma_permutation_multiset(q, n as nat);
            assert(is_arrangement(q, perm@));
        }
    }
    loop
        invariant_except_break
            is_permutation(perm@, n as nat),
            perm_rank(perm@) < factorial(n as nat),
            forall|q: Seq<usize>|
                is_permutation(q, n as nat) && #[trigger] lex_less(q, perm@) ==> !preserves_edges(
                    a,
                    b,
                    q,
                ),
        invariant
            crate::order::is_ordered::<usize>(),
            n == g1.len(),
            n == g2.len(),
            a == rows(g1@),
            b == rows(g2@),
            is_square(a),
            is_square(b),
        ensures
            forall|q: Seq<usize>| #[trigger]
                is_permutation(q, n as nat) ==> !preserves_edges(a, b, q),
        decreases factorial(n as nat) - perm_rank(perm@),
    {
        if matches(g1, g2, &perm) {
            return true;
        }
        let ghost cur = perm@;
        let more: bool = next_lex_perm(&mut perm);
        proof {
            lemma_permutation_multiset(cur, n as nat);
            if more {
                let next = perm@;
                assert(is_arrangement(next, cur));
                lemma_permutation_multiset(next, n as nat);
                lemma_rank_monotone(cur, next, n as nat);
                lemma_perm_rank_bound(next, n as nat, 0);
                assert forall|q: Seq<usize>| is_permutation(q, n as nat) && #[trigger] lex_less(
                    q,
                    next,
                ) implies !preserves_edges(a, b, q) by {
                    lemma_permutation_multiset(q, n as nat);
                    assert(is_arrangement(q, cur));
                    lemma_lex_total(q, cur);
                }
            } else {
                assert forall|q: Seq<usize>| #[trigger]
                    is_permutation(q, n as nat) implies !preserves_edges(a, b, q) by {
                    lemma_permutation_multiset(q, n as nat);
                    assert(is_arrangement(q, cur));
                    lemma_lex_total(q, cur);
                }
            }
        }
        if !more {
            break ;
        }
    }
    false
}

} // verus!
