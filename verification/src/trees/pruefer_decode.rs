//! Decoding of a Pruefer sequence into the edges of a labeled tree.

use vstd::prelude::*;
use crate::sequences::{below, filled, lemma_below_len};
use crate::trees::connected::is_tree;
use crate::trees::inverse::lemma_encode_of_decode;
use crate::trees::min_heap::MinHeap;
use crate::trees::pruefer::pruefer_code;

verus! {

/// A sequence of vertices of a tree on `code.len() + 2` vertices.
pub open spec fn is_code(code: Seq<usize>) -> bool {
    forall|i: int| 0 <= i < code.len() ==> (#[trigger] code[i]) < code.len() + 2
}

/// The vertex `v` stands in the code at position `k` or after.
pub open spec fn occurs_from(code: Seq<usize>, k: int, v: usize) -> bool {
    exists|i: int| k <= i < code.len() && #[trigger] code[i] == v
}

/// How often the vertex `v` stands in the code at position `k` or after.
pub open spec fn count_from(code: Seq<usize>, k: int, v: usize) -> nat
    decreases code.len() - k,
{
    if k < 0 || k >= code.len() {
        0
    } else {
        count_from(code, k + 1, v) + if code[k] == v {
            1nat
        } else {
            0nat
        }
    }
}

/// The vertex `v` is a leaf of what is left at step `k`: it has not been
/// used, and does not stand in the rest of the code.
pub open spec fn is_free(code: Seq<usize>, used: Set<usize>, k: int, v: usize) -> bool {
    !used.contains(v) && !occurs_from(code, k, v)
}

/// `u` is the smallest leaf at step `k`.
pub open spec fn is_next_leaf(code: Seq<usize>, used: Set<usize>, k: int, u: usize) -> bool {
    &&& u < code.len() + 2
    &&& is_free(code, used, k, u)
    &&& forall|w: usize| w < u ==> !is_free(code, used, k, w)
}

/// The smallest leaf at step `k`.
pub open spec fn next_leaf(code: Seq<usize>, used: Set<usize>, k: int) -> usize {
    choose|u: usize| is_next_leaf(code, used, k, u)
}

/// The edges that the code gives from step `k` on: each symbol is joined to
/// the smallest leaf, which is then used up; at the end the two vertices
/// that are left are joined.
pub open spec fn decode_from(code: Seq<usize>, used: Set<usize>, k: int) -> Seq<(usize, usize)>
    decreases code.len() - k,
{
    if k < 0 {
        Seq::empty()
    } else if k >= code.len() {
        let a = next_leaf(code, used, k);
        let b = next_leaf(code, used.insert(a), k);
        seq![(a, b)]
    } else {
        let u = next_leaf(code, used, k);
        seq![(u, code[k])] + decode_from(code, used.insert(u), k + 1)
    }
}

/// The edges of the tree with the Pruefer sequence `code`.
pub open spec fn decoded(code: Seq<usize>) -> Seq<(usize, usize)> {
    decode_from(code, Set::empty(), 0)
}

/// A vertex stands in the rest of the code exactly if it is counted there.
pub proof fn lemma_count_occurs(code: Seq<usize>, k: int, v: usize)
    requires
        0 <= k,
    ensures
        count_from(code, k, v) > 0 <==> occurs_from(code, k, v),
    decreases code.len() - k,
{
    if k < code.len() {
        lemma_count_occurs(code, k + 1, v);
        if occurs_from(code, k, v) {
            let i = choose|i: int| k <= i < code.len() && #[trigger] code[i] == v;
            if i > k {
                assert(occurs_from(code, k + 1, v));
            }
        }
        if occurs_from(code, k + 1, v) {
            let i = choose|i: int| k + 1 <= i < code.len() && #[trigger] code[i] == v;
            assert(k <= i < code.len() && code[i] == v);
        }
        if code[k] == v {
            assert(occurs_from(code, k, v));
        }
    }
}

/// While fewer vertices are used or stand in the rest of the code than
/// there are vertices, a leaf is left.
pub proof fn lemma_free_exists(code: Seq<usize>, used: Set<usize>, k: int)
    requires
        0 <= k <= code.len(),
        code.len() + 2 <= usize::MAX,
        used.finite(),
        used.len() + (code.len() - k) < code.len() + 2,
    ensures
        exists|u: usize| is_next_leaf(code, used, k, u),
{
    let n = (code.len() + 2) as nat;
    let all = below(n);
    let rest = code.skip(k).to_set();
    let taken = used.union(rest);
    lemma_below_len(n);
    vstd::seq_lib::seq_to_set_is_finite(code.skip(k));
    code.skip(k).lemma_cardinality_of_set();
    vstd::set_lib::lemma_len_union(used, rest);
    vstd::set_lib::lemma_set_difference_len(all, taken);
    vstd::set_lib::lemma_len_subset(all.intersect(taken), taken);
    let free = all.difference(taken);
    assert(free.len() > 0);
    let v = free.choose();
    assert(free.contains(v));
    assert(is_free(code, used, k, v)) by {
        if occurs_from(code, k, v) {
            let i = choose|i: int| k <= i < code.len() && #[trigger] code[i] == v;
            assert(code.skip(k)[i - k] == v);
            assert(code.skip(k).contains(v));
        }
    }
    lemma_least_free(code, used, k, v, 0);
}

/// Below a leaf `v`, from `lo` on, there is a smallest leaf.
proof fn lemma_least_free(code: Seq<usize>, used: Set<usize>, k: int, v: usize, lo: usize)
    requires
        v < code.len() + 2,
        is_free(code, used, k, v),
        lo <= v,
        forall|w: usize| w < lo ==> !is_free(code, used, k, w),
    ensures
        exists|u: usize| is_next_leaf(code, used, k, u),
    decreases v - lo,
{
    if is_free(code, used, k, lo) {
        assert(is_next_leaf(code, used, k, lo));
    } else {
        lemma_least_free(code, used, k, v, (lo + 1) as usize);
    }
}

/// Decode a Pruefer sequence into the edges of the tree on
/// `code.len() + 2` vertices.
#[verifier::rlimit(40)]
pub fn pruefer_decode(code: &[usize]) -> (edges: Vec<(usize, usize)>)
    requires
        code@.len() + 2 <= usize::MAX,
        is_code(code@),
    ensures
        edges@ == decoded(code@),
        edges@.len() == code@.len() + 1,
        forall|i: int|
            0 <= i < edges@.len() ==> (#[trigger] edges@[i]).0 < code@.len() + 2 && edges@[i].1
                < code@.len() + 2,
        is_tree((code@.len() + 2) as nat, edges@),
        pruefer_code((code@.len() + 2) as nat, edges@) == code@,
{
    let n: usize = code.len() + 2;
    let ghost c = code@;
    let mut deg: Vec<usize> = filled(1, n);
    let mut i: usize = 0;
    while i < code.len()
        invariant
            i <= code.len(),
            c == code@,
            is_code(c),
            n == c.len() + 2,
            deg.len() == n,
            forall|v: usize| v < n ==> #[trigger] deg[v as int] + count_from(c, i as int, v) == 1 + count_from(c, 0, v),
            forall|v: usize| v < n ==> #[trigger] deg[v as int] <= 1 + i,
        decreases code.len() - i,
    {
        let v: usize = code[i];
        deg[v] += 1;
        i += 1;
    }
    let mut leaves = MinHeap::new();
    let mut j: usize = 0;
    while j < n
        invariant
            j <= n,
            c == code@,
            n == c.len() + 2,
            deg.len() == n,
            forall|v: usize| v < n ==> #[trigger] deg[v as int] == 1 + count_from(c, 0, v),
            leaves.well_formed(),
            forall|v: usize| #[trigger]
                leaves@.count(v) == if v < j && is_free(c, Set::empty(), 0, v) {
                    1nat
                } else {
                    0nat
                },
        decreases n - j,
    {
        broadcast use vstd::multiset::group_multiset_axioms;

        proof {
            lemma_count_occurs(c, 0, j);
        }
        if deg[j] == 1 {
            leaves.push(j);
        }
        j += 1;
    }
    let mut edges: Vec<(usize, usize)> = Vec::new();
    let ghost mut used: Set<usize> = Set::empty();
    let mut k: usize = 0;
    while k < code.len()
        invariant
            k <= code.len(),
            c == code@,
            is_code(c),
            n == c.len() + 2,
            n <= usize::MAX,
            deg.len() == n,
            used.finite(),
            used.len() == k,
            forall|v: usize| used.contains(v) ==> v < n && !occurs_from(c, k as int, v),
            forall|v: usize|
                v < n ==> #[trigger] deg[v as int] == if used.contains(v) {
                    0nat
                } else {
                    1 + count_from(c, k as int, v)
                },
            leaves.well_formed(),
            forall|v: usize| #[trigger]
                leaves@.count(v) == if v < n && is_free(c, used, k as int, v) {
                    1nat
                } else {
                    0nat
                },
            edges@ + decode_from(c, used, k as int) == decoded(c),
            edges@.len() == k,
            forall|i: int| 0 <= i < edges@.len() ==> (#[trigger] edges@[i]).0 < n && edges@[i].1 < n,
        decreases code.len() - k,
    {
        broadcast use vstd::multiset::group_multiset_axioms;

        let v: usize = code[k];
        proof {
            lemma_free_exists(c, used, k as int);
            let w = choose|w: usize| is_next_leaf(c, used, k as int, w);
            assert(leaves@.count(w) == 1);
        }
        let u: usize = leaves.pop().unwrap();
        proof {
            assert(is_next_leaf(c, used, k as int, u)) by {
                assert(leaves@.count(u) == 0);
                assert forall|w: usize| w < u implies !is_free(c, used, k as int, w) by {
                    if is_free(c, used, k as int, w) {
                        assert(w < n);
                    }
                }
            }
            let w = next_leaf(c, used, k as int);
            assert(w == u) by {
                assert(is_next_leaf(c, used, k as int, w));
                if w < u {
                    assert(!is_free(c, used, k as int, w));
                }
                if u < w {
                    assert(!is_free(c, used, k as int, u));
                }
            }
            assert(occurs_from(c, k as int, v));
            lemma_count_occurs(c, k as int, v);
            lemma_count_occurs(c, k as int, u);
            lemma_count_occurs(c, k + 1, v);
        }
        let ghost before = edges@;
        let ghost old_used = used;
        edges.push((u, v));
        deg[u] -= 1;
        deg[v] -= 1;
        if deg[v] == 1 {
            leaves.push(v);
        }
        proof {
            used = used.insert(u);
            assert forall|x: usize| used.contains(x) implies x < n && !occurs_from(
                c,
                k + 1,
                x,
            ) by {
                if occurs_from(c, k + 1, x) {
                    let i = choose|i: int| k + 1 <= i < c.len() && #[trigger] c[i] == x;
                    assert(k <= i < c.len() && c[i] == x);
                }
            }
            assert forall|x: usize| #[trigger]
                leaves@.count(x) == if x < n && is_free(c, used, k + 1, x) {
                    1nat
                } else {
                    0nat
                } by {
                lemma_count_occurs(c, k as int, x);
                lemma_count_occurs(c, k + 1, x);
            }
            let rest = decode_from(c, used, k + 1);
            assert((before + seq![(u, v)]) + rest =~= before + (seq![(u, v)] + rest));
            assert(edges@ =~= before + seq![(u, v)]);
        }
        k += 1;
    }
    proof {
        lemma_free_exists(c, used, k as int);
        let w = choose|w: usize| is_next_leaf(c, used, k as int, w);
        assert(leaves@.count(w) == 1);
    }
    let a: usize = leaves.pop().unwrap();
    proof {
        broadcast use vstd::multiset::group_multiset_axioms;

        assert(is_next_leaf(c, used, k as int, a)) by {
            assert forall|w: usize| w < a implies !is_free(c, used, k as int, w) by {
                if is_free(c, used, k as int, w) {
                    assert(w < n);
                }
            }
        }
        let w = next_leaf(c, used, k as int);
        assert(w == a) by {
            assert(is_next_leaf(c, used, k as int, w));
            if w < a {
                assert(!is_free(c, used, k as int, w));
            }
            if a < w {
                assert(!is_free(c, used, k as int, a));
            }
        }
        lemma_free_exists(c, used.insert(a), k as int);
        let w2 = choose|w: usize| is_next_leaf(c, used.insert(a), k as int, w);
        assert(leaves@.count(w2) == 1);
    }
    let b: usize = leaves.pop().unwrap();
    proof {
        broadcast use vstd::multiset::group_multiset_axioms;

        let used2 = used.insert(a);
        assert(is_next_leaf(c, used2, k as int, b)) by {
            assert forall|w: usize| w < b implies !is_free(c, used2, k as int, w) by {
                if is_free(c, used2, k as int, w) {
                    assert(w < n);
                }
            }
        }
        let w = next_leaf(c, used2, k as int);
        assert(w == b) by {
            assert(is_next_leaf(c, used2, k as int, w));
            if w < b {
                assert(!is_free(c, used2, k as int, w));
            }
            if b < w {
                assert(!is_free(c, used2, k as int, b));
            }
        }
    }
    edges.push((a, b));
    proof {
        assert(edges@ == decoded(c));
        lemma_encode_of_decode(c);
    }
    edges
}

} // verus!
