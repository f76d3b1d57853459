//! Encoding undoes decoding: the edges that a sequence of vertices decodes
//! to form a tree, and the Pruefer sequence of that tree is the sequence.

use vstd::prelude::*;
use crate::trees::bijection::lemma_no_third_vertex;
use crate::trees::connected::{is_tree, lemma_rooted_is_tree};
use crate::trees::pruefer::{
    code_from,
    ends_in_range,
    is_leaf,
    is_live,
    is_live_neighbor,
    is_only_edge,
    is_rooted_tree,
    is_rooting,
    is_smallest_leaf,
    joins,
    lemma_degree_after_removal,
    lemma_degree_only_edge,
    live_degree,
    live_neighbor,
    other_end,
    parent,
    pruefer_code,
    smallest_leaf,
    touches,
    Rooting,
};
use crate::trees::pruefer_decode::{
    count_from,
    decode_from,
    decoded,
    is_code,
    is_free,
    is_next_leaf,
    lemma_count_occurs,
    lemma_free_exists,
    next_leaf,
    occurs_from,
};

verus! {

/// The vertices that decoding has used up before step `k`.
pub open spec fn used_at(code: Seq<usize>, k: nat) -> Set<usize>
    decreases k, 0nat,
{
    if k == 0 {
        Set::empty()
    } else {
        used_at(code, (k - 1) as nat).insert(leaf_at(code, (k - 1) as nat))
    }
}

/// The leaf that decoding uses at step `k`.
pub open spec fn leaf_at(code: Seq<usize>, k: nat) -> usize
    decreases k, 1nat,
{
    next_leaf(code, used_at(code, k), k as int)
}

/// The vertex that is left at the end beside the last leaf.
pub open spec fn last_vertex(code: Seq<usize>) -> usize {
    next_leaf(code, used_at(code, code.len()).insert(leaf_at(code, code.len())), code.len() as int)
}

/// What holds of the vertices that are used up before step `k`.
pub open spec fn trace_ok(code: Seq<usize>, k: nat) -> bool {
    &&& used_at(code, k).finite()
    &&& used_at(code, k).len() == k
    &&& forall|v: usize| #[trigger]
        used_at(code, k).contains(v) ==> v < code.len() + 2 && !occurs_from(code, k as int, v)
    &&& forall|v: usize| #[trigger]
        used_at(code, k).contains(v) ==> exists|j: nat| j < k && #[trigger] leaf_at(code, j) == v
    &&& forall|j: nat| j < k ==> used_at(code, k).contains(#[trigger] leaf_at(code, j))
    &&& is_next_leaf(code, used_at(code, k), k as int, leaf_at(code, k))
}

proof fn lemma_trace_ok(code: Seq<usize>, k: nat)
    requires
        is_code(code),
        code.len() + 2 <= usize::MAX,
        k <= code.len(),
    ensures
        trace_ok(code, k),
    decreases k,
{
    let used = used_at(code, k);
    if k > 0 {
        let j = (k - 1) as nat;
        lemma_trace_ok(code, j);
        let before = used_at(code, j);
        let u = leaf_at(code, j);
        assert(used == before.insert(u));
        assert forall|v: usize| #[trigger] used.contains(v) implies v < code.len() + 2
            && !occurs_from(code, k as int, v) by {
            if v == u {
                assert(is_next_leaf(code, before, j as int, u));
            } else {
                assert(before.contains(v));
            }
            if occurs_from(code, k as int, v) {
                let i = choose|i: int| k <= i < code.len() && #[trigger] code[i] == v;
                assert(j <= i < code.len() && code[i] == v);
                assert(occurs_from(code, j as int, v));
            }
        }
        assert forall|v: usize| #[trigger] used.contains(v) implies exists|i: nat|
            i < k && #[trigger] leaf_at(code, i) == v by {
            if v == u {
                assert(j < k && leaf_at(code, j) == v);
            } else {
                let i = choose|i: nat| i < j && #[trigger] leaf_at(code, i) == v;
                assert(i < k && leaf_at(code, i) == v);
            }
        }
    }
    lemma_free_exists(code, used, k as int);
}

/// The leaves of different steps are different.
proof fn lemma_leaves_differ(code: Seq<usize>, i: nat, j: nat)
    requires
        is_code(code),
        code.len() + 2 <= usize::MAX,
        i < j <= code.len(),
    ensures
        leaf_at(code, i) != leaf_at(code, j),
        forall|x: int| i <= x < code.len() ==> #[trigger] code[x] != leaf_at(code, i),
{
    lemma_trace_ok(code, i);
    lemma_trace_ok(code, j);
    assert(used_at(code, j).contains(leaf_at(code, i)));
    assert forall|x: int| i <= x < code.len() implies #[trigger] code[x] != leaf_at(code, i) by {
        if code[x] == leaf_at(code, i) {
            assert(occurs_from(code, i as int, leaf_at(code, i)));
        }
    }
}

/// A symbol of the code is not the leaf of its step or of an earlier one.
proof fn lemma_code_later(code: Seq<usize>, x: nat, j: nat)
    requires
        is_code(code),
        code.len() + 2 <= usize::MAX,
        x < code.len(),
        j <= code.len(),
        code[x as int] == leaf_at(code, j),
    ensures
        j > x,
{
    if j <= x {
        lemma_trace_ok(code, j);
        assert(occurs_from(code, j as int, code[x as int]));
    }
}

/// The two vertices that are left at the end.
proof fn lemma_last_two(code: Seq<usize>)
    requires
        is_code(code),
        code.len() + 2 <= usize::MAX,
    ensures
        leaf_at(code, code.len()) < code.len() + 2,
        last_vertex(code) < code.len() + 2,
        leaf_at(code, code.len()) != last_vertex(code),
        !used_at(code, code.len()).contains(leaf_at(code, code.len())),
        !used_at(code, code.len()).contains(last_vertex(code)),
        forall|j: nat| j < code.len() ==> #[trigger] leaf_at(code, j) != leaf_at(code, code.len())
            && leaf_at(code, j) != last_vertex(code),
        forall|x: int|
            0 <= x < code.len() ==> (#[trigger] code[x]) < code.len() + 2,
        forall|v: usize|
            v < code.len() + 2 && !used_at(code, code.len()).contains(v) ==> v == leaf_at(
                code,
                code.len(),
            ) || v == last_vertex(code),
{
    let len = code.len();
    let used = used_at(code, len);
    let a = leaf_at(code, len);
    lemma_trace_ok(code, len);
    lemma_free_exists(code, used.insert(a), len as int);
    let b = last_vertex(code);
    assert(is_next_leaf(code, used.insert(a), len as int, b));
    assert forall|j: nat| j < len implies #[trigger] leaf_at(code, j) != a && leaf_at(code, j)
        != b by {
        assert(used.contains(leaf_at(code, j)));
    }
    assert forall|v: usize| #[trigger] used.contains(v) implies v < len + 2 by {}
    assert forall|v: usize| v < len + 2 && !used.contains(v) implies v == a || v == b by {
        lemma_no_third_vertex((len + 2) as nat, used, a, b, v);
    }
}

/// The edges that decoding gives from step `k` on: for every step its leaf
/// and its symbol, and at the end the two vertices that are left.
proof fn lemma_decoded_from(code: Seq<usize>, k: nat)
    requires
        k <= code.len(),
    ensures
        decode_from(code, used_at(code, k), k as int).len() == code.len() - k + 1,
        forall|j: int|
            k <= j < code.len() ==> #[trigger] decode_from(code, used_at(code, k), k as int)[j - k] == (
                leaf_at(code, j as nat),
                code[j],
            ),
        decode_from(code, used_at(code, k), k as int)[code.len() - k] == (
            leaf_at(code, code.len()),
            last_vertex(code),
        ),
    decreases code.len() - k,
{
    let d = decode_from(code, used_at(code, k), k as int);
    if k < code.len() {
        lemma_decoded_from(code, k + 1);
        let rest = decode_from(code, used_at(code, k + 1), k as int + 1);
        assert(d == seq![(leaf_at(code, k), code[k as int])] + rest);
        assert forall|j: int| k <= j < code.len() implies #[trigger] d[j - k] == (
            leaf_at(code, j as nat),
            code[j],
        ) by {
            if j > k {
                assert(d[j - k] == rest[j - (k + 1)]);
            }
        }
        assert(d[code.len() - k] == rest[code.len() - (k + 1)]);
    }
}

/// The edges that a code decodes to: for every step its leaf and its
/// symbol, and at the end the two vertices that are left.
pub proof fn lemma_decoded(code: Seq<usize>)
    ensures
        decoded(code).len() == code.len() + 1,
        forall|j: int|
            0 <= j < code.len() ==> #[trigger] decoded(code)[j] == (leaf_at(code, j as nat), code[j]),
        decoded(code)[code.len() as int] == (leaf_at(code, code.len()), last_vertex(code)),
{
    lemma_decoded_from(code, 0);
    let d = decoded(code);
    assert forall|j: int| 0 <= j < code.len() implies #[trigger] d[j] == (
        leaf_at(code, j as nat),
        code[j],
    ) by {
        assert(d[j - 0] == (leaf_at(code, j as nat), code[j]));
    }
}

/// Before step `k`, the edges of the earlier steps have lost their leaf,
/// and the others are all there.
#[verifier::rlimit(40)]
proof fn lemma_live_edges(code: Seq<usize>, k: nat, f: int)
    requires
        is_code(code),
        code.len() + 2 <= usize::MAX,
        k <= code.len(),
        0 <= f <= code.len(),
    ensures
        is_live(decoded(code)[f], used_at(code, k)) <==> f >= k,
{
    let d = decoded(code);
    let used = used_at(code, k);
    lemma_decoded(code);
    lemma_trace_ok(code, k);
    lemma_last_two(code);
    if f < code.len() {
        let u = leaf_at(code, f as nat);
        assert(d[f] == (u, code[f]));
        if f < k {
            assert(used.contains(u));
        } else {
            if used.contains(u) {
                let j = choose|j: nat| j < k && #[trigger] leaf_at(code, j) == u;
                lemma_leaves_differ(code, j, f as nat);
            }
            if used.contains(code[f]) {
                assert(occurs_from(code, k as int, code[f]));
            }
        }
    } else {
        lemma_trace_ok(code, code.len());
        assert forall|v: usize| used.contains(v) implies used_at(code, code.len()).contains(v) by {
            let j = choose|j: nat| j < k && #[trigger] leaf_at(code, j) == v;
            assert(used_at(code, code.len()).contains(leaf_at(code, j)));
        }
    }
}

/// At step `k`, the edge of the step is the one edge that is left at its
/// leaf.
#[verifier::rlimit(40)]
proof fn lemma_only_edge(code: Seq<usize>, k: nat)
    requires
        is_code(code),
        code.len() + 2 <= usize::MAX,
        k < code.len(),
    ensures
        is_only_edge(decoded(code), used_at(code, k), leaf_at(code, k), k as int),
        other_end(decoded(code)[k as int], leaf_at(code, k)) == code[k as int],
{
    let d = decoded(code);
    let used = used_at(code, k);
    let u = leaf_at(code, k);
    lemma_decoded(code);
    lemma_live_edges(code, k, k as int);
    lemma_last_two(code);
    lemma_leaves_differ(code, k, code.len());
    assert(d[k as int] == (u, code[k as int]));
    assert(code[k as int] != u);
    assert forall|f: int|
        0 <= f < d.len() && is_live(#[trigger] d[f], used) && touches(d[f], u) implies f == k by {
        lemma_live_edges(code, k, f);
        if f > k {
            if f < code.len() {
                lemma_leaves_differ(code, k, f as nat);
                assert(d[f] == (leaf_at(code, f as nat), code[f]));
            }
        }
    }
}

/// Before every step, the degree of a vertex that is left, in what is left
/// of the decoded edges, is one more than the number of times it stands in
/// the rest of the code.
#[verifier::rlimit(40)]
proof fn lemma_degrees(code: Seq<usize>, k: nat)
    requires
        is_code(code),
        code.len() + 2 <= usize::MAX,
        k <= code.len(),
    ensures
        forall|v: usize|
            v < code.len() + 2 && !used_at(code, k).contains(v) ==> #[trigger] live_degree(
                decoded(code),
                used_at(code, k),
                v,
                decoded(code).len() as int,
            ) == 1 + count_from(code, k as int, v),
    decreases code.len() - k,
{
    let d = decoded(code);
    let m = d.len() as int;
    let used = used_at(code, k);
    let len = code.len();
    lemma_decoded(code);
    lemma_last_two(code);
    if k == len {
        let a = leaf_at(code, len);
        let b = last_vertex(code);
        assert forall|f: int| 0 <= f < m && is_live(#[trigger] d[f], used) implies f == len by {
            lemma_live_edges(code, k, f);
        }
        lemma_live_edges(code, k, len as int);
        assert(is_only_edge(d, used, a, len as int));
        assert(is_only_edge(d, used, b, len as int));
        lemma_degree_only_edge(d, used, a, len as int, m);
        lemma_degree_only_edge(d, used, b, len as int, m);
    } else {
        lemma_degrees(code, k + 1);
        let u = leaf_at(code, k);
        lemma_only_edge(code, k);
        lemma_trace_ok(code, k);
        assert(used_at(code, k + 1) == used.insert(u));
        assert forall|v: usize| v < len + 2 && !used.contains(v) implies #[trigger] live_degree(
            d,
            used,
            v,
            m,
        ) == 1 + count_from(code, k as int, v) by {
            if v == u {
                lemma_degree_only_edge(d, used, u, k as int, m);
                lemma_count_occurs(code, k as int, u);
            } else {
                lemma_degree_after_removal(d, used, u, k as int, v, m);
                assert(live_degree(d, used.insert(u), v, m) == 1 + count_from(code, k as int + 1, v));
            }
        }
    }
}

/// The code of what is left of the decoded edges before step `k` is the
/// rest of the code.
#[verifier::rlimit(40)]
proof fn lemma_code_from(code: Seq<usize>, k: nat)
    requires
        is_code(code),
        code.len() + 2 <= usize::MAX,
        k <= code.len(),
    ensures
        code_from((code.len() + 2) as nat, decoded(code), used_at(code, k), (code.len() - k) as nat)
            == code.skip(k as int),
    decreases code.len() - k,
{
    let d = decoded(code);
    let n = (code.len() + 2) as nat;
    let used = used_at(code, k);
    if k == code.len() {
        assert(code.skip(k as int) =~= Seq::empty());
    } else {
        lemma_code_from(code, k + 1);
        lemma_degrees(code, k);
        lemma_trace_ok(code, k);
        lemma_only_edge(code, k);
        lemma_decoded(code);
        let u = leaf_at(code, k);
        let w = code[k as int];
        assert forall|v: usize| v < n implies (is_leaf(n, d, used, v) <==> is_free(
            code,
            used,
            k as int,
            v,
        )) by {
            lemma_count_occurs(code, k as int, v);
            if !used.contains(v) {
                assert(live_degree(d, used, v, d.len() as int) == 1 + count_from(code, k as int, v));
            }
        }
        assert(is_smallest_leaf(n, d, used, u)) by {
            assert forall|x: usize| x < u implies !is_leaf(n, d, used, x) by {
                assert(!is_free(code, used, k as int, x));
            }
        }
        let s = smallest_leaf(n, d, used);
        assert(s == u) by {
            assert(is_smallest_leaf(n, d, used, s));
            if s < u {
                assert(!is_leaf(n, d, used, s));
            }
            if u < s {
                assert(!is_leaf(n, d, used, u));
            }
        }
        assert(joins(d[k as int], u, w));
        assert(!used.contains(w)) by {
            if used.contains(w) {
                assert(occurs_from(code, k as int, w));
            }
        }
        assert(is_live_neighbor(d, used, u, w));
        assert forall|x: usize| is_live_neighbor(d, used, u, x) implies x == w by {
            let f = choose|f: int| 0 <= f < d.len() && joins(#[trigger] d[f], u, x);
            assert(is_live(d[f], used) && touches(d[f], u));
        }
        assert(live_neighbor(d, used, u) == w);
        assert(used_at(code, k + 1) == used.insert(u));
        assert(seq![w] + code.skip(k as int + 1) =~= code.skip(k as int));
    }
}

/// The step at which decoding uses the vertex `v`.
pub open spec fn step_of(code: Seq<usize>, v: usize) -> nat {
    choose|j: nat| j < code.len() && leaf_at(code, j) == v
}

/// The decoded edges hang from the vertex that is left last: every leaf by
/// the edge of its step.
pub open spec fn decoded_rooting(code: Seq<usize>) -> Rooting {
    let len = code.len();
    let a = leaf_at(code, len);
    let b = last_vertex(code);
    Rooting {
        root: b,
        depth: Seq::new(
            len + 2,
            |v: int|
                if v == b {
                    0nat
                } else if v == a {
                    1nat
                } else {
                    (len + 1 - step_of(code, v as usize)) as nat
                },
        ),
        up: Seq::new(
            len + 2,
            |v: int|
                if v == a {
                    len as int
                } else {
                    step_of(code, v as usize) as int
                },
        ),
        down: Seq::new(
            len + 1,
            |e: int|
                if e == len {
                    a
                } else {
                    leaf_at(code, e as nat)
                },
        ),
    }
}

/// Every vertex but the two that are left last is the leaf of its step.
proof fn lemma_step_of(code: Seq<usize>, v: usize)
    requires
        is_code(code),
        code.len() + 2 <= usize::MAX,
        v < code.len() + 2,
        v != leaf_at(code, code.len()),
        v != last_vertex(code),
    ensures
        step_of(code, v) < code.len(),
        leaf_at(code, step_of(code, v)) == v,
{
    lemma_last_two(code);
    lemma_trace_ok(code, code.len());
    assert(used_at(code, code.len()).contains(v));
    let j = choose|j: nat| j < code.len() && #[trigger] leaf_at(code, j) == v;
    assert(j < code.len() && leaf_at(code, j) == v);
}

proof fn lemma_step_of_leaf(code: Seq<usize>, j: nat)
    requires
        is_code(code),
        code.len() + 2 <= usize::MAX,
        j < code.len(),
    ensures
        step_of(code, leaf_at(code, j)) == j,
{
    let s = step_of(code, leaf_at(code, j));
    assert(s < code.len() && leaf_at(code, s) == leaf_at(code, j));
    if s < j {
        lemma_leaves_differ(code, s, j);
    }
    if j < s {
        lemma_leaves_differ(code, j, s);
    }
}

/// The edges that a sequence of vertices decodes to form a tree.
#[verifier::rlimit(40)]
pub proof fn lemma_decoded_is_tree(code: Seq<usize>)
    requires
        is_code(code),
        code.len() + 2 <= usize::MAX,
    ensures
        is_rooted_tree((code.len() + 2) as nat, decoded(code)),
        is_tree((code.len() + 2) as nat, decoded(code)),
{
    let len = code.len();
    let n = (len + 2) as nat;
    let d = decoded(code);
    let a = leaf_at(code, len);
    let b = last_vertex(code);
    let r = decoded_rooting(code);
    let none = Set::<usize>::empty();
    lemma_decoded(code);
    lemma_last_two(code);
    assert(ends_in_range(n, d)) by {
        assert forall|e: int| 0 <= e < d.len() implies (#[trigger] d[e]).0 < n && d[e].1 < n by {
            if e < len {
                lemma_trace_ok(code, e as nat);
            }
        }
    }
    assert forall|v: usize| v < n && !none.contains(v) && v != r.root implies {
        &&& 0 <= #[trigger] r.up[v as int] < d.len()
        &&& is_live(d[r.up[v as int]], none)
        &&& touches(d[r.up[v as int]], v)
        &&& parent(d, r, v) != v
        &&& r.depth[parent(d, r, v) as int] < r.depth[v as int]
        &&& r.down[r.up[v as int]] == v
    } by {
        if v != a {
            lemma_step_of(code, v);
            let j = step_of(code, v);
            let w = code[j as int];
            assert(d[j as int] == (v, w));
            lemma_leaves_differ(code, j, len);
            assert(w != v);
            assert(parent(d, r, v) == w);
            if w != a && w != b {
                lemma_step_of(code, w);
                lemma_code_later(code, j, step_of(code, w));
            }
        }
    }
    assert forall|e: int| 0 <= e < d.len() && is_live(d[e], none) implies {
        &&& (#[trigger] r.down[e]) < n
        &&& r.down[e] != r.root
        &&& touches(d[e], r.down[e])
        &&& r.up[r.down[e] as int] == e
    } by {
        if e < len {
            lemma_trace_ok(code, e as nat);
            lemma_step_of_leaf(code, e as nat);
        }
    }
    assert(is_rooting(n, d, none, r));
    lemma_rooted_is_tree(n, d);
}

/// Encoding undoes decoding: the edges that a sequence of vertices decodes
/// to form a tree, and the Pruefer sequence of that tree is the sequence.
pub proof fn lemma_encode_of_decode(code: Seq<usize>)
    requires
        is_code(code),
        code.len() + 2 <= usize::MAX,
    ensures
        is_tree((code.len() + 2) as nat, decoded(code)),
        pruefer_code((code.len() + 2) as nat, decoded(code)) == code,
{
    lemma_decoded_is_tree(code);
    lemma_code_from(code, 0);
    assert(code.skip(0) =~= code);
}

} // verus!
