//! Enumeration of all simple graphs on n labeled vertices.

use vstd::prelude::*;
use vstd::arithmetic::power2::pow2;
use crate::sequences::{filled, rows};

verus! {

/// The number of pairs (a, b) with a < b < n and a < i.
pub open spec fn row_start(n: nat, i: nat) -> nat
    decreases i,
{
    if i == 0 {
        0
    } else {
        row_start(n, (i - 1) as nat) + (n - i) as nat
    }
}

/// The number of unordered pairs of vertices.
pub open spec fn pair_count(n: nat) -> nat {
    row_start(n, n)
}

/// The bit that stands for the pair (i, j), i < j: the pairs are numbered
/// in ascending order of i, and of j for one i.
pub open spec fn edge_index(n: nat, i: nat, j: nat) -> nat {
    (row_start(n, i) + j - i - 1) as nat
}

/// Bit `idx` of `bits` is set.
pub open spec fn bit_set(bits: u64, idx: u64) -> bool {
    (bits >> idx) & 1 == 1
}

/// The vertices `a` and `b` are joined in the graph with edge mask `bits`.
pub open spec fn joined(n: nat, bits: u64, a: int, b: int) -> bool {
    if a < b {
        bit_set(bits, edge_index(n, a as nat, b as nat) as u64)
    } else if b < a {
        bit_set(bits, edge_index(n, b as nat, a as nat) as u64)
    } else {
        false
    }
}

/// The adjacency matrix of the graph with edge mask `bits`.
pub open spec fn graph_of(n: nat, bits: u64) -> Seq<Seq<bool>> {
    Seq::new(n, |a: int| Seq::new(n, |b: int| joined(n, bits, a, b)))
}

/// The pairs that start below `i` are i * (2n - i - 1) / 2, and the bit of
/// every pair is below the number of pairs.
pub proof fn lemma_row_start(n: nat, i: nat)
    requires
        i <= n,
    ensures
        2 * row_start(n, i) == i * (2 * n - i - 1),
        i < n ==> row_start(n, i) + (n - i - 1) <= pair_count(n),
    decreases n - i,
{
    lemma_row_start_closed(n, i);
    if i < n {
        lemma_row_start(n, i + 1);
    }
}

proof fn lemma_row_start_closed(n: nat, i: nat)
    requires
        i <= n,
    ensures
        2 * row_start(n, i) == i * (2 * n - i - 1),
    decreases i,
{
    if i > 0 {
        lemma_row_start_closed(n, (i - 1) as nat);
        let prev = row_start(n, (i - 1) as nat) as int;
        assert(2 * prev == (i - 1) * (2 * n - (i - 1) - 1));
        assert(2 * (prev + (n - i)) == i * (2 * n - i - 1)) by (nonlinear_arith)
            requires
                2 * prev == (i - 1) * (2 * n - (i - 1) - 1),
        ;
    } else {
        assert(0 == i * (2 * n - i - 1)) by (nonlinear_arith)
            requires
                i == 0,
        ;
    }
}

/// A simple graph on `n` vertices as an adjacency matrix: no vertex is
/// joined to itself, and a vertex is joined to another exactly if the other
/// is joined to it.
pub open spec fn is_simple_graph(g: Seq<Seq<bool>>, n: nat) -> bool {
    &&& g.len() == n
    &&& forall|a: int| 0 <= a < n ==> (#[trigger] g[a]).len() == n
    &&& forall|a: int| 0 <= a < n ==> !(#[trigger] g[a])[a]
    &&& forall|a: int, b: int| 0 <= a < n && 0 <= b < n ==> #[trigger] g[a][b] == g[b][a]
}

/// The pair that stands at place `s` among the pairs from row `row` on.
pub open spec fn pair_from(n: nat, row: nat, s: nat) -> (nat, nat)
    decreases n - row,
{
    if row + 1 >= n {
        (row, row + 1)
    } else if s < n - 1 - row {
        (row, row + 1 + s)
    } else {
        pair_from(n, row + 1, (s - (n - 1 - row)) as nat)
    }
}

/// The pair that the bit `s` of a mask stands for.
pub open spec fn pair_at(n: nat, s: nat) -> (nat, nat) {
    pair_from(n, 0, s)
}

/// The mask of the first `t` pairs of the graph `g`.
pub open spec fn mask_of(g: Seq<Seq<bool>>, n: nat, t: nat) -> u64
    decreases t,
{
    if t == 0 {
        0
    } else {
        let p = pair_at(n, (t - 1) as nat);
        let lower = mask_of(g, n, (t - 1) as nat);
        if g[p.0 as int][p.1 as int] {
            lower | (1u64 << ((t - 1) as u64))
        } else {
            lower
        }
    }
}

proof fn lemma_row_start_step(n: nat, i: nat)
    requires
        i < n,
    ensures
        row_start(n, i + 1) == row_start(n, i) + (n - 1 - i),
{
}

proof fn lemma_row_start_monotone(n: nat, i: nat, j: nat)
    requires
        i <= j <= n,
    ensures
        row_start(n, i) <= row_start(n, j),
    decreases j - i,
{
    if i < j {
        lemma_row_start_monotone(n, i, (j - 1) as nat);
    }
}

/// The place of a pair among the pairs from a row on leads back to it.
proof fn lemma_pair_from(n: nat, row: nat, a: nat, b: nat)
    requires
        row <= a < b < n,
    ensures
        pair_from(n, row, (edge_index(n, a, b) - row_start(n, row)) as nat) == (a, b),
        row_start(n, row) <= edge_index(n, a, b) < pair_count(n),
    decreases n - row,
{
    lemma_row_start(n, a);
    lemma_row_start_monotone(n, row, a);
    if row < a {
        lemma_row_start_step(n, row);
        lemma_row_start_monotone(n, row + 1, a);
        lemma_pair_from(n, row + 1, a, b);
    }
}

/// Every bit below the number of pairs stands for a pair.
proof fn lemma_pair_exists(n: nat, row: nat, s: nat)
    requires
        row <= n,
        row_start(n, row) + s < pair_count(n),
    ensures
        pair_from(n, row, s).0 < pair_from(n, row, s).1 < n,
        row <= pair_from(n, row, s).0,
        edge_index(n, pair_from(n, row, s).0, pair_from(n, row, s).1) == row_start(n, row) + s,
    decreases n - row,
{
    if row + 1 >= n {
        if row < n {
            lemma_row_start_step(n, row);
        }
    } else if s < n - 1 - row {
    } else {
        lemma_row_start_step(n, row);
        lemma_pair_exists(n, row + 1, (s - (n - 1 - row)) as nat);
    }
}

/// The mask of the first `t` pairs has no bit from `t` on, and its bits
/// below `t` say which of these pairs are joined.
proof fn lemma_mask_of(g: Seq<Seq<bool>>, n: nat, t: nat)
    requires
        t <= pair_count(n),
        t <= 63,
    ensures
        mask_of(g, n, t) >> (t as u64) == 0,
        forall|s: nat|
            s < t ==> #[trigger] bit_set(mask_of(g, n, t), s as u64) == g[pair_at(n, s).0 as int][pair_at(
                n,
                s,
            ).1 as int],
    decreases t,
{
    let x = mask_of(g, n, t);
    if t == 0 {
        assert(0u64 >> 0u64 == 0) by (bit_vector);
    } else {
        let u = (t - 1) as u64;
        let lower = mask_of(g, n, (t - 1) as nat);
        lemma_mask_of(g, n, (t - 1) as nat);
        let p = pair_at(n, (t - 1) as nat);
        assert(lower >> ((u + 1) as u64) == 0 && (lower | (1u64 << u)) >> ((u + 1) as u64) == 0
            && ((lower | (1u64 << u)) >> u) & 1 == 1 && (lower >> u) & 1 == 0) by (bit_vector)
            requires
                lower >> u == 0,
                u < 63,
        ;
        assert forall|s: nat| s < t implies #[trigger] bit_set(x, s as u64) == g[pair_at(n, s).0 as int][pair_at(
            n,
            s,
        ).1 as int] by {
            let v = s as u64;
            if s < t - 1 {
                assert(bit_set(lower, v) == g[pair_at(n, s).0 as int][pair_at(n, s).1 as int]);
                assert(((lower | (1u64 << u)) >> v) & 1 == (lower >> v) & 1) by (bit_vector)
                    requires
                        v < u,
                        u < 63,
                ;
            }
        }
    }
}

/// Two masks without bits from `m` on that are not the same differ in a
/// bit below `m`.
proof fn lemma_bit_differs(x: u64, y: u64, m: nat) -> (s: nat)
    requires
        x != y,
        m <= 63,
        x >> (m as u64) == 0,
        y >> (m as u64) == 0,
    ensures
        s < m,
        bit_set(x, s as u64) != bit_set(y, s as u64),
    decreases m,
{
    let w = m as u64;
    if m == 0 {
        assert(x == 0 && y == 0) by (bit_vector)
            requires
                x >> w == 0,
                y >> w == 0,
                w == 0,
        ;
        0
    } else if x & 1 != y & 1 {
        assert((x >> 0u64) & 1 == x & 1 && (y >> 0u64) & 1 == y & 1 && (x & 1 == 0 || x & 1 == 1)
            && (y & 1 == 0 || y & 1 == 1)) by (bit_vector);
        0
    } else {
        let x1 = x >> 1u64;
        let y1 = y >> 1u64;
        let w1 = (m - 1) as u64;
        assert(x1 != y1 && x1 >> w1 == 0 && y1 >> w1 == 0) by (bit_vector)
            requires
                x != y,
                x & 1 == y & 1,
                x1 == x >> 1u64,
                y1 == y >> 1u64,
                x >> w == 0,
                y >> w == 0,
                w1 + 1 == w,
                w <= 63,
        ;
        let s1 = lemma_bit_differs(x1, y1, (m - 1) as nat);
        let v1 = s1 as u64;
        let v = (s1 + 1) as u64;
        assert((x1 >> v1) & 1 == (x >> v) & 1 && (y1 >> v1) & 1 == (y >> v) & 1) by (bit_vector)
            requires
                x1 == x >> 1u64,
                y1 == y >> 1u64,
                v == v1 + 1,
                v <= 63,
        ;
        s1 + 1
    }
}

/// The graph of a mask is a simple graph.
pub proof fn lemma_graph_is_simple(n: nat, bits: u64)
    ensures
        is_simple_graph(graph_of(n, bits), n),
{
}

/// Every simple graph on `n` vertices is the graph of some mask.
pub proof fn lemma_graph_has_mask(n: nat, g: Seq<Seq<bool>>) -> (bits: u64)
    requires
        n <= 11,
        is_simple_graph(g, n),
    ensures
        bits < pow2(pair_count(n)),
        graph_of(n, bits) == g,
{
    let m = pair_count(n);
    lemma_row_start(n, n);
    assert(m <= 55) by (nonlinear_arith)
        requires
            n <= 11,
            2 * m == n * (2 * n - n - 1),
    ;
    let bits = mask_of(g, n, m);
    lemma_mask_of(g, n, m);
    vstd::bits::lemma_u64_shr_is_div(bits, m as u64);
    vstd::arithmetic::power2::lemma_pow2_pos(m);
    assert(bits < pow2(m)) by {
        let p = pow2(m) as int;
        assert(bits as int / p == 0);
        vstd::arithmetic::div_mod::lemma_fundamental_div_mod(bits as int, p);
        vstd::arithmetic::div_mod::lemma_mod_bound(bits as int, p);
        assert(p * 0 == 0);
    }
    let h = graph_of(n, bits);
    assert forall|a: int| 0 <= a < n implies h[a] =~= g[a] by {
        assert forall|b: int| 0 <= b < n implies h[a][b] == g[a][b] by {
            if a < b {
                lemma_pair_from(n, 0, a as nat, b as nat);
                let s = edge_index(n, a as nat, b as nat);
                assert(bit_set(bits, s as u64) == g[pair_at(n, s).0 as int][pair_at(n, s).1 as int]);
            } else if b < a {
                lemma_pair_from(n, 0, b as nat, a as nat);
                let s = edge_index(n, b as nat, a as nat);
                assert(bit_set(bits, s as u64) == g[pair_at(n, s).0 as int][pair_at(n, s).1 as int]);
                assert(g[a][b] == g[b][a]);
            } else {
                assert(!g[a][a]);
            }
        }
    }
    assert(h =~= g);
    bits
}

/// Different masks give different graphs.
pub proof fn lemma_graphs_differ(n: nat, x: u64, y: u64)
    requires
        n <= 11,
        x < pow2(pair_count(n)),
        y < pow2(pair_count(n)),
        x != y,
    ensures
        graph_of(n, x) != graph_of(n, y),
{
    let m = pair_count(n);
    lemma_row_start(n, n);
    assert(m <= 55) by (nonlinear_arith)
        requires
            n <= 11,
            2 * m == n * (2 * n - n - 1),
    ;
    vstd::bits::lemma_u64_shr_is_div(x, m as u64);
    vstd::bits::lemma_u64_shr_is_div(y, m as u64);
    vstd::arithmetic::power2::lemma_pow2_pos(m);
    vstd::arithmetic::div_mod::lemma_basic_div(x as int, pow2(m) as int);
    vstd::arithmetic::div_mod::lemma_basic_div(y as int, pow2(m) as int);
    let s = lemma_bit_differs(x, y, m);
    lemma_pair_exists(n, 0, s);
    let p = pair_at(n, s);
    let a = p.0 as int;
    let b = p.1 as int;
    assert(graph_of(n, x)[a][b] == bit_set(x, s as u64));
    assert(graph_of(n, y)[a][b] == bit_set(y, s as u64));
}

/// Generate all simple undirected graphs on `n` vertices, one adjacency
/// matrix for each value of the mask that holds one bit per pair of
/// vertices.
#[verifier::rlimit(40)]
pub fn generate_graphs(n: usize) -> (result: Vec<Vec<Vec<bool>>>)
    requires
        n <= 11,
    ensures
        result.len() == pow2(pair_count(n as nat)),
        forall|k: int| 0 <= k < result.len() ==> rows((#[trigger] result[k])@) == graph_of(
            n as nat,
            k as u64,
        ),
        forall|k: int|
            0 <= k < result.len() ==> is_simple_graph(rows((#[trigger] result[k])@), n as nat),
        forall|j: int, k: int|
            0 <= j < k < result.len() ==> rows((#[trigger] result[j])@) != rows(
                (#[trigger] result[k])@,
            ),
        forall|g: Seq<Seq<bool>>|
            is_simple_graph(g, n as nat) ==> exists|k: int|
                0 <= k < result.len() && rows((#[trigger] result[k])@) == g,
{
    assert(n * (n - 1) <= 110) by (nonlinear_arith)
        requires
            n <= 11,
    ;
    let m: usize = if n == 0 {
        0
    } else {
        n * (n - 1) / 2
    };
    proof {
        lemma_row_start(n as nat, n as nat);
        assert(n * (2 * n - n - 1) == n * (n - 1)) by (nonlinear_arith);
        assert(m == pair_count(n as nat));
        assert(m <= 55) by (nonlinear_arith)
            requires
                n <= 11,
                2 * m == n * (n - 1),
        ;
        vstd::bits::lemma_u64_pow2_no_overflow(m as nat);
        vstd::bits::lemma_u64_shl_is_mul(1, m as u64);
    }
    let total: u64 = 1u64 << (m as u64);
    let mut result: Vec<Vec<Vec<bool>>> = Vec::new();
    let mut bits: u64 = 0;
    while bits < total
        invariant
            bits <= total,
            total == pow2(pair_count(n as nat)),
            m == pair_count(n as nat),
            m <= 55,
            n <= 11,
            result.len() == bits,
            forall|k: int| 0 <= k < result.len() ==> rows((#[trigger] result[k])@) == graph_of(
                n as nat,
                k as u64,
            ),
        decreases total - bits,
    {
        let mut mat: Vec<Vec<bool>> = Vec::new();
        let mut r: usize = 0;
        while r < n
            invariant
                r <= n,
                mat.len() == r,
                forall|a: int| 0 <= a < r ==> (#[trigger] mat[a])@ == Seq::new(
                    n as nat,
                    |b: int| false,
                ),
            decreases n - r,
        {
            mat.push(filled(false, n));
            r += 1;
        }
        let mut idx: usize = 0;
        let mut i: usize = 0;
        while i < n
            invariant
                i <= n,
                n <= 11,
                m == pair_count(n as nat),
                m <= 55,
                idx == row_start(n as nat, i as nat),
                mat.len() == n,
                forall|a: int| 0 <= a < n ==> (#[trigger] mat[a]).len() == n,
                forall|a: int, b: int|
                    0 <= a < n && 0 <= b < n ==> #[trigger] mat[a][b] == ((a < i || b < i)
                        && joined(n as nat, bits, a, b)),
            decreases n - i,
        {
            let mut j: usize = i + 1;
            while j < n
                invariant
                    i < j <= n,
                    n <= 11,
                    m == pair_count(n as nat),
                    m <= 55,
                    idx == row_start(n as nat, i as nat) + j - i - 1,
                    mat.len() == n,
                    forall|a: int| 0 <= a < n ==> (#[trigger] mat[a]).len() == n,
                    forall|a: int, b: int|
                        0 <= a < n && 0 <= b < n ==> #[trigger] mat[a][b] == ((a < i || b < i || (a
                            == i && b < j) || (b == i && a < j)) && joined(n as nat, bits, a, b)),
                decreases n - j,
            {
                proof {
                    lemma_row_start(n as nat, i as nat);
                }
                if (bits >> (idx as u64)) & 1 == 1 {
                    mat[i][j] = true;
                    mat[j][i] = true;
                }
                idx += 1;
                j += 1;
            }
            i += 1;
        }
        assert(rows(mat@) =~~= graph_of(n as nat, bits));
        result.push(mat);
        bits += 1;
    }
    proof {
        assert forall|k: int| 0 <= k < result.len() implies is_simple_graph(
            rows((#[trigger] result[k])@),
            n as nat,
        ) by {
            lemma_graph_is_simple(n as nat, k as u64);
        }
        assert forall|j: int, k: int| 0 <= j < k < result.len() implies rows(
            (#[trigger] result[j])@,
        ) != rows((#[trigger] result[k])@) by {
            lemma_graphs_differ(n as nat, j as u64, k as u64);
        }
        assert forall|g: Seq<Seq<bool>>| is_simple_graph(g, n as nat) implies exists|k: int|
            0 <= k < result.len() && rows((#[trigger] result[k])@) == g by {
            let bits = lemma_graph_has_mask(n as nat, g);
            assert(rows(result[bits as int]@) == g);
        }
    }
    result
}

} // verus!
