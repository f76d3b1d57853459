//! A minimal-change order of the k-subsets of {0, ..., n - 1}.

use vstd::prelude::*;
use crate::combinations::ranking::{binomial, is_combination, lemma_binomial_full, lemma_binomial_zero};
use crate::sequences::{identity_seq, iota, rows};

verus! {

/// The k-subsets of {0, ..., n - 1} in minimal-change order: those of
/// {0, ..., n - 2}, then the (k - 1)-subsets of {0, ..., n - 2} in reverse
/// order, each with n - 1 added.
pub open spec fn subset_gray(n: nat, k: nat) -> Seq<Seq<usize>>
    decreases n,
{
    if k > n {
        Seq::empty()
    } else if k == 0 {
        seq![Seq::empty()]
    } else if k == n {
        seq![identity_seq(n)]
    } else {
        let a = subset_gray((n - 1) as nat, k);
        let b = subset_gray((n - 1) as nat, (k - 1) as nat);
        a + Seq::new(b.len(), |i: int| b[b.len() - 1 - i].push((n - 1) as usize))
    }
}

/// `b` arises from `a` by taking one element away and putting another in.
pub open spec fn is_exchange(a: Seq<usize>, b: Seq<usize>) -> bool {
    exists|x: usize, y: usize| #[trigger] swaps_out(a, b, x, y)
}

/// `b` holds what `a` holds, but for `y` in place of `x`.
pub open spec fn swaps_out(a: Seq<usize>, b: Seq<usize>, x: usize, y: usize) -> bool {
    &&& a.contains(x)
    &&& !b.contains(x)
    &&& b.contains(y)
    &&& !a.contains(y)
    &&& forall|z: usize| z != x && z != y ==> (a.contains(z) <==> b.contains(z))
}

/// The last subset of the order: 0, ..., k - 2 and n - 1.
pub open spec fn last_subset(n: nat, k: nat) -> Seq<usize> {
    identity_seq((k - 1) as nat).push((n - 1) as usize)
}

proof fn lemma_push_contains(a: Seq<usize>, v: usize, z: usize)
    ensures
        a.push(v).contains(z) <==> a.contains(z) || z == v,
{
    let b = a.push(v);
    if b.contains(z) {
        let i = choose|i: int| 0 <= i < b.len() && b[i] == z;
        if i < a.len() {
            assert(a[i] == z);
        }
    }
    if a.contains(z) {
        let i = choose|i: int| 0 <= i < a.len() && a[i] == z;
        assert(b[i] == z);
    }
    if z == v {
        assert(b[a.len() as int] == z);
    }
}

proof fn lemma_identity_contains(k: nat, z: usize)
    requires
        k <= usize::MAX,
    ensures
        identity_seq(k).contains(z) <==> z < k,
{
    let a = identity_seq(k);
    if z < k {
        assert(a[z as int] == z);
    }
}

/// An exchange stays one when both subsets get one more element.
proof fn lemma_exchange_push(a: Seq<usize>, b: Seq<usize>, v: usize)
    requires
        is_exchange(a, b),
        !a.contains(v),
        !b.contains(v),
    ensures
        is_exchange(a.push(v), b.push(v)),
        is_exchange(b.push(v), a.push(v)),
{
    let (x, y) = choose|x: usize, y: usize| #[trigger] swaps_out(a, b, x, y);
    let a2 = a.push(v);
    let b2 = b.push(v);
    lemma_push_contains(a, v, x);
    lemma_push_contains(b, v, x);
    lemma_push_contains(a, v, y);
    lemma_push_contains(b, v, y);
    assert forall|z: usize| z != x && z != y implies (a2.contains(z) <==> b2.contains(z)) by {
        lemma_push_contains(a, v, z);
        lemma_push_contains(b, v, z);
    }
    assert(swaps_out(a2, b2, x, y));
    assert(swaps_out(b2, a2, y, x));
}

/// From the last `k`-subset of {0, ..., m - 1} to the first that holds `m`
/// it is one exchange.
#[verifier::rlimit(40)]
proof fn lemma_boundary_exchange(m: nat, k: nat)
    requires
        1 <= k <= m < usize::MAX,
    ensures
        k == 1 ==> is_exchange(last_subset(m, k), Seq::<usize>::empty().push(m as usize)),
        k >= 2 ==> is_exchange(last_subset(m, k), last_subset(m, (k - 1) as nat).push(m as usize)),
{
    let j = (k - 1) as nat;
    let top = m as usize;
    let low = (m - 1) as usize;
    let p = last_subset(m, k);
    assert forall|z: usize| p.contains(z) <==> z < k - 1 || z == low by {
        lemma_push_contains(identity_seq(j), low, z);
        lemma_identity_contains(j, z);
    }
    if j == 0 {
        let q = Seq::<usize>::empty().push(top);
        assert forall|z: usize| q.contains(z) <==> z == top by {
            lemma_push_contains(Seq::<usize>::empty(), top, z);
        }
        assert(swaps_out(p, q, low, top));
    } else {
        let q = last_subset(m, j).push(top);
        assert forall|z: usize| q.contains(z) <==> z < j - 1 || z == low || z == top by {
            lemma_push_contains(last_subset(m, j), top, z);
            lemma_push_contains(identity_seq((j - 1) as nat), low, z);
            lemma_identity_contains((j - 1) as nat, z);
        }
        assert(swaps_out(p, q, (j - 1) as usize, top));
    }
}

/// The shape of the order of the `k`-subsets of {0, ..., n - 1}: there are
/// C(n, k) of them; each is a combination of `k` indices below `n`; the
/// first is 0, ..., k - 1 and the last 0, ..., k - 2 and n - 1.
#[verifier::rlimit(40)]
pub proof fn lemma_subset_gray_shape(n: nat, k: nat)
    requires
        n <= usize::MAX,
    ensures
        subset_gray(n, k).len() == binomial(n, k),
        k <= n ==> subset_gray(n, k).len() >= 1,
        forall|t: int|
            0 <= t < subset_gray(n, k).len() ==> (#[trigger] subset_gray(n, k)[t]).len() == k
                && is_combination(subset_gray(n, k)[t], n),
        k <= n ==> subset_gray(n, k)[0] == identity_seq(k),
        1 <= k <= n ==> subset_gray(n, k).last() == last_subset(n, k),
    decreases n,
{
    let list = subset_gray(n, k);
    if k > n {
        lemma_binomial_zero(n, k);
    } else if k == 0 {
        assert(list[0] =~= identity_seq(0));
    } else if k == n {
        lemma_binomial_full(n);
        assert(last_subset(n, k) =~= identity_seq(n));
    } else {
        let m = (n - 1) as nat;
        let j = (k - 1) as nat;
        let a = subset_gray(m, k);
        let b = subset_gray(m, j);
        let top = m as usize;
        lemma_subset_gray_shape(m, k);
        lemma_subset_gray_shape(m, j);
        let second = Seq::new(b.len(), |i: int| b[b.len() - 1 - i].push(top));
        assert(list == a + second);
        assert forall|t: int| 0 <= t < list.len() implies (#[trigger] list[t]).len() == k
            && is_combination(list[t], n) by {
            if t < a.len() {
                assert(list[t] == a[t]);
                assert(is_combination(a[t], m));
            } else {
                let src = b[b.len() - 1 - (t - a.len())];
                assert(list[t] == src.push(top));
                assert(is_combination(src, m));
                assert forall|x: int, y: int| 0 <= x < y < list[t].len() implies list[t][x]
                    < list[t][y] by {
                    if y < src.len() {
                        assert(src[x] < src[y]);
                    } else {
                        assert(src[x] < m);
                    }
                }
            }
        }
        assert(list[0] == a[0]);
        assert(list.last() == b[0].push(top));
        assert(b[0].push(top) =~= last_subset(n, k));
    }
}

/// In the order of the `k`-subsets of {0, ..., n - 1} each subset arises
/// from the one before by an exchange of one element.
#[verifier::rlimit(40)]
pub proof fn lemma_subset_gray_steps(n: nat, k: nat, t: int)
    requires
        n <= usize::MAX,
        0 <= t < subset_gray(n, k).len() - 1,
    ensures
        is_exchange(subset_gray(n, k)[t], subset_gray(n, k)[t + 1]),
    decreases n,
{
    let list = subset_gray(n, k);
    if 0 < k < n {
        let m = (n - 1) as nat;
        let j = (k - 1) as nat;
        let a = subset_gray(m, k);
        let b = subset_gray(m, j);
        let top = m as usize;
        lemma_subset_gray_shape(m, k);
        lemma_subset_gray_shape(m, j);
        let second = Seq::new(b.len(), |i: int| b[b.len() - 1 - i].push(top));
        assert(list == a + second);
        if t + 1 < a.len() {
            lemma_subset_gray_steps(m, k, t);
            assert(list[t] == a[t] && list[t + 1] == a[t + 1]);
        } else if t >= a.len() {
            let hi = b.len() - 1 - (t - a.len());
            let later = b[hi];
            let earlier = b[hi - 1];
            assert(list[t] == later.push(top));
            assert(list[t + 1] == earlier.push(top));
            lemma_subset_gray_steps(m, j, hi - 1);
            assert(is_combination(later, m) && is_combination(earlier, m));
            assert(!later.contains(top)) by {
                if later.contains(top) {
                    let i = choose|i: int| 0 <= i < later.len() && later[i] == top;
                    assert(later[i] < m);
                }
            }
            assert(!earlier.contains(top)) by {
                if earlier.contains(top) {
                    let i = choose|i: int| 0 <= i < earlier.len() && earlier[i] == top;
                    assert(earlier[i] < m);
                }
            }
            lemma_exchange_push(earlier, later, top);
        } else {
            // from the last subset without n - 1 to the first with it
            assert(list[t] == a.last());
            assert(list[t + 1] == b.last().push(top));
            lemma_boundary_exchange(m, k);
            if j == 0 {
                assert(b.last() =~= Seq::empty());
            }
        }
    }
}

/// No subset stands twice in the order of the `k`-subsets.
pub proof fn lemma_subset_gray_distinct(n: nat, k: nat)
    requires
        n <= usize::MAX,
    ensures
        subset_gray(n, k).no_duplicates(),
    decreases n,
{
    let list = subset_gray(n, k);
    if 0 < k < n {
        let a = subset_gray((n - 1) as nat, k);
        let b = subset_gray((n - 1) as nat, (k - 1) as nat);
        let with_last = Seq::new(b.len(), |i: int| b[b.len() - 1 - i].push((n - 1) as usize));
        lemma_subset_gray_distinct((n - 1) as nat, k);
        lemma_subset_gray_distinct((n - 1) as nat, (k - 1) as nat);
        lemma_subset_gray_shape((n - 1) as nat, k);
        assert(with_last.no_duplicates()) by {
            assert forall|s: int, t: int| 0 <= s < t < with_last.len() implies with_last[s]
                != with_last[t] by {
                assert(with_last[s].drop_last() =~= b[b.len() - 1 - s]);
                assert(with_last[t].drop_last() =~= b[b.len() - 1 - t]);
                assert(b[b.len() - 1 - s] != b[b.len() - 1 - t]);
            }
        }
        assert forall|s: int, t: int| 0 <= s < a.len() && 0 <= t < with_last.len() implies a[s]
            != with_last[t] by {
            assert(a[s].len() == k && is_combination(a[s], (n - 1) as nat));
            assert(with_last[t].last() == (n - 1) as usize);
            if a[s] == with_last[t] {
                assert(a[s][k - 1] < n - 1);
            }
        }
        vstd::seq_lib::lemma_no_dup_in_concat(a, with_last);
    }
}

/// The order of the `k`-subsets of {0, ..., n - 1} holds exactly the
/// combinations of `k` indices below `n`.
#[verifier::rlimit(40)]
pub proof fn lemma_subset_gray_members(n: nat, k: nat, c: Seq<usize>)
    requires
        n <= usize::MAX,
    ensures
        subset_gray(n, k).contains(c) <==> c.len() == k && is_combination(c, n),
    decreases n,
{
    let list = subset_gray(n, k);
    lemma_subset_gray_shape(n, k);
    if list.contains(c) {
        let t = choose|t: int| 0 <= t < list.len() && list[t] == c;
        assert(list[t].len() == k && is_combination(list[t], n));
    }
    if c.len() == k && is_combination(c, n) {
        if k > n {
            // more indices than there are
            assert(c[k - 1] >= k - 1) by {
                lemma_ascending_floor(c, (k - 1) as int);
            }
        } else if k == 0 {
            assert(c =~= Seq::empty());
            assert(list[0] == c);
        } else if k == n {
            assert forall|i: int| 0 <= i < n implies c[i] == i by {
                lemma_ascending_floor(c, i);
                lemma_ascending_ceiling(c, n, i);
            }
            assert(c =~= identity_seq(n));
            assert(list[0] == c);
        } else {
            let m = (n - 1) as nat;
            let a = subset_gray(m, k);
            let b = subset_gray(m, (k - 1) as nat);
            let second = Seq::new(b.len(), |i: int| b[b.len() - 1 - i].push(m as usize));
            assert(list == a + second);
            if c[k - 1] == m {
                let rest = c.drop_last();
                assert(is_combination(rest, m)) by {
                    assert forall|i: int| 0 <= i < rest.len() implies (#[trigger] rest[i]) < m by {
                        assert(c[i] < c[k - 1]);
                    }
                }
                lemma_subset_gray_members(m, (k - 1) as nat, rest);
                let j = choose|j: int| 0 <= j < b.len() && b[j] == rest;
                let t = b.len() - 1 - j;
                assert(second[t] == b[j].push(m as usize));
                assert(second[t] =~= c);
                assert(list[a.len() + t] == second[t]);
            } else {
                assert(is_combination(c, m)) by {
                    assert forall|i: int| 0 <= i < c.len() implies (#[trigger] c[i]) < m by {
                        if i < k - 1 {
                            assert(c[i] < c[k - 1]);
                        }
                    }
                }
                lemma_subset_gray_members(m, k, c);
                let j = choose|j: int| 0 <= j < a.len() && a[j] == c;
                assert(list[j] == c);
            }
        }
    }
}

/// The entry at `i` of an ascending sequence of indices is `i` at least.
proof fn lemma_ascending_floor(c: Seq<usize>, i: int)
    requires
        forall|x: int, y: int| 0 <= x < y < c.len() ==> c[x] < c[y],
        0 <= i < c.len(),
    ensures
        c[i] >= i,
    decreases i,
{
    if i > 0 {
        lemma_ascending_floor(c, i - 1);
        assert(c[i - 1] < c[i]);
    }
}

/// The entry at `i` of a combination of all `n` indices is `i` at most.
proof fn lemma_ascending_ceiling(c: Seq<usize>, n: nat, i: int)
    requires
        is_combination(c, n),
        c.len() == n,
        0 <= i < n,
    ensures
        c[i] <= i,
    decreases n - i,
{
    if i < n - 1 {
        lemma_ascending_ceiling(c, n, i + 1);
        assert(c[i] < c[i + 1]);
    }
}

/// Generate all `k`-subsets of an `n`-element set in an order in which each
/// subset arises from the one before by exchanging one element.
pub fn k_subset_gray(n: usize, k: usize) -> (out: Vec<Vec<usize>>)
    ensures
        rows(out@) == subset_gray(n as nat, k as nat),
        out.len() == binomial(n as nat, k as nat),
        forall|t: int|
            0 <= t < out.len() ==> (#[trigger] out[t])@.len() == k && is_combination(
                out[t]@,
                n as nat,
            ),
        forall|t: int| 0 <= t < out.len() - 1 ==> is_exchange((#[trigger] out[t])@, out[t + 1]@),
        forall|c: Seq<usize>| #[trigger]
            rows(out@).contains(c) <==> c.len() == k && is_combination(c, n as nat),
        rows(out@).no_duplicates(),
    decreases n,
{
    proof {
        lemma_subset_gray_distinct(n as nat, k as nat);
        assert forall|c: Seq<usize>| #[trigger]
            subset_gray(n as nat, k as nat).contains(c) <==> c.len() == k && is_combination(
                c,
                n as nat,
            ) by {
            lemma_subset_gray_members(n as nat, k as nat, c);
        }
        lemma_subset_gray_shape(n as nat, k as nat);
        let g = subset_gray(n as nat, k as nat);
        assert forall|t: int| 0 <= t < g.len() - 1 implies is_exchange(#[trigger] g[t], g[t + 1]) by {
            lemma_subset_gray_steps(n as nat, k as nat, t);
        }
    }
    let mut out: Vec<Vec<usize>> = Vec::new();
    if k > n {
        assert(rows(out@) =~= subset_gray(n as nat, k as nat));
        return out;
    }
    if k == 0 {
        out.push(Vec::new());
        assert(rows(out@) =~= subset_gray(n as nat, k as nat));
        return out;
    }
    if k == n {
        out.push(iota(n));
        assert(rows(out@) =~= subset_gray(n as nat, k as nat));
        return out;
    }
    let mut a = k_subset_gray(n - 1, k);
    let mut b = k_subset_gray(n - 1, k - 1);
    let ghost sa = subset_gray((n - 1) as nat, k as nat);
    let ghost sb = subset_gray((n - 1) as nat, (k - 1) as nat);
    let ghost g = subset_gray(n as nat, k as nat);
    out.append(&mut a);
    assert(rows(out@) =~= sa);
    // append n - 1 to the subsets of b, last first
    while b.len() > 0
        invariant
            0 < k < n,
            g == subset_gray(n as nat, k as nat),
            sa == subset_gray((n - 1) as nat, k as nat),
            sb == subset_gray((n - 1) as nat, (k - 1) as nat),
            b.len() <= sb.len(),
            forall|i: int| 0 <= i < b.len() ==> (#[trigger] b[i])@ == sb[i],
            out.len() == sa.len() + sb.len() - b.len(),
            forall|i: int| 0 <= i < out.len() ==> (#[trigger] out[i])@ == g[i],
        decreases b.len(),
    {
        let ghost idx = b.len() - 1;
        let mut subset: Vec<usize> = b.pop().unwrap();
        subset.push(n - 1);
        assert(subset@ == sb[idx].push((n - 1) as usize));
        out.push(subset);
    }
    assert(rows(out@) =~= g);
    out
}

} // verus!
