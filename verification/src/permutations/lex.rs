//! The lexicographic successor of an arrangement.

use vstd::prelude::*;
use crate::order::{
    comes_before,
    in_order,
    is_falling,
    is_ordered,
    is_rising,
    lemma_order_laws,
    lemma_rising_unique,
    precedes,
};
use crate::sequences::{lemma_swapped_multiset, swap_entries};

verus! {

/// `a` and `b` agree before position `k`, where `a` holds the smaller entry.
pub open spec fn first_less_at<T: Ord>(a: Seq<T>, b: Seq<T>, k: int) -> bool {
    &&& 0 <= k < a.len()
    &&& k < b.len()
    &&& precedes(a[k], b[k])
    &&& a.take(k) == b.take(k)
}

/// `a` comes before `b` in lexicographic order, for sequences of one length.
pub open spec fn lex_less<T: Ord>(a: Seq<T>, b: Seq<T>) -> bool {
    exists|k: int| first_less_at(a, b, k)
}

/// `t` holds the entries of `s`, each as often, in some order.
pub open spec fn is_arrangement<T>(t: Seq<T>, s: Seq<T>) -> bool {
    t.to_multiset() == s.to_multiset()
}

/// No arrangement of the entries of `s` comes after `s`.
pub open spec fn is_lex_last<T: Ord>(s: Seq<T>) -> bool {
    forall|p: Seq<T>| #[trigger] is_arrangement(p, s) ==> !lex_less(s, p)
}

/// `t` is the arrangement of the entries of `s` that comes next after `s`.
pub open spec fn is_lex_successor<T: Ord>(s: Seq<T>, t: Seq<T>) -> bool {
    &&& is_arrangement(t, s)
    &&& lex_less(s, t)
    &&& forall|p: Seq<T>| #[trigger] is_arrangement(p, s) ==> !(lex_less(s, p) && lex_less(p, t))
}

/// Arrangements that agree on their first `k` entries are arrangements of
/// each other from there on.
pub proof fn lemma_skip_arrangement<T>(p: Seq<T>, s: Seq<T>, k: int)
    requires
        is_arrangement(p, s),
        0 <= k <= s.len(),
        p.take(k) == s.take(k),
    ensures
        p.len() == s.len(),
        is_arrangement(p.skip(k), s.skip(k)),
{
    broadcast use vstd::multiset::group_multiset_axioms;

    vstd::seq_lib::to_multiset_len(p);
    vstd::seq_lib::to_multiset_len(s);
    vstd::seq_lib::lemma_multiset_commutative(p.take(k), p.skip(k));
    vstd::seq_lib::lemma_multiset_commutative(s.take(k), s.skip(k));
    assert(p =~= p.take(k) + p.skip(k));
    assert(s =~= s.take(k) + s.skip(k));
    let head = p.take(k).to_multiset();
    assert forall|x: T| p.skip(k).to_multiset().count(x) == s.skip(k).to_multiset().count(
        x,
    ) by {
        assert(p.to_multiset().count(x) == head.count(x) + p.skip(k).to_multiset().count(x));
        assert(s.to_multiset().count(x) == head.count(x) + s.skip(k).to_multiset().count(x));
    }
    assert(p.skip(k).to_multiset() =~= s.skip(k).to_multiset());
}

/// The first entry of an arrangement of `u` stands somewhere in `u`.
proof fn lemma_first_occurs<T>(q: Seq<T>, u: Seq<T>) -> (m: int)
    requires
        is_arrangement(q, u),
        q.len() > 0,
    ensures
        0 <= m < u.len(),
        u[m] == q[0],
{
    q.to_multiset_ensures();
    u.to_multiset_ensures();
    assert(q.contains(q[0]));
    assert(q.to_multiset().count(q[0]) > 0);
    assert(u.to_multiset().count(q[0]) > 0);
    assert(u.contains(q[0]));
    choose|m: int| 0 <= m < u.len() && u[m] == q[0]
}

proof fn lemma_skip_less<T: Ord>(a: Seq<T>, b: Seq<T>, k0: int, k: int)
    requires
        first_less_at(a, b, k),
        0 <= k0 <= k,
    ensures
        first_less_at(a.skip(k0), b.skip(k0), k - k0),
        a.take(k0) == b.take(k0),
{
    assert(a.take(k0) =~= a.take(k).take(k0));
    assert(b.take(k0) =~= b.take(k).take(k0));
    assert(a.skip(k0).take(k - k0) =~= a.take(k).skip(k0));
    assert(b.skip(k0).take(k - k0) =~= b.take(k).skip(k0));
}

/// A falling sequence is the last arrangement of its entries.
pub proof fn lemma_falling_last<T: Ord>(u: Seq<T>)
    requires
        is_ordered::<T>(),
        is_falling(u),
    ensures
        is_lex_last(u),
{
    lemma_order_laws::<T>();
    assert forall|q: Seq<T>| #[trigger] is_arrangement(q, u) implies !lex_less(u, q) by {
        if lex_less(u, q) {
            let k = choose|k: int| first_less_at(u, q, k);
            lemma_skip_arrangement(q, u, k);
            let m = lemma_first_occurs(q.skip(k), u.skip(k));
            assert(u[k + m] == q[k]);
            assert(precedes(u[k], q[k]));
        }
    }
}

/// A rising sequence is the first arrangement of its entries.
pub proof fn lemma_rising_first<T: Ord>(u: Seq<T>)
    requires
        is_ordered::<T>(),
        is_rising(u),
    ensures
        forall|q: Seq<T>| #[trigger] is_arrangement(q, u) ==> !lex_less(q, u),
{
    lemma_order_laws::<T>();
    assert forall|q: Seq<T>| #[trigger] is_arrangement(q, u) implies !lex_less(q, u) by {
        if lex_less(q, u) {
            let k = choose|k: int| first_less_at(q, u, k);
            lemma_skip_arrangement(q, u, k);
            let m = lemma_first_occurs(q.skip(k), u.skip(k));
            assert(u[k + m] == q[k]);
            assert(precedes(q[k], u[k]));
        }
    }
}

/// Two sequences of one length are equal, or one comes before the other.
pub proof fn lemma_lex_total<T: Ord>(a: Seq<T>, b: Seq<T>)
    requires
        is_ordered::<T>(),
        a.len() == b.len(),
    ensures
        a == b || lex_less(a, b) || lex_less(b, a),
{
    assert(a.take(0) =~= b.take(0));
    lemma_lex_total_from(a, b, 0);
}

proof fn lemma_lex_total_from<T: Ord>(a: Seq<T>, b: Seq<T>, k: int)
    requires
        is_ordered::<T>(),
        a.len() == b.len(),
        0 <= k <= a.len(),
        a.take(k) == b.take(k),
    ensures
        a == b || lex_less(a, b) || lex_less(b, a),
    decreases a.len() - k,
{
    lemma_order_laws::<T>();
    if k == a.len() {
        assert(a.take(k) =~= a);
        assert(b.take(k) =~= b);
    } else if precedes(a[k], b[k]) {
        assert(first_less_at(a, b, k));
    } else if precedes(b[k], a[k]) {
        assert(first_less_at(b, a, k));
    } else {
        assert(a[k] == b[k]);
        assert(a.take(k + 1) =~= a.take(k).push(a[k]));
        assert(b.take(k + 1) =~= b.take(k).push(b[k]));
        lemma_lex_total_from(a, b, k + 1);
    }
}

/// The arrangement that the pivot rule builds is the lexicographic
/// successor: `piv` is the last position with a later entry after it, `j`
/// the last position after it whose entry comes after that of `piv`, and `t`
/// has the entry of `j` at `piv` and the rest after it in rising order.
#[verifier::rlimit(40)]
proof fn lemma_successor<T: Ord>(s: Seq<T>, t: Seq<T>, piv: int, j: int)
    requires
        is_ordered::<T>(),
        0 <= piv < j < s.len(),
        is_falling(s.skip(piv + 1)),
        precedes(s[piv], s[j]),
        forall|m: int| j < m < s.len() ==> !precedes(s[piv], #[trigger] s[m]),
        is_arrangement(t, s),
        t.take(piv) == s.take(piv),
        t[piv] == s[j],
        is_rising(t.skip(piv + 1)),
    ensures
        is_lex_successor(s, t),
{
    lemma_order_laws::<T>();
    vstd::seq_lib::to_multiset_len(t);
    vstd::seq_lib::to_multiset_len(s);
    assert(first_less_at(s, t, piv));
    assert forall|p: Seq<T>| #[trigger] is_arrangement(p, s) implies !(lex_less(s, p)
        && lex_less(p, t)) by {
        if lex_less(s, p) && lex_less(p, t) {
            let k = choose|k: int| first_less_at(s, p, k);
            let k2 = choose|k2: int| first_less_at(p, t, k2);
            vstd::seq_lib::to_multiset_len(p);
            assert(precedes(s[k], p[k]));
            assert(precedes(p[k2], t[k2]));
            if k < piv {
                assert(t[k] == t.take(piv)[k]);
                assert(s[k] == s.take(piv)[k]);
                if k2 < k {
                    assert(p[k2] == p.take(k)[k2]);
                    assert(s[k2] == s.take(k)[k2]);
                    assert(t[k2] == t.take(piv)[k2]);
                    assert(s[k2] == s.take(piv)[k2]);
                } else if k2 > k {
                    assert(p[k] == p.take(k2)[k]);
                    assert(t[k] == t.take(k2)[k]);
                }
            } else if k > piv {
                lemma_skip_less(s, p, piv + 1, k);
                lemma_skip_arrangement(p, s, piv + 1);
                lemma_falling_last(s.skip(piv + 1));
                assert(is_arrangement(p.skip(piv + 1), s.skip(piv + 1)));
                assert(first_less_at(s.skip(piv + 1), p.skip(piv + 1), k - piv - 1));
            } else {
                // p[piv] is an entry of s after piv that comes after s[piv],
                // so it does not come before s[j]
                lemma_skip_arrangement(p, s, piv);
                let m = lemma_first_occurs(p.skip(piv), s.skip(piv));
                assert(s[piv + m] == p[piv]);
                assert(!precedes(p[piv], s[j])) by {
                    let a = piv + m;
                    assert(a > piv);
                    assert(a <= j);
                    if a < j {
                        assert(!precedes(
                            s.skip(piv + 1)[a - piv - 1],
                            s.skip(piv + 1)[j - piv - 1],
                        ));
                    }
                }
                if k2 < piv {
                    assert(p[k2] == p.take(piv)[k2]);
                    assert(s[k2] == s.take(piv)[k2]);
                    assert(t[k2] == t.take(piv)[k2]);
                } else if k2 > piv {
                    lemma_skip_less(p, t, piv + 1, k2);
                    assert(is_arrangement(p, t));
                    lemma_skip_arrangement(p, t, piv + 1);
                    lemma_rising_first(t.skip(piv + 1));
                    assert(is_arrangement(p.skip(piv + 1), t.skip(piv + 1)));
                    assert(first_less_at(p.skip(piv + 1), t.skip(piv + 1), k2 - piv - 1));
                }
            }
        }
    }
}

/// Reverse the entries from `start` on.
fn reverse_from<T>(v: &mut [T], start: usize)
    requires
        start <= old(v).len(),
    ensures
        final(v)@ == old(v)@.take(start as int) + old(v)@.skip(start as int).reverse(),
        is_arrangement(final(v)@, old(v)@),
{
    let n: usize = v.len();
    if n - start < 2 {
        assert(v@ =~= v@.take(start as int) + v@.skip(start as int).reverse());
        return ;
    }
    let mut lo: usize = start;
    let mut hi: usize = n - 1;
    while lo < hi
        invariant
            start <= lo <= hi + 1 <= n,
            lo + hi == start + n - 1,
            v@.len() == n,
            n == old(v)@.len(),
            is_arrangement(v@, old(v)@),
            forall|m: int| 0 <= m < start ==> v[m] == old(v)[m],
            forall|m: int| lo <= m <= hi ==> v[m] == old(v)[m],
            forall|m: int| start <= m < lo ==> v[m] == old(v)[start + n - 1 - m],
            forall|m: int| hi < m < n ==> v[m] == old(v)[start + n - 1 - m],
        decreases n - lo,
    {
        let ghost prev = v@;
        swap_entries(v, lo, hi);
        proof {
            lemma_swapped_multiset(prev, lo as int, hi as int);
        }
        lo += 1;
        hi -= 1;
    }
    assert(v@ =~= old(v)@.take(start as int) + old(v)@.skip(start as int).reverse());
}

/// Advance `v` to the next arrangement of its entries in lexicographic
/// order. Where `v` is the last arrangement, `false` is returned, and `v` is
/// reset to the first arrangement, in rising order.
#[verifier::rlimit(40)]
pub fn next_lex_perm<T: Ord>(v: &mut [T]) -> (advanced: bool)
    requires
        is_ordered::<T>(),
    ensures
        advanced == !is_lex_last(old(v)@),
        advanced ==> is_lex_successor(old(v)@, final(v)@),
        !advanced ==> final(v)@ == in_order(old(v)@),
        !advanced ==> final(v)@ == old(v)@.reverse(),
{
    let n: usize = v.len();
    let ghost s = v@;
    proof {
        lemma_order_laws::<T>();
    }
    if n < 2 {
        proof {
            lemma_rising_unique(s, s);
            lemma_falling_last(s);
            assert(s =~= s.reverse());
        }
        return false;
    }
    // find the pivot: the entry before the longest falling suffix
    let mut i: usize = n - 1;
    while i > 0 && !comes_before(&v[i - 1], &v[i])
        invariant
            is_ordered::<T>(),
            i < n,
            v@ == s,
            n == s.len(),
            is_falling(s.skip(i as int)),
        decreases i,
    {
        i -= 1;
        proof {
            lemma_order_laws::<T>();
            assert forall|a: int, b: int| 0 <= a < b < s.skip(i as int).len() implies !precedes(
                s.skip(i as int)[a],
                s.skip(i as int)[b],
            ) by {
                if a == 0 {
                    assert(!precedes(s[i as int], s[i + 1]));
                    if b > 1 {
                        assert(!precedes(s.skip(i + 1)[0], s.skip(i + 1)[b - 1]));
                    }
                } else {
                    assert(!precedes(s.skip(i + 1)[a - 1], s.skip(i + 1)[b - 1]));
                }
            }
        }
    }
    if i == 0 {
        // no pivot: this is the last arrangement
        reverse_from(v, 0);
        proof {
            assert(s.skip(0) =~= s);
            lemma_falling_last(s);
            assert(v@ =~= s.reverse());
            lemma_rising_unique(s, v@);
        }
        return false;
    }
    let piv: usize = i - 1;
    // find the last entry that comes after the pivot
    let mut j: usize = n - 1;
    while !comes_before(&v[piv], &v[j])
        invariant
            is_ordered::<T>(),
            piv < j < n,
            piv + 1 == i,
            v@ == s,
            n == s.len(),
            precedes(s[piv as int], s[i as int]),
            forall|m: int| j < m < n ==> !precedes(s[piv as int], #[trigger] s[m]),
        decreases j,
    {
        j -= 1;
    }
    // swap, and reverse the suffix
    swap_entries(v, piv, j);
    let ghost mid = v@;
    reverse_from(v, i);
    proof {
        lemma_swapped_multiset(s, piv as int, j as int);
        assert(is_falling(mid.skip(i as int))) by {
            assert forall|a: int, b: int| 0 <= a < b < mid.skip(i as int).len() implies !precedes(
                mid.skip(i as int)[a],
                mid.skip(i as int)[b],
            ) by {
                assert(!precedes(s.skip(i as int)[a], s.skip(i as int)[b]));
                if a + i < j {
                    assert(!precedes(s.skip(i as int)[a], s.skip(i as int)[j - i]));
                }
                if b + i > j {
                    assert(!precedes(s[piv as int], s[b + i]));
                }
            }
        }
        let r = v@;
        assert(r.take(piv as int) =~= s.take(piv as int));
        assert(r.skip(i as int) =~= mid.skip(i as int).reverse());
        assert(is_rising(r.skip(i as int))) by {
            let d = mid.skip(i as int);
            assert forall|a: int, b: int| 0 <= a < b < d.reverse().len() implies !precedes(
                d.reverse()[b],
                d.reverse()[a],
            ) by {
                assert(!precedes(d[d.len() - 1 - b], d[d.len() - 1 - a]));
            }
        }
        lemma_successor(s, r, piv as int, j as int);
        assert(is_arrangement(r, s));
    }
    true
}

} // verus!
