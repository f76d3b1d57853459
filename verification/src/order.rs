//! The order of the entries of a sequence, for every type with a total
//! order.

use vstd::prelude::*;
use vstd::std_specs::cmp::{OrdSpec, PartialEqSpec, PartialOrdSpec};
use core::cmp::Ordering;

verus! {

/// `a` comes strictly before `b` in the order of `T`.
pub open spec fn precedes<T: Ord>(a: T, b: T) -> bool {
    a.partial_cmp_spec(&b) == Some(Ordering::Less)
}

/// The comparisons of `T` follow one strict total order, in which two values
/// compare equal only where they are the same value.
pub open spec fn is_ordered<T: Ord>() -> bool {
    vstd::laws_cmp::obeys_cmp::<T>() && vstd::laws_eq::obeys_concrete_eq::<T>()
}

/// No entry comes before an earlier one.
pub open spec fn is_rising<T: Ord>(s: Seq<T>) -> bool {
    forall|i: int, j: int| 0 <= i < j < s.len() ==> !precedes(s[j], s[i])
}

/// No entry comes before a later one.
pub open spec fn is_falling<T: Ord>(s: Seq<T>) -> bool {
    forall|i: int, j: int| 0 <= i < j < s.len() ==> !precedes(s[i], s[j])
}

/// `a` does not come after `b`.
pub open spec fn not_after<T: Ord>() -> spec_fn(T, T) -> bool {
    |a: T, b: T| !precedes(b, a)
}

/// The entries of `s` in rising order.
pub open spec fn in_order<T: Ord>(s: Seq<T>) -> Seq<T> {
    s.sort_by(not_after())
}

/// What a total order gives: nothing comes before itself, of two different
/// values one comes before the other, and what comes before a value comes
/// before everything after it.
pub proof fn lemma_order_laws<T: Ord>()
    requires
        is_ordered::<T>(),
    ensures
        forall|x: T| !#[trigger] precedes(x, x),
        forall|x: T, y: T| x == y || #[trigger] precedes(x, y) || precedes(y, x),
        forall|x: T, y: T| #[trigger] precedes(x, y) ==> !precedes(y, x),
        forall|x: T, y: T, z: T| #[trigger]
            precedes(x, y) && #[trigger] precedes(y, z) ==> precedes(x, z),
{
    reveal(vstd::laws_eq::obeys_concrete_eq);
    reveal(vstd::laws_eq::obeys_eq_spec_properties);
    reveal(vstd::laws_cmp::obeys_partial_cmp_spec_properties);
    reveal(vstd::laws_cmp::obeys_cmp_partial_ord);
    reveal(vstd::laws_cmp::obeys_cmp_ord);
    assert forall|x: T| !#[trigger] precedes(x, x) by {
        assert(x.eq_spec(&x));
    }
    assert forall|x: T, y: T| x == y || #[trigger] precedes(x, y) || precedes(y, x) by {
        assert(x.partial_cmp_spec(&y) == Some(x.cmp_spec(&y)));
        match x.cmp_spec(&y) {
            Ordering::Less => {},
            Ordering::Equal => {
                assert(x.eq_spec(&y));
            },
            Ordering::Greater => {},
        }
    }
    assert forall|x: T, y: T| #[trigger] precedes(x, y) implies !precedes(y, x) by {
        if precedes(y, x) {
            assert(precedes(x, x));
        }
    }
}

/// Not to come after is a total order.
pub proof fn lemma_not_after_total<T: Ord>()
    requires
        is_ordered::<T>(),
    ensures
        vstd::relations::total_ordering(not_after::<T>()),
{
    lemma_order_laws::<T>();
    let r = not_after::<T>();
    assert(vstd::relations::reflexive(r));
    assert(vstd::relations::antisymmetric(r)) by {
        assert forall|x: T, y: T| #[trigger] r(x, y) && #[trigger] r(y, x) implies x == y by {
            assert(x == y || precedes(x, y) || precedes(y, x));
        }
    }
    assert(vstd::relations::transitive(r)) by {
        assert forall|x: T, y: T, z: T| #[trigger] r(x, y) && #[trigger] r(y, z) implies r(
            x,
            z,
        ) by {
            if precedes(z, x) {
                assert(x == y || precedes(x, y) || precedes(y, x));
                assert(y == z || precedes(y, z) || precedes(z, y));
            }
        }
    }
    assert(vstd::relations::strongly_connected(r)) by {
        assert forall|x: T, y: T| #[trigger] r(x, y) || #[trigger] r(y, x) by {
            if precedes(y, x) && precedes(x, y) {
            }
        }
    }
}

/// A rising arrangement of the entries of `s` is `in_order(s)`.
pub proof fn lemma_rising_unique<T: Ord>(s: Seq<T>, t: Seq<T>)
    requires
        is_ordered::<T>(),
        is_rising(t),
        t.to_multiset() == s.to_multiset(),
    ensures
        t == in_order(s),
{
    lemma_not_after_total::<T>();
    s.lemma_sort_by_ensures(not_after());
    assert(vstd::relations::sorted_by(t, not_after()));
    vstd::seq_lib::lemma_sorted_unique(t, in_order(s), not_after());
}

/// The machine integers that count and index are ordered, by `<`.
pub proof fn lemma_usize_ordered()
    ensures
        is_ordered::<usize>(),
        forall|a: usize, b: usize| #[trigger] precedes(a, b) == (a < b),
{
    broadcast use vstd::laws_cmp::group_laws_cmp;
    broadcast use vstd::laws_eq::group_laws_eq;

}

/// Whether `a` comes strictly before `b`.
pub fn comes_before<T: Ord>(a: &T, b: &T) -> (r: bool)
    requires
        is_ordered::<T>(),
    ensures
        r == precedes(*a, *b),
{
    proof {
        reveal(vstd::laws_cmp::obeys_cmp_partial_ord);
    }
    a < b
}

/// Whether `a` and `b` are different values.
pub fn differs<T: Ord>(a: &T, b: &T) -> (r: bool)
    requires
        is_ordered::<T>(),
    ensures
        r == (*a != *b),
{
    proof {
        reveal(vstd::laws_eq::obeys_concrete_eq);
    }
    a != b
}

/// Every entry comes before the entries after it.
pub open spec fn is_strictly_rising<T: Ord>(s: Seq<T>) -> bool {
    forall|i: int, j: int| 0 <= i < j < s.len() ==> precedes(s[i], s[j])
}

/// The entries of `v` from `lo` up to `hi`, as a vector of their own.
fn copy_range<T: Copy>(v: &Vec<T>, lo: usize, hi: usize) -> (r: Vec<T>)
    requires
        lo <= hi <= v.len(),
    ensures
        r@ == v@.subrange(lo as int, hi as int),
{
    let mut r: Vec<T> = Vec::new();
    let mut i: usize = lo;
    while i < hi
        invariant
            lo <= i <= hi <= v.len(),
            r@ == v@.subrange(lo as int, i as int),
        decreases hi - i,
    {
        r.push(v[i]);
        i += 1;
        assert(r@ =~= v@.subrange(lo as int, i as int));
    }
    r
}

/// Merge two rising vectors into one rising vector of their entries.
fn merge_rising<T: Ord + Copy>(a: &Vec<T>, b: &Vec<T>) -> (r: Vec<T>)
    requires
        is_ordered::<T>(),
        is_rising(a@),
        is_rising(b@),
    ensures
        is_rising(r@),
        r@.to_multiset() == a@.to_multiset().add(b@.to_multiset()),
{
    let mut r: Vec<T> = Vec::new();
    let mut i: usize = 0;
    let mut j: usize = 0;
    proof {
        broadcast use vstd::multiset::group_multiset_axioms;

        lemma_order_laws::<T>();
        assert(a@.take(0) =~= Seq::empty());
        assert(b@.take(0) =~= Seq::empty());
        assert(r@ =~= Seq::empty());
        let none = Seq::<T>::empty();
        none.to_multiset_ensures();
        assert forall|x: T| none.to_multiset().count(x) == 0 by {
            assert(!none.contains(x));
        }
        assert(r@.to_multiset() =~= a@.take(0).to_multiset().add(b@.take(0).to_multiset()));
    }
    while i < a.len() || j < b.len()
        invariant
            is_ordered::<T>(),
            i <= a.len(),
            j <= b.len(),
            is_rising(a@),
            is_rising(b@),
            is_rising(r@),
            r@.to_multiset() == a@.take(i as int).to_multiset().add(
                b@.take(j as int).to_multiset(),
            ),
            forall|k: int| 0 <= k < r.len() && i < a.len() ==> !precedes(a[i as int], #[trigger] r[k]),
            forall|k: int| 0 <= k < r.len() && j < b.len() ==> !precedes(b[j as int], #[trigger] r[k]),
        decreases (a.len() - i) + (b.len() - j),
    {
        let from_a: bool = if j >= b.len() {
            true
        } else if i >= a.len() {
            false
        } else {
            !comes_before(&b[j], &a[i])
        };
        let ghost before = r@;
        proof {
            lemma_order_laws::<T>();
            broadcast use vstd::multiset::group_multiset_axioms;

        }
        if from_a {
            let x: T = a[i];
            r.push(x);
            proof {
                assert(a@.take(i + 1) =~= a@.take(i as int).push(x));
                vstd::seq_lib::to_multiset_build(a@.take(i as int), x);
                vstd::seq_lib::to_multiset_build(before, x);
                assert(r@.to_multiset() =~= a@.take(i + 1).to_multiset().add(
                    b@.take(j as int).to_multiset(),
                ));
                assert forall|k: int| 0 <= k < r.len() && i + 1 < a.len() implies !precedes(
                    a[i + 1],
                    #[trigger] r[k],
                ) by {
                    assert(!precedes(a@[i + 1], a@[i as int]));
                    if k < before.len() {
                        assert(!precedes(x, before[k]));
                    }
                }
            }
            i += 1;
        } else {
            let x: T = b[j];
            r.push(x);
            proof {
                assert(b@.take(j + 1) =~= b@.take(j as int).push(x));
                vstd::seq_lib::to_multiset_build(b@.take(j as int), x);
                vstd::seq_lib::to_multiset_build(before, x);
                assert(r@.to_multiset() =~= a@.take(i as int).to_multiset().add(
                    b@.take(j + 1).to_multiset(),
                ));
                assert forall|k: int| 0 <= k < r.len() && j + 1 < b.len() implies !precedes(
                    b[j + 1],
                    #[trigger] r[k],
                ) by {
                    assert(!precedes(b@[j + 1], b@[j as int]));
                    if k < before.len() {
                        assert(!precedes(x, before[k]));
                    }
                }
                assert forall|k: int| 0 <= k < r.len() && i < a.len() implies !precedes(
                    a[i as int],
                    #[trigger] r[k],
                ) by {
                    if k < before.len() {
                        assert(!precedes(a[i as int], before[k]));
                    }
                }
            }
            j += 1;
        }
    }
    proof {
        assert(a@.take(i as int) =~= a@);
        assert(b@.take(j as int) =~= b@);
    }
    r
}

/// The entries of `v` in rising order: each half in rising order, merged.
fn merge_sorted<T: Ord + Copy>(v: &Vec<T>) -> (r: Vec<T>)
    requires
        is_ordered::<T>(),
    ensures
        is_rising(r@),
        r@.to_multiset() == v@.to_multiset(),
    decreases v.len(),
{
    let n: usize = v.len();
    if n < 2 {
        let whole = copy_range(v, 0, n);
        assert(whole@ =~= v@);
        return whole;
    }
    let mid: usize = n / 2;
    let left = copy_range(v, 0, mid);
    let right = copy_range(v, mid, n);
    let low = merge_sorted(&left);
    let high = merge_sorted(&right);
    proof {
        vstd::seq_lib::lemma_multiset_commutative(left@, right@);
        assert(left@ + right@ =~= v@);
    }
    merge_rising(&low, &high)
}

/// Whether the entries stand in rising order already.
fn stands_rising<T: Ord>(v: &Vec<T>) -> (r: bool)
    requires
        is_ordered::<T>(),
    ensures
        r == is_rising(v@),
{
    let mut i: usize = 1;
    while i < v.len()
        invariant
            is_ordered::<T>(),
            1 <= i,
            forall|a: int, b: int| 0 <= a < b < i && b < v.len() ==> !precedes(v[b], v[a]),
        decreases v.len() - i,
    {
        if comes_before(&v[i], &v[i - 1]) {
            return false;
        }
        proof {
            lemma_order_laws::<T>();
            assert forall|a: int, b: int| 0 <= a < b < i + 1 && b < v.len() implies !precedes(
                v[b],
                v[a],
            ) by {
                if b == i && a < i - 1 {
                    assert(!precedes(v[i - 1], v[a]));
                }
            }
        }
        i += 1;
    }
    true
}

/// Sort a vector into rising order: a vector that is in order already is
/// left as it is; another is cut in halves, which are sorted and merged.
pub fn sort_rising<T: Ord + Copy>(v: &mut Vec<T>)
    requires
        is_ordered::<T>(),
    ensures
        final(v)@ == in_order(old(v)@),
        final(v)@.len() == old(v)@.len(),
        final(v)@.to_multiset() == old(v)@.to_multiset(),
        is_rising(final(v)@),
{
    if stands_rising(v) {
        proof {
            lemma_rising_unique(v@, v@);
        }
        return ;
    }
    let sorted = merge_sorted(v);
    proof {
        vstd::seq_lib::to_multiset_len(sorted@);
        vstd::seq_lib::to_multiset_len(v@);
        lemma_rising_unique(old(v)@, sorted@);
    }
    *v = sorted;
}

} // verus!
