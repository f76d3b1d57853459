//! Small sequence notions shared by the engines: the identity sequence,
//! permutations of `0..n`, swaps, and copies of nested vectors.

use vstd::prelude::*;
use crate::order::{lemma_usize_ordered, precedes, sort_rising};

verus! {

/// The sequence 0, 1, ..., n - 1.
pub open spec fn identity_seq(n: nat) -> Seq<usize> {
    Seq::new(n, |i: int| i as usize)
}

/// `s` holds each of 0, ..., n - 1 exactly once.
pub open spec fn is_permutation(s: Seq<usize>, n: nat) -> bool {
    &&& s.len() == n
    &&& forall|i: int| 0 <= i < s.len() ==> (#[trigger] s[i]) < n
    &&& forall|i: int, j: int| 0 <= i < j < s.len() ==> s[i] != s[j]
}

/// `s` with the entries at `i` and `j` exchanged.
pub open spec fn swapped<T>(s: Seq<T>, i: int, j: int) -> Seq<T> {
    s.update(i, s[j]).update(j, s[i])
}

/// The method `swap` of slices exchanges the entries at two positions. It
/// panics where a position is out of bounds, so both must be in bounds.
#[verifier::external_body]
pub(crate) fn swap_entries<T>(s: &mut [T], a: usize, b: usize)
    requires
        a < old(s)@.len(),
        b < old(s)@.len(),
    ensures
        final(s)@ == swapped(old(s)@, a as int, b as int),
{
    s.swap(a, b);
}

/// What is kept of a sequence without repetitions has none.
pub proof fn lemma_filter_distinct<T>(s: Seq<T>, keep: spec_fn(T) -> bool)
    requires
        s.no_duplicates(),
    ensures
        s.filter(keep).no_duplicates(),
    decreases s.len(),
{
    reveal(Seq::filter);
    if s.len() > 0 {
        let front = s.drop_last();
        lemma_filter_distinct(front, keep);
        let kept = front.filter(keep);
        if keep(s.last()) {
            if kept.contains(s.last()) {
                front.lemma_filter_contains_rev(keep, s.last());
                let w = choose|w: int| 0 <= w < front.len() && front[w] == s.last();
                assert(s[w] == s[s.len() - 1]);
            }
            assert forall|a: int, b: int|
                0 <= a < b < kept.push(s.last()).len() implies kept.push(s.last())[a] != kept.push(
                s.last(),
            )[b] by {
                if b == kept.len() {
                    assert(kept.contains(kept[a]));
                }
            }
        }
    }
}

/// The rows of a vector of vectors, as sequences.
pub open spec fn rows<T>(v: Seq<Vec<T>>) -> Seq<Seq<T>> {
    Seq::new(v.len(), |i: int| v[i]@)
}

/// The rows of a vector of tables, each as a sequence of sequences.
pub open spec fn tables<T>(v: Seq<Vec<Vec<T>>>) -> Seq<Seq<Seq<T>>> {
    Seq::new(v.len(), |i: int| rows(v[i]@))
}

/// The rows after a push are the rows before and the new row.
pub proof fn lemma_rows_push<T>(v: Seq<Vec<T>>, x: Vec<T>)
    ensures
        rows(v.push(x)) == rows(v).push(x@),
{
    assert(rows(v.push(x)) =~= rows(v).push(x@));
}

/// The tables after a push are the tables before and the new table.
pub proof fn lemma_tables_push<T>(v: Seq<Vec<Vec<T>>>, x: Vec<Vec<T>>)
    ensures
        tables(v.push(x)) == tables(v).push(rows(x@)),
{
    assert(tables(v.push(x)) =~= tables(v).push(rows(x@)));
}

/// The set of the machine integers below `n`.
pub open spec fn below(n: nat) -> Set<usize> {
    Set::new(|x: usize| x < n)
}

/// There are `n` machine integers below `n`.
pub proof fn lemma_below_len(n: nat)
    requires
        n <= usize::MAX + 1,
    ensures
        below(n).finite(),
        below(n).len() == n,
    decreases n,
{
    if n == 0 {
        assert(below(n) =~= Set::<usize>::empty());
    } else {
        lemma_below_len((n - 1) as nat);
        assert(below(n) =~= below((n - 1) as nat).insert((n - 1) as usize));
    }
}

/// A permutation of `0..n` holds every value below `n`.
pub proof fn lemma_permutation_onto(s: Seq<usize>, n: nat, v: int)
    requires
        is_permutation(s, n),
        0 <= v < n,
    ensures
        exists|p: int| 0 <= p < n && s[p] == v,
{
    if v > usize::MAX || !s.contains(v as usize) {
        assert(s.no_duplicates());
        s.unique_seq_to_set();
        let m: nat = if n <= usize::MAX + 1 {
            n
        } else {
            (usize::MAX + 1) as nat
        };
        lemma_below_len(m);
        assert(below(n) =~= below(m));
        let rest = if v > usize::MAX {
            below(n)
        } else {
            below(n).remove(v as usize)
        };
        assert(s.to_set().subset_of(rest)) by {
            assert forall|x: usize| s.to_set().contains(x) implies rest.contains(x) by {
                let i = choose|i: int| 0 <= i < s.len() && s[i] == x;
                assert(s[i] < n);
            }
        }
        vstd::set_lib::lemma_len_subset(s.to_set(), rest);
        assert(false);
    }
    let p = choose|p: int| 0 <= p < s.len() && s[p] == v as usize;
    assert(0 <= p < n && s[p] == v);
}

/// The vector 0, 1, ..., n - 1.
pub fn iota(n: usize) -> (v: Vec<usize>)
    ensures
        v@ == identity_seq(n as nat),
{
    let mut v: Vec<usize> = Vec::new();
    let mut i: usize = 0;
    while i < n
        invariant
            i <= n,
            v@ == identity_seq(i as nat),
        decreases n - i,
    {
        v.push(i);
        i += 1;
        assert(v@ =~= identity_seq(i as nat));
    }
    v
}

/// A vector of `n` copies of `x`.
pub fn filled<T: Copy>(x: T, n: usize) -> (v: Vec<T>)
    ensures
        v@ == Seq::new(n as nat, |i: int| x),
{
    let mut v: Vec<T> = Vec::new();
    let mut i: usize = 0;
    while i < n
        invariant
            i <= n,
            v@ == Seq::new(i as nat, |k: int| x),
        decreases n - i,
    {
        v.push(x);
        i += 1;
        assert(v@ =~= Seq::new(i as nat, |k: int| x));
    }
    v
}

/// A copy of a vector of vectors.
pub fn clone_rows<T: Copy>(t: &Vec<Vec<T>>) -> (res: Vec<Vec<T>>)
    ensures
        rows(res@) == rows(t@),
{
    let mut res: Vec<Vec<T>> = Vec::new();
    let mut i: usize = 0;
    while i < t.len()
        invariant
            i <= t.len(),
            res.len() == i,
            forall|k: int| 0 <= k < i ==> (#[trigger] res[k])@ == t[k]@,
        decreases t.len() - i,
    {
        let mut row: Vec<T> = Vec::new();
        let mut j: usize = 0;
        while j < t[i].len()
            invariant
                i < t.len(),
                j <= t[i as int].len(),
                row@ == t[i as int]@.take(j as int),
            decreases t[i as int].len() - j,
        {
            row.push(t[i][j]);
            j += 1;
            assert(row@ =~= t[i as int]@.take(j as int));
        }
        assert(row@ =~= t[i as int]@);
        res.push(row);
        i += 1;
    }
    assert(rows(res@) =~= rows(t@));
    res
}

/// The order of the machine integers, as a relation.
pub open spec fn at_most() -> spec_fn(usize, usize) -> bool {
    |a: usize, b: usize| a <= b
}

/// No entry is above a later one.
pub open spec fn is_ascending(s: Seq<usize>) -> bool {
    forall|i: int, j: int| 0 <= i < j < s.len() ==> s[i] <= s[j]
}

/// The entries of `s` in ascending order.
pub open spec fn ascending(s: Seq<usize>) -> Seq<usize> {
    s.sort_by(at_most())
}

/// The order of the machine integers is a total order.
pub proof fn lemma_at_most_total()
    ensures
        vstd::relations::total_ordering(at_most()),
{
    let r = at_most();
    assert(vstd::relations::reflexive(r));
    assert(vstd::relations::antisymmetric(r));
    assert(vstd::relations::transitive(r));
    assert(vstd::relations::strongly_connected(r));
}

/// An ascending arrangement of the entries of `s` is `ascending(s)`.
pub proof fn lemma_ascending_unique(s: Seq<usize>, t: Seq<usize>)
    requires
        is_ascending(t),
        t.to_multiset() == s.to_multiset(),
    ensures
        t == ascending(s),
{
    lemma_at_most_total();
    s.lemma_sort_by_ensures(at_most());
    assert(vstd::relations::sorted_by(t, at_most()));
    vstd::seq_lib::lemma_sorted_unique(t, ascending(s), at_most());
}

/// An exchange of two entries keeps what the sequence holds.
pub proof fn lemma_swapped_multiset<T>(s: Seq<T>, i: int, j: int)
    requires
        0 <= i < s.len(),
        0 <= j < s.len(),
    ensures
        swapped(s, i, j).to_multiset() == s.to_multiset(),
{
    broadcast use vstd::multiset::group_multiset_axioms;

    let m = s.to_multiset();
    let mid = s.update(i, s[j]);
    let t = mid.update(j, s[i]);
    vstd::seq_lib::to_multiset_update(s, i, s[j]);
    vstd::seq_lib::to_multiset_update(mid, j, s[i]);
    assert(mid[j] == s[j]);
    s.to_multiset_ensures();
    assert(s.contains(s[i]));
    assert(s.contains(s[j]));
    assert(m.count(s[i]) > 0);
    assert(m.count(s[j]) > 0);
    assert(t.to_multiset() =~= m);
}

/// Sort a vector of indices into ascending order.
pub fn sort_ascending(v: &mut Vec<usize>)
    ensures
        final(v)@ == ascending(old(v)@),
        final(v)@.len() == old(v)@.len(),
        final(v)@.to_multiset() == old(v)@.to_multiset(),
        is_ascending(final(v)@),
{
    proof {
        lemma_usize_ordered();
    }
    sort_rising(v);
    proof {
        assert(is_ascending(v@)) by {
            assert forall|i: int, j: int| 0 <= i < j < v@.len() implies v@[i] <= v@[j] by {
                assert(!precedes(v@[j], v@[i]));
            }
        }
        lemma_ascending_unique(old(v)@, v@);
    }
}

/// The permutations of `0..n` are the sequences that hold what the identity
/// sequence holds, each value as often.
pub proof fn lemma_permutation_multiset(p: Seq<usize>, n: nat)
    requires
        n <= usize::MAX,
    ensures
        is_permutation(p, n) <==> p.to_multiset() == identity_seq(n).to_multiset(),
{
    broadcast use vstd::multiset::group_multiset_axioms;

    let id = identity_seq(n);
    assert(is_permutation(id, n));
    assert(id.no_duplicates());
    id.lemma_multiset_has_no_duplicates();
    id.to_multiset_ensures();
    p.to_multiset_ensures();
    assert forall|v: usize| id.contains(v) <==> v < n by {
        if v < n {
            assert(id[v as int] == v);
        }
    }
    if is_permutation(p, n) {
        assert(p.no_duplicates());
        p.lemma_multiset_has_no_duplicates();
        assert forall|v: usize| p.to_multiset().count(v) == id.to_multiset().count(v) by {
            if v < n {
                lemma_permutation_onto(p, n, v as int);
                let i = choose|i: int| 0 <= i < n && p[i] == v;
                assert(p.contains(v));
                assert(id.contains(v));
            } else {
                if p.contains(v) {
                    let i = choose|i: int| 0 <= i < p.len() && p[i] == v;
                    assert(p[i] < n);
                }
            }
        }
        assert(p.to_multiset() =~= id.to_multiset());
    }
    if p.to_multiset() == id.to_multiset() {
        assert(p.len() == n);
        assert forall|i: int| 0 <= i < p.len() implies (#[trigger] p[i]) < n by {
            assert(p.contains(p[i]));
            assert(p.to_multiset().count(p[i]) > 0);
            assert(id.to_multiset().count(p[i]) > 0);
            assert(id.contains(p[i]));
        }
        p.lemma_multiset_has_no_duplicates_conv();
    }
}

/// What a concatenation holds is what its parts hold.
pub proof fn lemma_concat_contains<T>(a: Seq<T>, b: Seq<T>, x: T)
    ensures
        (a + b).contains(x) <==> a.contains(x) || b.contains(x),
{
    let c = a + b;
    if c.contains(x) {
        let i = choose|i: int| 0 <= i < c.len() && c[i] == x;
        if i < a.len() {
            assert(a[i] == x);
        } else {
            assert(b[i - a.len()] == x);
        }
    }
    if a.contains(x) {
        let i = choose|i: int| 0 <= i < a.len() && a[i] == x;
        assert(c[i] == x);
    }
    if b.contains(x) {
        let i = choose|i: int| 0 <= i < b.len() && b[i] == x;
        assert(c[a.len() + i] == x);
    }
}

} // verus!
