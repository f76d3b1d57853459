//! A binary min-heap of indices: insertion and extraction of the minimum in
//! logarithmic time.

use vstd::multiset::Multiset;
use vstd::prelude::*;
use crate::sequences::{lemma_swapped_multiset, swapped};

verus! {

/// Every entry but the first is at least the entry at its parent position.
pub open spec fn heap_ordered(s: Seq<usize>) -> bool {
    forall|i: int| 0 < i < s.len() ==> s[(i - 1) / 2] <= #[trigger] s[i]
}

/// In an ordered heap the first entry is a minimum.
pub proof fn lemma_root_is_min(s: Seq<usize>, j: int)
    requires
        heap_ordered(s),
        0 <= j < s.len(),
    ensures
        s[0] <= s[j],
    decreases j,
{
    if j > 0 {
        lemma_root_is_min(s, (j - 1) / 2);
    }
}

/// A min-heap of indices.
pub struct MinHeap {
    data: Vec<usize>,
}

impl MinHeap {
    /// What the heap holds.
    pub closed spec fn view(&self) -> Multiset<usize> {
        self.data@.to_multiset()
    }

    /// The heap is in order.
    pub closed spec fn well_formed(&self) -> bool {
        heap_ordered(self.data@)
    }

    /// An empty heap.
    pub fn new() -> (h: Self)
        ensures
            h.well_formed(),
            h@ == Multiset::<usize>::empty(),
    {
        let h = MinHeap { data: Vec::new() };
        assert(h.data@.to_multiset() =~= Multiset::<usize>::empty()) by {
            h.data@.to_multiset_ensures();
            broadcast use vstd::multiset::group_multiset_axioms;

        }
        h
    }

    /// Insert `x`.
    #[verifier::rlimit(40)]
    pub fn push(&mut self, x: usize)
        requires
            old(self).well_formed(),
        ensures
            final(self).well_formed(),
            final(self)@ == old(self)@.insert(x),
    {
        proof {
            self.data@.to_multiset_ensures();
        }
        self.data.push(x);
        let mut i: usize = self.data.len() - 1;
        while i > 0
            invariant
                i < self.data.len(),
                self.data@.to_multiset() == old(self).data@.to_multiset().insert(x),
                forall|j: int|
                    0 < j < self.data.len() && j != i ==> self.data[(j - 1) / 2] <= #[trigger] self.data[j],
                forall|j: int|
                    0 < j < self.data.len() && (j - 1) / 2 == i && i > 0 ==> self.data[(i - 1) / 2]
                        <= #[trigger] self.data[j],
            ensures
                heap_ordered(self.data@),
                self.data@.to_multiset() == old(self).data@.to_multiset().insert(x),
            decreases i,
        {
            let p: usize = (i - 1) / 2;
            if self.data[p] <= self.data[i] {
                break ;
            }
            let ghost prev = self.data@;
            let t: usize = self.data[i];
            self.data[i] = self.data[p];
            self.data[p] = t;
            proof {
                lemma_swapped_multiset(prev, i as int, p as int);
                assert(self.data@ =~= swapped(prev, i as int, p as int));
            }
            i = p;
        }
    }

    /// Extract a minimum, or `None` where the heap is empty.
    #[verifier::rlimit(40)]
    pub fn pop(&mut self) -> (r: Option<usize>)
        requires
            old(self).well_formed(),
        ensures
            final(self).well_formed(),
            match r {
                None => final(self)@ == old(self)@ && forall|y: usize| old(self)@.count(y) == 0,
                Some(x) => old(self)@.count(x) > 0 && final(self)@ == old(self)@.remove(x)
                    && forall|y: usize| old(self)@.count(y) > 0 ==> x <= y,
            },
    {
        broadcast use vstd::multiset::group_multiset_axioms;

        let ghost s = self.data@;
        proof {
            s.to_multiset_ensures();
        }
        if self.data.len() == 0 {
            assert forall|y: usize| s.to_multiset().count(y) == 0 by {
                assert(!s.contains(y));
            }
            return None;
        }
        let min: usize = self.data[0];
        proof {
            assert(s.contains(min));
            assert forall|y: usize| s.to_multiset().count(y) > 0 implies min <= y by {
                assert(s.contains(y));
                let j = choose|j: int| 0 <= j < s.len() && s[j] == y;
                lemma_root_is_min(s, j);
            }
        }
        let last: usize = self.data.pop().unwrap();
        if self.data.len() == 0 {
            assert(self.data@.to_multiset() =~= s.to_multiset().remove(min)) by {
                assert(s =~= seq![min]);
                assert(s.remove(0) =~= self.data@);
            }
            return Some(min);
        }
        self.data[0] = last;
        proof {
            // the root is replaced by the last entry
            let dropped = s.drop_last();
            assert(dropped =~= s.remove(s.len() - 1));
            dropped.to_multiset_ensures();
            vstd::seq_lib::to_multiset_update(dropped, 0, last);
            assert(self.data@ =~= dropped.update(0, last));
            assert(dropped.to_multiset() =~= s.to_multiset().remove(last));
            assert(self.data@.to_multiset() =~= s.to_multiset().remove(min));
        }
        let n: usize = self.data.len();
        let mut i: usize = 0;
        while i < n / 2
            invariant
                i < n,
                n == self.data.len(),
                self.data@.to_multiset() == s.to_multiset().remove(min),
                forall|j: int|
                    0 < j < n && (j - 1) / 2 != i ==> self.data[(j - 1) / 2] <= #[trigger] self.data[j],
                forall|j: int|
                    0 < j < n && (j - 1) / 2 == i && i > 0 ==> self.data[(i - 1) / 2]
                        <= #[trigger] self.data[j],
            ensures
                heap_ordered(self.data@),
                self.data@.to_multiset() == s.to_multiset().remove(min),
            decreases n - i,
        {
            let l: usize = 2 * i + 1;
            let r: usize = l + 1;
            let c: usize = if r < n && self.data[r] < self.data[l] {
                r
            } else {
                l
            };
            if self.data[i] <= self.data[c] {
                assert forall|j: int| 0 < j < n implies self.data[(j - 1) / 2]
                    <= #[trigger] self.data[j] by {
                    if (j - 1) / 2 == i {
                        assert(j == l || j == r);
                    }
                }
                break ;
            }
            let ghost prev = self.data@;
            let t: usize = self.data[i];
            self.data[i] = self.data[c];
            self.data[c] = t;
            proof {
                lemma_swapped_multiset(prev, i as int, c as int);
                assert(self.data@ =~= swapped(prev, i as int, c as int));
                assert forall|j: int| 0 < j < n && (j - 1) / 2 != c implies self.data[(j - 1) / 2]
                    <= #[trigger] self.data[j] by {
                    if (j - 1) / 2 == i {
                        assert(j == l || j == r);
                    }
                }
            }
            i = c;
        }
        proof {
            assert forall|j: int| 0 < j < n implies self.data[(j - 1) / 2] <= #[trigger] self.data[j] by {
                if (j - 1) / 2 == i {
                    assert(j >= 2 * i + 1);
                }
            }
        }
        Some(min)
    }
}

} // verus!
