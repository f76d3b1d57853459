//! Subset sum: the selections of entries, by index, that sum to a target.

use vstd::prelude::*;
use crate::sequences::{lemma_concat_contains, lemma_rows_push, rows};

verus! {

/// The selections found from index `idx` on, when the entries chosen so far
/// are `curr` with sum `sum`: a selection whose sum has run past the target
/// is dropped; where no entry is left, the selection is emitted if its sum
/// is the target; otherwise the entry at `idx` is first left out and then
/// taken.
pub open spec fn selections_from(
    nums: Seq<i32>,
    idx: nat,
    curr: Seq<i32>,
    sum: int,
    target: int,
) -> Seq<Seq<i32>>
    decreases nums.len() - idx,
{
    if sum > target {
        Seq::empty()
    } else if idx >= nums.len() {
        if sum == target {
            seq![curr]
        } else {
            Seq::empty()
        }
    } else {
        selections_from(nums, idx + 1, curr, sum, target) + selections_from(
            nums,
            idx + 1,
            curr.push(nums[idx as int]),
            sum + nums[idx as int],
            target,
        )
    }
}

/// The sum of the entries.
pub open spec fn total(vals: Seq<i32>) -> int
    decreases vals.len(),
{
    if vals.len() == 0 {
        0
    } else {
        vals[0] + total(vals.skip(1))
    }
}

/// Indices of entries from `lo` on, in ascending order.
pub open spec fn is_index_run(picks: Seq<int>, lo: int, len: int) -> bool {
    &&& forall|k: int| 0 <= k < picks.len() ==> lo <= #[trigger] picks[k] < len
    &&& forall|j: int, k: int| 0 <= j < k < picks.len() ==> picks[j] < picks[k]
}

/// The entries at the given indices.
pub open spec fn picked(nums: Seq<i32>, picks: Seq<int>) -> Seq<i32> {
    Seq::new(picks.len(), |k: int| nums[picks[k]])
}

/// From `start`, the entries sum to the target, and the running sum is
/// never above it.
pub open spec fn reaches(start: int, vals: Seq<i32>, target: int) -> bool {
    &&& start + total(vals) == target
    &&& forall|j: int| 0 <= j <= vals.len() ==> start + total(#[trigger] vals.take(j)) <= target
}

/// `r` continues `curr` by the entries at some indices from `idx` on, in
/// ascending order, which sum from `sum` to the target with a running sum
/// that is never above it.
pub open spec fn is_found(
    nums: Seq<i32>,
    idx: int,
    curr: Seq<i32>,
    sum: int,
    target: int,
    r: Seq<i32>,
) -> bool {
    exists|picks: Seq<int>| #[trigger]
        is_index_run(picks, idx, nums.len() as int) && r == curr + picked(nums, picks) && reaches(
            sum,
            picked(nums, picks),
            target,
        )
}

proof fn lemma_reaches_push(start: int, x: i32, vals: Seq<i32>, target: int)
    ensures
        reaches(start, seq![x] + vals, target) <==> start <= target && reaches(
            start + x,
            vals,
            target,
        ),
{
    let all = seq![x] + vals;
    assert(all.skip(1) =~= vals);
    assert(all.take(0) =~= Seq::empty());
    if reaches(start, all, target) {
        assert(start + total(all.take(0)) <= target);
        assert forall|j: int| 0 <= j <= vals.len() implies start + x + total(
            #[trigger] vals.take(j),
        ) <= target by {
            assert(all.take(j + 1).skip(1) =~= vals.take(j));
            assert(start + total(all.take(j + 1)) <= target);
        }
    }
    if start <= target && reaches(start + x, vals, target) {
        assert forall|j: int| 0 <= j <= all.len() implies start + total(#[trigger] all.take(j))
            <= target by {
            if j > 0 {
                assert(all.take(j).skip(1) =~= vals.take(j - 1));
                assert(start + x + total(vals.take(j - 1)) <= target);
            }
        }
    }
}

/// The selections that the search finds are exactly those that continue
/// what is chosen by entries that sum to the target with a running sum that
/// is never above it.
#[verifier::rlimit(40)]
pub proof fn lemma_selections_from(
    nums: Seq<i32>,
    idx: nat,
    curr: Seq<i32>,
    sum: int,
    target: int,
    r: Seq<i32>,
)
    requires
        idx <= nums.len(),
    ensures
        selections_from(nums, idx, curr, sum, target).contains(r) <==> is_found(
            nums,
            idx as int,
            curr,
            sum,
            target,
            r,
        ),
    decreases nums.len() - idx,
{
    let list = selections_from(nums, idx, curr, sum, target);
    let len = nums.len() as int;
    if sum > target {
        if is_found(nums, idx as int, curr, sum, target, r) {
            let picks = choose|picks: Seq<int>| #[trigger]
                is_index_run(picks, idx as int, len) && r == curr + picked(nums, picks) && reaches(
                    sum,
                    picked(nums, picks),
                    target,
                );
            let vals = picked(nums, picks);
            assert(vals.take(0) =~= Seq::empty());
            assert(sum + total(vals.take(0)) <= target);
        }
    } else if idx >= nums.len() {
        let none = Seq::<int>::empty();
        assert(picked(nums, none) =~= Seq::empty());
        assert(curr + picked(nums, none) =~= curr);
        if sum == target {
            assert(list[0] == curr);
            assert(reaches(sum, picked(nums, none), target)) by {
                assert forall|j: int| 0 <= j <= 0 implies sum + total(
                    #[trigger] picked(nums, none).take(j),
                ) <= target by {
                    assert(picked(nums, none).take(j) =~= Seq::empty());
                }
            }
            assert(is_index_run(none, idx as int, len));
        }
        if is_found(nums, idx as int, curr, sum, target, r) {
            let picks = choose|picks: Seq<int>| #[trigger]
                is_index_run(picks, idx as int, len) && r == curr + picked(nums, picks) && reaches(
                    sum,
                    picked(nums, picks),
                    target,
                );
            if picks.len() > 0 {
                assert(idx <= picks[0] < len);
            }
            assert(picked(nums, picks) =~= Seq::empty());
            assert(curr + picked(nums, picks) =~= curr);
        }
    } else {
        let x = nums[idx as int];
        let without = selections_from(nums, idx + 1, curr, sum, target);
        let with = selections_from(nums, idx + 1, curr.push(x), sum + x, target);
        lemma_concat_contains(without, with, r);
        lemma_selections_from(nums, idx + 1, curr, sum, target, r);
        lemma_selections_from(nums, idx + 1, curr.push(x), sum + x, target, r);
        if is_found(nums, idx as int + 1, curr, sum, target, r) {
            let picks = choose|picks: Seq<int>| #[trigger]
                is_index_run(picks, idx as int + 1, len) && r == curr + picked(nums, picks) && reaches(
                    sum,
                    picked(nums, picks),
                    target,
                );
            assert(is_index_run(picks, idx as int, len));
        }
        if is_found(nums, idx as int + 1, curr.push(x), sum + x, target, r) {
            let rest = choose|picks: Seq<int>| #[trigger]
                is_index_run(picks, idx as int + 1, len) && r == curr.push(x) + picked(nums, picks)
                    && reaches(sum + x, picked(nums, picks), target);
            let picks = seq![idx as int] + rest;
            assert(is_index_run(picks, idx as int, len)) by {
                assert forall|j: int, k: int| 0 <= j < k < picks.len() implies picks[j]
                    < picks[k] by {
                    if j > 0 {
                        assert(rest[j - 1] < rest[k - 1]);
                    } else {
                        assert(idx + 1 <= rest[k - 1]);
                    }
                }
            }
            assert(picked(nums, picks) =~= seq![x] + picked(nums, rest));
            assert(curr + picked(nums, picks) =~= curr.push(x) + picked(nums, rest));
            lemma_reaches_push(sum, x, picked(nums, rest), target);
        }
        if is_found(nums, idx as int, curr, sum, target, r) {
            let picks = choose|picks: Seq<int>| #[trigger]
                is_index_run(picks, idx as int, len) && r == curr + picked(nums, picks) && reaches(
                    sum,
                    picked(nums, picks),
                    target,
                );
            let vals = picked(nums, picks);
            if picks.len() > 0 && picks[0] == idx {
                let rest = picks.skip(1);
                assert(is_index_run(rest, idx as int + 1, len)) by {
                    assert forall|k: int| 0 <= k < rest.len() implies idx as int + 1 <= #[trigger] rest[k]
                        < len by {
                        assert(picks[0] < picks[k + 1]);
                    }
                    assert forall|j: int, k: int| 0 <= j < k < rest.len() implies rest[j]
                        < rest[k] by {
                        assert(picks[j + 1] < picks[k + 1]);
                    }
                }
                assert(vals =~= seq![x] + picked(nums, rest));
                assert(curr + vals =~= curr.push(x) + picked(nums, rest));
                lemma_reaches_push(sum, x, picked(nums, rest), target);
                assert(is_found(nums, idx as int + 1, curr.push(x), sum + x, target, r));
            } else {
                assert(is_index_run(picks, idx as int + 1, len)) by {
                    assert forall|k: int| 0 <= k < picks.len() implies idx as int + 1 <= #[trigger] picks[k]
                        < len by {
                        if k > 0 {
                            assert(picks[0] < picks[k]);
                        }
                    }
                }
                assert(is_found(nums, idx as int + 1, curr, sum, target, r));
            }
        }
    }
}

/// The search finds exactly the selections of entries, in the order of
/// their indices, that sum to the target with a running sum that is never
/// above it.
pub proof fn lemma_selections_found(nums: Seq<i32>, target: int, r: Seq<i32>)
    ensures
        selections_from(nums, 0, Seq::empty(), 0, target).contains(r) <==> is_found(
            nums,
            0,
            Seq::empty(),
            0,
            target,
            r,
        ),
{
    lemma_selections_from(nums, 0, Seq::empty(), 0, target, r);
}

fn helper(
    idx: usize,
    nums: &[i32],
    curr: &mut Vec<i32>,
    sum: i128,
    target: i32,
    out: &mut Vec<Vec<i32>>,
)
    requires
        idx <= nums.len(),
        -(idx * 0x8000_0000) <= sum,
        sum < 0x8000_0000 + 0x8000_0000,
    ensures
        final(curr)@ == old(curr)@,
        rows(final(out)@) == rows(old(out)@) + selections_from(
            nums@,
            idx as nat,
            old(curr)@,
            sum as int,
            target as int,
        ),
    decreases nums.len() - idx,
{
    if sum > target as i128 {
        assert(rows(out@) + Seq::<Seq<i32>>::empty() =~= rows(out@));
        return ;
    }
    if idx == nums.len() {
        if sum == target as i128 {
            proof {
                lemma_rows_push(out@, *curr);
            }
            out.push(curr.clone());
        } else {
            assert(rows(out@) + Seq::<Seq<i32>>::empty() =~= rows(out@));
        }
        return ;
    }
    let ghost before = rows(out@);
    let ghost c = curr@;
    // exclude
    helper(idx + 1, nums, curr, sum, target, out);
    // include
    curr.push(nums[idx]);
    helper(idx + 1, nums, curr, sum + nums[idx] as i128, target, out);
    curr.pop();
    proof {
        assert(curr@ =~= c);
        let without = selections_from(nums@, (idx + 1) as nat, c, sum as int, target as int);
        let with = selections_from(
            nums@,
            (idx + 1) as nat,
            c.push(nums[idx as int]),
            sum + nums[idx as int],
            target as int,
        );
        assert((before + without) + with =~= before + (without + with));
    }
}

/// Return every selection of entries of `nums`, each in index order, whose
/// values sum to `target`, in the order of the include/exclude search: at
/// every index the selections without its entry come first. A selection
/// whose running sum has been above the target is left out.
pub fn subset_sum(nums: &[i32], target: i32) -> (res: Vec<Vec<i32>>)
    ensures
        rows(res@) == selections_from(nums@, 0, Seq::empty(), 0, target as int),
        forall|r: Seq<i32>| #[trigger]
            rows(res@).contains(r) <==> is_found(nums@, 0, Seq::empty(), 0, target as int, r),
{
    proof {
        assert forall|r: Seq<i32>| #[trigger]
            selections_from(nums@, 0, Seq::empty(), 0, target as int).contains(r) <==> is_found(
                nums@,
                0,
                Seq::empty(),
                0,
                target as int,
                r,
            ) by {
            lemma_selections_found(nums@, target as int, r);
        }
    }
    let mut res: Vec<Vec<i32>> = Vec::new();
    let mut curr: Vec<i32> = Vec::new();
    assert(rows(res@) =~= Seq::empty());
    helper(0, nums, &mut curr, 0, target, &mut res);
    assert(Seq::<Seq<i32>>::empty() + selections_from(nums@, 0, Seq::empty(), 0, target as int)
        =~= selections_from(nums@, 0, Seq::empty(), 0, target as int));
    res
}

} // verus!
