//! The n-queens problem: all placements of n queens on an n x n board, one
//! per row, such that no two attack each other.

use vstd::prelude::*;
use crate::sequences::{filled, lemma_concat_contains, lemma_rows_push, rows};

verus! {

/// Queens on (r1, c1) and (r2, c2) share a column or a diagonal.
pub open spec fn attacks(r1: int, c1: int, r2: int, c2: int) -> bool {
    c1 == c2 || r1 + c1 == r2 + c2 || r1 - c1 == r2 - c2
}

/// A queen in column `c` of the next row is attacked by none of the queens
/// placed so far, `sol[r]` being the column of the queen in row `r`.
pub open spec fn safe(sol: Seq<usize>, c: int) -> bool {
    forall|r: int| 0 <= r < sol.len() ==> !attacks(r, #[trigger] sol[r] as int, sol.len() as int, c)
}

/// The solutions that extend the placement `sol`, the columns of each row
/// tried in ascending order.
pub open spec fn queens_from(n: nat, sol: Seq<usize>) -> Seq<Seq<usize>>
    decreases n - sol.len(), 1int, 0int,
{
    if sol.len() >= n {
        seq![sol]
    } else {
        try_columns(n, sol, 0)
    }
}

/// The solutions that extend `sol` by a queen in one of the columns
/// `c`, ..., `n - 1` of the next row.
pub open spec fn try_columns(n: nat, sol: Seq<usize>, c: nat) -> Seq<Seq<usize>>
    decreases n - sol.len(), 0int, n - c,
{
    if sol.len() >= n || c >= n {
        Seq::empty()
    } else {
        let with_c = if safe(sol, c as int) {
            queens_from(n, sol.push(c as usize))
        } else {
            Seq::empty()
        };
        with_c + try_columns(n, sol, c + 1)
    }
}

/// A placement of queens in the first rows of the board, one per row, in
/// which no two attack each other.
pub open spec fn is_placement(sol: Seq<usize>, n: nat) -> bool {
    &&& sol.len() <= n
    &&& forall|r: int| 0 <= r < sol.len() ==> (#[trigger] sol[r]) < n
    &&& forall|r1: int, r2: int|
        0 <= r1 < r2 < sol.len() ==> !attacks(
            r1,
            #[trigger] sol[r1] as int,
            r2,
            #[trigger] sol[r2] as int,
        )
}

/// A placement of n queens in which no two attack each other.
pub open spec fn is_solution(sol: Seq<usize>, n: nat) -> bool {
    is_placement(sol, n) && sol.len() == n
}

/// Some queen of `sol` stands in column `c`.
pub open spec fn column_taken(sol: Seq<usize>, c: int) -> bool {
    exists|r: int| 0 <= r < sol.len() && #[trigger] sol[r] == c
}

/// Some queen of `sol` stands on the diagonal on which row and column sum
/// to `d`.
pub open spec fn diagonal_taken(sol: Seq<usize>, d: int) -> bool {
    exists|r: int| 0 <= r < sol.len() && r + #[trigger] sol[r] == d
}

/// Some queen of `sol` stands on the diagonal on which row minus column,
/// shifted by `n - 1`, is `d`.
pub open spec fn antidiagonal_taken(sol: Seq<usize>, n: int, d: int) -> bool {
    exists|r: int| 0 <= r < sol.len() && r + n - #[trigger] sol[r] - 1 == d
}

/// The three occupancy tables say which columns and diagonals the queens of
/// `sol` hold.
pub open spec fn tracks(
    cols: Seq<bool>,
    d1: Seq<bool>,
    d2: Seq<bool>,
    sol: Seq<usize>,
    n: int,
) -> bool {
    &&& cols.len() == n
    &&& d1.len() == 2 * n
    &&& d2.len() == 2 * n
    &&& sol.len() <= n
    &&& forall|r: int| 0 <= r < sol.len() ==> (#[trigger] sol[r]) < n
    &&& forall|c: int| 0 <= c < n ==> (#[trigger] cols[c] <==> column_taken(sol, c))
    &&& forall|d: int| 0 <= d < 2 * n ==> (#[trigger] d1[d] <==> diagonal_taken(sol, d))
    &&& forall|d: int| 0 <= d < 2 * n ==> (#[trigger] d2[d] <==> antidiagonal_taken(sol, n, d))
}

proof fn lemma_safe_iff(sol: Seq<usize>, n: int, c: int)
    requires
        0 <= c < n,
        sol.len() < n,
        forall|r: int| 0 <= r < sol.len() ==> (#[trigger] sol[r]) < n,
    ensures
        safe(sol, c) <==> !column_taken(sol, c) && !diagonal_taken(sol, sol.len() + c)
            && !antidiagonal_taken(sol, n, sol.len() + n - c - 1),
{
    let row = sol.len() as int;
    if safe(sol, c) {
        if column_taken(sol, c) {
            let r = choose|r: int| 0 <= r < sol.len() && #[trigger] sol[r] == c;
            assert(attacks(r, sol[r] as int, row, c));
        }
        if diagonal_taken(sol, row + c) {
            let r = choose|r: int| 0 <= r < sol.len() && r + #[trigger] sol[r] == row + c;
            assert(attacks(r, sol[r] as int, row, c));
        }
        if antidiagonal_taken(sol, n, row + n - c - 1) {
            let r = choose|r: int|
                0 <= r < sol.len() && r + n - #[trigger] sol[r] - 1 == row + n - c - 1;
            assert(attacks(r, sol[r] as int, row, c));
        }
    } else {
        let r = choose|r: int|
            0 <= r < sol.len() && attacks(r, #[trigger] sol[r] as int, sol.len() as int, c);
        assert(0 <= r < sol.len() && sol[r] == sol[r]);
    }
}

proof fn lemma_push_taken(sol: Seq<usize>, n: int, c: usize)
    ensures
        forall|x: int| #[trigger]
            column_taken(sol.push(c), x) <==> column_taken(sol, x) || x == c,
        forall|d: int| #[trigger]
            diagonal_taken(sol.push(c), d) <==> diagonal_taken(sol, d) || d == sol.len() + c,
        forall|d: int| #[trigger]
            antidiagonal_taken(sol.push(c), n, d) <==> antidiagonal_taken(sol, n, d) || d
                == sol.len() + n - c - 1,
{
    let t = sol.push(c);
    let row = sol.len() as int;
    assert(t[row] == c);
    assert forall|x: int| #[trigger]
        column_taken(t, x) <==> column_taken(sol, x) || x == c by {
        if column_taken(t, x) {
            let r = choose|r: int| 0 <= r < t.len() && #[trigger] t[r] == x;
            if r < row {
                assert(sol[r] == x);
            }
        }
        if column_taken(sol, x) {
            let r = choose|r: int| 0 <= r < sol.len() && #[trigger] sol[r] == x;
            assert(t[r] == x);
        }
    }
    assert forall|d: int| #[trigger]
        diagonal_taken(t, d) <==> diagonal_taken(sol, d) || d == row + c by {
        if diagonal_taken(t, d) {
            let r = choose|r: int| 0 <= r < t.len() && r + #[trigger] t[r] == d;
            if r < row {
                assert(r + sol[r] == d);
            }
        }
        if diagonal_taken(sol, d) {
            let r = choose|r: int| 0 <= r < sol.len() && r + #[trigger] sol[r] == d;
            assert(r + t[r] == d);
        }
    }
    assert forall|d: int| #[trigger]
        antidiagonal_taken(t, n, d) <==> antidiagonal_taken(sol, n, d) || d == row + n - c
            - 1 by {
        if antidiagonal_taken(t, n, d) {
            let r = choose|r: int| 0 <= r < t.len() && r + n - #[trigger] t[r] - 1 == d;
            if r < row {
                assert(r + n - sol[r] - 1 == d);
            }
        }
        if antidiagonal_taken(sol, n, d) {
            let r = choose|r: int| 0 <= r < sol.len() && r + n - #[trigger] sol[r] - 1 == d;
            assert(r + n - t[r] - 1 == d);
        }
    }
}

/// The search from a placement finds exactly the solutions that extend it.
pub proof fn lemma_queens_from(n: nat, sol: Seq<usize>, s: Seq<usize>)
    requires
        n <= usize::MAX,
        is_placement(sol, n),
    ensures
        queens_from(n, sol).contains(s) <==> is_solution(s, n) && sol.is_prefix_of(s),
    decreases n - sol.len(), 1int, 0int,
{
    if sol.len() >= n {
        let list = queens_from(n, sol);
        assert(list[0] == sol);
        if is_solution(s, n) && sol.is_prefix_of(s) {
            assert(s =~= sol);
        }
    } else {
        lemma_try_columns(n, sol, 0, s);
    }
}

/// The search from a placement, from column `c` of the next row on, finds
/// exactly the solutions that extend it with a queen in one of those
/// columns.
#[verifier::rlimit(40)]
pub proof fn lemma_try_columns(n: nat, sol: Seq<usize>, c: nat, s: Seq<usize>)
    requires
        n <= usize::MAX,
        is_placement(sol, n),
        sol.len() < n,
    ensures
        try_columns(n, sol, c).contains(s) <==> is_solution(s, n) && sol.is_prefix_of(s) && s[sol.len() as int]
            >= c,
    decreases n - sol.len(), 0int, n - c,
{
    let row = sol.len() as int;
    if c < n {
        let next = sol.push(c as usize);
        let with_c = if safe(sol, c as int) {
            queens_from(n, next)
        } else {
            Seq::empty()
        };
        let rest = try_columns(n, sol, c + 1);
        lemma_concat_contains(with_c, rest, s);
        lemma_try_columns(n, sol, c + 1, s);
        if safe(sol, c as int) {
            assert(is_placement(next, n)) by {
                assert forall|r1: int, r2: int| 0 <= r1 < r2 < next.len() implies !attacks(
                    r1,
                    #[trigger] next[r1] as int,
                    r2,
                    #[trigger] next[r2] as int,
                ) by {
                    if r2 < row {
                        assert(!attacks(r1, sol[r1] as int, r2, sol[r2] as int));
                    } else {
                        assert(!attacks(r1, sol[r1] as int, row, c as int));
                    }
                }
            }
            lemma_queens_from(n, next, s);
        }
        if is_solution(s, n) && sol.is_prefix_of(s) && s[row] == c {
            assert(safe(sol, c as int)) by {
                assert forall|r: int| 0 <= r < sol.len() implies !attacks(
                    r,
                    #[trigger] sol[r] as int,
                    row,
                    c as int,
                ) by {
                    assert(sol[r] == s[r]);
                    assert(!attacks(r, s[r] as int, row, s[row] as int));
                }
            }
            assert(next.is_prefix_of(s)) by {
                assert(next =~= s.subrange(0, next.len() as int));
            }
        }
        if next.is_prefix_of(s) {
            assert(s[row] == next[row]);
            assert(sol.is_prefix_of(s)) by {
                assert(sol =~= s.subrange(0, sol.len() as int));
            }
        }
    } else {
        if is_solution(s, n) {
            assert(s[row] < n);
        }
    }
}

/// No solution is found twice from a placement.
pub proof fn lemma_queens_distinct(n: nat, sol: Seq<usize>)
    requires
        n <= usize::MAX,
        is_placement(sol, n),
    ensures
        queens_from(n, sol).no_duplicates(),
    decreases n - sol.len(), 1int, 0int,
{
    if sol.len() < n {
        lemma_columns_distinct(n, sol, 0);
    }
}

/// No solution is found twice with the next queen in one of the columns
/// from `c` on: solutions with that queen in different columns differ.
pub proof fn lemma_columns_distinct(n: nat, sol: Seq<usize>, c: nat)
    requires
        n <= usize::MAX,
        is_placement(sol, n),
        sol.len() < n,
    ensures
        try_columns(n, sol, c).no_duplicates(),
    decreases n - sol.len(), 0int, n - c,
{
    let row = sol.len() as int;
    if c < n {
        let next = sol.push(c as usize);
        let with_c = if safe(sol, c as int) {
            queens_from(n, next)
        } else {
            Seq::empty()
        };
        let rest = try_columns(n, sol, c + 1);
        lemma_columns_distinct(n, sol, c + 1);
        if safe(sol, c as int) {
            assert(is_placement(next, n)) by {
                assert forall|r1: int, r2: int| 0 <= r1 < r2 < next.len() implies !attacks(
                    r1,
                    #[trigger] next[r1] as int,
                    r2,
                    #[trigger] next[r2] as int,
                ) by {
                    if r2 < row {
                        assert(!attacks(r1, sol[r1] as int, r2, sol[r2] as int));
                    } else {
                        assert(!attacks(r1, sol[r1] as int, row, c as int));
                    }
                }
            }
            lemma_queens_distinct(n, next);
        }
        assert forall|a: int, b: int| 0 <= a < with_c.len() && 0 <= b < rest.len() implies with_c[a]
            != rest[b] by {
            let s = with_c[a];
            if s == rest[b] {
                assert(with_c.contains(s));
                assert(rest.contains(s));
                lemma_queens_from(n, next, s);
                lemma_try_columns(n, sol, c + 1, s);
                assert(s[row] == next[row]);
            }
        }
        vstd::seq_lib::lemma_no_dup_in_concat(with_c, rest);
    }
}

/// The search finds exactly the solutions: the placements of n queens, one
/// per row, in which no two attack each other.
pub proof fn lemma_queens_are_solutions(n: nat, s: Seq<usize>)
    requires
        n <= usize::MAX,
    ensures
        queens_from(n, Seq::empty()).contains(s) <==> is_solution(s, n),
{
    lemma_queens_from(n, Seq::empty(), s);
    assert(Seq::<usize>::empty().is_prefix_of(s)) by {
        assert(Seq::<usize>::empty() =~= s.subrange(0, 0));
    }
}

#[verifier::rlimit(40)]
fn backtrack(
    row: usize,
    n: usize,
    cols: &mut Vec<bool>,
    d1: &mut Vec<bool>,
    d2: &mut Vec<bool>,
    sol: &mut Vec<usize>,
    out: &mut Vec<Vec<usize>>,
)
    requires
        row == old(sol).len(),
        2 * n <= usize::MAX,
        tracks(old(cols)@, old(d1)@, old(d2)@, old(sol)@, n as int),
    ensures
        final(cols)@ == old(cols)@,
        final(d1)@ == old(d1)@,
        final(d2)@ == old(d2)@,
        final(sol)@ == old(sol)@,
        rows(final(out)@) == rows(old(out)@) + queens_from(n as nat, old(sol)@),
    decreases n - row, 1int,
{
    if row == n {
        proof {
            lemma_rows_push(out@, *sol);
        }
        out.push(sol.clone());
        return ;
    }
    let mut c: usize = 0;
    while c < n
        invariant
            c <= n,
            row < n,
            row == sol.len(),
            2 * n <= usize::MAX,
            cols@ == old(cols)@,
            d1@ == old(d1)@,
            d2@ == old(d2)@,
            sol@ == old(sol)@,
            tracks(cols@, d1@, d2@, sol@, n as int),
            rows(out@) + try_columns(n as nat, sol@, c as nat) == rows(old(out)@) + try_columns(
                n as nat,
                sol@,
                0,
            ),
        decreases n - c,
    {
        let ghost before = rows(out@);
        let ghost s = sol@;
        let free: bool = !cols[c] && !d1[row + c] && !d2[row + n - c - 1];
        proof {
            lemma_safe_iff(s, n as int, c as int);
        }
        if free {
            cols[c] = true;
            d1[row + c] = true;
            d2[row + n - c - 1] = true;
            sol.push(c);
            proof {
                lemma_push_taken(s, n as int, c);
            }

            backtrack(row + 1, n, cols, d1, d2, sol, out);

            sol.pop();
            cols[c] = false;
            d1[row + c] = false;
            d2[row + n - c - 1] = false;
            proof {
                assert(sol@ =~= s);
                assert(cols@ =~= old(cols)@);
                assert(d1@ =~= old(d1)@);
                assert(d2@ =~= old(d2)@);
            }
        }
        proof {
            let rest = try_columns(n as nat, s, (c + 1) as nat);
            let here = if safe(s, c as int) {
                queens_from(n as nat, s.push(c))
            } else {
                Seq::empty()
            };
            assert(try_columns(n as nat, s, c as nat) == here + rest);
            assert(rows(out@) == before + here);
            assert((before + here) + rest =~= before + (here + rest));
        }
        c += 1;
    }
    assert(try_columns(n as nat, sol@, c as nat) =~= Seq::empty());
    assert(rows(out@) + Seq::<Seq<usize>>::empty() =~= rows(out@));
}

/// Solve n-queens: all solutions, each as the column of the queen of every
/// row, found row by row with the columns tried in ascending order.
pub fn solve_nqueens(n: usize) -> (res: Vec<Vec<usize>>)
    requires
        2 * n <= usize::MAX,
    ensures
        rows(res@) == queens_from(n as nat, Seq::empty()),
        forall|s: Seq<usize>| #[trigger] rows(res@).contains(s) <==> is_solution(s, n as nat),
        rows(res@).no_duplicates(),
{
    proof {
        assert(is_placement(Seq::<usize>::empty(), n as nat));
        lemma_queens_distinct(n as nat, Seq::empty());
        assert forall|s: Seq<usize>| #[trigger]
            queens_from(n as nat, Seq::empty()).contains(s) <==> is_solution(s, n as nat) by {
            lemma_queens_are_solutions(n as nat, s);
        }
    }
    let mut res: Vec<Vec<usize>> = Vec::new();
    let mut cols: Vec<bool> = filled(false, n);
    let mut d1: Vec<bool> = filled(false, 2 * n);
    let mut d2: Vec<bool> = filled(false, 2 * n);
    let mut sol: Vec<usize> = Vec::new();
    assert(rows(res@) =~= Seq::empty());
    backtrack(0, n, &mut cols, &mut d1, &mut d2, &mut sol, &mut res);
    assert(Seq::<Seq<usize>>::empty() + queens_from(n as nat, Seq::empty()) =~= queens_from(
        n as nat,
        Seq::empty(),
    ));
    res
}

} // verus!
