//! Generation of the standard Young tableaux of a shape.

use vstd::prelude::*;
use crate::sequences::{clone_rows, filled, lemma_concat_contains, lemma_tables_push, rows, tables};

verus! {

/// The number of cells of a shape given by its row lengths.
pub open spec fn cell_count(shape: Seq<usize>) -> nat
    decreases shape.len(),
{
    if shape.len() == 0 {
        0
    } else {
        cell_count(shape.drop_last()) + shape.last() as nat
    }
}

/// The table of the given shape with 0, for "empty", in every cell.
pub open spec fn blank(shape: Seq<usize>) -> Seq<Seq<usize>> {
    Seq::new(shape.len(), |i: int| Seq::new(shape[i] as nat, |j: int| 0usize))
}

/// The value `v` stands in some cell of `t`.
pub open spec fn occurs(t: Seq<Seq<usize>>, v: usize) -> bool {
    exists|i: int, j: int| 0 <= i < t.len() && 0 <= j < t[i].len() && #[trigger] t[i][j] == v
}

/// `t` with `v` written into cell (i, j).
pub open spec fn place(t: Seq<Seq<usize>>, i: int, j: int, v: usize) -> Seq<Seq<usize>> {
    t.update(i, t[i].update(j, v))
}

/// The candidate `v` may go into cell (i, j): it is unused and exceeds the
/// values to the left and above, where there are such cells.
pub open spec fn fits(t: Seq<Seq<usize>>, i: int, j: int, v: usize) -> bool {
    &&& !occurs(t, v)
    &&& j > 0 ==> t[i][j - 1] < v
    &&& i > 0 && j < t[i - 1].len() ==> t[i - 1][j] < v
}

/// The completions of `t` from cell (i, j) on, cells taken in row-major
/// order and the candidates 1, ..., n for a cell in ascending order.
pub open spec fn fill_from(t: Seq<Seq<usize>>, i: int, j: int, n: nat) -> Seq<Seq<Seq<usize>>>
    decreases t.len() - i, t[i].len() - j, 1int, 0int,
{
    if i < 0 || j < 0 || i >= t.len() {
        seq![t]
    } else if j >= t[i].len() {
        fill_from(t, i + 1, 0, n)
    } else {
        try_from(t, i, j, 1, n)
    }
}

/// The completions of `t` that put one of the candidates `v`, ..., `n` into
/// cell (i, j).
pub open spec fn try_from(t: Seq<Seq<usize>>, i: int, j: int, v: nat, n: nat) -> Seq<
    Seq<Seq<usize>>,
>
    decreases t.len() - i, t[i].len() - j, 0int, n + 1 - v,
{
    if i < 0 || j < 0 || i >= t.len() || j >= t[i].len() || v > n {
        Seq::empty()
    } else {
        let with_v = if fits(t, i, j, v as usize) {
            fill_from(place(t, i, j, v as usize), i, j + 1, n)
        } else {
            Seq::empty()
        };
        with_v + try_from(t, i, j, v + 1, n)
    }
}

/// Every cell from (i, j) on, in row-major order, is empty.
pub open spec fn empty_from(t: Seq<Seq<usize>>, i: int, j: int) -> bool {
    forall|a: int, b: int|
        0 <= a < t.len() && 0 <= b < t[a].len() && (a > i || (a == i && b >= j)) ==> #[trigger] t[a][b]
            == 0
}

/// `used` marks exactly the values among 1, ..., n that stand in `t`.
pub open spec fn marks(used: Seq<bool>, t: Seq<Seq<usize>>) -> bool {
    forall|v: usize| 1 <= v <= used.len() ==> (#[trigger] used[v - 1] <==> occurs(t, v))
}

proof fn lemma_place_occurs(t: Seq<Seq<usize>>, i: int, j: int, v: usize, w: usize)
    requires
        0 <= i < t.len(),
        0 <= j < t[i].len(),
        t[i][j] == 0,
        w != 0,
    ensures
        occurs(place(t, i, j, v), w) <==> (occurs(t, w) || w == v),
{
    let u = place(t, i, j, v);
    if occurs(u, w) {
        let (a, b) = choose|a: int, b: int|
            0 <= a < u.len() && 0 <= b < u[a].len() && #[trigger] u[a][b] == w;
        if !(a == i && b == j) {
            assert(t[a][b] == w);
        }
    }
    if occurs(t, w) {
        let (a, b) = choose|a: int, b: int|
            0 <= a < t.len() && 0 <= b < t[a].len() && #[trigger] t[a][b] == w;
        assert(u[a][b] == w);
    }
    if w == v {
        assert(u[i][j] == w);
    }
}

/// The cell (a, b) comes before the cell (i, j) in row-major order.
pub open spec fn comes_before(a: int, b: int, i: int, j: int) -> bool {
    a < i || (a == i && b < j)
}

/// (a, b) is a cell of `t`.
pub open spec fn is_cell(t: Seq<Seq<usize>>, a: int, b: int) -> bool {
    0 <= a < t.len() && 0 <= b < t[a].len()
}

/// The entry of the cell (a, b) is one of 1, ..., n and exceeds the entries
/// to the left and above, where there are such cells.
pub open spec fn cell_fits(t: Seq<Seq<usize>>, a: int, b: int, n: nat) -> bool {
    &&& 1 <= t[a][b] <= n
    &&& b > 0 ==> t[a][b - 1] < t[a][b]
    &&& a > 0 && b < t[a - 1].len() ==> t[a - 1][b] < t[a][b]
}

/// The cells of `t` before (i, j) hold distinct entries among 1, ..., n,
/// which grow along every row and down every column.
pub open spec fn is_standard_upto(t: Seq<Seq<usize>>, i: int, j: int, n: nat) -> bool {
    &&& forall|a: int, b: int|
        is_cell(t, a, b) && comes_before(a, b, i, j) ==> #[trigger] cell_fits(t, a, b, n)
    &&& forall|a: int, b: int, c: int, d: int|
        is_cell(t, a, b) && is_cell(t, c, d) && comes_before(a, b, i, j) && comes_before(c, d, i, j)
            && (a != c || b != d) ==> #[trigger] t[a][b] != #[trigger] t[c][d]
}

/// `t` is a standard filling with entries among 1, ..., n: the entries are
/// distinct and grow along every row and down every column.
pub open spec fn is_standard(t: Seq<Seq<usize>>, n: nat) -> bool {
    is_standard_upto(t, t.len() as int, 0, n)
}

/// `x` has the rows of `t`, as long, and the entries of `t` before (i, j).
pub open spec fn continues(t: Seq<Seq<usize>>, x: Seq<Seq<usize>>, i: int, j: int) -> bool {
    &&& x.len() == t.len()
    &&& forall|a: int| 0 <= a < t.len() ==> (#[trigger] x[a]).len() == t[a].len()
    &&& forall|a: int, b: int|
        is_cell(t, a, b) && comes_before(a, b, i, j) ==> #[trigger] x[a][b] == t[a][b]
}

/// The table has the rows of the shape.
pub open spec fn has_shape(t: Seq<Seq<usize>>, shape: Seq<usize>) -> bool {
    &&& t.len() == shape.len()
    &&& forall|a: int| 0 <= a < t.len() ==> (#[trigger] t[a]).len() == shape[a]
}

/// A candidate fits a cell exactly where the table stays standard with it.
#[verifier::rlimit(40)]
proof fn lemma_fits_standard(t: Seq<Seq<usize>>, i: int, j: int, v: usize, n: nat)
    requires
        is_cell(t, i, j),
        is_standard_upto(t, i, j, n),
        empty_from(t, i, j),
        1 <= v <= n,
    ensures
        fits(t, i, j, v) <==> is_standard_upto(place(t, i, j, v), i, j + 1, n),
        empty_from(place(t, i, j, v), i, j + 1),
{
    let u = place(t, i, j, v);
    assert forall|a: int, b: int| is_cell(t, a, b) && (a != i || b != j) implies u[a][b]
        == t[a][b] by {}
    if fits(t, i, j, v) {
        assert forall|a: int, b: int| is_cell(u, a, b) && comes_before(a, b, i, j + 1) implies #[trigger] cell_fits(
            u,
            a,
            b,
            n,
        ) by {
            if a == i && b == j {
            } else {
                assert(cell_fits(t, a, b, n));
                if b > 0 {
                    assert(u[a][b - 1] == t[a][b - 1]);
                }
                if a > 0 && b < t[a - 1].len() {
                    assert(u[a - 1][b] == t[a - 1][b]);
                }
            }
        }
        assert forall|a: int, b: int, c: int, d: int|
            is_cell(u, a, b) && is_cell(u, c, d) && comes_before(a, b, i, j + 1) && comes_before(
                c,
                d,
                i,
                j + 1,
            ) && (a != c || b != d) implies #[trigger] u[a][b] != #[trigger] u[c][d] by {
            if a == i && b == j {
                assert(t[c][d] != v);
            } else if c == i && d == j {
                assert(t[a][b] != v);
            } else {
                assert(t[a][b] != t[c][d]);
            }
        }
    }
    if is_standard_upto(u, i, j + 1, n) {
        assert(cell_fits(u, i, j, n));
        if j > 0 {
            assert(u[i][j - 1] == t[i][j - 1]);
        }
        if i > 0 && j < t[i - 1].len() {
            assert(u[i - 1][j] == t[i - 1][j]);
        }
        if occurs(t, v) {
            let (a, b) = choose|a: int, b: int|
                0 <= a < t.len() && 0 <= b < t[a].len() && #[trigger] t[a][b] == v;
            if comes_before(a, b, i, j) {
                assert(u[a][b] != u[i][j]);
            } else {
                assert(t[a][b] == 0);
            }
        }
    }
}

/// The fillings found from the cell (i, j) on are exactly the standard
/// fillings that continue the table.
#[verifier::rlimit(40)]
pub proof fn lemma_fill_from(t: Seq<Seq<usize>>, i: int, j: int, n: nat, x: Seq<Seq<usize>>)
    requires
        n <= usize::MAX,
        0 <= i <= t.len(),
        0 <= j,
        i < t.len() ==> j <= t[i].len(),
        is_standard_upto(t, i, j, n),
        empty_from(t, i, j),
    ensures
        fill_from(t, i, j, n).contains(x) <==> continues(t, x, i, j) && is_standard(x, n),
    decreases t.len() - i, t[i].len() - j, 1int, 0int,
{
    let list = fill_from(t, i, j, n);
    if i >= t.len() {
        assert(list[0] == t);
        if continues(t, x, i, j) {
            assert(x =~~= t) by {
                assert forall|a: int| 0 <= a < t.len() implies x[a] =~= t[a] by {
                    assert forall|b: int| 0 <= b < t[a].len() implies x[a][b] == t[a][b] by {
                        assert(is_cell(t, a, b) && comes_before(a, b, i, j));
                    }
                }
            }
        }
        if list.contains(x) {
            assert(x == t);
        }
    } else if j >= t[i].len() {
        lemma_fill_from(t, i + 1, 0, n, x);
        assert(is_standard_upto(t, i + 1, 0, n) == is_standard_upto(t, i, j, n)) by {
            assert forall|a: int, b: int| is_cell(t, a, b) implies (comes_before(a, b, i + 1, 0)
                <==> comes_before(a, b, i, j)) by {}
        }
        assert(continues(t, x, i + 1, 0) <==> continues(t, x, i, j)) by {
            assert forall|a: int, b: int| is_cell(t, a, b) implies (comes_before(a, b, i + 1, 0)
                <==> comes_before(a, b, i, j)) by {}
        }
    } else {
        lemma_try_from(t, i, j, 1, n, x);
        if continues(t, x, i, j) && is_standard(x, n) {
            assert(is_cell(x, i, j));
            assert(cell_fits(x, i, j, n));
        }
    }
}

/// The fillings found with one of the candidates `v`, ..., `n` in the cell
/// (i, j) are exactly the standard fillings that continue the table with
/// such an entry there.
#[verifier::rlimit(40)]
pub proof fn lemma_try_from(t: Seq<Seq<usize>>, i: int, j: int, v: nat, n: nat, x: Seq<Seq<usize>>)
    requires
        n <= usize::MAX,
        is_cell(t, i, j),
        1 <= v,
        is_standard_upto(t, i, j, n),
        empty_from(t, i, j),
    ensures
        try_from(t, i, j, v, n).contains(x) <==> continues(t, x, i, j) && is_standard(x, n) && x[i][j]
            >= v,
    decreases t.len() - i, t[i].len() - j, 0int, n + 1 - v,
{
    if v > n {
        if continues(t, x, i, j) && is_standard(x, n) {
            assert(is_cell(x, i, j));
            assert(cell_fits(x, i, j, n));
        }
    } else {
        let u = place(t, i, j, v as usize);
        let with_v = if fits(t, i, j, v as usize) {
            fill_from(u, i, j + 1, n)
        } else {
            Seq::empty()
        };
        let rest = try_from(t, i, j, v + 1, n);
        lemma_concat_contains(with_v, rest, x);
        lemma_try_from(t, i, j, v + 1, n, x);
        lemma_fits_standard(t, i, j, v as usize, n);
        if fits(t, i, j, v as usize) {
            lemma_fill_from(u, i, j + 1, n, x);
        }
        // a standard filling that continues the table with v continues the table with v placed
        if continues(t, x, i, j) && is_standard(x, n) && x[i][j] == v {
            assert(continues(u, x, i, j + 1)) by {
                assert forall|a: int, b: int|
                    is_cell(u, a, b) && comes_before(a, b, i, j + 1) implies #[trigger] x[a][b]
                    == u[a][b] by {
                    if !(a == i && b == j) {
                        assert(is_cell(t, a, b) && comes_before(a, b, i, j));
                    }
                }
            }
            assert(is_standard_upto(u, i, j + 1, n)) by {
                assert forall|a: int, b: int|
                    is_cell(u, a, b) && comes_before(a, b, i, j + 1) implies #[trigger] cell_fits(
                    u,
                    a,
                    b,
                    n,
                ) by {
                    assert(is_cell(x, a, b));
                    assert(cell_fits(x, a, b, n));
                    assert(x[a][b] == u[a][b]);
                    if b > 0 {
                        assert(is_cell(u, a, b - 1) && comes_before(a, b - 1, i, j + 1));
                        assert(x[a][b - 1] == u[a][b - 1]);
                    }
                    if a > 0 && b < u[a - 1].len() {
                        assert(is_cell(u, a - 1, b) && comes_before(a - 1, b, i, j + 1));
                        assert(x[a - 1][b] == u[a - 1][b]);
                    }
                }
                assert forall|a: int, b: int, c: int, d: int|
                    is_cell(u, a, b) && is_cell(u, c, d) && comes_before(a, b, i, j + 1)
                        && comes_before(c, d, i, j + 1) && (a != c || b != d) implies #[trigger] u[a][b]
                    != #[trigger] u[c][d] by {
                    assert(is_cell(x, a, b) && is_cell(x, c, d));
                    assert(x[a][b] == u[a][b]);
                    assert(x[c][d] == u[c][d]);
                    assert(x[a][b] != x[c][d]);
                }
            }
        }
        if continues(u, x, i, j + 1) {
            assert(x[i][j] == u[i][j]);
            assert(continues(t, x, i, j)) by {
                assert forall|a: int, b: int|
                    is_cell(t, a, b) && comes_before(a, b, i, j) implies #[trigger] x[a][b]
                    == t[a][b] by {
                    assert(is_cell(u, a, b) && comes_before(a, b, i, j + 1));
                    assert(x[a][b] == u[a][b]);
                }
                assert forall|a: int| 0 <= a < t.len() implies (#[trigger] x[a]).len()
                    == t[a].len() by {
                    assert(x[a].len() == u[a].len());
                }
            }
        }
    }
}

/// No filling is found twice from the cell (i, j) on.
pub proof fn lemma_fill_distinct(t: Seq<Seq<usize>>, i: int, j: int, n: nat)
    requires
        n <= usize::MAX,
        0 <= i <= t.len(),
        0 <= j,
        i < t.len() ==> j <= t[i].len(),
        is_standard_upto(t, i, j, n),
        empty_from(t, i, j),
    ensures
        fill_from(t, i, j, n).no_duplicates(),
    decreases t.len() - i, t[i].len() - j, 1int, 0int,
{
    if i >= t.len() {
    } else if j >= t[i].len() {
        assert(is_standard_upto(t, i + 1, 0, n) == is_standard_upto(t, i, j, n)) by {
            assert forall|a: int, b: int| is_cell(t, a, b) implies (comes_before(a, b, i + 1, 0)
                <==> comes_before(a, b, i, j)) by {}
        }
        lemma_fill_distinct(t, i + 1, 0, n);
    } else {
        lemma_try_distinct(t, i, j, 1, n);
    }
}

/// No filling is found twice with the candidates `v`, ..., `n` for the
/// cell (i, j): fillings with different entries there differ.
#[verifier::rlimit(40)]
pub proof fn lemma_try_distinct(t: Seq<Seq<usize>>, i: int, j: int, v: nat, n: nat)
    requires
        n <= usize::MAX,
        is_cell(t, i, j),
        1 <= v,
        is_standard_upto(t, i, j, n),
        empty_from(t, i, j),
    ensures
        try_from(t, i, j, v, n).no_duplicates(),
    decreases t.len() - i, t[i].len() - j, 0int, n + 1 - v,
{
    if v <= n {
        let u = place(t, i, j, v as usize);
        let with_v = if fits(t, i, j, v as usize) {
            fill_from(u, i, j + 1, n)
        } else {
            Seq::empty()
        };
        let rest = try_from(t, i, j, v + 1, n);
        lemma_try_distinct(t, i, j, v + 1, n);
        lemma_fits_standard(t, i, j, v as usize, n);
        if fits(t, i, j, v as usize) {
            lemma_fill_distinct(u, i, j + 1, n);
        }
        assert forall|s: int, w: int| 0 <= s < with_v.len() && 0 <= w < rest.len() implies with_v[s]
            != rest[w] by {
            let x = with_v[s];
            if x == rest[w] {
                assert(with_v.contains(x));
                assert(rest.contains(x));
                lemma_fill_from(u, i, j + 1, n, x);
                lemma_try_from(t, i, j, v + 1, n, x);
                assert(is_cell(u, i, j) && comes_before(i, j, i, j + 1));
                assert(x[i][j] == u[i][j]);
            }
        }
        vstd::seq_lib::lemma_no_dup_in_concat(with_v, rest);
    }
}

/// The fillings that are generated for a shape are exactly its standard
/// Young tableaux: the fillings of the shape with distinct entries among
/// 1, ..., n, for n cells, which grow along every row and down every column.
pub proof fn lemma_tableaux_are_standard(shape: Seq<usize>, x: Seq<Seq<usize>>)
    requires
        cell_count(shape) <= usize::MAX,
    ensures
        fill_from(blank(shape), 0, 0, cell_count(shape)).contains(x) <==> has_shape(x, shape)
            && is_standard(x, cell_count(shape)),
{
    let t = blank(shape);
    lemma_fill_from(t, 0, 0, cell_count(shape), x);
}

#[verifier::rlimit(40)]
fn fill(
    table: &mut Vec<Vec<usize>>,
    used: &mut Vec<bool>,
    i: usize,
    j: usize,
    result: &mut Vec<Vec<Vec<usize>>>,
)
    requires
        i <= old(table).len(),
        i < old(table).len() ==> j <= old(table)[i as int].len(),
        empty_from(rows(old(table)@), i as int, j as int),
        marks(old(used)@, rows(old(table)@)),
    ensures
        rows(final(table)@) == rows(old(table)@),
        final(used)@ == old(used)@,
        tables(final(result)@) == tables(old(result)@) + fill_from(
            rows(old(table)@),
            i as int,
            j as int,
            old(used).len() as nat,
        ),
    decreases old(table).len() - i, old(table)[i as int].len() - j, 1int,
{
    let ghost t = rows(table@);
    let ghost n = used.len() as nat;
    if i == table.len() {
        let copy = clone_rows(table);
        proof {
            lemma_tables_push(result@, copy);
        }
        result.push(copy);
        return ;
    }
    if j == table[i].len() {
        fill(table, used, i + 1, 0, result);
        return ;
    }
    let n_exec: usize = used.len();
    let mut c: usize = 0;
    while c < n_exec
        invariant
            c <= n_exec,
            n_exec == n,
            i < table.len(),
            j < table[i as int].len(),
            rows(table@) == t,
            t == rows(old(table)@),
            used@ == old(used)@,
            used.len() == n,
            empty_from(t, i as int, j as int),
            marks(used@, t),
            tables(result@) + try_from(t, i as int, j as int, (c + 1) as nat, n) == tables(
                old(result)@,
            ) + try_from(t, i as int, j as int, 1, n),
        decreases n_exec - c,
    {
        let v: usize = c + 1;
        let ghost before = tables(result@);
        let fits_here: bool = !used[c] && (j == 0 || table[i][j - 1] < v) && (i == 0 || j
            >= table[i - 1].len() || table[i - 1][j] < v);
        assert(fits_here == fits(t, i as int, j as int, v)) by {
            assert(used[v - 1] <==> occurs(t, v));
            assert(t[i as int] == table[i as int]@);
            if i > 0 {
                assert(t[i - 1] == table[i - 1]@);
            }
        }
        if fits_here {
            table[i][j] = v;
            used[c] = true;
            proof {
                let u = place(t, i as int, j as int, v);
                assert(rows(table@) =~= u);
                assert(t[i as int][j as int] == 0);
                assert forall|w: usize| 1 <= w <= used.len() implies (#[trigger] used[w - 1]
                    <==> occurs(u, w)) by {
                    lemma_place_occurs(t, i as int, j as int, v, w);
                    assert(old(used)@[w - 1] <==> occurs(t, w));
                }
                assert(u.len() == old(table).len());
                assert(u[i as int].len() == t[i as int].len());
                assert(t[i as int] == old(table)[i as int]@);
                assert(empty_from(u, i as int, j as int + 1)) by {
                    assert forall|a: int, b: int|
                        0 <= a < u.len() && 0 <= b < u[a].len() && (a > i || (a == i && b >= j + 1))
                        implies #[trigger] u[a][b] == 0 by {
                        assert(t[a][b] == 0);
                    }
                }
            }
            fill(table, used, i, j + 1, result);
            let ghost filled_rows = rows(table@);
            used[c] = false;
            table[i][j] = 0;
            proof {
                assert(filled_rows == place(t, i as int, j as int, v));
                assert(rows(table@) =~= t) by {
                    assert(t[i as int][j as int] == 0);
                    assert forall|a: int| 0 <= a < t.len() implies rows(table@)[a] == t[a] by {
                        if a == i {
                            assert(table[a]@ =~= filled_rows[a].update(j as int, 0));
                            assert(filled_rows[a].update(j as int, 0) =~= t[a]);
                        } else {
                            assert(table[a]@ == filled_rows[a]);
                        }
                    }
                }
                assert(used@ =~= old(used)@) by {
                    assert(!old(used)@[v - 1]);
                }
            }
        }
        proof {
            let rest = try_from(t, i as int, j as int, (v + 1) as nat, n);
            let here = if fits(t, i as int, j as int, v) {
                fill_from(place(t, i as int, j as int, v), i as int, j + 1, n)
            } else {
                Seq::empty()
            };
            assert(try_from(t, i as int, j as int, v as nat, n) == here + rest);
            assert(tables(result@) == before + here);
            assert((before + here) + rest =~= before + (here + rest));
        }
        c += 1;
    }
    assert(try_from(t, i as int, j as int, (c + 1) as nat, n) =~= Seq::empty());
    assert(tables(result@) + Seq::<Seq<Seq<usize>>>::empty() =~= tables(result@));
}

/// The sum of the row lengths.
fn count_cells(shape: &[usize]) -> (n: usize)
    requires
        cell_count(shape@) <= usize::MAX,
    ensures
        n == cell_count(shape@),
{
    let mut n: usize = 0;
    let mut i: usize = 0;
    while i < shape.len()
        invariant
            i <= shape.len(),
            n == cell_count(shape@.take(i as int)),
            cell_count(shape@) <= usize::MAX,
        decreases shape.len() - i,
    {
        proof {
            assert(shape@.take(i + 1).drop_last() =~= shape@.take(i as int));
            lemma_cell_count_prefix(shape@, i + 1);
        }
        n = n + shape[i];
        i += 1;
    }
    assert(shape@.take(i as int) =~= shape@);
    n
}

proof fn lemma_cell_count_prefix(shape: Seq<usize>, k: int)
    requires
        0 <= k <= shape.len(),
    ensures
        cell_count(shape.take(k)) <= cell_count(shape),
    decreases shape.len() - k,
{
    if k < shape.len() {
        lemma_cell_count_prefix(shape, k + 1);
        assert(shape.take(k + 1).drop_last() =~= shape.take(k));
    } else {
        assert(shape.take(k) =~= shape);
    }
}

/// Generate all standard Young tableaux of the shape with the given row
/// lengths: fill the cells in row-major order, and try for each cell the
/// unused values in ascending order that exceed the value to the left and
/// the value above.
pub fn generate_syt(shape: &[usize]) -> (result: Vec<Vec<Vec<usize>>>)
    requires
        cell_count(shape@) <= usize::MAX,
    ensures
        tables(result@) == fill_from(blank(shape@), 0, 0, cell_count(shape@)),
        forall|x: Seq<Seq<usize>>| #[trigger]
            tables(result@).contains(x) <==> has_shape(x, shape@) && is_standard(
                x,
                cell_count(shape@),
            ),
        tables(result@).no_duplicates(),
{
    proof {
        assert(is_standard_upto(blank(shape@), 0, 0, cell_count(shape@)));
        assert(empty_from(blank(shape@), 0, 0));
        lemma_fill_distinct(blank(shape@), 0, 0, cell_count(shape@));
        assert forall|x: Seq<Seq<usize>>| #[trigger]
            fill_from(blank(shape@), 0, 0, cell_count(shape@)).contains(x) <==> has_shape(
                x,
                shape@,
            ) && is_standard(x, cell_count(shape@)) by {
            lemma_tableaux_are_standard(shape@, x);
        }
    }
    let n: usize = count_cells(shape);
    let mut table: Vec<Vec<usize>> = Vec::new();
    let mut r: usize = 0;
    while r < shape.len()
        invariant
            r <= shape.len(),
            table.len() == r,
            forall|k: int| 0 <= k < r ==> (#[trigger] table[k])@ == blank(shape@)[k],
        decreases shape.len() - r,
    {
        let row: Vec<usize> = filled(0, shape[r]);
        assert(row@ =~= blank(shape@)[r as int]);
        table.push(row);
        r += 1;
    }
    assert(rows(table@) =~= blank(shape@));
    let mut used: Vec<bool> = filled(false, n);
    let mut result: Vec<Vec<Vec<usize>>> = Vec::new();
    proof {
        let t = rows(table@);
        assert forall|v: usize| 1 <= v <= used.len() implies (#[trigger] used[v - 1] <==> occurs(
            t,
            v,
        )) by {
            if occurs(t, v) {
                let (a, b) = choose|a: int, b: int|
                    0 <= a < t.len() && 0 <= b < t[a].len() && #[trigger] t[a][b] == v;
                assert(t[a][b] == 0);
            }
        }
        assert(tables(result@) =~= Seq::empty());
    }
    fill(&mut table, &mut used, 0, 0, &mut result);
    assert(Seq::<Seq<Seq<usize>>>::empty() + fill_from(blank(shape@), 0, 0, n as nat) =~= fill_from(
        blank(shape@),
        0,
        0,
        n as nat,
    ));
    result
}

} // verus!
