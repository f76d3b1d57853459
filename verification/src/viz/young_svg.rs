//! The drawing of a tableau: a grid of cells, each with its entry.

use vstd::prelude::*;
use crate::sequences::rows;
use crate::viz::drawing::{lemma_pieces_push, pieces, Content, Drawing, Mark, Piece, Shape};

verus! {

/// The length of the longest of the first `i` rows.
pub open spec fn widest(t: Seq<Seq<usize>>, i: nat) -> nat
    decreases i,
{
    if i == 0 {
        0
    } else {
        let before = widest(t, (i - 1) as nat);
        if t[i - 1].len() > before {
            t[i - 1].len()
        } else {
            before
        }
    }
}

/// The frame of the cell in row `i` and column `j`: white, with a black
/// border.
pub open spec fn cell_frame(i: nat, j: nat, size: nat) -> Piece {
    Piece::Rect {
        x: j * size,
        y: i * size,
        width: size,
        height: size,
        fill: "white"@,
        stroke: Some("black"@),
    }
}

/// The entry of the cell in row `i` and column `j`: the number `val` in
/// black in the middle of the cell, half as high as the cell.
pub open spec fn cell_entry(i: nat, j: nat, val: nat, size: nat) -> Piece {
    Piece::Label {
        x: j * size + size / 2,
        y: i * size + size / 2,
        font_size: size / 2,
        fill: "black"@,
        centred: true,
        family: None,
        content: Mark::Number(val),
    }
}

/// The first `j` cells of `row`, which is row `i`, from the left: of each
/// cell the frame, then the entry.
pub open spec fn row_cells(row: Seq<usize>, i: nat, j: nat, size: nat) -> Seq<Piece>
    decreases j,
{
    if j == 0 {
        Seq::empty()
    } else {
        row_cells(row, i, (j - 1) as nat, size).push(cell_frame(i, (j - 1) as nat, size)).push(
            cell_entry(i, (j - 1) as nat, row[j - 1] as nat, size),
        )
    }
}

/// The cells of the first `i` rows, row by row from the top.
pub open spec fn table_cells(t: Seq<Seq<usize>>, i: nat, size: nat) -> Seq<Piece>
    decreases i,
{
    if i == 0 {
        Seq::empty()
    } else {
        table_cells(t, (i - 1) as nat, size) + row_cells(
            t[i - 1],
            (i - 1) as nat,
            t[i - 1].len(),
            size,
        )
    }
}

/// The picture of the tableau fits in a machine word both ways.
pub open spec fn fits_page(t: Seq<Seq<usize>>, size: nat) -> bool {
    &&& widest(t, t.len()) * size <= usize::MAX
    &&& t.len() * size <= usize::MAX
}

/// No row among the first `i` is longer than the widest of them.
pub proof fn lemma_widest(t: Seq<Seq<usize>>, i: nat, r: int)
    requires
        0 <= r < i <= t.len(),
    ensures
        t[r].len() <= widest(t, i),
    decreases i,
{
    if r < i - 1 {
        lemma_widest(t, (i - 1) as nat, r);
    }
}

/// Draw a tableau with cells `cell_size` wide: row by row, of each cell
/// the frame and then the entry.
pub fn draw_young_tableau(tableau: &[Vec<usize>], cell_size: usize) -> (d: Drawing)
    requires
        fits_page(rows(tableau@), cell_size as nat),
    ensures
        d.width == widest(rows(tableau@), tableau@.len()) * cell_size,
        d.height == tableau@.len() * cell_size,
        pieces(d.shapes@) == table_cells(rows(tableau@), tableau@.len(), cell_size as nat),
{
    let n: usize = tableau.len();
    let ghost t = rows(tableau@);
    let ghost size = cell_size as nat;
    let mut cols: usize = 0;
    let mut k: usize = 0;
    while k < n
        invariant
            k <= n,
            n == tableau@.len(),
            t == rows(tableau@),
            cols == widest(t, k as nat),
        decreases n - k,
    {
        assert(t[k as int] == tableau@[k as int]@);
        if tableau[k].len() > cols {
            cols = tableau[k].len();
        }
        k += 1;
    }
    let width: usize = cols * cell_size;
    let height: usize = n * cell_size;
    let mut shapes: Vec<Shape> = Vec::new();
    assert(pieces(shapes@) =~= table_cells(t, 0, size));
    let mut i: usize = 0;
    while i < n
        invariant
            i <= n,
            n == tableau@.len(),
            t == rows(tableau@),
            size == cell_size,
            fits_page(t, size),
            pieces(shapes@) == table_cells(t, i as nat, size),
        decreases n - i,
    {
        let ghost above = pieces(shapes@);
        let row = &tableau[i];
        assert(t[i as int] == row@);
        assert(above + row_cells(row@, i as nat, 0, size) =~= above);
        proof {
            lemma_widest(t, n as nat, i as int);
        }
        let mut j: usize = 0;
        while j < row.len()
            invariant
                j <= row.len(),
                i < n,
                n == t.len(),
                size == cell_size,
                fits_page(t, size),
                row@.len() <= widest(t, n as nat),
                pieces(shapes@) == above + row_cells(row@, i as nat, j as nat, size),
            decreases row.len() - j,
        {
            assert(j * size + size / 2 <= widest(t, n as nat) * size && i * size + size / 2 <= n
                * size) by (nonlinear_arith)
                requires
                    j < row@.len() <= widest(t, n as nat),
                    i < n,
            ;
            let x: usize = j * cell_size;
            let y: usize = i * cell_size;
            let rect = Shape::Rect {
                x,
                y,
                width: cell_size,
                height: cell_size,
                fill: "white",
                stroke: Some("black"),
            };
            let text = Shape::Label {
                x: x + cell_size / 2,
                y: y + cell_size / 2,
                font_size: cell_size / 2,
                fill: "black",
                centred: true,
                family: None,
                content: Content::Number(row[j]),
            };
            proof {
                lemma_pieces_push(shapes@, rect);
                lemma_pieces_push(shapes@.push(rect), text);
                assert(rect@ == cell_frame(i as nat, j as nat, size));
                assert(text@ == cell_entry(i as nat, j as nat, row@[j as int] as nat, size));
                assert((above + row_cells(row@, i as nat, j as nat, size)).push(rect@).push(text@)
                    =~= above + row_cells(row@, i as nat, (j + 1) as nat, size));
            }
            shapes.push(rect);
            shapes.push(text);
            j += 1;
        }
        i += 1;
    }
    Drawing { width, height, shapes }
}

} // verus!
