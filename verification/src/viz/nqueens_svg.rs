//! The drawing of a placement of queens on a board.

use vstd::prelude::*;
use crate::viz::drawing::{lemma_pieces_push, pieces, Content, Drawing, Mark, Piece, Shape};

verus! {

/// The square in row `i` and column `j`: light where `i + j` is even, dark
/// where it is odd.
pub open spec fn square(i: nat, j: nat, size: nat) -> Piece {
    Piece::Rect {
        x: j * size,
        y: i * size,
        width: size,
        height: size,
        fill: if (i + j) % 2 == 0 {
            "#EEE"@
        } else {
            "#666"@
        },
        stroke: None,
    }
}

/// The squares of the first `j` columns of row `i`, from the left.
pub open spec fn row_squares(i: nat, j: nat, size: nat) -> Seq<Piece> {
    Seq::new(j, |c: int| square(i, c as nat, size))
}

/// The squares of the first `i` rows of a board with `n` columns, row by
/// row from the top.
pub open spec fn board_squares(n: nat, i: nat, size: nat) -> Seq<Piece>
    decreases i,
{
    if i == 0 {
        Seq::empty()
    } else {
        board_squares(n, (i - 1) as nat, size) + row_squares((i - 1) as nat, n, size)
    }
}

/// The queen of row `i`, which stands in column `col`: a red chess queen in
/// the middle of its square, half as high as the square.
pub open spec fn queen(i: nat, col: nat, size: nat) -> Piece {
    Piece::Label {
        x: col * size + size / 2,
        y: i * size + size / 2,
        font_size: size / 2,
        fill: "red"@,
        centred: true,
        family: None,
        content: Mark::Text("\u{265b}"@),
    }
}

/// The queens of the first `i` rows, from the top.
pub open spec fn queens(solution: Seq<usize>, i: nat, size: nat) -> Seq<Piece> {
    Seq::new(i, |r: int| queen(r as nat, solution[r] as nat, size))
}

/// The board and every queen's position on it fit in a machine word.
pub open spec fn fits_board(solution: Seq<usize>, size: nat) -> bool {
    &&& solution.len() * size <= usize::MAX
    &&& forall|i: int|
        0 <= i < solution.len() ==> (#[trigger] solution[i]) * size + size / 2 <= usize::MAX
}

/// Draw the placement `solution`, which gives the column of the queen of
/// every row, on a board of squares `square_size` wide: first the squares,
/// row by row, then the queens.
pub fn draw_nqueens(solution: &[usize], square_size: usize) -> (d: Drawing)
    requires
        fits_board(solution@, square_size as nat),
    ensures
        d.width == solution@.len() * square_size,
        d.height == solution@.len() * square_size,
        pieces(d.shapes@) == board_squares(solution@.len(), solution@.len(), square_size as nat)
            + queens(solution@, solution@.len(), square_size as nat),
{
    let n: usize = solution.len();
    let ghost size = square_size as nat;
    let board_size: usize = square_size * n;
    let mut shapes: Vec<Shape> = Vec::new();
    assert(pieces(shapes@) =~= board_squares(n as nat, 0, size));
    let mut i: usize = 0;
    while i < n
        invariant
            i <= n,
            n == solution@.len(),
            size == square_size,
            n * size <= usize::MAX,
            pieces(shapes@) == board_squares(n as nat, i as nat, size),
        decreases n - i,
    {
        let ghost above = pieces(shapes@);
        assert(above + row_squares(i as nat, 0, size) =~= above);
        let mut j: usize = 0;
        while j < n
            invariant
                j <= n,
                i < n,
                size == square_size,
                n * size <= usize::MAX,
                above == board_squares(n as nat, i as nat, size),
                pieces(shapes@) == above + row_squares(i as nat, j as nat, size),
            decreases n - j,
        {
            let light: bool = (i % 2 + j % 2) % 2 == 0;
            let fill: &'static str = if light {
                "#EEE"
            } else {
                "#666"
            };
            assert(j * size <= n * size && i * size <= n * size) by (nonlinear_arith)
                requires
                    j <= n,
                    i <= n,
            ;
            let rect = Shape::Rect {
                x: j * square_size,
                y: i * square_size,
                width: square_size,
                height: square_size,
                fill,
                stroke: None,
            };
            proof {
                lemma_pieces_push(shapes@, rect);
                assert(rect@ == square(i as nat, j as nat, size));
                assert(row_squares(i as nat, (j + 1) as nat, size) =~= row_squares(
                    i as nat,
                    j as nat,
                    size,
                ).push(square(i as nat, j as nat, size)));
                assert((above + row_squares(i as nat, j as nat, size)).push(rect@) =~= above
                    + row_squares(i as nat, (j + 1) as nat, size));
            }
            shapes.push(rect);
            j += 1;
        }
        i += 1;
    }
    let ghost board = pieces(shapes@);
    assert(board + queens(solution@, 0, size) =~= board);
    let mut r: usize = 0;
    while r < n
        invariant
            r <= n,
            n == solution@.len(),
            size == square_size,
            fits_board(solution@, size),
            board == board_squares(n as nat, n as nat, size),
            pieces(shapes@) == board + queens(solution@, r as nat, size),
        decreases n - r,
    {
        let col: usize = solution[r];
        assert(r * size + size / 2 <= n * size) by (nonlinear_arith)
            requires
                r < n,
        ;
        let text = Shape::Label {
            x: col * square_size + square_size / 2,
            y: r * square_size + square_size / 2,
            font_size: square_size / 2,
            fill: "red",
            centred: true,
            family: None,
            content: Content::Text("\u{265b}".to_owned()),
        };
        proof {
            lemma_pieces_push(shapes@, text);
            assert(text@ == queen(r as nat, col as nat, size));
            assert(queens(solution@, (r + 1) as nat, size) =~= queens(solution@, r as nat, size).push(
                queen(r as nat, col as nat, size),
            ));
            assert((board + queens(solution@, r as nat, size)).push(text@) =~= board + queens(
                solution@,
                (r + 1) as nat,
                size,
            ));
        }
        shapes.push(text);
        r += 1;
    }
    Drawing { width: board_size, height: board_size, shapes }
}

} // verus!
