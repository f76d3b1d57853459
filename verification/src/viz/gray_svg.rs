//! The drawing of a list of code words, one line for each.

use vstd::prelude::*;
use crate::viz::drawing::{lemma_pieces_push, pieces, Content, Drawing, Mark, Piece, Shape};

verus! {

/// The characters of every word.
pub open spec fn words(codes: Seq<String>) -> Seq<Seq<char>> {
    Seq::new(codes.len(), |i: int| codes[i]@)
}

/// The number of bytes that hold the word `w`.
pub open spec fn byte_length(w: Seq<char>) -> nat {
    vstd::utf8::encode_utf8(w).len()
}

/// The number of bytes of the longest of the first `i` words.
pub open spec fn longest(w: Seq<Seq<char>>, i: nat) -> nat
    decreases i,
{
    if i == 0 {
        0
    } else {
        let before = longest(w, (i - 1) as nat);
        if byte_length(w[i - 1]) > before {
            byte_length(w[i - 1])
        } else {
            before
        }
    }
}

/// Line `i`: the word in black, in a font with letters of one width, from
/// the left edge, on a base line `font_size` below the top of the line.
pub open spec fn line(i: nat, word: Seq<char>, font_size: nat, line_spacing: nat) -> Piece {
    Piece::Label {
        x: 0,
        y: i * line_spacing + font_size,
        font_size,
        fill: "black"@,
        centred: false,
        family: Some("monospace"@),
        content: Mark::Text(word),
    }
}

/// The first `i` lines, from the top.
pub open spec fn lines(w: Seq<Seq<char>>, i: nat, font_size: nat, line_spacing: nat) -> Seq<Piece> {
    Seq::new(i, |k: int| line(k as nat, w[k], font_size, line_spacing))
}

/// The length of every word, the picture of the words and every base line
/// in it fit in a machine word.
pub open spec fn fits_lines(w: Seq<Seq<char>>, font_size: nat, line_spacing: nat) -> bool {
    &&& forall|i: int| 0 <= i < w.len() ==> byte_length(#[trigger] w[i]) <= usize::MAX
    &&& longest(w, w.len()) * font_size <= usize::MAX
    &&& w.len() * line_spacing <= usize::MAX
    &&& w.len() > 0 ==> (w.len() - 1) * line_spacing + font_size <= usize::MAX
}

/// Draw the words of a code one below the other, `line_spacing` apart, in
/// letters of size `font_size`. The picture is as wide as the longest word
/// has bytes, each taken as `font_size` wide.
pub fn draw_gray_code(codes: &[String], font_size: usize, line_spacing: usize) -> (d: Drawing)
    requires
        fits_lines(words(codes@), font_size as nat, line_spacing as nat),
    ensures
        d.width == longest(words(codes@), codes@.len()) * font_size,
        d.height == codes@.len() * line_spacing,
        pieces(d.shapes@) == lines(
            words(codes@),
            codes@.len(),
            font_size as nat,
            line_spacing as nat,
        ),
{
    let n: usize = codes.len();
    let ghost w = words(codes@);
    let mut most: usize = 0;
    let mut k: usize = 0;
    while k < n
        invariant
            k <= n,
            n == codes@.len(),
            w == words(codes@),
            fits_lines(w, font_size as nat, line_spacing as nat),
            most == longest(w, k as nat),
        decreases n - k,
    {
        assert(w[k as int] == codes@[k as int]@);
        let len: usize = codes[k].as_str().len();
        if len > most {
            most = len;
        }
        k += 1;
    }
    let width: usize = most * font_size;
    let height: usize = n * line_spacing;
    let mut shapes: Vec<Shape> = Vec::new();
    assert(pieces(shapes@) =~= lines(w, 0, font_size as nat, line_spacing as nat));
    let mut i: usize = 0;
    while i < n
        invariant
            i <= n,
            n == codes@.len(),
            w == words(codes@),
            fits_lines(w, font_size as nat, line_spacing as nat),
            pieces(shapes@) == lines(w, i as nat, font_size as nat, line_spacing as nat),
        decreases n - i,
    {
        assert(i * line_spacing <= (n - 1) * line_spacing) by (nonlinear_arith)
            requires
                i <= n - 1,
        ;
        assert(w[i as int] == codes@[i as int]@);
        let text = Shape::Label {
            x: 0,
            y: i * line_spacing + font_size,
            font_size,
            fill: "black",
            centred: false,
            family: Some("monospace"),
            content: Content::Text(codes[i].clone()),
        };
        proof {
            lemma_pieces_push(shapes@, text);
            assert(text@ == line(i as nat, w[i as int], font_size as nat, line_spacing as nat));
            assert(lines(w, (i + 1) as nat, font_size as nat, line_spacing as nat) =~= lines(
                w,
                i as nat,
                font_size as nat,
                line_spacing as nat,
            ).push(text@));
        }
        shapes.push(text);
        i += 1;
    }
    Drawing { width, height, shapes }
}

} // verus!
