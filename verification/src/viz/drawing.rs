//! Drawings as plain values: the size of the picture and the shapes in it,
//! in the order in which they are painted.

use vstd::prelude::*;

verus! {

/// What a label shows: a text, or a number in decimal digits.
#[derive(Debug, PartialEq, Eq)]
pub enum Content {
    Text(String),
    Number(usize),
}

/// One shape of a drawing. Lengths are in units of the picture; colours are
/// written as in a style sheet.
#[derive(Debug, PartialEq, Eq)]
pub enum Shape {
    /// A rectangle with its upper left corner at (`x`, `y`).
    Rect {
        x: usize,
        y: usize,
        width: usize,
        height: usize,
        fill: &'static str,
        stroke: Option<&'static str>,
    },
    /// A label at (`x`, `y`). One that is `centred` has its middle there,
    /// in both directions; another starts there, on its base line.
    Label {
        x: usize,
        y: usize,
        font_size: usize,
        fill: &'static str,
        centred: bool,
        family: Option<&'static str>,
        content: Content,
    },
}

/// A picture `width` wide and `height` high, with its upper left corner at
/// the origin.
#[derive(Debug, PartialEq, Eq)]
pub struct Drawing {
    pub width: usize,
    pub height: usize,
    pub shapes: Vec<Shape>,
}

/// What a label shows, as a mathematical value.
pub enum Mark {
    Text(Seq<char>),
    Number(nat),
}

/// A shape as a mathematical value.
pub enum Piece {
    Rect { x: nat, y: nat, width: nat, height: nat, fill: Seq<char>, stroke: Option<Seq<char>> },
    Label {
        x: nat,
        y: nat,
        font_size: nat,
        fill: Seq<char>,
        centred: bool,
        family: Option<Seq<char>>,
        content: Mark,
    },
}

/// The characters of a colour or a font family, where there is one.
pub open spec fn named(s: Option<&'static str>) -> Option<Seq<char>> {
    match s {
        Some(t) => Some(t@),
        None => None,
    }
}

impl View for Content {
    type V = Mark;

    open spec fn view(&self) -> Mark {
        match *self {
            Content::Text(s) => Mark::Text(s@),
            Content::Number(v) => Mark::Number(v as nat),
        }
    }
}

impl View for Shape {
    type V = Piece;

    open spec fn view(&self) -> Piece {
        match *self {
            Shape::Rect { x, y, width, height, fill, stroke } => Piece::Rect {
                x: x as nat,
                y: y as nat,
                width: width as nat,
                height: height as nat,
                fill: fill@,
                stroke: named(stroke),
            },
            Shape::Label { x, y, font_size, fill, centred, family, content } => Piece::Label {
                x: x as nat,
                y: y as nat,
                font_size: font_size as nat,
                fill: fill@,
                centred,
                family: named(family),
                content: content@,
            },
        }
    }
}

/// The shapes of a list, as mathematical values.
pub open spec fn pieces(shapes: Seq<Shape>) -> Seq<Piece> {
    Seq::new(shapes.len(), |i: int| shapes[i]@)
}

/// One more shape shows one more piece.
pub proof fn lemma_pieces_push(shapes: Seq<Shape>, s: Shape)
    ensures
        pieces(shapes.push(s)) == pieces(shapes).push(s@),
{
    assert(pieces(shapes.push(s)) =~= pieces(shapes).push(s@));
}

} // verus!
