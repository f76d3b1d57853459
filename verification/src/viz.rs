//! Drawings of the structures that the library produces, as plain values
//! that a renderer can turn into a picture shape by shape.

pub mod drawing;
pub mod gray_svg;
pub mod nqueens_svg;
pub mod young_svg;
