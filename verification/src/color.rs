//! The two sides of the game.

use vstd::prelude::*;

verus! {

/// The color of a side (and of its pieces).
#[derive(Clone, Copy, Debug, PartialEq, Eq, Structural, Hash)]
pub enum Color {
    Black,
    White,
}

/// The opposite of a color, as a spec-level function.
pub open spec fn opposite(c: Color) -> Color {
    match c {
        Color::Black => Color::White,
        Color::White => Color::Black,
    }
}

impl Color {
    /// The opposing side's color.
    pub fn invert(&self) -> (r: Color)
        ensures
            r == opposite(*self),
    {
        match self {
            Color::Black => Color::White,
            Color::White => Color::Black,
        }
    }
}

} // verus!
