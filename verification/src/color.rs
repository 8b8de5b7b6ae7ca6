//! The abstract display attributes and their deterministic cycle.
//!
//! Each new representative is assigned the next attribute of a fixed
//! finite palette, wrapping around. Mapping an attribute to an actual
//! terminal style is left to the caller.

use vstd::prelude::*;

verus! {

/// An abstract display attribute.
#[derive(Clone, Copy, PartialEq, Eq, Structural, Debug)]
pub enum Color {
    Black,
    Red,
    Green,
    Yellow,
    Blue,
    Magenta,
    Cyan,
    White,
    BrightBlack,
    BrightRed,
    BrightGreen,
    BrightYellow,
    BrightBlue,
    BrightMagenta,
    BrightCyan,
    BrightWhite,
}

/// The successor of an attribute in the palette cycle.
pub open spec fn next_color_spec(c: Color) -> Color {
    match c {
        Color::Red => Color::Green,
        Color::Green => Color::Yellow,
        Color::Yellow => Color::Blue,
        Color::Blue => Color::Magenta,
        Color::Magenta => Color::Cyan,
        Color::Cyan => Color::White,
        Color::White => Color::BrightBlack,
        Color::BrightBlack => Color::BrightRed,
        Color::BrightRed => Color::BrightGreen,
        Color::BrightGreen => Color::BrightYellow,
        Color::BrightYellow => Color::BrightBlue,
        Color::BrightBlue => Color::BrightMagenta,
        Color::BrightMagenta => Color::BrightCyan,
        Color::BrightCyan => Color::BrightWhite,
        Color::BrightWhite => Color::Red,
        Color::Black => Color::Red,
    }
}

} // verus!
