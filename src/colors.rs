//! The colors of a terminal.

use vstd::prelude::*;

verus! {

/// The eight colors of a terminal, in the terminal's own order.
#[derive(Debug, Clone, Copy, PartialEq, Eq, Structural)]
pub enum Color {
    Black,
    Red,
    Green,
    Brown,
    Blue,
    Magenta,
    Cyan,
    White,
}

/// The terminal's number for a color, from 0 for black to 7 for white.
pub open spec fn color_number(c: Color) -> int {
    match c {
        Color::Black => 0,
        Color::Red => 1,
        Color::Green => 2,
        Color::Brown => 3,
        Color::Blue => 4,
        Color::Magenta => 5,
        Color::Cyan => 6,
        Color::White => 7,
    }
}

/// The number of colors, and of color pairs, a terminal must offer.
pub const COLOR_COUNT: i16 = 8;

/// Why a terminal's colors cannot be used.
#[derive(Debug, Clone, Copy, PartialEq, Eq, Structural)]
pub enum ColorError {
    /// The terminal has no colors.
    NoColors,
    /// The terminal has this many colors, fewer than needed.
    NotEnoughColors(u32),
    /// The terminal has this many color pairs, fewer than needed.
    NotEnoughSlots(u32),
}

/// Whether a terminal that reports `has_colors`, `colors` colors and
/// `pairs` color pairs can show the game's colors, and if not, why.
pub fn check_color_support(has_colors: bool, colors: i32, pairs: i32) -> (r: Result<(), ColorError>)
    ensures
        r == (if !has_colors {
            Err(ColorError::NoColors)
        } else if colors < COLOR_COUNT {
            Err(ColorError::NotEnoughColors(colors as u32))
        } else if pairs < COLOR_COUNT {
            Err(ColorError::NotEnoughSlots(pairs as u32))
        } else {
            Ok(())
        }),
{
    if !has_colors {
        Err(ColorError::NoColors)
    } else if colors < COLOR_COUNT as i32 {
        Err(ColorError::NotEnoughColors(colors as u32))
    } else if pairs < COLOR_COUNT as i32 {
        Err(ColorError::NotEnoughSlots(pairs as u32))
    } else {
        Ok(())
    }
}

impl Color {
    /// The terminal's number for this color, which also numbers the color
    /// pair that draws it on black.
    pub fn number(&self) -> (r: i16)
        ensures
            r == color_number(*self),
    {
        match self {
            Color::Black => 0,
            Color::Red => 1,
            Color::Green => 2,
            Color::Brown => 3,
            Color::Blue => 4,
            Color::Magenta => 5,
            Color::Cyan => 6,
            Color::White => 7,
        }
    }

    /// The color with the terminal's number `n`, if there is one.
    pub fn from_number(n: i16) -> (r: Option<Color>)
        ensures
            r matches Some(c) ==> color_number(c) == n,
            r is None <==> !(0 <= n < COLOR_COUNT),
    {
        match n {
            0 => Some(Color::Black),
            1 => Some(Color::Red),
            2 => Some(Color::Green),
            3 => Some(Color::Brown),
            4 => Some(Color::Blue),
            5 => Some(Color::Magenta),
            6 => Some(Color::Cyan),
            7 => Some(Color::White),
            _ => None,
        }
    }
}

} // verus!
