//! One position of the animation grid.
use vstd::prelude::*;
use crate::chance::coin_flip;

verus! {

/// A display color tag, carried by every cell and used when it is drawn.
#[derive(Clone, Copy, Debug, PartialEq, Eq, Structural)]
pub enum Color {
    Reset,
    Black,
    DarkGrey,
    Red,
    DarkRed,
    Green,
    DarkGreen,
    Yellow,
    DarkYellow,
    Blue,
    DarkBlue,
    Magenta,
    DarkMagenta,
    Cyan,
    DarkCyan,
    White,
    Grey,
    Rgb { r: u8, g: u8, b: u8 },
    AnsiValue(u8),
}

/// The lateral direction a blocked falling cell prefers.
#[derive(Clone, Copy, Debug, PartialEq, Eq, Structural)]
pub enum Bias {
    Left,
    Right,
}

/// How a cell takes part in the simulation.
#[derive(Clone, Copy, Debug, PartialEq, Eq, Structural)]
pub enum Mobility {
    /// Nothing is here; mobile cells may move into this position.
    Empty,
    /// A mobile glyph with its persistent dispersal direction.
    Falling(Bias),
    /// An immovable glyph of the stencil.
    Fixed,
}

/// The contents of one grid position: glyph, color and mobility travel together.
#[derive(Clone, Copy, Debug, PartialEq, Eq, Structural)]
pub struct Cell {
    pub glyph: char,
    pub color: Color,
    pub mobility: Mobility,
}

/// The glyph an empty position shows.
pub const BLANK: char = ' ';

/// What an empty position holds.
pub open spec fn empty_cell() -> Cell {
    Cell { glyph: BLANK, color: Color::Reset, mobility: Mobility::Empty }
}

impl Cell {
    pub open spec fn is_empty(&self) -> bool {
        self.mobility is Empty
    }

    pub open spec fn is_falling(&self) -> bool {
        self.mobility is Falling
    }

    pub open spec fn is_fixed(&self) -> bool {
        self.mobility is Fixed
    }

    /// An empty position.
    pub fn empty() -> (r: Cell)
        ensures
            r == empty_cell(),
    {
        Cell { glyph: BLANK, color: Color::Reset, mobility: Mobility::Empty }
    }

    /// A falling cell whose bias is drawn uniformly between left and right.
    pub fn new(glyph: char, color: Color) -> (r: Cell)
        ensures
            r.glyph == glyph,
            r.color == color,
            r.mobility is Falling,
    {
        let bias = if coin_flip() {
            Bias::Right
        } else {
            Bias::Left
        };
        Cell { glyph, color, mobility: Mobility::Falling(bias) }
    }

    /// A falling cell with a given bias.
    pub fn falling(glyph: char, color: Color, bias: Bias) -> (r: Cell)
        ensures
            r == (Cell { glyph, color, mobility: Mobility::Falling(bias) }),
    {
        Cell { glyph, color, mobility: Mobility::Falling(bias) }
    }

    /// An immovable cell of the stencil.
    pub fn fixed(glyph: char, color: Color) -> (r: Cell)
        ensures
            r == (Cell { glyph, color, mobility: Mobility::Fixed }),
    {
        Cell { glyph, color, mobility: Mobility::Fixed }
    }
}

} // verus!
