use vstd::prelude::*;

verus! {

/// The two sides.
#[derive(Clone, Copy, PartialEq, Eq, Structural, Debug)]
pub enum Color {
    White,
    Black,
}

/// The color with index `i` (0 white, otherwise black).
pub open spec fn color_of(i: int) -> Color {
    if i == 0 {
        Color::White
    } else {
        Color::Black
    }
}

impl Color {
    pub const NUM: usize = 2;

    /// Index of the color: 0 for white, 1 for black.
    pub open spec fn idx(self) -> int {
        match self {
            Color::White => 0,
            Color::Black => 1,
        }
    }

    /// The color whose index is `v`.
    pub fn new(v: u8) -> (c: Color)
        requires
            v < 2,
        ensures
            c.idx() == v,
    {
        if v == 0 {
            Color::White
        } else {
            Color::Black
        }
    }

    /// The index of the color, usable to address per-color tables.
    pub fn index(self) -> (i: usize)
        ensures
            i == self.idx(),
    {
        match self {
            Color::White => 0,
            Color::Black => 1,
        }
    }

    /// The opponent of `self`.
    pub fn flip(self) -> (c: Color)
        ensures
            c.idx() == 1 - self.idx(),
            c != self,
    {
        match self {
            Color::White => Color::Black,
            Color::Black => Color::White,
        }
    }
}

} // verus!
