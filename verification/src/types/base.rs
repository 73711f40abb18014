use vstd::prelude::*;

verus! {

/// The eight ranks, from white's side.
#[derive(Clone, Copy, PartialEq, Eq, Structural, Debug)]
pub enum Rank {
    R1,
    R2,
    R3,
    R4,
    R5,
    R6,
    R7,
    R8,
}

/// The eight files, from the queen's side.
#[derive(Clone, Copy, PartialEq, Eq, Structural, Debug)]
pub enum File {
    A,
    B,
    C,
    D,
    E,
    F,
    G,
    H,
}

impl Rank {
    /// Row index of the rank, 0 for the first rank.
    pub open spec fn idx(self) -> int {
        match self {
            Rank::R1 => 0,
            Rank::R2 => 1,
            Rank::R3 => 2,
            Rank::R4 => 3,
            Rank::R5 => 4,
            Rank::R6 => 5,
            Rank::R7 => 6,
            Rank::R8 => 7,
        }
    }

    /// The row index of the rank.
    pub fn index(self) -> (i: u8)
        ensures
            i == self.idx(),
    {
        match self {
            Rank::R1 => 0,
            Rank::R2 => 1,
            Rank::R3 => 2,
            Rank::R4 => 3,
            Rank::R5 => 4,
            Rank::R6 => 5,
            Rank::R7 => 6,
            Rank::R8 => 7,
        }
    }
}

impl File {
    /// Column index of the file, 0 for the a-file.
    pub open spec fn idx(self) -> int {
        match self {
            File::A => 0,
            File::B => 1,
            File::C => 2,
            File::D => 3,
            File::E => 4,
            File::F => 5,
            File::G => 6,
            File::H => 7,
        }
    }
}

/// The rank on which the pawns of each side promote (white first).
pub fn promotion_rank(color_index: usize) -> (r: Rank)
    requires
        color_index < 2,
    ensures
        color_index == 0 ==> r == Rank::R8,
        color_index == 1 ==> r == Rank::R1,
{
    if color_index == 0 {
        Rank::R8
    } else {
        Rank::R1
    }
}

/// The rank on which the pieces of each side start (white first).
pub fn home_rank(color_index: usize) -> (r: Rank)
    requires
        color_index < 2,
    ensures
        color_index == 0 ==> r == Rank::R1,
        color_index == 1 ==> r == Rank::R8,
{
    if color_index == 0 {
        Rank::R1
    } else {
        Rank::R8
    }
}

} // verus!
