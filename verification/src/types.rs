pub mod bitboard;
pub mod color;
pub mod square;
pub mod base;
pub mod piece;
pub mod moves;
pub mod move_list;
pub mod castling;
pub mod zobrist;
pub mod hash_keys;
pub mod score;
pub mod tt;

use vstd::prelude::*;
use crate::types::base::Rank;
use crate::types::color::Color;

verus! {

/// The bytes of a text of ASCII characters.
pub open spec fn ascii_bytes(t: Seq<char>) -> Seq<u8> {
    t.map_values(|c: char| c as u8)
}

/// Deepest ply the search may reach.
pub const MAX_PLY: usize = 256;

/// Capacity reserved for the moves of one position.
pub const MAX_MOVES: usize = 256;

/// Square-index step of one rank forward for each side.
pub open spec fn spec_up_dir(c: int) -> int {
    if c == 0 {
        8
    } else {
        -8
    }
}

/// Square-index step of one rank forward for `color`: up the board for white, down for black.
pub fn up_dir(color: Color) -> (d: i8)
    ensures
        d == spec_up_dir(color.idx()),
{
    match color {
        Color::White => 8,
        Color::Black => -8,
    }
}

/// The rank the pawns of `color` start on.
pub fn pawn_start(color: Color) -> (r: Rank)
    ensures
        r.idx() == if color == Color::White { 1int } else { 6int },
{
    match color {
        Color::White => Rank::R2,
        Color::Black => Rank::R7,
    }
}

} // verus!
