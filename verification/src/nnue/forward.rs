pub mod scalar;

use vstd::prelude::*;
use crate::nnue::{Accumulator, NNUEParams, lanes_moved, feature, mirrored_feature, feature_index, mirrored_index, output_value};
use crate::types::color::Color;
use crate::types::piece::Piece;
use crate::types::square::Square;

verus! {

/// Puts `piece` on `square` in both perspectives.
pub fn add_feature(acc: &mut Accumulator, params: &NNUEParams, piece: Piece, square: Square)
    requires
        piece != Piece::NoPiece,
        square.valid(),
    ensures
        lanes_moved(final(acc).white, old(acc).white, *params, feature(piece, square.0 as int), 1),
        lanes_moved(final(acc).black, old(acc).black, *params, mirrored_feature(piece, square.0 as int), 1),
{
    let idx = feature_index(piece, square);
    let midx = mirrored_index(piece, square);
    scalar::add(acc, params, idx, midx);
}

/// Takes `piece` off `square` in both perspectives.
pub fn remove_feature(acc: &mut Accumulator, params: &NNUEParams, piece: Piece, square: Square)
    requires
        piece != Piece::NoPiece,
        square.valid(),
    ensures
        lanes_moved(final(acc).white, old(acc).white, *params, feature(piece, square.0 as int), -1),
        lanes_moved(final(acc).black, old(acc).black, *params, mirrored_feature(piece, square.0 as int), -1),
{
    let idx = feature_index(piece, square);
    let midx = mirrored_index(piece, square);
    scalar::remove(acc, params, idx, midx);
}

/// The network's output from the side to move's perspective.
pub fn output(acc: &Accumulator, stm: Color, params: &NNUEParams) -> (r: i32)
    ensures
        r == if stm == Color::White {
            output_value(acc.white, acc.black, *params)
        } else {
            output_value(acc.black, acc.white, *params)
        },
{
    scalar::output(acc, stm, params)
}

} // verus!
