use vstd::prelude::*;
use crate::types::castling::Castling;
use crate::types::piece::Piece;
use crate::types::square::Square;
use crate::types::zobrist::{
    Zobrist, zobrist_value, piece_key, EN_PASSANT_KEYS, CASTLING_KEYS, SIDE_KEY,
};

verus! {

/// The incrementally maintained hash of a position.
#[derive(Clone, Copy, PartialEq, Eq, Structural, Debug)]
pub struct HashKeys {
    pub zob: u64,
}

/// Toggling the same key twice leaves a hash unchanged.
pub proof fn lemma_toggle_twice(h: u64, k: u64)
    ensures
        (h ^ k) ^ k == h,
{
    assert((h ^ k) ^ k == h) by (bit_vector);
}

impl HashKeys {
    /// The hash of the empty position.
    pub fn empty() -> (h: HashKeys)
        ensures
            h.zob == 0,
    {
        HashKeys { zob: 0 }
    }

    /// The hash value.
    pub fn zobrist(&self) -> (z: u64)
        ensures
            z == self.zob,
    {
        self.zob
    }

    /// Adds or removes `piece` on `sq`.
    pub fn toggle(&mut self, piece: Piece, sq: Square)
        requires
            piece != Piece::NoPiece,
            sq.valid(),
        ensures
            final(self).zob == old(self).zob ^ piece_key(piece.idx(), sq.0 as int),
    {
        let pk = Zobrist::key(piece.index() as u64 * 64 + sq.0 as u64);
        self.zob = self.zob ^ pk;
    }

    /// Flips the side to move.
    pub fn toggle_side(&mut self)
        ensures
            final(self).zob == old(self).zob ^ zobrist_value(SIDE_KEY as int),
    {
        self.zob = self.zob ^ Zobrist::key(SIDE_KEY);
    }

    /// Adds or removes the castling-rights set `castling`.
    pub fn toggle_castling(&mut self, castling: Castling)
        requires
            castling.raw < 16,
        ensures
            final(self).zob == old(self).zob ^ zobrist_value(CASTLING_KEYS + castling.raw),
    {
        self.zob = self.zob ^ Zobrist::key(CASTLING_KEYS + castling.raw as u64);
    }

    /// Adds or removes the en passant square `en_passant`.
    pub fn toggle_en_passant(&mut self, en_passant: Square)
        requires
            en_passant.valid(),
        ensures
            final(self).zob == old(self).zob ^ zobrist_value(EN_PASSANT_KEYS + en_passant.0),
    {
        self.zob = self.zob ^ Zobrist::key(EN_PASSANT_KEYS + en_passant.0 as u64);
    }
}

} // verus!
