use vstd::prelude::*;
use vstd::wrapping::u64_specs;

verus! {

/// Start of the pseudo-random sequence the keys are drawn from.
pub const ZOBRIST_SEED: u64 = 0xFFAA_B58C_5833_FE89u64;

/// Step of the sequence (the golden ratio in 64-bit fixed point).
pub const ZOBRIST_INCREMENT: u64 = 0x9E37_79B9_7F4A_7C15u64;

/// First key of the en passant squares; the 768 keys before are the piece-square keys.
pub const EN_PASSANT_KEYS: u64 = 768;

/// First key of the 16 castling-rights sets.
pub const CASTLING_KEYS: u64 = 832;

/// Key of the side to move.
pub const SIDE_KEY: u64 = 848;

/// Number of keys in the table.
pub const NUM_KEYS: u64 = 865;

/// The SplitMix64 output function applied to one state of the sequence.
pub open spec fn splitmix_output(state: u64) -> u64 {
    let z1 = u64_specs::wrapping_mul(state ^ (state >> 30u64), 0xBF58476D1CE4E5B9u64);
    let z2 = u64_specs::wrapping_mul(z1 ^ (z1 >> 27u64), 0x94D049BB133111EBu64);
    z2 ^ (z2 >> 31u64)
}

/// Key number `i`: the output for the state `seed + (i + 1) * increment`, modulo 2^64.
pub open spec fn zobrist_value(i: int) -> u64 {
    splitmix_output(
        u64_specs::wrapping_add(ZOBRIST_SEED, u64_specs::wrapping_mul((i + 1) as u64, ZOBRIST_INCREMENT)),
    )
}

/// Key of `piece` (by index) standing on square `sq`.
pub open spec fn piece_key(piece: int, sq: int) -> u64 {
    zobrist_value(piece * 64 + sq)
}

/// The random keys that hash a position.
pub struct Zobrist;

impl Zobrist {
    /// Key number `i` of the table.
    pub fn key(i: u64) -> (k: u64)
        requires
            i < NUM_KEYS,
        ensures
            k == zobrist_value(i as int),
    {
        let state = ZOBRIST_SEED.wrapping_add((i + 1).wrapping_mul(ZOBRIST_INCREMENT));
        let mut z = state;
        z = (z ^ (z >> 30)).wrapping_mul(0xBF58476D1CE4E5B9u64);
        z = (z ^ (z >> 27)).wrapping_mul(0x94D049BB133111EBu64);
        z ^ (z >> 31)
    }
}

} // verus!
