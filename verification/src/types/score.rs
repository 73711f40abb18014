use vstd::prelude::*;

verus! {

/// Search scores and their special values.
pub struct Score;

/// The moves to mate a mate score stands for, positive when the side to move mates: half the
/// plies to mate, rounded up.
pub open spec fn mate_moves(score: int) -> int {
    let a = if score >= 0 { score } else { -score };
    let moves = half_toward_zero(32000 - a + 1);
    if score > 0 { moves } else { -moves }
}

/// Integer division by two rounding toward zero.
pub open spec fn half_toward_zero(x: int) -> int {
    if x >= 0 {
        x / 2
    } else {
        -((-x) / 2)
    }
}

impl Score {
    pub const ZERO: i32 = 0;

    /// No score: the search was stopped.
    pub const NONE: i32 = 32002;

    /// Above every real score.
    pub const INF: i32 = 32001;

    /// The score of mating right now.
    pub const MATE: i32 = 32000;

    /// Scores at least this far from zero are mates (`MATE - MAX_PLY`).
    pub const MATE_IN_MAX: i32 = 31744;

    /// The score of being mated `ply` plies from the root.
    pub fn mated_in(ply: i32) -> (s: i32)
        requires
            ply >= i32::MIN + 32000,
        ensures
            s == ply - 32000,
    {
        ply - Self::MATE
    }

    /// Full moves until mate for a mate score: positive when delivering mate, negative when
    /// receiving it.
    pub fn score_to_mate_moves(score: i32) -> (m: i32)
        requires
            score != i32::MIN,
        ensures
            m == mate_moves(score as int),
    {
        let a: i32 = if score >= 0 { score } else { -score };
        let dst: i32 = Self::MATE - a;
        let v: i32 = dst + 1;
        let moves: i32 = if v >= 0 { v / 2 } else { -((-v) / 2) };
        if score > 0 { moves } else { -moves }
    }
}

} // verus!
