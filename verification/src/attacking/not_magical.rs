use vstd::prelude::*;
use crate::attacking::{knight_hop, king_step, pawn_hit, abs_int};
use crate::types::bitboard::{Bitboard, bit, group_bits};
use crate::types::color::Color;
use crate::types::square::{Square, rank_of, file_of, square_at, on_board};

verus! {

broadcast use group_bits;

/// A square index is determined by its rank and file.
pub proof fn lemma_square_coords(t: int, r: int, f: int)
    requires
        0 <= t < 64,
        on_board(r, f),
    ensures
        (t == square_at(r, f)) == (rank_of(t) == r && file_of(t) == f),
        0 <= square_at(r, f) < 64,
        rank_of(square_at(r, f)) == r,
        file_of(square_at(r, f)) == f,
{
}

/// Adds the square (`rank` + `dr`, `file` + `df`) to `acc` if it is on the board.
fn add_target(acc: u64, rank: i8, file: i8, dr: i8, df: i8) -> (res: u64)
    requires
        0 <= rank < 8,
        0 <= file < 8,
        -2 <= dr <= 2,
        -2 <= df <= 2,
    ensures
        forall|t: int|
            0 <= t < 64 ==> #[trigger] bit(res, t) == (bit(acc, t) || (on_board(rank + dr, file + df)
                && rank_of(t) == rank + dr && file_of(t) == file + df)),
{
    let r = rank + dr;
    let f = file + df;
    if 0 <= r && r < 8 && 0 <= f && f < 8 {
        let s = Square::get_board_square(r as u8, f as u8);
        assert forall|t: int| 0 <= t < 64 implies #[trigger] bit(acc | (1u64 << (s.0 as u64)), t) == (bit(
            acc,
            t,
        ) || (on_board(rank + dr, file + df) && rank_of(t) == rank + dr && file_of(t) == file
            + df)) by {
            lemma_square_coords(t, r as int, f as int);
        }
        acc | (1u64 << (s.0 as u64))
    } else {
        acc
    }
}

/// The squares a knight on `sq` attacks, from its eight jumps.
fn knight_attacks_slow(sq: Square) -> (b: Bitboard)
    requires
        sq.valid(),
    ensures
        forall|t: int| 0 <= t < 64 ==> #[trigger] bit(b.0, t) == knight_hop(sq.0 as int, t),
{
    let rank = (sq.0 / 8) as i8;
    let file = (sq.0 % 8) as i8;
    let mut attacks: u64 = 0;
    attacks = add_target(attacks, rank, file, -2, -1);
    attacks = add_target(attacks, rank, file, -2, 1);
    attacks = add_target(attacks, rank, file, -1, -2);
    attacks = add_target(attacks, rank, file, -1, 2);
    attacks = add_target(attacks, rank, file, 1, -2);
    attacks = add_target(attacks, rank, file, 1, 2);
    attacks = add_target(attacks, rank, file, 2, -1);
    attacks = add_target(attacks, rank, file, 2, 1);
    Bitboard(attacks)
}

/// The squares a king on `sq` attacks, from its eight steps.
fn king_attacks_slow(sq: Square) -> (b: Bitboard)
    requires
        sq.valid(),
    ensures
        forall|t: int| 0 <= t < 64 ==> #[trigger] bit(b.0, t) == king_step(sq.0 as int, t),
{
    let rank = (sq.0 / 8) as i8;
    let file = (sq.0 % 8) as i8;
    let mut attacks: u64 = 0;
    attacks = add_target(attacks, rank, file, -1, -1);
    attacks = add_target(attacks, rank, file, -1, 0);
    attacks = add_target(attacks, rank, file, -1, 1);
    attacks = add_target(attacks, rank, file, 0, -1);
    attacks = add_target(attacks, rank, file, 0, 1);
    attacks = add_target(attacks, rank, file, 1, -1);
    attacks = add_target(attacks, rank, file, 1, 0);
    attacks = add_target(attacks, rank, file, 1, 1);
    Bitboard(attacks)
}

/// The squares a pawn of `color` on `sq` attacks: one rank forward, one file aside.
fn pawn_attacks_slow(sq: Square, color: Color) -> (b: Bitboard)
    requires
        sq.valid(),
    ensures
        forall|t: int| 0 <= t < 64 ==> #[trigger] bit(b.0, t) == pawn_hit(sq.0 as int, t, color.idx()),
{
    let rank = (sq.0 / 8) as i8;
    let file = (sq.0 % 8) as i8;
    let dir: i8 = if color == Color::White { 1 } else { -1 };
    let mut attacks: u64 = 0;
    attacks = add_target(attacks, rank, file, dir, -1);
    attacks = add_target(attacks, rank, file, dir, 1);
    Bitboard(attacks)
}

/// The squares a knight on `sq` attacks.
pub fn knight_attacks(sq: Square) -> (b: Bitboard)
    requires
        sq.valid(),
    ensures
        forall|t: int| 0 <= t < 64 ==> #[trigger] bit(b.0, t) == knight_hop(sq.0 as int, t),
{
    knight_attacks_slow(sq)
}

/// The squares a king on `sq` attacks.
pub fn king_attacks(sq: Square) -> (b: Bitboard)
    requires
        sq.valid(),
    ensures
        forall|t: int| 0 <= t < 64 ==> #[trigger] bit(b.0, t) == king_step(sq.0 as int, t),
{
    king_attacks_slow(sq)
}

/// The squares a pawn of `color` on `sq` attacks.
pub fn pawn_attacks(sq: Square, color: Color) -> (b: Bitboard)
    requires
        sq.valid(),
    ensures
        forall|t: int| 0 <= t < 64 ==> #[trigger] bit(b.0, t) == pawn_hit(sq.0 as int, t, color.idx()),
{
    pawn_attacks_slow(sq, color)
}

} // verus!
