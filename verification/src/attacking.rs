pub mod magic_utils;
pub mod not_magical;

use vstd::prelude::*;
use crate::attacking::magic_utils::{bishop_attacks, rook_attacks};
use crate::attacking::not_magical::{king_attacks, knight_attacks, pawn_attacks};
use crate::types::bitboard::{Bitboard, bit, group_bits};
use crate::types::color::Color;
use crate::types::square::{Square, rank_of, file_of, square_at, on_board};

verus! {

broadcast use group_bits;

/// Absolute value.
pub open spec fn abs_int(x: int) -> int {
    if x >= 0 {
        x
    } else {
        -x
    }
}

/// `n` steps along a unit direction component `d` (-1, 0 or 1).
pub open spec fn offset(n: int, d: int) -> int {
    if d == 1 {
        n
    } else if d == -1 {
        -n
    } else {
        0
    }
}

/// One of the eight directions a slider moves in.
pub open spec fn valid_dir(dr: int, df: int) -> bool {
    -1 <= dr <= 1 && -1 <= df <= 1 && (dr != 0 || df != 0)
}

/// Steps from `s` to `t` along direction (`dr`, `df`), measured on a moving coordinate.
pub open spec fn ray_dist(s: int, t: int, dr: int, df: int) -> int {
    if dr == 1 {
        rank_of(t) - rank_of(s)
    } else if dr == -1 {
        rank_of(s) - rank_of(t)
    } else if df == 1 {
        file_of(t) - file_of(s)
    } else {
        file_of(s) - file_of(t)
    }
}

/// Whether `t` is one or more steps away from `s` in direction (`dr`, `df`).
pub open spec fn on_ray(s: int, t: int, dr: int, df: int) -> bool {
    let n = ray_dist(s, t, dr, df);
    &&& 0 <= t < 64
    &&& n >= 1
    &&& rank_of(t) == rank_of(s) + offset(n, dr)
    &&& file_of(t) == file_of(s) + offset(n, df)
}

/// A slider on `s` moving in direction (`dr`, `df`) reaches `t`: no square before `t` on the
/// ray is occupied in `occ` (`t` itself may be).
pub open spec fn slider_reaches(s: int, t: int, occ: u64, dr: int, df: int) -> bool {
    &&& on_ray(s, t, dr, df)
    &&& forall|u: int|
        #![trigger bit(occ, u), on_ray(s, u, dr, df)]
        on_ray(s, u, dr, df) && ray_dist(s, u, dr, df) < ray_dist(s, t, dr, df) ==> !bit(occ, u)
}

/// Squares a rook on `s` attacks through `occ`.
pub open spec fn rook_reaches(s: int, t: int, occ: u64) -> bool {
    slider_reaches(s, t, occ, 1, 0) || slider_reaches(s, t, occ, -1, 0) || slider_reaches(
        s,
        t,
        occ,
        0,
        1,
    ) || slider_reaches(s, t, occ, 0, -1)
}

/// Squares a bishop on `s` attacks through `occ`.
pub open spec fn bishop_reaches(s: int, t: int, occ: u64) -> bool {
    slider_reaches(s, t, occ, 1, 1) || slider_reaches(s, t, occ, 1, -1) || slider_reaches(
        s,
        t,
        occ,
        -1,
        1,
    ) || slider_reaches(s, t, occ, -1, -1)
}

/// A knight on `s` attacks `t`: two squares one way and one the other.
pub open spec fn knight_hop(s: int, t: int) -> bool {
    let dr = abs_int(rank_of(t) - rank_of(s));
    let df = abs_int(file_of(t) - file_of(s));
    0 <= t < 64 && ((dr == 1 && df == 2) || (dr == 2 && df == 1))
}

/// A king on `s` attacks `t`: an adjacent square.
pub open spec fn king_step(s: int, t: int) -> bool {
    0 <= t < 64 && t != s && abs_int(rank_of(t) - rank_of(s)) <= 1 && abs_int(file_of(t) - file_of(s))
        <= 1
}

/// A pawn of color `c` (0 white, 1 black) on `s` attacks `t`: diagonally forward.
pub open spec fn pawn_hit(s: int, t: int, c: int) -> bool {
    0 <= t < 64 && rank_of(t) == rank_of(s) + (if c == 0 { 1int } else { -1int }) && abs_int(
        file_of(t) - file_of(s),
    ) == 1
}

/// `u` lies strictly between `a` and `b` on a rank, file or diagonal through both.
pub open spec fn dir_between(a: int, b: int, u: int, dr: int, df: int) -> bool {
    on_ray(a, b, dr, df) && on_ray(a, u, dr, df) && ray_dist(a, u, dr, df) < ray_dist(a, b, dr, df)
}

/// `u` lies strictly between `a` and `b` on a rank, file or diagonal through both.
pub open spec fn strictly_between(a: int, b: int, u: int) -> bool {
    dir_between(a, b, u, 1, 0) || dir_between(a, b, u, -1, 0) || dir_between(a, b, u, 0, 1)
        || dir_between(a, b, u, 0, -1) || dir_between(a, b, u, 1, 1) || dir_between(a, b, u, 1, -1)
        || dir_between(a, b, u, -1, 1) || dir_between(a, b, u, -1, -1)
}

/// `u` lies on the full line through `a` and `b` in direction (`dr`, `df`).
pub open spec fn dir_line(a: int, b: int, u: int, dr: int, df: int) -> bool {
    on_ray(a, b, dr, df) && (u == a || on_ray(a, u, dr, df) || on_ray(a, u, -dr, -df))
}

/// `u` lies on the rank, file or diagonal through two distinct aligned squares `a` and `b`.
pub open spec fn on_line(a: int, b: int, u: int) -> bool {
    dir_line(a, b, u, 1, 0) || dir_line(a, b, u, -1, 0) || dir_line(a, b, u, 0, 1) || dir_line(
        a,
        b,
        u,
        0,
        -1,
    ) || dir_line(a, b, u, 1, 1) || dir_line(a, b, u, 1, -1) || dir_line(a, b, u, -1, 1)
        || dir_line(a, b, u, -1, -1)
}

/// The squares a king on `square` attacks.
pub fn get_king_attacks(square: Square) -> (b: Bitboard)
    requires
        square.valid(),
    ensures
        forall|t: int| 0 <= t < 64 ==> #[trigger] bit(b.0, t) == king_step(square.0 as int, t),
{
    king_attacks(square)
}

/// The squares a pawn of `color` on `square` attacks.
pub fn get_pawn_attacks(square: Square, color: Color) -> (b: Bitboard)
    requires
        square.valid(),
    ensures
        forall|t: int| 0 <= t < 64 ==> #[trigger] bit(b.0, t) == pawn_hit(square.0 as int, t, color.idx()),
{
    pawn_attacks(square, color)
}

/// The squares a knight on `square` attacks.
pub fn get_knight_attacks(square: Square) -> (b: Bitboard)
    requires
        square.valid(),
    ensures
        forall|t: int| 0 <= t < 64 ==> #[trigger] bit(b.0, t) == knight_hop(square.0 as int, t),
{
    knight_attacks(square)
}

/// The squares a bishop on `square` attacks through `occupancy`.
pub fn get_bishop_attacks(square: Square, occupancy: Bitboard) -> (b: Bitboard)
    requires
        square.valid(),
    ensures
        forall|t: int| 0 <= t < 64 ==> #[trigger] bit(b.0, t) == bishop_reaches(square.0 as int, t, occupancy.0),
{
    bishop_attacks(square, occupancy)
}

/// The squares a rook on `square` attacks through `occupancy`.
pub fn get_rook_attacks(square: Square, occupancy: Bitboard) -> (b: Bitboard)
    requires
        square.valid(),
    ensures
        forall|t: int| 0 <= t < 64 ==> #[trigger] bit(b.0, t) == rook_reaches(square.0 as int, t, occupancy.0),
{
    rook_attacks(square, occupancy)
}

/// The squares a queen on `square` attacks through `occupancy`.
pub fn get_queen_attacks(square: Square, occupancy: Bitboard) -> (b: Bitboard)
    requires
        square.valid(),
    ensures
        forall|t: int|
            0 <= t < 64 ==> #[trigger] bit(b.0, t) == (bishop_reaches(square.0 as int, t, occupancy.0)
                || rook_reaches(square.0 as int, t, occupancy.0)),
{
    let bb = bishop_attacks(square, occupancy);
    let rb = rook_attacks(square, occupancy);
    Bitboard(bb.0 | rb.0)
}

/// Warms up every attack lookup once.
pub fn initialize_lookups() {
    let _ = rook_attacks(Square(0), Bitboard(0));
    let _ = bishop_attacks(Square(0), Bitboard(0));
    let _ = king_attacks(Square(0));
    let _ = knight_attacks(Square(0));
    let _ = pawn_attacks(Square(8), Color::White);
}

} // verus!
