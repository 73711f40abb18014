use vstd::prelude::*;
use crate::attacking::{
    offset, on_ray, ray_dist, slider_reaches, rook_reaches, bishop_reaches, valid_dir,
};
use crate::attacking::not_magical::lemma_square_coords;
use crate::types::bitboard::{Bitboard, bit, group_bits};
use crate::types::square::{Square, rank_of, file_of, square_at, on_board};

verus! {

broadcast use group_bits;

/// Adds to `acc` the squares a slider on `sq` reaches in direction (`dr`, `df`): every square
/// up to and including the first occupied one.
fn slide(acc: u64, sq: Square, dr: i32, df: i32, occ: Bitboard) -> (res: u64)
    requires
        sq.valid(),
        valid_dir(dr as int, df as int),
    ensures
        forall|t: int|
            0 <= t < 64 ==> #[trigger] bit(res, t) == (bit(acc, t) || slider_reaches(
                sq.0 as int,
                t,
                occ.0,
                dr as int,
                df as int,
            )),
{
    let ghost s = sq.0 as int;
    let rank = (sq.0 / 8) as i32;
    let file = (sq.0 % 8) as i32;
    let mut attacks = acc;
    let mut r = rank + dr;
    let mut f = file + df;
    let ghost mut n: int = 1;
    loop
        invariant
            valid_dir(dr as int, df as int),
            0 <= s < 64,
            s == sq.0 as int,
            rank == rank_of(s),
            file == file_of(s),
            1 <= n <= 8,
            r == rank + offset(n, dr as int),
            f == file + offset(n, df as int),
            n >= 2 ==> on_board(rank + offset(n - 1, dr as int), file + offset(n - 1, df as int)),
            forall|t: int|
                0 <= t < 64 ==> #[trigger] bit(attacks, t) == (bit(acc, t) || (on_ray(
                    s,
                    t,
                    dr as int,
                    df as int,
                ) && ray_dist(s, t, dr as int, df as int) < n)),
            forall|t: int|
                0 <= t < 64 && on_ray(s, t, dr as int, df as int) && ray_dist(s, t, dr as int, df as int)
                    < n ==> !#[trigger] bit(occ.0, t),
        decreases 8 - n,
    {
        if !(0 <= r && r < 8 && 0 <= f && f < 8) {
            assert forall|t: int| 0 <= t < 64 implies #[trigger] bit(attacks, t) == (bit(acc, t)
                || slider_reaches(s, t, occ.0, dr as int, df as int)) by {
                if on_ray(s, t, dr as int, df as int) {
                    let m = ray_dist(s, t, dr as int, df as int);
                    if m >= n {
                        assert(on_board(r as int, f as int));
                    }
                }
            }
            return attacks;
        }
        let cur = Square::get_board_square(r as u8, f as u8);
        proof {
            lemma_square_coords(cur.0 as int, r as int, f as int);
            assert(on_ray(s, cur.0 as int, dr as int, df as int));
            assert(ray_dist(s, cur.0 as int, dr as int, df as int) == n);
        }
        let ghost prev = attacks;
        attacks = attacks | (1u64 << (cur.0 as u64));
        assert forall|t: int| 0 <= t < 64 implies #[trigger] bit(attacks, t) == (bit(acc, t) || (
        on_ray(s, t, dr as int, df as int) && ray_dist(s, t, dr as int, df as int) < n + 1)) by {
            assert(bit(attacks, t) == (bit(prev, t) || t == cur.0));
            if on_ray(s, t, dr as int, df as int) && ray_dist(s, t, dr as int, df as int) == n {
                lemma_square_coords(t, r as int, f as int);
            }
        }
        if occ.contains(cur) {
            assert forall|t: int| 0 <= t < 64 implies #[trigger] bit(attacks, t) == (bit(acc, t)
                || slider_reaches(s, t, occ.0, dr as int, df as int)) by {
                if on_ray(s, t, dr as int, df as int) && ray_dist(s, t, dr as int, df as int) > n {
                    assert(on_ray(s, cur.0 as int, dr as int, df as int) && bit(occ.0, cur.0 as int));
                }
            }
            return attacks;
        }
        r = r + dr;
        f = f + df;
        proof {
            n = n + 1;
        }
    }
}

/// The squares a rook on `sq` attacks through `occ`, walking its four rays.
pub fn rook_attacks_slow(sq: Square, occ: Bitboard) -> (b: Bitboard)
    requires
        sq.valid(),
    ensures
        forall|t: int| 0 <= t < 64 ==> #[trigger] bit(b.0, t) == rook_reaches(sq.0 as int, t, occ.0),
{
    let mut attacks: u64 = 0;
    attacks = slide(attacks, sq, 1, 0, occ);
    attacks = slide(attacks, sq, -1, 0, occ);
    attacks = slide(attacks, sq, 0, 1, occ);
    attacks = slide(attacks, sq, 0, -1, occ);
    Bitboard(attacks)
}

/// The squares a bishop on `sq` attacks through `occ`, walking its four rays.
pub fn bishop_attacks_slow(sq: Square, occ: Bitboard) -> (b: Bitboard)
    requires
        sq.valid(),
    ensures
        forall|t: int| 0 <= t < 64 ==> #[trigger] bit(b.0, t) == bishop_reaches(sq.0 as int, t, occ.0),
{
    let mut attacks: u64 = 0;
    attacks = slide(attacks, sq, 1, 1, occ);
    attacks = slide(attacks, sq, 1, -1, occ);
    attacks = slide(attacks, sq, -1, 1, occ);
    attacks = slide(attacks, sq, -1, -1, occ);
    Bitboard(attacks)
}

} // verus!
