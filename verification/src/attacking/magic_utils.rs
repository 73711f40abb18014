pub mod generate_tables;

use vstd::prelude::*;
use crate::attacking::{rook_reaches, bishop_reaches};
use crate::attacking::magic_utils::generate_tables::{bishop_attacks_slow, rook_attacks_slow};
use crate::types::bitboard::{Bitboard, bit, group_bits, lemma_lowest_bit, lemma_bit_single, popcount, lemma_popcount_clear_lowest};
use vstd::std_specs::bits::u64_trailing_zeros;
use crate::types::square::Square;

verus! {

/// The squares a rook on `square` attacks through `occ`.
pub fn rook_attacks(square: Square, occ: Bitboard) -> (b: Bitboard)
    requires
        square.valid(),
    ensures
        forall|t: int| 0 <= t < 64 ==> #[trigger] bit(b.0, t) == rook_reaches(square.0 as int, t, occ.0),
{
    rook_attacks_slow(square, occ)
}

/// The squares a bishop on `square` attacks through `occ`.
pub fn bishop_attacks(square: Square, occ: Bitboard) -> (b: Bitboard)
    requires
        square.valid(),
    ensures
        forall|t: int| 0 <= t < 64 ==> #[trigger] bit(b.0, t) == bishop_reaches(square.0 as int, t, occ.0),
{
    bishop_attacks_slow(square, occ)
}

/// How many squares of `mask` lie below square `t`.
pub open spec fn below(mask: u64, t: int) -> nat
    decreases t,
{
    if t <= 0 {
        0
    } else {
        below(mask, t - 1) + if bit(mask, t - 1) { 1nat } else { 0nat }
    }
}

/// Bit `i` of a 32-bit index.
pub open spec fn index_bit(index: u32, i: int) -> bool {
    0 <= i < 32 && (index >> (i as u32)) & 1u32 == 1u32
}

/// The count below a square grows by the squares of the mask in between.
proof fn lemma_below_grows(mask: u64, a: int, b: int)
    requires
        0 <= a <= b,
    ensures
        below(mask, a) <= below(mask, b),
        a < b && bit(mask, a) ==> below(mask, a) < below(mask, b),
    decreases b - a,
{
    if a < b {
        lemma_below_grows(mask, a, b - 1);
    }
}

/// Below a square with a positive count lies a square of the mask whose count is one less.
proof fn lemma_below_last(mask: u64, s: int)
    requires
        0 <= s,
        below(mask, s) > 0,
    ensures
        exists|u: int| 0 <= u < s && #[trigger] bit(mask, u) && below(mask, u) + 1 == below(mask, s),
    decreases s,
{
    if bit(mask, s - 1) {
        assert(bit(mask, s - 1) && below(mask, s - 1) + 1 == below(mask, s));
    } else {
        lemma_below_last(mask, s - 1);
        let u = choose|u: int| 0 <= u < s - 1 && #[trigger] bit(mask, u) && below(mask, u) + 1 == below(mask, s - 1);
        assert(bit(mask, u) && below(mask, u) + 1 == below(mask, s));
    }
}

/// The occupancy numbered `index` among the subsets of `mask`: the `i`-th square of the mask,
/// from the lowest, is taken when bit `i` of the index is set.
pub fn index_to_occupancy(index: u32, mask: Bitboard) -> (occ: Bitboard)
    requires
        below(mask.0, 64) <= 32,
    ensures
        forall|t: int|
            0 <= t < 64 ==> #[trigger] bit(occ.0, t) == (bit(mask.0, t) && index_bit(index, below(mask.0, t) as int)),
{
    broadcast use group_bits;
    let ghost mk = mask.0;
    let mut occ: u64 = 0;
    let mut m = mask.0;
    let mut i: u32 = 0;
    proof {
        assert forall|t: int| #[trigger] bit(m, t) == (bit(mk, t) && below(mk, t) >= i) by {}
    }
    while m != 0
        invariant
            mk == mask.0,
            below(mk, 64) <= 32,
            forall|t: int| #[trigger] bit(m, t) == (bit(mk, t) && below(mk, t) >= i),
            forall|t: int|
                0 <= t < 64 ==> #[trigger] bit(occ, t) == (bit(mk, t) && below(mk, t) < i && index_bit(
                    index,
                    below(mk, t) as int,
                )),
        decreases popcount(m),
    {
        let ghost m0 = m;
        let ghost occ0 = occ;
        proof {
            lemma_lowest_bit(m);
            lemma_popcount_clear_lowest(m);
        }
        let sq = m.trailing_zeros();
        let ghost s = sq as int;
        proof {
            assert(bit(m, s));
            assert(bit(mk, s) && below(mk, s) >= i);
            if below(mk, s) > i {
                lemma_below_last(mk, s);
                let u = choose|u: int| 0 <= u < s && #[trigger] bit(mk, u) && below(mk, u) + 1 == below(mk, s);
                assert(bit(m, u));
            }
            assert(below(mk, s) == i);
            lemma_below_grows(mk, s, 64);
            assert(i < 32);
        }
        m = m & (m - 1);
        if (index >> i) & 1 != 0 {
            let shift: u64 = sq as u64;
            occ = occ | (1u64 << shift);
        }
        proof {
            assert(index_bit(index, i as int) == ((index >> i) & 1 != 0)) by {
                assert((index >> i) & 1u32 == 1u32 <==> (index >> i) & 1u32 != 0u32) by (bit_vector);
            }
            assert(occ == if index_bit(index, i as int) { occ0 | (1u64 << (sq as u64)) } else { occ0 });
            assert forall|t: int| #[trigger] bit(m, t) == (bit(mk, t) && below(mk, t) >= i + 1) by {
                if bit(mk, t) && t != s && 0 <= t {
                    if t < s {
                        lemma_below_grows(mk, t, s);
                    } else {
                        lemma_below_grows(mk, s, t);
                    }
                }
            }
            assert forall|t: int|
                0 <= t < 64 implies #[trigger] bit(occ, t) == (bit(mk, t) && below(mk, t) < i + 1 && index_bit(
                    index,
                    below(mk, t) as int,
                )) by {
                lemma_bit_single(sq as u64, t);
                if index_bit(index, i as int) {
                    crate::types::bitboard::lemma_bit_or(occ0, 1u64 << (sq as u64), t);
                    assert(bit(occ, t) == (bit(occ0, t) || t == s));
                } else {
                    assert(bit(occ, t) == bit(occ0, t));
                }
                if bit(mk, t) && t != s {
                    if t < s {
                        lemma_below_grows(mk, t, s);
                    } else {
                        lemma_below_grows(mk, s, t);
                    }
                }
            }
        }
        i = i + 1;
    }
    proof {
        assert forall|t: int| 0 <= t < 64 && bit(mk, t) implies below(mk, t) < i by {
            assert(!bit(m, t));
        }
    }
    Bitboard(occ)
}

} // verus!
