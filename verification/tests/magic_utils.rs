use eeternal_rs::attacking::magic_utils::generate_tables::{bishop_attacks_slow, rook_attacks_slow};
use eeternal_rs::attacking::magic_utils::{bishop_attacks, index_to_occupancy, rook_attacks};
use eeternal_rs::types::bitboard::Bitboard;
use eeternal_rs::types::square::Square;

#[test]
fn magic_tables_match_slow_attacks() {
    for sq_idx in 0..64u8 {
        let sq = Square::new(sq_idx);
        for occ_raw in [0u64, u64::MAX, 0x0000_FFFF_0000_FFFF] {
            let occ = Bitboard(occ_raw);
            assert_eq!(rook_attacks(sq, occ), rook_attacks_slow(sq, occ));
            assert_eq!(bishop_attacks(sq, occ), bishop_attacks_slow(sq, occ));
        }
    }
}

#[test]
fn rook_on_empty_board_sees_fourteen_squares() {
    for sq_idx in 0..64u8 {
        let attacks = rook_attacks(Square::new(sq_idx), Bitboard(0));
        assert_eq!(attacks.0.count_ones(), 14);
    }
}

#[test]
fn bishop_in_corner_sees_long_diagonal() {
    let attacks = bishop_attacks(Square::new(0), Bitboard(0));
    assert_eq!(attacks.0, 0x8040_2010_0804_0200);
}

#[test]
fn rook_stops_at_blockers() {
    // rook on a1, blockers on a3 and c1
    let occ = Bitboard((1u64 << 16) | (1u64 << 2));
    let attacks = rook_attacks(Square::new(0), occ);
    assert_eq!(attacks.0, (1u64 << 8) | (1u64 << 16) | (1u64 << 1) | (1u64 << 2));
}

#[test]
fn index_bits_pick_mask_squares_from_the_lowest() {
    let mask = Bitboard((1u64 << 3) | (1u64 << 10) | (1u64 << 20));
    assert_eq!(index_to_occupancy(0, mask).0, 0);
    assert_eq!(index_to_occupancy(0b101, mask).0, (1u64 << 3) | (1u64 << 20));
    assert_eq!(index_to_occupancy(0b010, mask).0, 1u64 << 10);
    assert_eq!(index_to_occupancy(0b111, mask).0, mask.0);
    assert_eq!(index_to_occupancy(0b1000, mask).0, 0);
    assert_eq!(index_to_occupancy(5, Bitboard(0)).0, 0);
}
