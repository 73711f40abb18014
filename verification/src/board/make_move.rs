use vstd::prelude::*;
use crate::attacking::{
    get_bishop_attacks, get_king_attacks, get_knight_attacks, get_pawn_attacks,
    get_queen_attacks, get_rook_attacks, pawn_hit, knight_hop, king_step, bishop_reaches,
    rook_reaches, strictly_between,
};
use crate::board::threat_update::{no_slider_check, threats_refreshed, lemma_threats_after_move};
use crate::board::{Board, BoardState, material_sum, lemma_material_sum_update, lemma_material_sum_bound, state_in_range, pieces_hash, ep_term, side_term, castle_term, lemma_xor_rules};
use crate::types::bitboard::{
    Bitboard, bit, group_bits, lemma_bits_ext, lemma_bit_zero, lemma_bit_single, popcount,
    lemma_popcount_zero, lemma_popcount_one, lemma_single_popcount,
};
use vstd::std_specs::bits::u64_trailing_zeros;
use crate::types::castling::{castling_rook_squares, castling_rights, spec_rook_squares, spec_rights_mask};
use crate::types::color::{Color, color_of};
use crate::types::moves::{Move, MoveFlag};
use crate::types::piece::{Piece, PieceType, piece_of_index};
use crate::types::square::Square;
use crate::types::{up_dir, spec_up_dir};

verus! {

broadcast use group_bits;

/// The square of the pawn taken by an en passant capture landing on `to`.
pub open spec fn ep_victim(to: int, stm: int) -> int {
    to - spec_up_dir(stm)
}

/// Origin of the rook in a castling move of side `stm`.
pub open spec fn rook_from(stm: int, mv: Move) -> int {
    spec_rook_squares(color_of(stm), mv.code() == 2).0
}

/// Destination of the rook in a castling move of side `stm`.
pub open spec fn rook_to(stm: int, mv: Move) -> int {
    spec_rook_squares(color_of(stm), mv.code() == 2).1
}

/// The pawn of side `stm`.
pub open spec fn pawn_of(stm: int) -> Piece {
    piece_of_index(stm)
}

/// The piece a move leaves on its destination: the promoted piece, or the mover.
pub open spec fn landing_piece(s: Seq<Piece>, mv: Move, stm: int) -> Piece {
    if mv.spec_is_promotion() && !mv.spec_is_castling() {
        piece_of_index(2 * mv.spec_promotion_type() + stm)
    } else {
        s[mv.from_idx()]
    }
}

/// The piece a move takes, if any.
pub open spec fn taken_piece(s: Seq<Piece>, mv: Move, stm: int) -> Piece {
    if mv.spec_is_castling() {
        Piece::NoPiece
    } else if mv.spec_is_en_passant() {
        s[ep_victim(mv.to_idx(), stm)]
    } else if mv.spec_is_capture() {
        s[mv.to_idx()]
    } else {
        Piece::NoPiece
    }
}

/// The pieces after side `stm` plays `mv`.
pub open spec fn make_placement(s: Seq<Piece>, mv: Move, stm: int) -> Seq<Piece> {
    let from = mv.from_idx();
    let to = mv.to_idx();
    if mv.spec_is_castling() {
        s.update(from, Piece::NoPiece).update(to, s[from]).update(rook_from(stm, mv), Piece::NoPiece).update(
            rook_to(stm, mv),
            s[rook_from(stm, mv)],
        )
    } else if mv.spec_is_en_passant() {
        s.update(from, Piece::NoPiece).update(to, s[from]).update(ep_victim(to, stm), Piece::NoPiece)
    } else {
        s.update(from, Piece::NoPiece).update(to, landing_piece(s, mv, stm))
    }
}

/// The pieces after side `stm` takes back `mv`, which had taken `captured`.
pub open spec fn unmake_placement(s: Seq<Piece>, mv: Move, stm: int, captured: Piece) -> Seq<Piece> {
    let from = mv.from_idx();
    let to = mv.to_idx();
    if mv.spec_is_castling() {
        s.update(to, Piece::NoPiece).update(rook_to(stm, mv), Piece::NoPiece).update(from, s[to]).update(
            rook_from(stm, mv),
            s[rook_to(stm, mv)],
        )
    } else {
        let restored = if mv.spec_is_promotion() {
            pawn_of(stm)
        } else {
            s[to]
        };
        let s1 = s.update(to, Piece::NoPiece).update(from, restored);
        if mv.spec_is_en_passant() {
            s1.update(ep_victim(to, stm), captured)
        } else if mv.spec_is_capture() {
            s1.update(to, captured)
        } else {
            s1
        }
    }
}

/// The en passant square a move leaves behind.
pub open spec fn ep_after(mv: Move) -> int {
    if mv.code() == 1 {
        (mv.from_idx() + mv.to_idx()) / 2
    } else {
        64
    }
}

/// The squares a piece of color `c` and kind `k` on `s` attacks through `occ` (`t` among them?).
pub open spec fn piece_attacks(c: int, k: int, s: int, occ: u64, t: int) -> bool {
    if k == 0 {
        pawn_hit(s, t, c)
    } else if k == 1 {
        knight_hop(s, t)
    } else if k == 2 {
        bishop_reaches(s, t, occ)
    } else if k == 3 {
        rook_reaches(s, t, occ)
    } else if k == 4 {
        bishop_reaches(s, t, occ) || rook_reaches(s, t, occ)
    } else {
        king_step(s, t)
    }
}

/// Some piece of color `c` and kind `k` standing on a square of `set` attacks `t` through `occ`.
pub open spec fn attacked_from(set: u64, c: int, k: int, occ: u64, t: int) -> bool {
    exists|s: int| 0 <= s < 64 && #[trigger] bit(set, s) && piece_attacks(c, k, s, occ, t)
}

/// The union of the attack sets of the six kinds of one color.
pub open spec fn union6(a: [Bitboard; 6]) -> u64 {
    ((((((0u64 | a[0].0) | a[1].0) | a[2].0) | a[3].0) | a[4].0) | a[5].0)
}

/// The squares a piece of `color` and kind `piece_type` on `sq` attacks through `occ`.
pub(crate) fn attacks_for(color: Color, piece_type: PieceType, sq: Square, occ: Bitboard) -> (b: Bitboard)
    requires
        piece_type != PieceType::NoType,
        sq.valid(),
    ensures
        forall|t: int|
            0 <= t < 64 ==> #[trigger] bit(b.0, t) == piece_attacks(
                color.idx(),
                piece_type.idx(),
                sq.0 as int,
                occ.0,
                t,
            ),
{
    match piece_type {
        PieceType::Pawn => get_pawn_attacks(sq, color),
        PieceType::Knight => get_knight_attacks(sq),
        PieceType::King => get_king_attacks(sq),
        PieceType::Bishop => get_bishop_attacks(sq, occ),
        PieceType::Rook => get_rook_attacks(sq, occ),
        _ => get_queen_attacks(sq, occ),
    }
}

/// The union of the attacks of pieces of `color` and kind `piece_type` on the squares of `set`.
pub fn bucket_attacks(set: Bitboard, color: Color, piece_type: PieceType, occ: Bitboard) -> (b: Bitboard)
    requires
        piece_type != PieceType::NoType,
    ensures
        forall|t: int|
            0 <= t < 64 ==> #[trigger] bit(b.0, t) == attacked_from(
                set.0,
                color.idx(),
                piece_type.idx(),
                occ.0,
                t,
            ),
{
    let mut rem = set;
    let mut attacked: u64 = 0;
    let ghost c = color.idx();
    let ghost k = piece_type.idx();
    while rem.0 != 0
        invariant
            piece_type != PieceType::NoType,
            c == color.idx(),
            k == piece_type.idx(),
            forall|s: int| 0 <= s < 64 && #[trigger] bit(rem.0, s) ==> bit(set.0, s),
            forall|t: int|
                0 <= t < 64 ==> #[trigger] bit(attacked, t) == exists|s: int|
                    0 <= s < 64 && #[trigger] bit(set.0, s) && !bit(rem.0, s) && piece_attacks(
                        c,
                        k,
                        s,
                        occ.0,
                        t,
                    ),
        decreases crate::types::bitboard::popcount(rem.0),
    {
        let ghost old_rem = rem.0;
        let ghost old_att = attacked;
        let sq = rem.pop_lsb();
        let a = attacks_for(color, piece_type, sq, occ);
        attacked = attacked | a.0;
        assert forall|t: int| 0 <= t < 64 implies #[trigger] bit(attacked, t) == exists|s: int|
            0 <= s < 64 && #[trigger] bit(set.0, s) && !bit(rem.0, s) && piece_attacks(c, k, s, occ.0, t) by {
            if bit(old_att, t) {
                let w = choose|s: int|
                    0 <= s < 64 && #[trigger] bit(set.0, s) && !bit(old_rem, s) && piece_attacks(c, k, s, occ.0, t);
                assert(!bit(rem.0, w));
            } else if bit(a.0, t) {
                assert(bit(set.0, sq.0 as int) && !bit(rem.0, sq.0 as int));
            } else {
                if exists|s: int|
                    0 <= s < 64 && #[trigger] bit(set.0, s) && !bit(rem.0, s) && piece_attacks(c, k, s, occ.0, t) {
                    let w = choose|s: int|
                        0 <= s < 64 && #[trigger] bit(set.0, s) && !bit(rem.0, s) && piece_attacks(c, k, s, occ.0, t);
                    if w != sq.0 {
                        assert(!bit(old_rem, w));
                    }
                }
            }
        }
    }
    assert forall|t: int| 0 <= t < 64 implies #[trigger] bit(attacked, t) == attacked_from(
        set.0,
        c,
        k,
        occ.0,
        t,
    ) by {
        if attacked_from(set.0, c, k, occ.0, t) {
            let w = choose|s: int| 0 <= s < 64 && #[trigger] bit(set.0, s) && piece_attacks(c, k, s, occ.0, t);
            assert(!bit(rem.0, w));
        }
    }
    Bitboard(attacked)
}

/// A color has a king exactly when some square holds its king.
pub proof fn lemma_has_king(b: Board, c: int)
    requires
        b.placement_ok(),
        0 <= c < 2,
    ensures
        b.has_king(c) == exists|t: int| 0 <= t < 64 && #[trigger] b.squares()[t] == piece_of_index(10 + c),
{
    if b.has_king(c) {
        crate::types::bitboard::lemma_lowest_bit(b.colored(c, 5));
        let t = vstd::std_specs::bits::u64_trailing_zeros(b.colored(c, 5)) as int;
        assert(bit(b.colored(c, 5), t));
        crate::types::piece::lemma_piece_parts(b.squares()[t]);
        assert(b.squares()[t] == piece_of_index(10 + c));
    } else {
        if exists|t: int| 0 <= t < 64 && #[trigger] b.squares()[t] == piece_of_index(10 + c) {
            let t = choose|t: int| 0 <= t < 64 && #[trigger] b.squares()[t] == piece_of_index(10 + c);
            assert(bit(b.colored(c, 5), t));
        }
    }
}

/// The material sum after a move changes by the promotion gain minus the captured value.
pub proof fn lemma_make_material(s: Seq<Piece>, mv: Move, stm: int)
    requires
        s.len() == 64,
        0 <= stm < 2,
        mv.well_formed(),
        mv.from_idx() != mv.to_idx(),
        mv.spec_is_promotion() ==> s[mv.from_idx()] == pawn_of(stm),
        mv.spec_is_castling() ==> ({
            let rf = rook_from(stm, mv);
            let rt = rook_to(stm, mv);
            rf != mv.from_idx() && rf != mv.to_idx() && rt != mv.from_idx() && rt != mv.to_idx()
                && s[mv.to_idx()] == Piece::NoPiece && s[rt] == Piece::NoPiece
        }),
        mv.spec_is_en_passant() ==> ({
            let v = ep_victim(mv.to_idx(), stm);
            0 <= v < 64 && v != mv.from_idx() && s[mv.to_idx()] == Piece::NoPiece
        }),
        !mv.spec_is_castling() && !mv.spec_is_en_passant() && !mv.spec_is_capture() ==> s[mv.to_idx()]
            == Piece::NoPiece,
    ensures
        material_sum(make_placement(s, mv, stm), 64) == material_sum(s, 64) + (if mv.spec_is_promotion()
            && !mv.spec_is_castling() {
            landing_piece(s, mv, stm).spec_value() - pawn_of(stm).spec_value()
        } else {
            0
        }) - taken_piece(s, mv, stm).spec_value(),
{
    let from = mv.from_idx();
    let to = mv.to_idx();
    if mv.spec_is_castling() {
        let rf = rook_from(stm, mv);
        let rt = rook_to(stm, mv);
        let s1 = s.update(from, Piece::NoPiece);
        let s2 = s1.update(to, s[from]);
        let s3 = s2.update(rf, Piece::NoPiece);
        lemma_material_sum_update(s, from, Piece::NoPiece, 64);
        lemma_material_sum_update(s1, to, s[from], 64);
        lemma_material_sum_update(s2, rf, Piece::NoPiece, 64);
        lemma_material_sum_update(s3, rt, s[rf], 64);
    } else if mv.spec_is_en_passant() {
        let v = ep_victim(to, stm);
        let s1 = s.update(from, Piece::NoPiece);
        let s2 = s1.update(to, s[from]);
        lemma_material_sum_update(s, from, Piece::NoPiece, 64);
        lemma_material_sum_update(s1, to, s[from], 64);
        lemma_material_sum_update(s2, v, Piece::NoPiece, 64);
    } else {
        let s1 = s.update(from, Piece::NoPiece);
        lemma_material_sum_update(s, from, Piece::NoPiece, 64);
        lemma_material_sum_update(s1, to, landing_piece(s, mv, stm), 64);
    }
}

/// A move that takes no king leaves both kings on the board.
proof fn lemma_make_kings(b0: Board, mv: Move, b1: Board)
    requires
        b0.move_ok(mv),
        b1.placement_ok(),
        b1.squares() == make_placement(b0.squares(), mv, b0.stm()),
    ensures
        b1.kings_present(),
{
    let s = b0.squares();
    let stm = b0.stm();
    assert forall|c: int| 0 <= c < 2 implies #[trigger] b1.has_king(c) by {
        lemma_has_king(b0, c);
        lemma_has_king(b1, c);
        let k = piece_of_index(10 + c);
        let t = choose|t: int| 0 <= t < 64 && #[trigger] s[t] == k;
        let from = mv.from_idx();
        let to = mv.to_idx();
        if mv.spec_is_castling() {
            let rf = rook_from(stm, mv);
            let rt = rook_to(stm, mv);
            if t == from {
                assert(b1.squares()[to] == k);
            } else if t == rf {
                assert(b1.squares()[rt] == k);
            } else {
                assert(b1.squares()[t] == k);
            }
        } else if mv.spec_is_en_passant() {
            if t == from {
                assert(b1.squares()[to] == k);
            } else {
                assert(b1.squares()[t] == k);
            }
        } else {
            if t == from {
                assert(b1.squares()[to] == k);
            } else {
                assert(b1.squares()[t] == k);
            }
        }
    }
}

/// `threats` holds the attacks of the pieces of color `c` and kind `k` on `b`, each side's
/// through the board with the enemy king taken off.
pub open spec fn bucket_fresh(threats: Bitboard, b: Board, c: int, k: int) -> bool {
    forall|t: int|
        0 <= t < 64 ==> #[trigger] bit(threats.0, t) == attacked_from(b.colored(c, k), c, k, b.occ() ^ b.colored(1 - c, 5), t)
}

/// The bishop, rook or queen on `q` that a line from `z` meets through `b`'s pieces: a rook
/// or queen along a rank or file, a bishop or queen along a diagonal.
pub open spec fn seen_slider(b: Board, z: int, q: int) -> bool {
    let k = b.squares()[q].type_idx();
    ||| rook_reaches(z, q, b.occ()) && (k == 3 || k == 4)
    ||| bishop_reaches(z, q, b.occ()) && (k == 2 || k == 4)
}

/// The squares a move changed, on the board after it (whose destination holds the mover):
/// the origin, the destination, and the taken pawn's square (en passant) or the rook's two
/// squares (castling).
pub open spec fn touched_square(b: Board, mv: Move, z: int) -> bool {
    let mc = b.squares()[mv.to_idx()].color_idx();
    ||| z == mv.from_idx()
    ||| z == mv.to_idx()
    ||| mv.spec_is_castling() && (z == rook_from(mc, mv) || z == rook_to(mc, mv))
    ||| !mv.spec_is_castling() && mv.spec_is_en_passant() && z == mv.to_idx() + spec_up_dir(1 - mc)
}

/// An enemy bishop, rook or queen on `t` faces the king of `c` along a line, seen through the
/// pieces of `c` (an enemy piece closes the line).
pub open spec fn slider_line(b: Board, c: int, t: int) -> bool {
    let k = b.king_sq(c);
    let e = 1 - c;
    let eocc = b.color_bitboards[e].0;
    ||| bishop_reaches(k, t, eocc) && (bit(b.colored(e, 2), t) || bit(b.colored(e, 4), t))
    ||| rook_reaches(k, t, eocc) && (bit(b.colored(e, 3), t) || bit(b.colored(e, 4), t))
}

/// A piece of `c` on `u` stands strictly between the king of `c` and `t`.
pub open spec fn own_between(b: Board, c: int, t: int, u: int) -> bool {
    strictly_between(b.king_sq(c), t, u) && bit(b.color_bitboards[c].0, u)
}

/// The slider on `t` gives check to the king of `c`: no piece of `c` stands between.
pub open spec fn slider_check(b: Board, c: int, t: int) -> bool {
    slider_line(b, c, t) && forall|u: int| 0 <= u < 64 ==> !#[trigger] own_between(b, c, t, u)
}

/// The slider on `t` pins the piece of `c` on `p`: it is the only piece of `c` between.
pub open spec fn pin_via(b: Board, c: int, t: int, p: int) -> bool {
    &&& slider_line(b, c, t)
    &&& own_between(b, c, t, p)
    &&& forall|u: int| 0 <= u < 64 && u != p ==> !#[trigger] own_between(b, c, t, u)
}

/// The slider on `t` pins a piece of `c`.
pub open spec fn pins(b: Board, c: int, t: int) -> bool {
    exists|p: int| 0 <= p < 64 && #[trigger] pin_via(b, c, t, p)
}

/// The piece on `t` gives check to the king of `c`: a slider with a clear line, a pawn or a
/// knight.
pub open spec fn gives_check(b: Board, c: int, t: int) -> bool {
    let k = b.king_sq(c);
    let e = 1 - c;
    ||| slider_check(b, c, t)
    ||| pawn_hit(k, t, c) && bit(b.colored(e, 0), t)
    ||| knight_hop(k, t) && bit(b.colored(e, 1), t)
}

/// The recorded checks and pins are those of the pieces: the checking pieces of the side to
/// move's king, each side's pinned pieces and the sliders pinning them.
pub open spec fn check_info_fresh(b: Board) -> bool {
    &&& forall|t: int| 0 <= t < 64 ==> #[trigger] bit(b.board_state.checkers.0, t) == gives_check(b, b.stm(), t)
    &&& forall|e: int, t: int|
        0 <= e < 2 && 0 <= t < 64 ==> #[trigger] bit(b.board_state.pinners[e].0, t) == pins(b, 1 - e, t)
    &&& forall|c: int, p: int|
        0 <= c < 2 && 0 <= p < 64 ==> #[trigger] bit(b.board_state.pinned[c].0, p) == exists|t: int|
            0 <= t < 64 && #[trigger] pin_via(b, c, t, p)
}

/// Check information computed on `b0` is fresh on `b1`, a board with the same pieces and side
/// to move.
proof fn lemma_check_info_moves(b0: Board, b1: Board)
    requires
        b1.piece_bitboards == b0.piece_bitboards,
        b1.color_bitboards == b0.color_bitboards,
        b1.half_move_number == b0.half_move_number,
        forall|t: int| 0 <= t < 64 ==> #[trigger] bit(b1.board_state.checkers.0, t) == gives_check(b0, b0.stm(), t),
        forall|e: int, t: int|
            0 <= e < 2 && 0 <= t < 64 ==> #[trigger] bit(b1.board_state.pinners[e].0, t) == pins(b0, 1 - e, t),
        forall|c: int, p: int|
            0 <= c < 2 && 0 <= p < 64 ==> #[trigger] bit(b1.board_state.pinned[c].0, p) == exists|t: int|
                0 <= t < 64 && #[trigger] pin_via(b0, c, t, p),
    ensures
        check_info_fresh(b1),
{
    assert forall|t: int| 0 <= t < 64 implies #[trigger] bit(b1.board_state.checkers.0, t) == gives_check(b1, b1.stm(), t) by {
        lemma_lines_same(b0, b1, b0.stm(), t);
    }
    assert forall|e: int, t: int|
        0 <= e < 2 && 0 <= t < 64 implies #[trigger] bit(b1.board_state.pinners[e].0, t) == pins(b1, 1 - e, t) by {
        lemma_lines_same(b0, b1, 1 - e, t);
    }
    assert forall|c: int, p: int|
        0 <= c < 2 && 0 <= p < 64 implies #[trigger] bit(b1.board_state.pinned[c].0, p) == exists|t: int|
            0 <= t < 64 && #[trigger] pin_via(b1, c, t, p) by {
        assert forall|t: int| 0 <= t < 64 implies #[trigger] pin_via(b0, c, t, p) == pin_via(b1, c, t, p) by {
            lemma_lines_same(b0, b1, c, t);
        }
        if exists|t: int| 0 <= t < 64 && #[trigger] pin_via(b0, c, t, p) {
            let t = choose|t: int| 0 <= t < 64 && #[trigger] pin_via(b0, c, t, p);
            assert(pin_via(b1, c, t, p));
        }
        if exists|t: int| 0 <= t < 64 && #[trigger] pin_via(b1, c, t, p) {
            let t = choose|t: int| 0 <= t < 64 && #[trigger] pin_via(b1, c, t, p);
            assert(pin_via(b0, c, t, p));
        }
    }
}

/// The lines of a board depend only on its pieces.
proof fn lemma_lines_same(b0: Board, b1: Board, c: int, t: int)
    requires
        b1.piece_bitboards == b0.piece_bitboards,
        b1.color_bitboards == b0.color_bitboards,
    ensures
        slider_line(b0, c, t) == slider_line(b1, c, t),
        slider_check(b0, c, t) == slider_check(b1, c, t),
        pins(b0, c, t) == pins(b1, c, t),
        gives_check(b0, c, t) == gives_check(b1, c, t),
        forall|p: int| #[trigger] pin_via(b0, c, t, p) == pin_via(b1, c, t, p),
{
    assert(b0.king_sq(c) == b1.king_sq(c));
    assert forall|u: int|
        #![trigger own_between(b0, c, t, u)]
        #![trigger own_between(b1, c, t, u)]
        own_between(b0, c, t, u) == own_between(b1, c, t, u) by {}
    assert(slider_line(b0, c, t) == slider_line(b1, c, t));
    assert forall|p: int|
        #![trigger pin_via(b0, c, t, p)]
        #![trigger pin_via(b1, c, t, p)]
        pin_via(b0, c, t, p) == pin_via(b1, c, t, p) by {}
    if pins(b0, c, t) {
        let p = choose|p: int| 0 <= p < 64 && #[trigger] pin_via(b0, c, t, p);
        assert(pin_via(b1, c, t, p));
    }
    if pins(b1, c, t) {
        let p = choose|p: int| 0 <= p < 64 && #[trigger] pin_via(b1, c, t, p);
        assert(pin_via(b0, c, t, p));
    }
}

/// The count of the pieces between the king of `c` and `t` tells a clear line (none), a pin
/// (one, and then it pins the piece on the lowest square of the set) or neither.
proof fn lemma_line_count(b: Board, c: int, t: int, x: u64)
    requires
        forall|u: int| 0 <= u < 64 ==> #[trigger] bit(x, u) == own_between(b, c, t, u),
    ensures
        popcount(x) == 0 ==> x == 0,
        (popcount(x) == 0) == (forall|u: int| 0 <= u < 64 ==> !#[trigger] own_between(b, c, t, u)),
        slider_line(b, c, t) ==> (slider_check(b, c, t) == (popcount(x) == 0)),
        slider_line(b, c, t) ==> (pins(b, c, t) == (popcount(x) == 1)),
        forall|p: int| 0 <= p < 64 ==> (#[trigger] pin_via(b, c, t, p) == (slider_line(b, c, t) && popcount(x) == 1 && bit(x, p))),
{
    lemma_popcount_zero(x);
    if popcount(x) == 0 {
        assert forall|u: int| 0 <= u < 64 implies !#[trigger] own_between(b, c, t, u) by {
            lemma_bit_zero(u);
        }
    }
    if forall|u: int| 0 <= u < 64 ==> !#[trigger] own_between(b, c, t, u) {
        assert forall|u: int| 0 <= u < 64 implies #[trigger] bit(x, u) == bit(0u64, u) by {
            lemma_bit_zero(u);
        }
        lemma_bits_ext(x, 0u64);
    }
    if popcount(x) == 1 {
        lemma_popcount_one(x);
    }
    assert forall|p: int| 0 <= p < 64 implies (#[trigger] pin_via(b, c, t, p) == (slider_line(b, c, t) && popcount(x) == 1 && bit(x, p))) by {
        if pin_via(b, c, t, p) {
            lemma_single_popcount(x, p);
        }
        if slider_line(b, c, t) && popcount(x) == 1 && bit(x, p) {
            lemma_popcount_one(x);
            assert(p == u64_trailing_zeros(x));
            assert forall|u: int| 0 <= u < 64 && u != p implies !#[trigger] own_between(b, c, t, u) by {
                assert(!bit(x, u));
            }
        }
    }
    if slider_line(b, c, t) && popcount(x) == 1 {
        let p = u64_trailing_zeros(x) as int;
        assert(pin_via(b, c, t, p));
    }
}

/// The one-square set of `s` holds `t` exactly when `t` is `s`.
proof fn lemma_bit_single_at(s: int, t: int)
    requires
        0 <= s < 64,
    ensures
        bit(1u64 << (s as u64), t) == (t == s),
{
    lemma_bit_single(s as u64, t);
}

impl Board {
    /// The recorded attacks are those of the pieces on the board: each side's attacks through
    /// the board with the enemy king taken off, and each side's union of them.
    pub open spec fn threats_fresh(self) -> bool {
        &&& forall|c: int, k: int, t: int|
            0 <= c < 2 && 0 <= k < 6 && 0 <= t < 64 ==> #[trigger] bit(
                self.board_state.piece_threats[c][k].0,
                t,
            ) == attacked_from(self.colored(c, k), c, k, self.occ() ^ self.colored(1 - c, 5), t)
        &&& forall|c: int|
            0 <= c < 2 ==> #[trigger] self.board_state.threats_by[c].0 == union6(
                self.board_state.piece_threats[c],
            )
    }

    /// The two boards agree on everything but the attack information.
    pub open spec fn same_position(self, other: Board) -> bool {
        &&& self.piece_squares == other.piece_squares
        &&& self.piece_bitboards == other.piece_bitboards
        &&& self.color_bitboards == other.color_bitboards
        &&& self.board_state_stack@ == other.board_state_stack@
        &&& self.half_move_number == other.half_move_number
        &&& self.board_state.castling == other.board_state.castling
        &&& self.board_state.captured == other.board_state.captured
        &&& self.board_state.en_passant == other.board_state.en_passant
        &&& self.board_state.half_move_clock == other.board_state.half_move_clock
        &&& self.board_state.hash_keys == other.board_state.hash_keys
        &&& self.board_state.material == other.board_state.material
    }

    /// Recomputes the attack set of the pieces of `color` and kind `piece_type` through `occ`.
    fn recompute_bucket(&mut self, color: Color, piece_type: PieceType, occ: Bitboard)
        requires
            piece_type != PieceType::NoType,
        ensures
            final(self).same_position(*old(self)),
            final(self).board_state.checkers == old(self).board_state.checkers,
            final(self).board_state.pinned == old(self).board_state.pinned,
            final(self).board_state.pinners == old(self).board_state.pinners,
            final(self).board_state.threats_by == old(self).board_state.threats_by,
            forall|c: int, k: int|
                0 <= c < 2 && 0 <= k < 6 && (c != color.idx() || k != piece_type.idx())
                    ==> #[trigger] final(self).board_state.piece_threats[c][k] == old(
                    self,
                ).board_state.piece_threats[c][k],
            forall|t: int|
                0 <= t < 64 ==> #[trigger] bit(
                    final(self).board_state.piece_threats[color.idx()][piece_type.idx()].0,
                    t,
                ) == attacked_from(
                    old(self).colored(color.idx(), piece_type.idx()),
                    color.idx(),
                    piece_type.idx(),
                    occ.0,
                    t,
                ),
    {
        let set = self.colored_pieces(color, piece_type);
        let attacked = bucket_attacks(set, color, piece_type, occ);
        self.board_state.piece_threats[color.index()][piece_type.index()] = attacked;
    }

    /// Records the attacks of every piece and then the check information; each side's attacks
    /// are computed with the enemy king taken off the board, so they reach through it.
    pub fn refresh_piece_threats(&mut self)
        requires
            old(self).wf(),
            old(self).kings_present(),
        ensures
            final(self).same_position(*old(self)),
            forall|c: int, k: int, t: int|
                0 <= c < 2 && 0 <= k < 6 && 0 <= t < 64 ==> #[trigger] bit(
                    final(self).board_state.piece_threats[c][k].0,
                    t,
                ) == attacked_from(
                    old(self).colored(c, k),
                    c,
                    k,
                    old(self).occ() ^ old(self).colored(1 - c, 5),
                    t,
                ),
            forall|c: int|
                0 <= c < 2 ==> #[trigger] final(self).board_state.threats_by[c].0 == union6(
                    final(self).board_state.piece_threats[c],
                ),
            final(self).threats_fresh(),
            check_info_fresh(*final(self)),
    {
        let occ = self.occupancies();
        let mut ci: usize = 0;
        while ci < 2
            invariant
                ci <= 2,
                self.same_position(*old(self)),
                occ.0 == old(self).occ(),
                forall|c: int, k: int, t: int|
                    0 <= c < ci && 0 <= k < 6 && 0 <= t < 64 ==> #[trigger] bit(
                        self.board_state.piece_threats[c][k].0,
                        t,
                    ) == attacked_from(
                        old(self).colored(c, k),
                        c,
                        k,
                        old(self).occ() ^ old(self).colored(1 - c, 5),
                        t,
                    ),
                forall|c: int|
                    0 <= c < ci ==> #[trigger] self.board_state.threats_by[c].0 == union6(
                        self.board_state.piece_threats[c],
                    ),
            decreases 2 - ci,
        {
            let color = Color::new(ci as u8);
            let occ_missing_their_king = Bitboard(
                occ.0 ^ self.colored_pieces(color.flip(), PieceType::King).0,
            );
            let mut acc: u64 = 0;
            let mut ki: usize = 0;
            while ki < 6
                invariant
                    ci < 2,
                    ki <= 6,
                    color.idx() == ci,
                    self.same_position(*old(self)),
                    occ_missing_their_king.0 == old(self).occ() ^ old(self).colored(1 - ci, 5),
                    forall|c: int, k: int, t: int|
                        0 <= c < 2 && 0 <= k < 6 && 0 <= t < 64 && (c < ci || (c == ci && k < ki))
                            ==> #[trigger] bit(self.board_state.piece_threats[c][k].0, t)
                            == attacked_from(
                            old(self).colored(c, k),
                            c,
                            k,
                            old(self).occ() ^ old(self).colored(1 - c, 5),
                            t,
                        ),
                    forall|c: int|
                        0 <= c < ci ==> #[trigger] self.board_state.threats_by[c].0 == union6(
                            self.board_state.piece_threats[c],
                        ),
                    acc == if ki == 0 {
                        0u64
                    } else if ki == 1 {
                        0u64 | self.board_state.piece_threats[ci as int][0].0
                    } else if ki == 2 {
                        (0u64 | self.board_state.piece_threats[ci as int][0].0)
                            | self.board_state.piece_threats[ci as int][1].0
                    } else if ki == 3 {
                        ((0u64 | self.board_state.piece_threats[ci as int][0].0)
                            | self.board_state.piece_threats[ci as int][1].0)
                            | self.board_state.piece_threats[ci as int][2].0
                    } else if ki == 4 {
                        (((0u64 | self.board_state.piece_threats[ci as int][0].0)
                            | self.board_state.piece_threats[ci as int][1].0)
                            | self.board_state.piece_threats[ci as int][2].0)
                            | self.board_state.piece_threats[ci as int][3].0
                    } else if ki == 5 {
                        ((((0u64 | self.board_state.piece_threats[ci as int][0].0)
                            | self.board_state.piece_threats[ci as int][1].0)
                            | self.board_state.piece_threats[ci as int][2].0)
                            | self.board_state.piece_threats[ci as int][3].0)
                            | self.board_state.piece_threats[ci as int][4].0
                    } else {
                        union6(self.board_state.piece_threats[ci as int])
                    },
                decreases 6 - ki,
            {
                let piece_type = PieceType::new(ki);
                let attacked = bucket_attacks(
                    self.colored_pieces(color, piece_type),
                    color,
                    piece_type,
                    occ_missing_their_king,
                );
                self.board_state.piece_threats[ci][ki] = attacked;
                acc = acc | attacked.0;
                ki = ki + 1;
            }
            self.board_state.threats_by[ci] = Bitboard(acc);
            ci = ci + 1;
        }
        self.update_check_info();
    }


    /// Records, for both colors, the pieces pinned to their king and the enemy sliders pinning
    /// them, and the pieces giving check to the side to move.
    pub fn update_check_info(&mut self)
        requires
            old(self).wf(),
            old(self).kings_present(),
        ensures
            final(self).same_position(*old(self)),
            final(self).board_state.piece_threats == old(self).board_state.piece_threats,
            final(self).board_state.threats_by == old(self).board_state.threats_by,
            forall|t: int|
                0 <= t < 64 ==> #[trigger] bit(final(self).board_state.checkers.0, t) == gives_check(
                    *old(self),
                    old(self).stm(),
                    t,
                ),
            forall|e: int, t: int|
                0 <= e < 2 && 0 <= t < 64 ==> #[trigger] bit(final(self).board_state.pinners[e].0, t)
                    == pins(*old(self), 1 - e, t),
            forall|c: int, p: int|
                0 <= c < 2 && 0 <= p < 64 ==> #[trigger] bit(final(self).board_state.pinned[c].0, p)
                    == exists|t: int| 0 <= t < 64 && #[trigger] pin_via(*old(self), c, t, p),
            check_info_fresh(*final(self)),
    {
        let ghost b0 = *self;
        let stm = self.side_to_move();
        self.board_state.checkers = Bitboard(0);
        self.board_state.pinned = [Bitboard(0); 2];
        self.board_state.pinners = [Bitboard(0); 2];
        let ghost bz = *self;
        self.record_lines(Color::White, Color::Black, stm);
        let ghost b1 = *self;
        self.record_lines(Color::Black, Color::White, stm);
        let king = self.king_square(stm);
        let them = stm.flip();
        let pawn_checks = get_pawn_attacks(king, stm).0 & self.colored_pieces(them, PieceType::Pawn).0;
        let knight_checks = get_knight_attacks(king).0 & self.colored_pieces(them, PieceType::Knight).0;
        let sliders = self.board_state.checkers.0;
        self.board_state.checkers = Bitboard(sliders | (pawn_checks | knight_checks));
        proof {
            assert forall|e: int, t: int|
                0 <= e < 2 && 0 <= t < 64 implies #[trigger] bit(self.board_state.pinners[e].0, t)
                    == pins(b0, 1 - e, t) by {
                lemma_lines_same(b0, bz, 1 - e, t);
                lemma_lines_same(b0, b1, 1 - e, t);
            }
            assert forall|c: int, p: int|
                0 <= c < 2 && 0 <= p < 64 implies #[trigger] bit(self.board_state.pinned[c].0, p)
                    == exists|t: int| 0 <= t < 64 && #[trigger] pin_via(b0, c, t, p) by {
                assert forall|t: int| 0 <= t < 64 implies #[trigger] pin_via(b0, c, t, p) == pin_via(b1, c, t, p)
                    && pin_via(b0, c, t, p) == pin_via(bz, c, t, p) by {
                    lemma_lines_same(b0, b1, c, t);
                    lemma_lines_same(b0, bz, c, t);
                }
                if exists|t: int| 0 <= t < 64 && #[trigger] pin_via(b0, c, t, p) {
                    let t = choose|t: int| 0 <= t < 64 && #[trigger] pin_via(b0, c, t, p);
                    assert(pin_via(b1, c, t, p) && pin_via(bz, c, t, p));
                }
                if c == 0 && exists|t: int| 0 <= t < 64 && #[trigger] pin_via(bz, c, t, p) {
                    let t = choose|t: int| 0 <= t < 64 && #[trigger] pin_via(bz, c, t, p);
                    assert(pin_via(b0, c, t, p));
                }
                if c == 1 && exists|t: int| 0 <= t < 64 && #[trigger] pin_via(b1, c, t, p) {
                    let t = choose|t: int| 0 <= t < 64 && #[trigger] pin_via(b1, c, t, p);
                    assert(pin_via(b0, c, t, p));
                }
            }
            assert forall|t: int| 0 <= t < 64 implies #[trigger] bit(self.board_state.checkers.0, t)
                == gives_check(b0, b0.stm(), t) by {
                lemma_lines_same(b0, b1, b0.stm(), t);
                lemma_lines_same(b0, bz, b0.stm(), t);
            }
            lemma_check_info_moves(b0, *self);
        }
    }

    /// Looks along the lines from the king of `color` at the enemy sliders facing it through
    /// `color`'s own pieces: with none of them between, the slider gives check (recorded when
    /// `color` is to move); with one, that piece is pinned and the slider pins it.
    fn record_lines(&mut self, color: Color, enemy: Color, stm: Color)
        requires
            old(self).wf(),
            old(self).kings_present(),
            enemy.idx() == 1 - color.idx(),
            stm.idx() == old(self).stm(),
            old(self).board_state.pinned[color.idx()].0 == 0,
            old(self).board_state.pinners[enemy.idx()].0 == 0,
            color == stm ==> old(self).board_state.checkers.0 == 0,
        ensures
            final(self).same_position(*old(self)),
            final(self).board_state.piece_threats == old(self).board_state.piece_threats,
            final(self).board_state.threats_by == old(self).board_state.threats_by,
            final(self).board_state.pinned[enemy.idx()] == old(self).board_state.pinned[enemy.idx()],
            final(self).board_state.pinners[color.idx()] == old(self).board_state.pinners[color.idx()],
            color != stm ==> final(self).board_state.checkers == old(self).board_state.checkers,
            color == stm ==> forall|t: int|
                0 <= t < 64 ==> #[trigger] bit(final(self).board_state.checkers.0, t) == slider_check(
                    *old(self),
                    color.idx(),
                    t,
                ),
            forall|t: int|
                0 <= t < 64 ==> #[trigger] bit(final(self).board_state.pinners[enemy.idx()].0, t)
                    == pins(*old(self), color.idx(), t),
            forall|p: int|
                0 <= p < 64 ==> #[trigger] bit(final(self).board_state.pinned[color.idx()].0, p)
                    == exists|t: int| 0 <= t < 64 && #[trigger] pin_via(*old(self), color.idx(), t, p),
    {
        let ghost b0 = *self;
        let ghost c = color.idx();
        let ci = color.index();
        let ei = enemy.index();
        let king = self.king_square(color);
        let eocc = self.get_color(enemy);
        let own = self.get_color(color);
        let diagonal = get_bishop_attacks(king, eocc).0 & (self.colored_pieces(enemy, PieceType::Bishop).0
            | self.colored_pieces(enemy, PieceType::Queen).0);
        let orthogonal = get_rook_attacks(king, eocc).0 & (self.colored_pieces(enemy, PieceType::Rook).0
            | self.colored_pieces(enemy, PieceType::Queen).0);
        let mut candidates = Bitboard(diagonal | orthogonal);
        let ghost cand0 = candidates.0;
        proof {
            assert forall|t: int| 0 <= t < 64 implies #[trigger] bit(cand0, t) == slider_line(b0, c, t) by {}
        }
        while candidates.0 != 0
            invariant
                ci == c,
                ei == 1 - c,
                c == color.idx(),
                enemy.idx() == 1 - c,
                0 <= c < 2,
                king.valid(),
                king.0 == b0.king_sq(c),
                own == b0.color_bitboards[c],
                self.same_position(b0),
                self.board_state.piece_threats == b0.board_state.piece_threats,
                self.board_state.threats_by == b0.board_state.threats_by,
                self.board_state.pinned[1 - c] == b0.board_state.pinned[1 - c],
                self.board_state.pinners[c] == b0.board_state.pinners[c],
                color != stm ==> self.board_state.checkers == b0.board_state.checkers,
                forall|t: int| 0 <= t < 64 ==> #[trigger] bit(cand0, t) == slider_line(b0, c, t),
                forall|t: int| #[trigger] bit(candidates.0, t) ==> bit(cand0, t),
                color == stm ==> forall|t: int|
                    0 <= t < 64 ==> #[trigger] bit(self.board_state.checkers.0, t) == (bit(cand0, t)
                        && !bit(candidates.0, t) && slider_check(b0, c, t)),
                forall|t: int|
                    0 <= t < 64 ==> #[trigger] bit(self.board_state.pinners[1 - c].0, t) == (bit(
                        cand0,
                        t,
                    ) && !bit(candidates.0, t) && pins(b0, c, t)),
                forall|p: int|
                    0 <= p < 64 ==> #[trigger] bit(self.board_state.pinned[c].0, p) == exists|t: int|
                        0 <= t < 64 && bit(cand0, t) && !bit(candidates.0, t) && #[trigger] pin_via(
                            b0,
                            c,
                            t,
                            p,
                        ),
            decreases crate::types::bitboard::popcount(candidates.0),
        {
            let ghost rem0 = candidates.0;
            let candidate = candidates.pop_lsb();
            let ghost s = candidate.0 as int;
            let blockers = Bitboard(crate::rays::between(king, candidate).0 & own.0);
            proof {
                assert forall|u: int| 0 <= u < 64 implies #[trigger] bit(blockers.0, u) == own_between(b0, c, s, u) by {}
            }
            let count = blockers.popcount();
            proof {
                lemma_line_count(b0, c, s, blockers.0);
            }
            if count == 0 {
                if color == stm {
                    let mut ch = self.board_state.checkers;
                    ch.set(candidate);
                    self.board_state.checkers = ch;
                }
            } else if count == 1 {
                self.board_state.pinned[ci] = Bitboard(self.board_state.pinned[ci].0 | blockers.0);
                let mut pn = self.board_state.pinners[ei];
                pn.set(candidate);
                self.board_state.pinners[ei] = pn;
            }
            proof {
                assert forall|t: int| 0 <= t < 64 implies #[trigger] bit(self.board_state.pinners[1 - c].0, t) == (bit(
                    cand0,
                    t,
                ) && !bit(candidates.0, t) && pins(b0, c, t)) by {
                    lemma_bit_single_at(s, t);
                }
                if color == stm {
                    assert forall|t: int| 0 <= t < 64 implies #[trigger] bit(self.board_state.checkers.0, t) == (bit(cand0, t)
                        && !bit(candidates.0, t) && slider_check(b0, c, t)) by {
                        lemma_bit_single_at(s, t);
                    }
                }
                assert forall|p: int| 0 <= p < 64 implies #[trigger] bit(self.board_state.pinned[c].0, p) == exists|t: int|
                    0 <= t < 64 && bit(cand0, t) && !bit(candidates.0, t) && #[trigger] pin_via(b0, c, t, p) by {
                    if pin_via(b0, c, s, p) {
                        assert(0 <= s < 64 && bit(cand0, s) && !bit(candidates.0, s));
                    }
                    if exists|t: int| 0 <= t < 64 && bit(cand0, t) && !bit(candidates.0, t) && #[trigger] pin_via(b0, c, t, p) {
                        let t = choose|t: int| 0 <= t < 64 && bit(cand0, t) && !bit(candidates.0, t) && #[trigger] pin_via(b0, c, t, p);
                        if t != s {
                            assert(bit(cand0, t) && !bit(rem0, t) && pin_via(b0, c, t, p));
                        }
                    }
                    if exists|t: int| 0 <= t < 64 && bit(cand0, t) && !bit(rem0, t) && #[trigger] pin_via(b0, c, t, p) {
                        let t = choose|t: int| 0 <= t < 64 && bit(cand0, t) && !bit(rem0, t) && #[trigger] pin_via(b0, c, t, p);
                        assert(bit(cand0, t) && !bit(candidates.0, t) && pin_via(b0, c, t, p));
                    }
                }
            }
        }
        proof {
            assert forall|t: int| 0 <= t < 64 implies !#[trigger] bit(candidates.0, t) by {
                lemma_bit_zero(t);
            }
        }
    }

    /// Every bucket marked in `updated` holds the attacks recomputed on `orig`'s position;
    /// every other bucket is `orig`'s.
    pub open spec fn buckets_ok(self, orig: Board, updated: [[bool; 6]; 2]) -> bool {
        forall|c: int, k: int|
            0 <= c < 2 && 0 <= k < 6 ==> if #[trigger] updated[c][k] {
                forall|t: int|
                    0 <= t < 64 ==> #[trigger] bit(self.board_state.piece_threats[c][k].0, t)
                        == attacked_from(
                        orig.colored(c, k),
                        c,
                        k,
                        orig.occ() ^ orig.colored(1 - c, 5),
                        t,
                    )
            } else {
                self.board_state.piece_threats[c][k] == orig.board_state.piece_threats[c][k]
            }
    }

    /// Recomputes the bucket of `color` and `piece_type` unless it already was.
    fn mark(
        &mut self,
        updated: &mut [[bool; 6]; 2],
        color: Color,
        piece_type: PieceType,
        occ: Bitboard,
        Ghost(orig): Ghost<Board>,
    )
        requires
            piece_type != PieceType::NoType,
            old(self).same_position(orig),
            old(self).buckets_ok(orig, *old(updated)),
            occ.0 == orig.occ() ^ orig.colored(1 - color.idx(), 5),
        ensures
            final(self).same_position(orig),
            final(self).buckets_ok(orig, *final(updated)),
            final(updated)[color.idx()][piece_type.idx()],
            forall|c: int, k: int|
                0 <= c < 2 && 0 <= k < 6 && #[trigger] old(updated)[c][k] ==> final(updated)[c][k],
    {
        let c = color.index();
        let k = piece_type.index();
        if !updated[c][k] {
            updated[c][k] = true;
            self.recompute_bucket(color, piece_type, occ);
        }
    }

    /// Brings the recorded attacks up to date after `mv` was made, recomputing only the buckets
    /// the move can have changed: the mover's, the castling rook's, the captured piece's, the
    /// promoting pawns', and those of the sliders bearing on the squares the move touched. Then
    /// refreshes the check information.
    pub fn update_move_threat(&mut self, mv: Move)
        requires
            old(self).wf(),
            old(self).kings_present(),
            mv.well_formed(),
            old(self).piece_squares[mv.to_idx()] != Piece::NoPiece,
            mv.spec_is_capture() && !mv.spec_is_castling() ==> old(self).board_state.captured
                != Piece::NoPiece,
            mv.spec_is_en_passant() ==> 0 <= mv.to_idx() + spec_up_dir(
                1 - old(self).piece_squares[mv.to_idx()].color_idx(),
            ) < 64,
        ensures
            threats_refreshed(mv, *old(self), *final(self)),
            check_info_fresh(*final(self)),
            forall|c: int|
                0 <= c < 2 ==> #[trigger] final(self).board_state.threats_by[c].0 == union6(
                    final(self).board_state.piece_threats[c],
                ),
    {
        let ghost orig = *self;
        let occ = self.occupancies();
        let king_occ: [Bitboard; 2] = [
            Bitboard(occ.0 ^ self.colored_pieces(Color::Black, PieceType::King).0),
            Bitboard(occ.0 ^ self.colored_pieces(Color::White, PieceType::King).0),
        ];
        let mut affected: [Square; 4] = [mv.from(), mv.to(), Square::none(), Square::none()];
        let mut updated: [[bool; 6]; 2] = [[false; 6]; 2];
        let moved_piece = self.get_piece_on_square(mv.to());
        proof {
            crate::types::piece::lemma_piece_parts(moved_piece);
        }
        let mc = moved_piece.color();
        self.mark(&mut updated, mc, moved_piece.piece_type(), king_occ[mc.index()], Ghost(orig));
        if mv.is_castling() {
            self.mark(&mut updated, mc, PieceType::Rook, king_occ[mc.index()], Ghost(orig));
            let rook_squares = castling_rook_squares(mc, mv.flag());
            affected[2] = rook_squares.0;
            affected[3] = rook_squares.1;
        } else {
            if mv.is_capture() {
                let captured = self.board_state.captured;
                proof {
                    crate::types::piece::lemma_piece_parts(captured);
                }
                let cc = captured.color();
                self.mark(&mut updated, cc, captured.piece_type(), king_occ[cc.index()], Ghost(orig));
            }
            if mv.is_en_passant() {
                affected[2] = mv.to().shift(up_dir(mc.flip()));
            }
            if mv.is_promotion() {
                self.mark(&mut updated, mc, PieceType::Pawn, king_occ[mc.index()], Ghost(orig));
            }
        }
        let ghost cap = orig.board_state.captured;
        proof {
            crate::types::piece::lemma_piece_parts(cap);
            assert(affected[0].0 == mv.from_idx() && affected[1].0 == mv.to_idx());
            if mv.spec_is_castling() {
                assert(affected[2].0 == rook_from(mc.idx(), mv) && affected[3].0 == rook_to(mc.idx(), mv));
            } else if mv.spec_is_en_passant() {
                assert(affected[2].0 == mv.to_idx() + spec_up_dir(1 - mc.idx()) && affected[3].0 == 64);
            } else {
                assert(affected[2].0 == 64 && affected[3].0 == 64);
            }
        }
        let ghost aff = affected;
        let mut i: usize = 0;
        while i < 4 && affected[i].0 != 64
            invariant
                i <= 4,
                self.same_position(orig),
                self.buckets_ok(orig, updated),
                orig.wf(),
                occ.0 == orig.occ(),
                king_occ[0].0 == orig.occ() ^ orig.colored(1, 5),
                king_occ[1].0 == orig.occ() ^ orig.colored(0, 5),
                updated[mc.idx()][moved_piece.type_idx()],
                0 <= moved_piece.type_idx() < 6,
                mc.idx() == moved_piece.color_idx(),
                mv.spec_is_castling() ==> updated[mc.idx()][3],
                mv.spec_is_capture() && !mv.spec_is_castling() ==> updated[cap.color_idx()][cap.type_idx()],
                mv.spec_is_promotion() && !mv.spec_is_castling() ==> updated[mc.idx()][0],
                0 <= cap.color_idx() < 2,
                mv.spec_is_capture() && !mv.spec_is_castling() ==> 0 <= cap.type_idx() < 6,
                forall|j: int| 0 <= j < 4 ==> #[trigger] affected[j].0 <= 64,
                forall|j: int, q: int|
                    0 <= j < i && 0 <= q < 64 && #[trigger] seen_slider(orig, aff[j].0 as int, q) ==> updated[orig.squares()[q].color_idx()][orig.squares()[q].type_idx()],
                affected == aff,
            decreases 4 - i,
        {
            let sq = affected[i];
            let rook_ray = get_rook_attacks(sq, occ);
            let bishop_ray = get_bishop_attacks(sq, occ);
            let mut hits = Bitboard(
                (rook_ray.0 & (self.pieces(PieceType::Rook).0 | self.pieces(PieceType::Queen).0)) | (
                bishop_ray.0 & (self.pieces(PieceType::Bishop).0 | self.pieces(PieceType::Queen).0)),
            );
            let ghost hits0 = hits.0;
            proof {
                assert forall|t: int| 0 <= t < 64 implies #[trigger] bit(hits0, t) == seen_slider(orig, sq.0 as int, t) by {
                    crate::types::piece::lemma_piece_parts(orig.squares()[t]);
                }
            }
            while hits.0 != 0
                invariant
                    self.same_position(orig),
                    self.buckets_ok(orig, updated),
                    orig.wf(),
                    king_occ[0].0 == orig.occ() ^ orig.colored(1, 5),
                    king_occ[1].0 == orig.occ() ^ orig.colored(0, 5),
                    updated[mc.idx()][moved_piece.type_idx()],
                    0 <= moved_piece.type_idx() < 6,
                    mc.idx() == moved_piece.color_idx(),
                    mv.spec_is_castling() ==> updated[mc.idx()][3],
                    mv.spec_is_capture() && !mv.spec_is_castling() ==> updated[cap.color_idx()][cap.type_idx()],
                    mv.spec_is_promotion() && !mv.spec_is_castling() ==> updated[mc.idx()][0],
                    0 <= cap.color_idx() < 2,
                    mv.spec_is_capture() && !mv.spec_is_castling() ==> 0 <= cap.type_idx() < 6,
                    forall|t: int|
                        0 <= t < 64 && #[trigger] bit(hits.0, t) ==> 2 <= orig.piece_squares[t].type_idx() <= 4,
                    i < 4,
                    sq == aff[i as int],
                    forall|j: int, q: int|
                        0 <= j < i && 0 <= q < 64 && #[trigger] seen_slider(orig, aff[j].0 as int, q) ==> updated[orig.squares()[q].color_idx()][orig.squares()[q].type_idx()],
                    affected == aff,
                    forall|t: int| #[trigger] bit(hits.0, t) ==> bit(hits0, t),
                    forall|t: int| 0 <= t < 64 ==> #[trigger] bit(hits0, t) == seen_slider(orig, sq.0 as int, t),
                    forall|t: int|
                        0 <= t < 64 && bit(hits0, t) && !#[trigger] bit(hits.0, t) ==> updated[orig.squares()[t].color_idx()][orig.squares()[t].type_idx()],
                decreases 64 - vstd::std_specs::bits::u64_trailing_zeros(hits.0),
            {
                let hit_sq = hits.lsb();
                let piece = self.get_piece_on_square(hit_sq);
                proof {
                    crate::types::piece::lemma_piece_parts(piece);
                }
                let pc = piece.color();
                let pt = piece.piece_type();
                let ghost old_hits = hits.0;
                let mask = self.colored_pieces(pc, pt);
                hits = Bitboard(hits.0 & !mask.0);
                proof {
                    assert(bit(mask.0, hit_sq.0 as int));
                    if hits.0 != 0 {
                        crate::types::bitboard::lemma_lowest_bit(hits.0);
                        let nt = vstd::std_specs::bits::u64_trailing_zeros(hits.0) as int;
                        assert(bit(hits.0, nt));
                        assert(nt > hit_sq.0);
                    }
                }
                let ghost upd0 = updated;
                self.mark(&mut updated, pc, pt, king_occ[pc.index()], Ghost(orig));
                proof {
                    assert forall|t: int|
                        0 <= t < 64 && bit(hits0, t) && !#[trigger] bit(hits.0, t) implies updated[orig.squares()[t].color_idx()][orig.squares()[t].type_idx()] by {
                        let p = orig.squares()[t];
                        crate::types::piece::lemma_piece_parts(p);
                        assert(seen_slider(orig, sq.0 as int, t));
                        assert(2 <= p.type_idx() <= 4);
                        assert(0 <= p.color_idx() < 2);
                        if bit(old_hits, t) {
                            assert(bit(mask.0, t));
                            assert(bit(orig.colored(pc.idx(), pt.idx()), t));
                            assert(bit(orig.piece_bitboards[pt.idx() as int].0, t));
                            assert(bit(orig.color_bitboards[pc.idx() as int].0, t));
                            assert(p.type_idx() == pt.idx() && p.color_idx() == pc.idx());
                            assert(updated[pc.idx()][pt.idx()]);
                        } else {
                            assert(upd0[p.color_idx()][p.type_idx()]);
                        }
                    }
                    assert forall|j: int, q: int|
                        0 <= j < i && 0 <= q < 64 && #[trigger] seen_slider(orig, aff[j].0 as int, q) implies updated[orig.squares()[q].color_idx()][orig.squares()[q].type_idx()] by {
                        let p = orig.squares()[q];
                        crate::types::piece::lemma_piece_parts(p);
                        assert(upd0[p.color_idx()][p.type_idx()]);
                    }
                }
            }
            proof {
                assert forall|j: int, q: int|
                    0 <= j < i + 1 && 0 <= q < 64 && #[trigger] seen_slider(orig, aff[j].0 as int, q) implies updated[orig.squares()[q].color_idx()][orig.squares()[q].type_idx()] by {
                    if j == i {
                        assert(bit(hits0, q));
                        assert(!bit(hits.0, q)) by {
                            crate::types::bitboard::lemma_bit_zero(q);
                        }
                    }
                }
            }
            i = i + 1;
        }
        proof {
            assert forall|z: int, q: int|
                0 <= q < 64 && touched_square(orig, mv, z) && #[trigger] seen_slider(orig, z, q) implies updated[orig.squares()[q].color_idx()][orig.squares()[q].type_idx()] by {
                let j: int = if z == mv.from_idx() {
                    0
                } else if z == mv.to_idx() {
                    1
                } else if mv.spec_is_castling() && z == rook_from(mc.idx(), mv) {
                    2
                } else if mv.spec_is_castling() {
                    3
                } else {
                    2
                };
                assert(aff[j].0 == z);
                assert(j < i);
            }
        }
        let mut ci: usize = 0;
        while ci < 2
            invariant
                ci <= 2,
                self.same_position(orig),
                self.buckets_ok(orig, updated),
                updated[mc.idx()][moved_piece.type_idx()],
                mv.spec_is_castling() ==> updated[mc.idx()][3],
                mv.spec_is_capture() && !mv.spec_is_castling() ==> updated[cap.color_idx()][cap.type_idx()],
                mv.spec_is_promotion() && !mv.spec_is_castling() ==> updated[mc.idx()][0],
                0 <= cap.color_idx() < 2,
                mv.spec_is_capture() && !mv.spec_is_castling() ==> 0 <= cap.type_idx() < 6,
                forall|c: int|
                    0 <= c < ci ==> #[trigger] self.board_state.threats_by[c].0 == union6(
                        self.board_state.piece_threats[c],
                    ),
            decreases 2 - ci,
        {
            let t = self.board_state.piece_threats[ci];
            self.board_state.threats_by[ci] = Bitboard(
                ((((((0u64 | t[0].0) | t[1].0) | t[2].0) | t[3].0) | t[4].0) | t[5].0),
            );
            ci = ci + 1;
        }
        let ghost before_check = *self;
        self.update_check_info();
        assert forall|z: int, q: int|
            0 <= q < 64 && touched_square(orig, mv, z) && #[trigger] seen_slider(orig, z, q) implies bucket_fresh(
                self.board_state.piece_threats[orig.squares()[q].color_idx()][orig.squares()[q].type_idx()],
                orig,
                orig.squares()[q].color_idx(),
                orig.squares()[q].type_idx(),
            ) by {
            let p = orig.squares()[q];
            crate::types::piece::lemma_piece_parts(p);
            assert(updated[p.color_idx()][p.type_idx()]);
        }
        assert forall|c: int, k: int|
            0 <= c < 2 && 0 <= k < 6 implies #[trigger] self.board_state.piece_threats[c][k]
            == orig.board_state.piece_threats[c][k] || forall|t: int|
            0 <= t < 64 ==> #[trigger] bit(self.board_state.piece_threats[c][k].0, t)
                == attacked_from(orig.colored(c, k), c, k, orig.occ() ^ orig.colored(1 - c, 5), t) by {
            if updated[c][k] {
            }
        }
    }


    /// Plays `mv` for the side to move: moves the pieces, updates rights, en passant square,
    /// clocks, hash and material, saves the previous state, and refreshes the attack
    /// information.
    #[verifier::spinoff_prover]
    pub fn make_move(&mut self, mv: Move)
        requires
            old(self).move_ok(mv),
        ensures
            old(self).made(mv, *final(self)),
    {
        let ghost s0 = self.squares();
        let ghost b0 = *self;
        let stm = self.side_to_move();
        self.begin_move(mv);
        proof {
            lemma_material_sum_bound(s0, 64);
        }
        self.play_pieces(mv, stm, Ghost(b0));
        proof {
            lemma_make_material(s0, mv, stm.idx());
        }
        self.end_move(mv);
        proof {
            lemma_make_kings(b0, mv, *self);
            lemma_make_hash(b0, *self, mv);
        }
        let ghost b1 = *self;
        self.update_move_threat(mv);
        proof {
            lemma_make_threats(b0, mv, b1, *self);
        }
    }


    /// Saves the current state, clears the en passant square, advances the fifty-move clock
    /// (reset by pawn moves and captures) and clears the captured piece.
    fn begin_move(&mut self, mv: Move)
        requires
            old(self).wf(),
            mv.well_formed(),
        ensures
            final(self).wf(),
            final(self).piece_squares == old(self).piece_squares,
            final(self).piece_bitboards == old(self).piece_bitboards,
            final(self).color_bitboards == old(self).color_bitboards,
            final(self).half_move_number == old(self).half_move_number,
            final(self).board_state_stack@ == old(self).board_state_stack@.push(old(self).board_state),
            final(self).board_state.en_passant.0 == 64,
            final(self).board_state.captured == Piece::NoPiece,
            final(self).board_state.castling == old(self).board_state.castling,
            final(self).board_state.material == old(self).board_state.material,
            final(self).board_state.piece_threats == old(self).board_state.piece_threats,
            final(self).hash_rest() == old(self).hash_rest() ^ ep_term(old(self).board_state.en_passant.0 as int),
            final(self).board_state.half_move_clock == if old(self).piece_squares[mv.from_idx()].type_idx()
                == 0 || mv.spec_is_capture() {
                0
            } else if old(self).board_state.half_move_clock == 255 {
                255
            } else {
                old(self).board_state.half_move_clock + 1
            },
    {
        let ghost b0 = *self;
        let my_piece = self.get_piece_on_square(mv.from());
        let saved = self.board_state;
        self.board_state_stack.push(saved);
        proof {
            assert forall|i: int|
                0 <= i < self.board_state_stack@.len() implies #[trigger] state_in_range(
                self.board_state_stack@[i],
            ) by {
                if i < b0.board_state_stack@.len() {
                    assert(self.board_state_stack@[i] == b0.board_state_stack@[i]);
                }
            }
        }
        let ghost h0 = self.board_state.hash_keys.zob;
        let ghost p0 = pieces_hash(self.squares(), 64);
        if self.board_state.en_passant.0 != 64 {
            let ep = self.board_state.en_passant;
            self.board_state.hash_keys.toggle_en_passant(ep);
            self.board_state.en_passant = Square::none();
            proof {
                let k = ep_term(ep.0 as int);
                lemma_xor_rules(h0, k, p0);
                lemma_xor_rules(k, p0, 0);
                lemma_xor_rules(h0, p0, k);
            }
        } else {
            proof {
                lemma_xor_rules(h0 ^ p0, 0, 0);
            }
        }
        if my_piece.piece_type() == PieceType::Pawn || mv.is_capture() {
            self.board_state.half_move_clock = 0;
        } else {
            self.board_state.half_move_clock = self.board_state.half_move_clock.saturating_add(1);
        }
        self.board_state.captured = Piece::NoPiece;
    }

    /// Takes the captured piece off the material balance, drops the castling rights the move
    /// touched, and passes the turn.
    fn end_move(&mut self, mv: Move)
        requires
            old(self).wf(),
            old(self).half_move_number < usize::MAX,
            -1100 * 64 - 2200 <= old(self).board_state.material <= 1100 * 64 + 2200,
        ensures
            final(self).wf(),
            final(self).piece_squares == old(self).piece_squares,
            final(self).piece_bitboards == old(self).piece_bitboards,
            final(self).color_bitboards == old(self).color_bitboards,
            final(self).half_move_number == old(self).half_move_number + 1,
            final(self).board_state_stack@ == old(self).board_state_stack@,
            final(self).board_state.en_passant == old(self).board_state.en_passant,
            final(self).board_state.captured == old(self).board_state.captured,
            final(self).board_state.half_move_clock == old(self).board_state.half_move_clock,
            final(self).board_state.piece_threats == old(self).board_state.piece_threats,
            final(self).board_state.material == old(self).board_state.material - old(
                self,
            ).board_state.captured.spec_value(),
            final(self).board_state.castling.raw == old(self).board_state.castling.raw
                & spec_rights_mask(mv.from_idx()) & spec_rights_mask(mv.to_idx()),
            final(self).hash_rest() == old(self).hash_rest() ^ castle_term(old(self).board_state.castling.raw)
                ^ castle_term(final(self).board_state.castling.raw) ^ side_term(0),
    {
        let ghost h0 = self.board_state.hash_keys.zob;
        let ghost p0 = pieces_hash(self.squares(), 64);
        let from = mv.from();
        let to = mv.to();
        self.board_state.material = self.board_state.material - self.board_state.captured.value();
        let castling = self.board_state.castling;
        self.board_state.hash_keys.toggle_castling(castling);
        let mask = castling_rights(from) & castling_rights(to);
        let raw = castling.raw;
        let r1 = castling_rights(from);
        let r2 = castling_rights(to);
        assert(raw < 16 ==> raw & (r1 & r2) < 16 && raw & (r1 & r2) == (raw & r1) & r2) by (bit_vector);
        self.board_state.castling.raw = self.board_state.castling.raw & mask;
        let castling = self.board_state.castling;
        self.board_state.hash_keys.toggle_castling(castling);
        self.board_state.hash_keys.toggle_side();
        self.half_move_number = self.half_move_number + 1;
        proof {
            let c0 = castle_term(old(self).board_state.castling.raw);
            let c1 = castle_term(self.board_state.castling.raw);
            let sk = side_term(0);
            lemma_hash_shuffle(h0, p0, c0, c1, sk);
        }
    }

    /// Moves the pieces of `mv` for `stm`, recording the captured piece, the promotion's
    /// material gain and a double push's en passant square.
    fn play_pieces(&mut self, mv: Move, stm: Color, Ghost(b0): Ghost<Board>)
        requires
            b0.move_ok(mv),
            stm.idx() == b0.stm(),
            old(self).squares() == b0.squares(),
            old(self).wf(),
            old(self).board_state.en_passant.0 == 64,
            old(self).board_state.captured == Piece::NoPiece,
            -1100 * 64 <= old(self).board_state.material <= 1100 * 64,
        ensures
            final(self).wf(),
            final(self).squares() == make_placement(b0.squares(), mv, b0.stm()),
            final(self).board_state.captured == taken_piece(b0.squares(), mv, b0.stm()),
            final(self).board_state.en_passant.0 == ep_after(mv),
            final(self).board_state.material == old(self).board_state.material + (if mv.spec_is_promotion()
                && !mv.spec_is_castling() {
                landing_piece(b0.squares(), mv, b0.stm()).spec_value() - pawn_of(b0.stm()).spec_value()
            } else {
                0
            }),
            final(self).board_state.castling == old(self).board_state.castling,
            final(self).board_state.half_move_clock == old(self).board_state.half_move_clock,
            final(self).board_state_stack == old(self).board_state_stack,
            final(self).half_move_number == old(self).half_move_number,
            final(self).board_state.piece_threats == old(self).board_state.piece_threats,
            final(self).hash_rest() == old(self).hash_rest() ^ ep_term(ep_after(mv)),
    {
        let ghost s0 = self.squares();
        let ghost r0 = self.hash_rest();
        proof {
            lemma_xor_rules(r0, 0, 0);
        }
        let from = mv.from();
        let to = mv.to();
        let my_piece = self.get_piece_on_square(from);
        if mv.is_castling() {
            let (rook_from_sq, rook_to_sq) = castling_rook_squares(stm, mv.flag());
            self.remove_piece(from);
            self.add_piece(my_piece, to);
            let rook = self.remove_piece(rook_from_sq);
            self.add_piece(rook, rook_to_sq);
            proof {
                assert(self.squares() =~= make_placement(s0, mv, stm.idx()));
            }
        } else if mv.is_en_passant() {
            self.remove_piece(from);
            self.add_piece(my_piece, to);
            let cap_sq = to.shift(-up_dir(stm));
            let captured = self.remove_piece(cap_sq);
            self.board_state.captured = captured;
            proof {
                assert(self.squares() =~= make_placement(s0, mv, stm.idx()));
            }
        } else {
            if mv.is_capture() {
                let captured = self.remove_piece(to);
                self.board_state.captured = captured;
            }
            self.remove_piece(from);
            if mv.is_promotion() {
                let new_piece = Piece::new(stm, mv.promotion_piece_type());
                self.add_piece(new_piece, to);
                proof {
                    crate::types::piece::lemma_piece_parts(new_piece);
                }
                self.board_state.material = self.board_state.material + (new_piece.value()
                    - Piece::new(stm, PieceType::Pawn).value());
            } else {
                self.add_piece(my_piece, to);
                if mv.flag() == MoveFlag::DoublePush {
                    let ep = Square::new((from.0 + to.0) / 2);
                    let ghost h1 = self.board_state.hash_keys.zob;
                    let ghost p1 = pieces_hash(self.squares(), 64);
                    self.board_state.en_passant = ep;
                    self.board_state.hash_keys.toggle_en_passant(ep);
                    proof {
                        let k = ep_term(ep.0 as int);
                        lemma_xor_rules(h1, k, p1);
                        lemma_xor_rules(k, p1, 0);
                        lemma_xor_rules(h1, p1, k);
                    }
                }
            }
            proof {
                assert(self.squares() =~= make_placement(s0, mv, stm.idx()));
            }
        }
    }

    /// Takes back `mv`: puts the pieces back, restoring a captured piece and un-promoting, and
    /// restores the saved state.
    pub fn undo_move(&mut self, mv: Move)
        requires
            old(self).unmove_ok(mv),
        ensures
            old(self).unmade(mv, *final(self)),
    {
        let ghost s0 = self.squares();
        self.half_move_number = self.half_move_number - 1;
        let stm = self.side_to_move();
        let from = mv.from();
        let to = mv.to();
        if mv.is_castling() {
            let (rook_from_sq, rook_to_sq) = castling_rook_squares(stm, mv.flag());
            let king = self.remove_piece(to);
            let rook = self.remove_piece(rook_to_sq);
            self.add_piece(king, from);
            self.add_piece(rook, rook_from_sq);
        } else {
            let moved = self.remove_piece(to);
            let restored = if mv.is_promotion() {
                Piece::new(stm, PieceType::Pawn)
            } else {
                moved
            };
            self.add_piece(restored, from);
            if mv.is_en_passant() {
                let cap_sq = to.shift(-up_dir(stm));
                let captured = self.board_state.captured;
                self.add_piece(captured, cap_sq);
            } else if mv.is_capture() {
                let captured = self.board_state.captured;
                self.add_piece(captured, to);
            }
        }
        proof {
            assert(self.squares() =~= unmake_placement(s0, mv, stm.idx(), old(self).board_state.captured));
        }
        self.board_state = self.board_state_stack.pop().unwrap();
    }

    /// Both kings are on the board.
    pub open spec fn kings_present(self) -> bool {
        self.has_king(0) && self.has_king(1)
    }

    /// What `make_move` needs of a move: it names a flag, moves a piece of the side to move to a
    /// different square, lands on an empty square unless it captures, takes no king, finds the
    /// rook and the free squares a castling needs, and promotes only pawns.
    pub open spec fn move_ok(self, mv: Move) -> bool {
        let s = self.squares();
        let from = mv.from_idx();
        let to = mv.to_idx();
        let stm = self.stm();
        &&& self.wf()
        &&& self.kings_present()
        &&& self.material_ok()
        &&& self.half_move_number < usize::MAX
        &&& mv.well_formed()
        &&& from != to
        &&& s[from] != Piece::NoPiece
        &&& s[from].color_idx() == stm
        &&& (mv.spec_is_promotion() ==> s[from] == pawn_of(stm))
        &&& if mv.spec_is_castling() {
            let rf = rook_from(stm, mv);
            let rt = rook_to(stm, mv);
            &&& rf != from && rf != to && rt != from && rt != to
            &&& s[to] == Piece::NoPiece
            &&& s[rt] == Piece::NoPiece
            &&& s[rf] != Piece::NoPiece
        } else if mv.spec_is_en_passant() {
            let v = ep_victim(to, stm);
            &&& 0 <= v < 64
            &&& v != from
            &&& s[to] == Piece::NoPiece
            &&& s[v] != Piece::NoPiece
            &&& s[v].type_idx() != 5
        } else if mv.spec_is_capture() {
            &&& s[to] != Piece::NoPiece
            &&& s[to].type_idx() != 5
        } else {
            s[to] == Piece::NoPiece
        }
    }

    /// What `make_move` does to the board (threat information aside).
    pub open spec fn made(self, mv: Move, post: Board) -> bool {
        let stm = self.stm();
        let s = self.squares();
        &&& post.wf()
        &&& post.kings_present()
        &&& post.material_ok()
        &&& post.squares() == make_placement(s, mv, stm)
        &&& post.board_state_stack@ == self.board_state_stack@.push(self.board_state)
        &&& post.half_move_number == self.half_move_number + 1
        &&& post.board_state.captured == taken_piece(s, mv, stm)
        &&& post.board_state.en_passant.0 == ep_after(mv)
        &&& self.hash_fresh() ==> post.hash_fresh()
        &&& check_info_fresh(post)
        &&& self.threats_fresh() && castles_own_rook(self, mv) ==> leaper_threats_fresh(post)
        &&& self.threats_fresh() && castles_own_rook(self, mv) && no_slider_check(self, self.stm())
            && no_slider_check(post, post.stm()) ==> post.threats_fresh()
        &&& post.board_state.castling.raw == self.board_state.castling.raw & spec_rights_mask(
            mv.from_idx(),
        ) & spec_rights_mask(mv.to_idx())
        &&& post.board_state.half_move_clock == if s[mv.from_idx()].type_idx() == 0
            || mv.spec_is_capture() {
            0
        } else if self.board_state.half_move_clock == 255 {
            255
        } else {
            self.board_state.half_move_clock + 1
        }
    }

    /// What `undo_move` needs: a saved state, a piece on the destination (and on the rook's
    /// square after castling), empty origin squares, and a recorded capture for captures.
    pub open spec fn unmove_ok(self, mv: Move) -> bool {
        let s = self.squares();
        let from = mv.from_idx();
        let to = mv.to_idx();
        let stm = (self.half_move_number - 1) % 2;
        &&& self.wf()
        &&& self.board_state_stack@.len() > 0
        &&& self.half_move_number >= 1
        &&& mv.well_formed()
        &&& from != to
        &&& s[to] != Piece::NoPiece
        &&& s[from] == Piece::NoPiece
        &&& if mv.spec_is_castling() {
            let rf = rook_from(stm, mv);
            let rt = rook_to(stm, mv);
            &&& rf != from && rf != to && rt != from && rt != to
            &&& s[rt] != Piece::NoPiece
            &&& s[rf] == Piece::NoPiece
        } else if mv.spec_is_en_passant() {
            let v = ep_victim(to, stm);
            &&& 0 <= v < 64
            &&& v != from
            &&& s[v] == Piece::NoPiece
            &&& self.board_state.captured != Piece::NoPiece
        } else if mv.spec_is_capture() {
            self.board_state.captured != Piece::NoPiece
        } else {
            true
        }
    }

    /// What `undo_move` does to the board.
    pub open spec fn unmade(self, mv: Move, post: Board) -> bool {
        let stm = (self.half_move_number - 1) % 2;
        &&& post.wf()
        &&& post.squares() == unmake_placement(self.squares(), mv, stm, self.board_state.captured)
        &&& post.board_state == self.board_state_stack@.last()
        &&& post.board_state_stack@ == self.board_state_stack@.drop_last()
        &&& post.half_move_number == self.half_move_number - 1
    }
}

/// What the attacks recorded after a move are, from how `update_move_threat` left them.
proof fn lemma_make_threats(b0: Board, mv: Move, b1: Board, b2: Board)
    requires
        b0.move_ok(mv),
        b1.wf(),
        b1.half_move_number == b0.half_move_number + 1,
        b1.squares() == make_placement(b0.squares(), mv, b0.stm()),
        b1.board_state.captured == taken_piece(b0.squares(), mv, b0.stm()),
        b1.board_state.piece_threats == b0.board_state.piece_threats,
        threats_refreshed(mv, b1, b2),
        forall|c: int|
            0 <= c < 2 ==> #[trigger] b2.board_state.threats_by[c].0 == union6(b2.board_state.piece_threats[c]),
    ensures
        b0.threats_fresh() && castles_own_rook(b0, mv) ==> leaper_threats_fresh(b2),
        b0.threats_fresh() && castles_own_rook(b0, mv) && no_slider_check(b0, b0.stm()) && no_slider_check(
            b2,
            b2.stm(),
        ) ==> b2.threats_fresh(),
{
    if b0.threats_fresh() && castles_own_rook(b0, mv) {
        lemma_leapers_after_move(b0, mv, b1, b2);
        if no_slider_check(b0, b0.stm()) && no_slider_check(b2, b2.stm()) {
            assert(b2.stm() == 1 - b0.stm());
            let x = 1 - b0.stm();
            assert forall|q: int, k: int, w: int|
                2 <= k <= 4 && #[trigger] bit(b1.colored(x, k), q) && #[trigger] bit(b1.colored(1 - x, 5), w) implies !piece_attacks(
                    x,
                    k,
                    q,
                    b1.occ(),
                    w,
                ) by {
                assert(b2.colored(x, k) == b1.colored(x, k));
                assert(b2.colored(1 - x, 5) == b1.colored(1 - x, 5));
                assert(b2.occ() == b1.occ());
            }
            assert(no_slider_check(b1, 1 - b0.stm()));
            lemma_threats_after_move(b0, mv, b1, b2);
        }
    }
}

/// The hash kept up to date stays equal to the hash from scratch over a move, given how each
/// step of the move changed the rest of the hash.
#[verifier::spinoff_prover]
proof fn lemma_make_hash(b0: Board, b3: Board, mv: Move)
    requires
        b3.hash_rest() == ((((b0.hash_rest() ^ ep_term(b0.board_state.en_passant.0 as int)) ^ ep_term(
            ep_after(mv),
        )) ^ castle_term(b0.board_state.castling.raw)) ^ castle_term(b3.board_state.castling.raw))
            ^ side_term(0),
        b3.half_move_number == b0.half_move_number + 1,
        b3.board_state.en_passant.0 == ep_after(mv),
    ensures
        b0.hash_fresh() ==> b3.hash_fresh(),
{
    let h0 = b0.board_state.hash_keys.zob;
    let p0 = pieces_hash(b0.squares(), 64);
    let h3 = b3.board_state.hash_keys.zob;
    let p3 = pieces_hash(b3.squares(), 64);
    lemma_side_flip(b0.stm(), b3.stm());
    if b0.hash_fresh() {
        lemma_hash_step(
            h0,
            p0,
            ep_term(b0.board_state.en_passant.0 as int),
            side_term(b0.stm()),
            castle_term(b0.board_state.castling.raw),
            ep_term(ep_after(mv)),
            castle_term(b3.board_state.castling.raw),
            side_term(0),
            h3,
            p3,
            side_term(b3.stm()),
        );
    }
}

/// Passing the turn toggles the side key.
proof fn lemma_side_flip(a: int, b: int)
    requires
        0 <= a < 2,
        0 <= b < 2,
        a != b,
    ensures
        side_term(b) == side_term(a) ^ side_term(0),
{
    lemma_xor_rules(0, side_term(0), 0);
    lemma_xor_rules(side_term(0), side_term(0), 0);
}

/// Toggling two castling keys and the side key moves the rest of the hash by those keys.
proof fn lemma_hash_shuffle(h: u64, p: u64, c0: u64, c1: u64, s: u64)
    ensures
        (((h ^ c0) ^ c1) ^ s) ^ p == (((h ^ p) ^ c0) ^ c1) ^ s,
{
    assert((((h ^ c0) ^ c1) ^ s) ^ p == (((h ^ p) ^ c0) ^ c1) ^ s) by (bit_vector);
}

/// The hash after a move, from the changes of its parts: the pieces, the en passant square,
/// the castling rights and the side.
proof fn lemma_hash_step(h0: u64, p0: u64, e0: u64, sw0: u64, c0: u64, e1: u64, c1: u64, s: u64, h3: u64, p3: u64, sw3: u64)
    requires
        h0 == ((p0 ^ e0) ^ sw0) ^ c0,
        h3 ^ p3 == (((((h0 ^ p0) ^ e0) ^ e1) ^ c0) ^ c1) ^ s,
        sw3 == sw0 ^ s,
    ensures
        h3 == ((p3 ^ e1) ^ sw3) ^ c1,
{
    assert(h3 == ((p3 ^ e1) ^ sw3) ^ c1) by (bit_vector)
        requires
            h0 == ((p0 ^ e0) ^ sw0) ^ c0,
            h3 ^ p3 == (((((h0 ^ p0) ^ e0) ^ e1) ^ c0) ^ c1) ^ s,
            sw3 == sw0 ^ s,
    ;
}

/// The hash kept up to date through `make_move` equals the hash computed from scratch on the
/// new position, when it did so before the move.
pub proof fn lemma_make_keeps_hash(b0: Board, mv: Move, b1: Board)
    requires
        b0.move_ok(mv),
        b0.made(mv, b1),
        b0.hash_fresh(),
    ensures
        b1.hash_fresh(),
        b1.board_state.hash_keys.zob == b1.position_hash(),
{
}

/// The attacks recorded for pawns, knights and kings, whose attacks do not depend on the other
/// pieces, are those of the board's pieces.
pub open spec fn leaper_threats_fresh(b: Board) -> bool {
    forall|c: int, k: int|
        0 <= c < 2 && (k == 0 || k == 1 || k == 5) ==> #[trigger] bucket_fresh(b.board_state.piece_threats[c][k], b, c, k)
}

/// A castling move takes the side's own rook from the rook's corner.
pub open spec fn castles_own_rook(b: Board, mv: Move) -> bool {
    mv.spec_is_castling() ==> b.squares()[rook_from(b.stm(), mv)] == piece_of_index(6 + b.stm())
}

/// The kinds of pieces a move can add to or take from the board: the landing piece's, the
/// castling rook's, the captured piece's and the promoting pawn's.
pub open spec fn touched_kind(b0: Board, mv: Move, c: int, k: int) -> bool {
    let s = b0.squares();
    let stm = b0.stm();
    let landing = make_placement(s, mv, stm)[mv.to_idx()];
    let cap = taken_piece(s, mv, stm);
    ||| c == landing.color_idx() && k == landing.type_idx()
    ||| mv.spec_is_castling() && c == stm && k == 3
    ||| mv.spec_is_capture() && !mv.spec_is_castling() && c == cap.color_idx() && k == cap.type_idx()
    ||| mv.spec_is_promotion() && !mv.spec_is_castling() && c == stm && k == 0
}

/// Pawns, knights and kings attack the same squares whatever else stands on the board.
proof fn lemma_leaper_occ(set: u64, c: int, k: int, o1: u64, o2: u64, t: int)
    requires
        k == 0 || k == 1 || k == 5,
    ensures
        attacked_from(set, c, k, o1, t) == attacked_from(set, c, k, o2, t),
{
    if attacked_from(set, c, k, o1, t) {
        let s = choose|s: int| 0 <= s < 64 && #[trigger] bit(set, s) && piece_attacks(c, k, s, o1, t);
        assert(piece_attacks(c, k, s, o2, t));
    }
    if attacked_from(set, c, k, o2, t) {
        let s = choose|s: int| 0 <= s < 64 && #[trigger] bit(set, s) && piece_attacks(c, k, s, o2, t);
        assert(piece_attacks(c, k, s, o1, t));
    }
}

/// A kind of piece that a move neither adds nor takes keeps its squares.
pub(crate) proof fn lemma_kind_kept(b0: Board, mv: Move, b1: Board, c: int, k: int)
    requires
        b0.move_ok(mv),
        castles_own_rook(b0, mv),
        b1.wf(),
        b1.squares() == make_placement(b0.squares(), mv, b0.stm()),
        0 <= c < 2,
        0 <= k < 6,
        !touched_kind(b0, mv, c, k),
    ensures
        b1.colored(c, k) == b0.colored(c, k),
{
    let s = b0.squares();
    let n = b1.squares();
    let stm = b0.stm();
    let from = mv.from_idx();
    let to = mv.to_idx();
    crate::types::piece::lemma_piece_parts(s[from]);
    crate::types::piece::lemma_piece_parts(s[to]);
    assert forall|t: int| 0 <= t < 64 implies #[trigger] bit(b1.colored(c, k), t) == bit(b0.colored(c, k), t) by {
        crate::types::piece::lemma_piece_parts(s[t]);
        crate::types::piece::lemma_piece_parts(n[t]);
        if mv.spec_is_castling() {
            let rf = rook_from(stm, mv);
            crate::types::piece::lemma_piece_parts(s[rf]);
            assert(piece_of_index(6 + stm).idx() == 6 + stm);
        } else if mv.spec_is_en_passant() {
            let v = ep_victim(to, stm);
            crate::types::piece::lemma_piece_parts(s[v]);
        } else {
            crate::types::piece::lemma_piece_parts(landing_piece(s, mv, stm));
        }
    }
    lemma_bits_ext(b1.colored(c, k), b0.colored(c, k));
}

/// After a move, the attacks recorded for pawns, knights and kings are still those of the
/// pieces: the kinds the move touched were recomputed, the others kept their squares.
pub(crate) proof fn lemma_leapers_after_move(b0: Board, mv: Move, b1: Board, b2: Board)
    requires
        b0.move_ok(mv),
        castles_own_rook(b0, mv),
        b0.threats_fresh(),
        b1.wf(),
        b1.squares() == make_placement(b0.squares(), mv, b0.stm()),
        b1.board_state.captured == taken_piece(b0.squares(), mv, b0.stm()),
        b1.board_state.piece_threats == b0.board_state.piece_threats,
        threats_refreshed(mv, b1, b2),
    ensures
        leaper_threats_fresh(b2),
{
    let s = b0.squares();
    let stm = b0.stm();
    let landing = b1.squares()[mv.to_idx()];
    crate::types::piece::lemma_piece_parts(s[mv.from_idx()]);
    crate::types::piece::lemma_piece_parts(landing_piece(s, mv, stm));
    assert(landing.color_idx() == stm) by {
        if mv.spec_is_castling() || mv.spec_is_en_passant() {
        } else {
            assert(landing == landing_piece(s, mv, stm));
        }
    }
    assert forall|c: int, k: int|
        0 <= c < 2 && (k == 0 || k == 1 || k == 5) implies #[trigger] bucket_fresh(b2.board_state.piece_threats[c][k], b2, c, k) by {
        let x = b2.board_state.piece_threats[c][k];
        assert(b2.colored(c, k) == b1.colored(c, k));
        assert(b2.colored(1 - c, 5) == b1.colored(1 - c, 5));
        assert(b2.occ() == b1.occ());
        if touched_kind(b0, mv, c, k) {
            assert(bucket_fresh(x, b1, c, k));
        } else if x != b1.board_state.piece_threats[c][k] {
            assert(bucket_fresh(x, b1, c, k));
        } else {
            lemma_kind_kept(b0, mv, b1, c, k);
            assert forall|t: int| 0 <= t < 64 implies #[trigger] bit(x.0, t) == attacked_from(
                b1.colored(c, k),
                c,
                k,
                b1.occ() ^ b1.colored(1 - c, 5),
                t,
            ) by {
                lemma_leaper_occ(b1.colored(c, k), c, k, b1.occ() ^ b1.colored(1 - c, 5), b0.occ() ^ b0.colored(1 - c, 5), t);
            }
        }
    }
}

/// The attacks `make_move` records for pawns, knights and kings are those of the new position,
/// when all recorded attacks were up to date before the move and a castling move takes the
/// side's own rook.
pub proof fn lemma_make_keeps_leaper_threats(b0: Board, mv: Move, b1: Board)
    requires
        b0.move_ok(mv),
        b0.made(mv, b1),
        b0.threats_fresh(),
        castles_own_rook(b0, mv),
    ensures
        leaper_threats_fresh(b1),
{
}

/// All the attacks `make_move` records are those of the new position, when they were up to
/// date before the move, a castling move takes the side's own rook, and neither before nor
/// after the move can the side to move take a king with a bishop, rook or queen (the side
/// that just moved is never left in such a check, as in legal play).
pub proof fn lemma_make_keeps_threats(b0: Board, mv: Move, b1: Board)
    requires
        b0.move_ok(mv),
        b0.made(mv, b1),
        b0.threats_fresh(),
        castles_own_rook(b0, mv),
        no_slider_check(b0, b0.stm()),
        no_slider_check(b1, b1.stm()),
    ensures
        b1.threats_fresh(),
{
}

/// Taking a move back right after making it is always possible.
pub proof fn lemma_undo_applicable(b0: Board, mv: Move, b1: Board)
    requires
        b0.move_ok(mv),
        b0.made(mv, b1),
    ensures
        b1.unmove_ok(mv),
{
    crate::types::piece::lemma_piece_parts(b0.squares()[mv.from_idx()]);
    assert((b1.half_move_number - 1) % 2 == b0.stm());
}

/// Making a move and taking it back gives the board back exactly: the pieces, the sets, the
/// state, the saved states and the ply count.
pub proof fn lemma_make_undo_roundtrip(b0: Board, mv: Move, b1: Board, b2: Board)
    requires
        b0.move_ok(mv),
        b0.made(mv, b1),
        b1.unmade(mv, b2),
    ensures
        b2.piece_squares@ == b0.piece_squares@,
        b2.piece_bitboards@ == b0.piece_bitboards@,
        b2.color_bitboards@ == b0.color_bitboards@,
        b2.board_state == b0.board_state,
        b2.board_state_stack@ == b0.board_state_stack@,
        b2.half_move_number == b0.half_move_number,
        b0.hash_fresh() ==> b2.hash_fresh(),
        b0.threats_fresh() ==> b2.threats_fresh(),
{
    let s = b0.squares();
    let stm = b0.stm();
    assert((b1.half_move_number - 1) % 2 == stm);
    assert(b2.squares() =~= s);
    assert forall|k: int| 0 <= k < 6 implies #[trigger] b2.piece_bitboards[k] == b0.piece_bitboards[k] by {
        assert forall|t: int| 0 <= t < 64 implies #[trigger] bit(b2.piece_bitboards[k].0, t) == bit(
            b0.piece_bitboards[k].0,
            t,
        ) by {}
        lemma_bits_ext(b2.piece_bitboards[k].0, b0.piece_bitboards[k].0);
    }
    assert forall|c: int| 0 <= c < 2 implies #[trigger] b2.color_bitboards[c] == b0.color_bitboards[c] by {
        assert forall|t: int| 0 <= t < 64 implies #[trigger] bit(b2.color_bitboards[c].0, t) == bit(
            b0.color_bitboards[c].0,
            t,
        ) by {}
        lemma_bits_ext(b2.color_bitboards[c].0, b0.color_bitboards[c].0);
    }
    assert(b2.piece_bitboards@ =~= b0.piece_bitboards@);
    assert(b2.color_bitboards@ =~= b0.color_bitboards@);
    assert(b2.board_state_stack@ =~= b0.board_state_stack@);
    assert(b2.piece_bitboards == b0.piece_bitboards);
    assert(b2.color_bitboards == b0.color_bitboards);
}

/// Boards with the same pieces, state, stack and ply count make moves the same way.
pub proof fn lemma_same_board_moves(a: Board, b: Board, mv: Move, c: Board)
    requires
        a.same_board(b),
    ensures
        b.move_ok(mv) == a.move_ok(mv),
        a.made(mv, c) ==> b.made(mv, c),
        b.gen_ready() == a.gen_ready(),
        b.kings_present() == a.kings_present(),
{
    assert(a.squares() == b.squares());
    assert(a.board_state_stack@ == b.board_state_stack@);
    assert(forall|c: int, k: int| a.colored(c, k) == b.colored(c, k));
    assert(a.occ() == b.occ());
}

} // verus!
