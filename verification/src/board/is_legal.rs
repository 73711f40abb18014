use vstd::prelude::*;
use crate::attacking::{get_bishop_attacks, get_rook_attacks, bishop_reaches, rook_reaches, strictly_between, on_line};
use crate::board::Board;
use crate::board::make_move::ep_victim;
use crate::rays::{between, line_through};
use crate::types::bitboard::{Bitboard, bit, popcount, group_bits};
use crate::types::moves::Move;
use crate::types::piece::{Piece, PieceType};
use crate::types::{up_dir, spec_up_dir};
use vstd::std_specs::bits::u64_trailing_zeros;

verus! {

broadcast use group_bits;

impl Board {
    /// The occupancy with the capturing pawn, its destination and the taken pawn toggled off
    /// the board (en passant).
    pub open spec fn ep_occupancy(self, mv: Move) -> u64 {
        self.occ() ^ (1u64 << (mv.from_idx() as u64)) ^ (1u64 << (mv.to_idx() as u64)) ^ (1u64 << (
        ep_victim(mv.to_idx(), self.stm()) as u64))
    }

    /// Whether `mv`, a move of the side to move, leaves its king safe, judged from the recorded
    /// attacks, checkers and pins: a king move must not land on an attacked square (castling
    /// was checked when generated); in double check only the king may move; in single check a
    /// move must take the checker or block between it and the king (en passant counts the taken
    /// pawn); an en passant capture must not uncover a slider on the king when both pawns leave
    /// the board; a pinned piece must stay on the line through its king.
    pub open spec fn legal_spec(self, mv: Move) -> bool {
        let stm = self.stm();
        let king = self.king_sq(stm);
        let from = mv.from_idx();
        let to = mv.to_idx();
        let checkers = self.board_state.checkers.0;
        let checker = u64_trailing_zeros(checkers) as int;
        let relevant = if mv.spec_is_en_passant() {
            ep_victim(to, stm)
        } else {
            to
        };
        if self.squares()[from].type_idx() == 5 {
            mv.spec_is_castling() || !bit(self.board_state.threats_by[1 - stm].0, to)
        } else if checkers != 0 && popcount(checkers) >= 2 {
            false
        } else if checkers != 0 && !(bit(checkers, relevant) || strictly_between(king, checker, relevant)) {
            false
        } else if mv.spec_is_en_passant() {
            let occ = self.ep_occupancy(mv);
            let e = 1 - stm;
            &&& !(exists|t: int|
                0 <= t < 64 && #[trigger] bit(self.colored(e, 2) | self.colored(e, 4), t)
                    && bishop_reaches(king, t, occ))
            &&& !(exists|t: int|
                0 <= t < 64 && #[trigger] bit(self.colored(e, 3) | self.colored(e, 4), t)
                    && rook_reaches(king, t, occ))
        } else if bit(self.board_state.pinned[stm].0, from) {
            on_line(king, from, to)
        } else {
            true
        }
    }

    /// Whether `mv` is legal, judged from the recorded attack information.
    pub fn is_legal(&self, mv: Move) -> (r: bool)
        requires
            self.wf(),
            self.has_king(self.stm()),
            mv.spec_is_en_passant() ==> 0 <= ep_victim(mv.to_idx(), self.stm()) < 64,
        ensures
            r == self.legal_spec(mv),
    {
        let stm = self.side_to_move();
        let king = self.king_square(stm);
        let from = mv.from();
        let to = mv.to();
        if self.get_piece_on_square(from).piece_type() == PieceType::King {
            if mv.is_castling() {
                return true;
            }
            return !self.board_state.threats_by[stm.flip().index()].contains(to);
        }
        let checkers = self.checkers();
        if checkers.not_empty() {
            if checkers.popcount() > 1 {
                return false;
            }
            let checker_sq = checkers.lsb();
            let relevant_sq = if mv.is_en_passant() {
                to.shift(-up_dir(stm))
            } else {
                to
            };
            let block = between(king, checker_sq);
            if !Bitboard(checkers.0 | block.0).contains(relevant_sq) {
                return false;
            }
        }
        if mv.is_en_passant() {
            let cap_sq = to.shift(-up_dir(stm));
            let occ = Bitboard(
                self.occupancies().0 ^ from.to_bitboard().0 ^ to.to_bitboard().0 ^ cap_sq.to_bitboard().0,
            );
            let enemy = stm.flip();
            let diagonal = self.colored_pieces(enemy, PieceType::Bishop).0 | self.colored_pieces(
                enemy,
                PieceType::Queen,
            ).0;
            let orthogonal = self.colored_pieces(enemy, PieceType::Rook).0 | self.colored_pieces(
                enemy,
                PieceType::Queen,
            ).0;
            let ba = get_bishop_attacks(king, occ);
            let ra = get_rook_attacks(king, occ);
            let dh = ba.0 & diagonal;
            let oh = ra.0 & orthogonal;
            proof {
                let e = 1 - self.stm();
                assert(occ.0 == self.ep_occupancy(mv));
                if dh != 0 {
                    crate::types::bitboard::lemma_lowest_bit(dh);
                    let w = u64_trailing_zeros(dh) as int;
                    assert(bit(dh, w));
                    assert(bit(self.colored(e, 2) | self.colored(e, 4), w) && bishop_reaches(
                        king.0 as int,
                        w,
                        occ.0,
                    ));
                } else {
                    assert forall|t: int|
                        0 <= t < 64 && #[trigger] bit(self.colored(e, 2) | self.colored(e, 4), t) implies !bishop_reaches(
                        king.0 as int,
                        t,
                        occ.0,
                    ) by {
                        assert(!bit(dh, t));
                    }
                }
                if oh != 0 {
                    crate::types::bitboard::lemma_lowest_bit(oh);
                    let w = u64_trailing_zeros(oh) as int;
                    assert(bit(oh, w));
                    assert(bit(self.colored(e, 3) | self.colored(e, 4), w) && rook_reaches(
                        king.0 as int,
                        w,
                        occ.0,
                    ));
                } else {
                    assert forall|t: int|
                        0 <= t < 64 && #[trigger] bit(self.colored(e, 3) | self.colored(e, 4), t) implies !rook_reaches(
                        king.0 as int,
                        t,
                        occ.0,
                    ) by {
                        assert(!bit(oh, t));
                    }
                }
            }
            if dh != 0 || oh != 0 {
                return false;
            }
            return true;
        }
        if self.pinned(stm).contains(from) {
            return line_through(king, from).contains(to);
        }
        true
    }
}

} // verus!
