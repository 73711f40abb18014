use vstd::prelude::*;
use crate::attacking::{
    get_bishop_attacks, get_king_attacks, get_knight_attacks, get_pawn_attacks, get_rook_attacks,
    pawn_hit, knight_hop, king_step, bishop_reaches, rook_reaches,
};
use crate::board::Board;
use crate::types::bitboard::{Bitboard, bit, group_bits, lemma_bits_ext, lemma_lowest_bit};
use crate::types::color::Color;
use crate::types::moves::Move;
use crate::types::piece::{Piece, PieceType};
use crate::types::square::Square;
use crate::types::{up_dir, spec_up_dir};
use vstd::std_specs::bits::u64_trailing_zeros;

verus! {

broadcast use group_bits;

/// Exchange values of the kinds of piece; the king's is a large sentinel.
pub open spec fn see_val(k: int) -> int {
    if k == 0 {
        100
    } else if k == 1 {
        300
    } else if k == 2 {
        400
    } else if k == 3 {
        600
    } else if k == 4 {
        1100
    } else if k == 5 {
        20000
    } else {
        0
    }
}

/// Material values used only for exchange evaluation, on their own scale: the king gets a
/// large sentinel so that a king recapture never looks like a good trade.
fn see_value(pt: PieceType) -> (v: i32)
    ensures
        v == see_val(pt.idx()),
{
    match pt {
        PieceType::Pawn => 100,
        PieceType::Knight => 300,
        PieceType::Bishop => 400,
        PieceType::Rook => 600,
        PieceType::Queen => 1100,
        PieceType::King => 20000,
        PieceType::NoType => 0,
    }
}

/// A piece on `t` attacks `sq` through the occupancy `occ`, by the board's piece sets.
pub open spec fn attacks_to(b: Board, sq: int, occ: u64, t: int) -> bool {
    let pb = b.piece_bitboards;
    ||| pawn_hit(sq, t, 1) && bit(b.colored(0, 0), t)
    ||| pawn_hit(sq, t, 0) && bit(b.colored(1, 0), t)
    ||| knight_hop(sq, t) && bit(pb[1].0, t)
    ||| king_step(sq, t) && bit(pb[5].0, t)
    ||| bishop_reaches(sq, t, occ) && (bit(pb[2].0, t) || bit(pb[4].0, t))
    ||| rook_reaches(sq, t, occ) && (bit(pb[3].0, t) || bit(pb[4].0, t))
}

/// `x` holds exactly the squares of the pieces that attack `sq` through `occ`.
pub open spec fn is_attack_set(x: u64, b: Board, sq: int, occ: u64) -> bool {
    forall|t: int| 0 <= t < 64 ==> #[trigger] bit(x, t) == attacks_to(b, sq, occ, t)
}

/// The set of the squares of all pieces, of both colors, that attack `sq` through `occ`.
pub open spec fn attack_set(b: Board, sq: int, occ: u64) -> u64 {
    choose|x: u64| is_attack_set(x, b, sq, occ)
}

/// The least valuable kind, from kind `k` up, that color `c` has among `att`, with its lowest
/// square.
pub open spec fn lva_from(b: Board, att: u64, c: int, k: int) -> Option<(int, int)>
    decreases 6 - k,
{
    if k >= 6 || k < 0 {
        None
    } else if att & b.colored(c, k) != 0 {
        Some((u64_trailing_zeros(att & b.colored(c, k)) as int, k))
    } else {
        lva_from(b, att, c, k + 1)
    }
}

/// The attacker chosen to recapture is of the least valuable kind the side has among the
/// attackers: none of the side's attackers is of a lower kind, the chosen square holds an
/// attacker of the chosen kind, and nothing is chosen only when the side has no attacker.
pub proof fn lemma_lva_is_least(b: Board, att: u64, c: int)
    ensures
        (lva_from(b, att, c, 0) is None) == (forall|j: int| 0 <= j < 6 ==> #[trigger] (att & b.colored(c, j)) == 0),
        lva_from(b, att, c, 0) matches Some((s, k)) ==> {
            &&& 0 <= k < 6
            &&& bit(att & b.colored(c, k), s)
            &&& forall|j: int| 0 <= j < k ==> #[trigger] (att & b.colored(c, j)) == 0
        },
{
    lemma_lva_from_least(b, att, c, 0);
}

/// From kind `k` on, the chosen attacker is of the lowest kind present.
proof fn lemma_lva_from_least(b: Board, att: u64, c: int, k: int)
    requires
        0 <= k <= 6,
    ensures
        (lva_from(b, att, c, k) is None) == (forall|j: int| k <= j < 6 ==> #[trigger] (att & b.colored(c, j)) == 0),
        lva_from(b, att, c, k) matches Some((s, m)) ==> {
            &&& k <= m < 6
            &&& bit(att & b.colored(c, m), s)
            &&& forall|j: int| k <= j < m ==> #[trigger] (att & b.colored(c, j)) == 0
        },
    decreases 6 - k,
{
    if k < 6 {
        if att & b.colored(c, k) != 0 {
            lemma_lowest_bit(att & b.colored(c, k));
        } else {
            lemma_lva_from_least(b, att, c, k + 1);
        }
    }
}

/// `occ` with square `s` taken out.
pub open spec fn without(occ: u64, s: int) -> u64 {
    occ & !(1u64 << (s as u64))
}

/// The larger of two integers.
pub open spec fn max_int(a: int, b: int) -> int {
    if a >= b {
        a
    } else {
        b
    }
}

/// The swap list of an exchange on `to`: each entry is the value of the piece just taken
/// minus the previous entry, and the last one what a further recapture would bring; the
/// exchange goes on with the least valuable attacker of the side to recapture until nobody
/// can, standing pat is better for both, or 31 entries.
pub open spec fn see_gains(
    b: Board,
    to: int,
    occ: u64,
    attacker: int,
    side: int,
    gains: Seq<int>,
) -> Seq<int>
    decreases 31 - gains.len(),
{
    if gains.len() >= 31 || gains.len() == 0 {
        gains
    } else {
        let g = see_val(attacker) - gains.last();
        let next = gains.push(g);
        if max_int(-gains.last(), g) < 0 {
            next
        } else {
            match lva_from(b, attack_set(b, to, occ) & occ, side, 0) {
                None => next,
                Some(found) => see_gains(b, to, without(occ, found.0), found.1, 1 - side, next),
            }
        }
    }
}

/// Folds a swap list from its end: each side keeps the better of stopping and going on.
pub open spec fn see_fold(g: Seq<int>) -> int
    decreases g.len(),
{
    if g.len() == 0 {
        0
    } else if g.len() == 1 {
        g[0]
    } else {
        let n = g.len();
        see_fold(g.take(n - 1).update(n - 2, -max_int(-g[n - 2], g[n - 1])))
    }
}

/// The net material the side to move wins by `mv` when both sides keep recapturing on its
/// destination with their least valuable attacker; 0 for a move that takes nothing. The
/// swap list's last entry counts a recapture that was not made (nobody could make it, or it
/// would not pay), so it is left out of the fold: a capture nobody answers wins the value of
/// the piece it takes.
pub open spec fn see_spec(b: Board, mv: Move) -> int {
    let s = b.squares();
    let from = mv.from_idx();
    let to = mv.to_idx();
    let stm = b.stm();
    let ep = mv.spec_is_en_passant();
    if s[to] == Piece::NoPiece && !ep {
        0
    } else {
        let g0 = if ep { 100 } else { see_val(s[to].type_idx()) };
        let occ1 = without(b.occ(), from);
        let occ = if ep { without(occ1, to - spec_up_dir(stm)) } else { occ1 };
        let g = see_gains(b, to, occ, s[from].type_idx(), 1 - stm, seq![g0]);
        see_fold(g.take(g.len() - 1))
    }
}

impl Board {
    /// All pieces of either color attacking `square` through the occupancy `occ`; used to walk
    /// an exchange one capture at a time without changing the board.
    fn attackers_to(&self, square: Square, occ: Bitboard) -> (r: Bitboard)
        requires
            square.valid(),
        ensures
            r.0 == attack_set(*self, square.0 as int, occ.0),
    {
        let bishops_queens = self.pieces(PieceType::Bishop).0 | self.pieces(PieceType::Queen).0;
        let rooks_queens = self.pieces(PieceType::Rook).0 | self.pieces(PieceType::Queen).0;
        let white_pawns = get_pawn_attacks(square, Color::Black).0 & self.colored_pieces(
            Color::White,
            PieceType::Pawn,
        ).0;
        let black_pawns = get_pawn_attacks(square, Color::White).0 & self.colored_pieces(
            Color::Black,
            PieceType::Pawn,
        ).0;
        let knights = get_knight_attacks(square).0 & self.pieces(PieceType::Knight).0;
        let kings = get_king_attacks(square).0 & self.pieces(PieceType::King).0;
        let diagonal = get_bishop_attacks(square, occ).0 & bishops_queens;
        let straight = get_rook_attacks(square, occ).0 & rooks_queens;
        let x = (white_pawns | black_pawns) | knights | kings | diagonal | straight;
        proof {
            let sq = square.0 as int;
            assert forall|t: int| 0 <= t < 64 implies #[trigger] bit(x, t) == attacks_to(
                *self,
                sq,
                occ.0,
                t,
            ) by {}
            assert(is_attack_set(x, *self, sq, occ.0));
            assert(exists|z: u64| is_attack_set(z, *self, sq, occ.0));
            let y = attack_set(*self, sq, occ.0);
            assert(is_attack_set(y, *self, sq, occ.0));
            assert forall|t: int| 0 <= t < 64 implies #[trigger] bit(x, t) == bit(y, t) by {
                assert(bit(y, t) == attacks_to(*self, sq, occ.0, t));
            }
            lemma_bits_ext(x, y);
        }
        Bitboard(x)
    }

    /// The least valuable piece of `color` among `attackers`, with its square, if any.
    fn least_valuable_attacker(&self, attackers: Bitboard, color: Color) -> (r: Option<
        (Square, PieceType),
    >)
        ensures
            match r {
                None => lva_from(*self, attackers.0, color.idx(), 0) is None,
                Some(found) => {
                    &&& lva_from(*self, attackers.0, color.idx(), 0) == Some(
                        (found.0.0 as int, found.1.idx()),
                    )
                    &&& found.0.valid()
                    &&& found.1 != PieceType::NoType
                },
            },
    {
        let mut k: usize = 0;
        while k < 6
            invariant
                k <= 6,
                lva_from(*self, attackers.0, color.idx(), 0) == lva_from(
                    *self,
                    attackers.0,
                    color.idx(),
                    k as int,
                ),
            decreases 6 - k,
        {
            let pt = PieceType::new(k);
            let mine = Bitboard(attackers.0 & self.colored_pieces(color, pt).0);
            if mine.not_empty() {
                return Some((mine.lsb(), pt));
            }
            k = k + 1;
        }
        None
    }
}

/// The value of what `mv` takes: a pawn en passant, else the piece on its destination.
pub open spec fn see_taken(b: Board, mv: Move) -> int {
    if mv.spec_is_en_passant() {
        100
    } else {
        see_val(b.squares()[mv.to_idx()].type_idx())
    }
}

/// The occupancy once `mv`'s mover (and the pawn it takes en passant) has left its square.
pub open spec fn see_occ(b: Board, mv: Move) -> u64 {
    let occ1 = without(b.occ(), mv.from_idx());
    if mv.spec_is_en_passant() {
        without(occ1, mv.to_idx() - spec_up_dir(b.stm()))
    } else {
        occ1
    }
}

/// A capture that no piece of the other side can answer wins the value of what it takes.
pub proof fn lemma_see_unanswered(b: Board, mv: Move)
    requires
        see_taken(b, mv) > 0,
        lva_from(b, attack_set(b, mv.to_idx(), see_occ(b, mv)) & see_occ(b, mv), 1 - b.stm(), 0) is None,
    ensures
        see_spec(b, mv) == see_taken(b, mv),
{
    let s = b.squares();
    let g0 = see_taken(b, mv);
    let g = see_gains(b, mv.to_idx(), see_occ(b, mv), s[mv.from_idx()].type_idx(), 1 - b.stm(), seq![g0]);
    let next = seq![g0].push(see_val(s[mv.from_idx()].type_idx()) - g0);
    assert(g == next);
    assert(g.take(g.len() - 1) =~= seq![g0]);
    if !mv.spec_is_en_passant() {
        assert(see_val(Piece::NoPiece.type_idx()) == 0);
    }
}

impl Board {
    /// Static exchange evaluation: the net material swing, for the side to move, if the
    /// exchange on the destination of `mv` plays out with both sides always recapturing with
    /// their least valuable attacker. Called on the board before `mv` is made; 0 for a move
    /// that takes nothing.
    pub fn see(&self, mv: Move) -> (r: i32)
        requires
            mv.spec_is_en_passant() ==> 0 <= mv.to_idx() - spec_up_dir(self.stm()) < 64,
        ensures
            r == see_spec(*self, mv),
            -620000 <= r <= 620000,
            see_taken(*self, mv) > 0 && lva_from(
                *self,
                attack_set(*self, mv.to_idx(), see_occ(*self, mv)) & see_occ(*self, mv),
                1 - self.stm(),
                0,
            ) is None ==> r == see_taken(*self, mv),
    {
        let from = mv.from();
        let to = mv.to();
        let captured = self.get_piece_on_square(to);
        let ep = mv.is_en_passant();
        if captured == Piece::NoPiece && !ep {
            proof {
                assert(see_val(Piece::NoPiece.type_idx()) == 0);
            }
            return 0;
        }
        proof {
            if see_taken(*self, mv) > 0 && lva_from(
                *self,
                attack_set(*self, mv.to_idx(), see_occ(*self, mv)) & see_occ(*self, mv),
                1 - self.stm(),
                0,
            ) is None {
                lemma_see_unanswered(*self, mv);
            }
        }
        let mut gain: [i32; 32] = [0i32; 32];
        let mut depth: usize = 0;
        gain[0] = if ep {
            see_value(PieceType::Pawn)
        } else {
            see_value(captured.piece_type())
        };
        let mut occ = self.occupancies();
        occ.clear(from);
        if ep {
            let stm = self.side_to_move();
            let cap_sq = to.shift(-up_dir(stm));
            occ.clear(cap_sq);
        }
        let mut attackers = Bitboard(self.attackers_to(to, occ).0 & occ.0);
        let mut attacker_type = self.get_piece_on_square(from).piece_type();
        let mut side = self.side_to_move().flip();
        let ghost total = see_gains(
            *self,
            to.0 as int,
            occ.0,
            attacker_type.idx(),
            side.idx(),
            seq![gain[0] as int],
        );
        proof {
            assert(gain@.take(1).map_values(|v: i32| v as int) =~= seq![gain[0] as int]);
        }
        let mut done = false;
        while !done && depth < 30
            invariant
                depth <= 30,
                done ==> depth >= 1,
                to.valid(),
                attackers.0 == attack_set(*self, to.0 as int, occ.0) & occ.0,
                0 <= attacker_type.idx() <= 6,
                done ==> gain@.take(depth + 1).map_values(|v: i32| v as int) == total,
                !done ==> see_gains(
                    *self,
                    to.0 as int,
                    occ.0,
                    attacker_type.idx(),
                    side.idx(),
                    gain@.take(depth + 1).map_values(|v: i32| v as int),
                ) == total,
                forall|i: int| 0 <= i <= depth ==> -20000 * (i + 1) <= #[trigger] gain[i] <= 20000 * (i + 1),
            decreases 30 - depth,
        {
            let ghost before = gain@.take(depth + 1).map_values(|v: i32| v as int);
            depth = depth + 1;
            let v = see_value(attacker_type);
            gain[depth] = v - gain[depth - 1];
            let ghost after = gain@.take(depth + 1).map_values(|v: i32| v as int);
            proof {
                assert(after =~= before.push(see_val(attacker_type.idx()) - before.last()));
            }
            let prev_neg = -gain[depth - 1];
            let stand = if prev_neg >= gain[depth] {
                prev_neg
            } else {
                gain[depth]
            };
            if stand < 0 {
                done = true;
            } else {
                match self.least_valuable_attacker(attackers, side) {
                    None => {
                        done = true;
                    },
                    Some(found) => {
                        let (sq, pt) = found;
                        occ.clear(sq);
                        attackers = Bitboard(self.attackers_to(to, occ).0 & occ.0);
                        attacker_type = pt;
                        side = side.flip();
                    },
                }
            }
        }
        proof {
            if !done {
                assert(depth == 30);
            }
            assert(total.len() == depth + 1);
            assert(gain@.take(depth as int).map_values(|v: i32| v as int) =~= total.take(total.len() - 1));
        }
        depth = depth - 1;
        while depth > 0
            invariant
                depth <= 30,
                see_fold(gain@.take(depth + 1).map_values(|v: i32| v as int)) == see_fold(
                    total.take(total.len() - 1),
                ),
                forall|i: int| 0 <= i <= depth ==> -620000 <= #[trigger] gain[i] <= 620000,
            decreases depth,
        {
            let ghost g = gain@.take(depth + 1).map_values(|v: i32| v as int);
            let a = -gain[depth - 1];
            let b = gain[depth];
            let m = if a >= b {
                a
            } else {
                b
            };
            gain[depth - 1] = -m;
            depth = depth - 1;
            proof {
                let n = g.len();
                assert(gain@.take(depth + 1).map_values(|v: i32| v as int) =~= g.take(n - 1).update(
                    n - 2,
                    -max_int(-g[n - 2], g[n - 1]),
                ));
            }
        }
        gain[0]
    }
}

} // verus!
