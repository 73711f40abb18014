pub mod evaluate;
pub mod generate_moves;
pub mod is_legal;
pub mod legality;
pub mod make_move;
pub mod parse;
pub mod text;
pub mod threat_update;

use vstd::prelude::*;
use crate::types::bitboard::{Bitboard, bit, popcount, group_bits, lemma_popcount_bound};
use crate::types::castling::Castling;
use crate::types::color::Color;
use crate::types::hash_keys::HashKeys;
use crate::types::piece::{Piece, PieceType, piece_of_index};
use crate::types::square::Square;
use crate::types::zobrist::{piece_key, zobrist_value, EN_PASSANT_KEYS, CASTLING_KEYS, SIDE_KEY};
use vstd::std_specs::bits::u64_trailing_zeros;

verus! {

broadcast use group_bits;

/// What a move changes and what undoing it restores: rights, capture, en passant, clocks,
/// hash, material and the derived attack information.
#[derive(Clone, Copy)]
pub struct BoardState {
    pub castling: Castling,
    pub captured: Piece,
    pub en_passant: Square,
    pub half_move_clock: u8,
    pub hash_keys: HashKeys,
    pub material: i32,
    pub checkers: Bitboard,
    pub pinned: [Bitboard; 2],
    pub pinners: [Bitboard; 2],
    pub piece_threats: [[Bitboard; 6]; 2],
    pub threats_by: [Bitboard; 2],
}

impl BoardState {
    /// The state of an empty board.
    pub fn empty() -> (s: BoardState)
        ensures
            s.castling.raw == 0,
            s.captured == Piece::NoPiece,
            s.en_passant.0 == 64,
            s.half_move_clock == 0,
            s.hash_keys.zob == 0,
            s.material == 0,
    {
        BoardState {
            castling: Castling { raw: 0 },
            captured: Piece::NoPiece,
            en_passant: Square::none(),
            half_move_clock: 0,
            hash_keys: HashKeys::empty(),
            material: 0,
            checkers: Bitboard(0),
            pinned: [Bitboard(0); 2],
            pinners: [Bitboard(0); 2],
            piece_threats: [[Bitboard(0); 6]; 2],
            threats_by: [Bitboard(0); 2],
        }
    }
}

/// The four corner squares.
pub const CORNERS: u64 = 0x8100_0000_0000_0081u64;

/// The light squares (b1, a2, ...).
pub const LIGHT_SQUARES: u64 = 0x55AA_55AA_55AA_55AAu64;

/// Sum of the signed material values of the first `n` squares.
pub open spec fn material_sum(s: Seq<Piece>, n: int) -> int
    decreases n,
{
    if n <= 0 {
        0
    } else {
        material_sum(s, n - 1) + s[n - 1].spec_value()
    }
}

/// Changing one square changes the material sum by the difference of the two values.
pub proof fn lemma_material_sum_update(s: Seq<Piece>, i: int, p: Piece, n: int)
    requires
        0 <= i < s.len(),
        0 <= n <= s.len(),
    ensures
        material_sum(s.update(i, p), n) == material_sum(s, n) + if i < n {
            p.spec_value() - s[i].spec_value()
        } else {
            0
        },
    decreases n,
{
    if n > 0 {
        lemma_material_sum_update(s, i, p, n - 1);
    }
}

/// The material sum of a board lies within the 64-square maximum.
pub proof fn lemma_material_sum_bound(s: Seq<Piece>, n: int)
    requires
        0 <= n <= s.len(),
    ensures
        -1100 * n <= material_sum(s, n) <= 1100 * n,
    decreases n,
{
    if n > 0 {
        lemma_material_sum_bound(s, n - 1);
    }
}

/// XOR of the keys of the pieces on the first `n` squares.
pub open spec fn pieces_hash(s: Seq<Piece>, n: int) -> u64
    decreases n,
{
    if n <= 0 {
        0
    } else if s[n - 1] == Piece::NoPiece {
        pieces_hash(s, n - 1)
    } else {
        pieces_hash(s, n - 1) ^ piece_key(s[n - 1].idx(), n - 1)
    }
}

/// The key of `p` on `t`, 0 for no piece.
pub open spec fn square_key(p: Piece, t: int) -> u64 {
    if p == Piece::NoPiece {
        0
    } else {
        piece_key(p.idx(), t)
    }
}

/// The en passant part of a hash: the square's key, 0 for no square.
pub open spec fn ep_term(ep: int) -> u64 {
    if ep != 64 {
        zobrist_value(EN_PASSANT_KEYS + ep)
    } else {
        0
    }
}

/// The side part of a hash: the side key when white is to move.
pub open spec fn side_term(stm: int) -> u64 {
    if stm == 0 {
        zobrist_value(SIDE_KEY as int)
    } else {
        0
    }
}

/// The castling part of a hash: the key of the set of rights.
pub open spec fn castle_term(raw: u8) -> u64 {
    zobrist_value(CASTLING_KEYS + raw)
}

/// XOR is associative and commutative, cancels itself and has 0 as identity.
pub proof fn lemma_xor_rules(a: u64, b: u64, c: u64)
    ensures
        (a ^ b) ^ c == a ^ (b ^ c),
        a ^ b == b ^ a,
        a ^ 0 == a,
        a ^ a == 0,
{
    assert((a ^ b) ^ c == a ^ (b ^ c) && a ^ b == b ^ a && a ^ 0 == a && a ^ a == 0) by (bit_vector);
}

/// The same key on both sides of an XOR cancels.
pub proof fn lemma_xor_both(h: u64, p: u64, x: u64)
    ensures
        (h ^ x) ^ (p ^ x) == h ^ p,
{
    assert((h ^ x) ^ (p ^ x) == h ^ p) by (bit_vector);
}

/// Changing one square changes the piece hash by the keys of the piece taken off and the
/// piece put on.
pub proof fn lemma_pieces_hash_update(s: Seq<Piece>, t: int, q: Piece, n: int)
    requires
        0 <= t < s.len(),
        0 <= n <= s.len(),
    ensures
        pieces_hash(s.update(t, q), n) == if t < n {
            pieces_hash(s, n) ^ (square_key(s[t], t) ^ square_key(q, t))
        } else {
            pieces_hash(s, n)
        },
    decreases n,
{
    if n > 0 {
        lemma_pieces_hash_update(s, t, q, n - 1);
        let s2 = s.update(t, q);
        let prev = pieces_hash(s, n - 1);
        let d = square_key(s[t], t) ^ square_key(q, t);
        let k_old = square_key(s[n - 1], n - 1);
        let k_new = square_key(s2[n - 1], n - 1);
        assert(pieces_hash(s, n) == prev ^ k_old) by {
            lemma_xor_rules(prev, 0, 0);
        }
        assert(pieces_hash(s2, n) == pieces_hash(s2, n - 1) ^ k_new) by {
            lemma_xor_rules(pieces_hash(s2, n - 1), 0, 0);
        }
        if t < n - 1 {
            lemma_xor_rules(prev, d, k_old);
            lemma_xor_rules(d, k_old, 0);
            lemma_xor_rules(prev, k_old, d);
        } else if t == n - 1 {
            lemma_xor_rules(prev, k_old, k_old);
            lemma_xor_rules(k_old, k_old, 0);
            lemma_xor_rules(prev, 0, 0);
            lemma_xor_rules(prev ^ k_old, k_old, square_key(q, t));
            lemma_xor_rules(k_old, k_old, square_key(q, t));
            lemma_xor_rules(prev, k_old ^ k_old, square_key(q, t));
            lemma_xor_rules(0, square_key(q, t), 0);
        }
    }
}

/// The castling rights and en passant square of a state are in range.
pub open spec fn state_in_range(s: BoardState) -> bool {
    s.castling.raw < 16 && s.en_passant.0 <= 64
}

/// A chess position with its history of states.
pub struct Board {
    /// One set per kind of piece, both colors together.
    pub piece_bitboards: [Bitboard; 6],
    /// One set per color.
    pub color_bitboards: [Bitboard; 2],
    /// The piece on each square.
    pub piece_squares: [Piece; 64],
    pub board_state: BoardState,
    /// The states before each move made, most recent last.
    pub board_state_stack: Vec<BoardState>,
    /// Plies since the start of the game; its parity is the side to move.
    pub half_move_number: usize,
}

impl Default for Board {
    /// The empty board, white to move (see `Board::empty`).
    fn default() -> (b: Board)
        ensures
            b.wf(),
            b.material_ok(),
            forall|t: int| 0 <= t < 64 ==> #[trigger] b.squares()[t] == Piece::NoPiece,
            b.half_move_number == 0,
            b.board_state_stack@.len() == 0,
            b.board_state.castling.raw == 0,
            b.board_state.en_passant.0 == 64,
            b.board_state.half_move_clock == 0,
            b.board_state.hash_keys.zob == 0,
            b.board_state.captured == Piece::NoPiece,
    {
        Board::empty()
    }
}

impl Board {
    /// The pieces by square.
    pub open spec fn squares(self) -> Seq<Piece> {
        self.piece_squares@
    }

    /// The sets agree with the piece on each square.
    pub open spec fn placement_ok(self) -> bool {
        &&& forall|k: int, t: int|
            0 <= k < 6 && 0 <= t < 64 ==> #[trigger] bit(self.piece_bitboards[k].0, t) == (
            self.piece_squares[t].type_idx() == k)
        &&& forall|c: int, t: int|
            0 <= c < 2 && 0 <= t < 64 ==> #[trigger] bit(self.color_bitboards[c].0, t) == (
            self.piece_squares[t] != Piece::NoPiece && self.piece_squares[t].color_idx() == c)
    }

    /// The state fields lie in their ranges, for the current state and every saved one.
    pub open spec fn state_ok(self) -> bool {
        &&& state_in_range(self.board_state)
        &&& forall|i: int|
            0 <= i < self.board_state_stack@.len() ==> #[trigger] state_in_range(
                self.board_state_stack@[i],
            )
    }

    /// A well-formed board.
    pub open spec fn wf(self) -> bool {
        self.placement_ok() && self.state_ok()
    }

    /// The material cache holds the material on the board.
    pub open spec fn material_ok(self) -> bool {
        self.board_state.material == material_sum(self.squares(), 64)
    }

    /// Index of the side to move.
    pub open spec fn stm(self) -> int {
        self.half_move_number as int % 2
    }

    /// The set of the pieces of color `c` and kind `k`.
    pub open spec fn colored(self, c: int, k: int) -> u64 {
        self.piece_bitboards[k].0 & self.color_bitboards[c].0
    }

    /// All occupied squares.
    pub open spec fn occ(self) -> u64 {
        self.color_bitboards[0].0 | self.color_bitboards[1].0
    }

    /// Color `c` has a king on the board.
    pub open spec fn has_king(self, c: int) -> bool {
        self.colored(c, 5) != 0
    }

    /// The square of the (lowest) king of color `c`.
    pub open spec fn king_sq(self, c: int) -> int {
        u64_trailing_zeros(self.colored(c, 5)) as int
    }

    /// The hash computed from scratch: pieces, en passant square, white to move, rights.
    pub open spec fn position_hash(self) -> u64 {
        pieces_hash(self.squares(), 64) ^ ep_term(self.board_state.en_passant.0 as int) ^ side_term(
            self.stm(),
        ) ^ castle_term(self.board_state.castling.raw)
    }

    /// The hash kept up to date equals the hash from scratch.
    pub open spec fn hash_fresh(self) -> bool {
        self.board_state.hash_keys.zob == self.position_hash()
    }

    /// What the hash holds besides the pieces: the hash XOR the piece hash.
    pub open spec fn hash_rest(self) -> u64 {
        self.board_state.hash_keys.zob ^ pieces_hash(self.squares(), 64)
    }

    /// The two boards hold the same pieces, sets, state, saved states and ply count.
    pub open spec fn same_board(self, other: Board) -> bool {
        &&& self.piece_squares@ == other.piece_squares@
        &&& self.piece_bitboards@ == other.piece_bitboards@
        &&& self.color_bitboards@ == other.color_bitboards@
        &&& self.board_state == other.board_state
        &&& self.board_state_stack@ == other.board_state_stack@
        &&& self.half_move_number == other.half_move_number
    }

    /// An empty board, white to move, nothing on the stack.
    pub fn empty() -> (b: Board)
        ensures
            b.wf(),
            b.material_ok(),
            forall|t: int| 0 <= t < 64 ==> #[trigger] b.squares()[t] == Piece::NoPiece,
            b.half_move_number == 0,
            b.board_state_stack@.len() == 0,
            b.board_state.castling.raw == 0,
            b.board_state.en_passant.0 == 64,
            b.board_state.half_move_clock == 0,
            b.board_state.hash_keys.zob == 0,
            b.board_state.captured == Piece::NoPiece,
    {
        let b = Board {
            board_state: BoardState::empty(),
            board_state_stack: Vec::new(),
            half_move_number: 0,
            piece_squares: [Piece::NoPiece; 64],
            color_bitboards: [Bitboard(0); 2],
            piece_bitboards: [Bitboard(0); 6],
        };
        assert(material_sum(b.squares(), 64) == 0) by {
            lemma_material_sum_zero(b.squares(), 64);
        }
        b
    }

    /// The piece on `square`.
    pub fn get_piece_on_square(&self, square: Square) -> (p: Piece)
        requires
            square.valid(),
        ensures
            p == self.piece_squares[square.0 as int],
    {
        self.piece_squares[square.0 as usize]
    }

    /// The squares of the pieces of `color`.
    pub fn get_color(&self, color: Color) -> (b: Bitboard)
        ensures
            b == self.color_bitboards[color.idx()],
    {
        self.color_bitboards[color.index()]
    }

    /// The square of the king of `color` (the "no square" marker if it has none).
    pub fn king_square(&self, color: Color) -> (s: Square)
        ensures
            s.0 == self.king_sq(color.idx()),
            self.has_king(color.idx()) ==> s.valid() && bit(self.colored(color.idx(), 5), s.0 as int),
    {
        self.colored_pieces(color, PieceType::King).lsb()
    }

    /// Whether the side to move is in check.
    pub fn in_check(&self) -> (b: bool)
        requires
            self.has_king(self.stm()),
        ensures
            b == bit(self.board_state.threats_by[1 - self.stm()].0, self.king_sq(self.stm())),
            self.wf() && self.threats_fresh() && crate::board::legality::single_king(*self, self.stm()) ==> b
                == crate::board::legality::attacked_by(*self, 1 - self.stm(), self.king_sq(self.stm())),
    {
        proof {
            if self.wf() && self.threats_fresh() && crate::board::legality::single_king(*self, self.stm()) {
                crate::board::legality::lemma_check_is_real(*self);
            }
        }
        let stm = self.side_to_move();
        self.is_square_attacked(self.king_square(stm), stm.flip())
    }

    /// The squares of the pieces of kind `pt`, both colors.
    pub fn pieces(&self, pt: PieceType) -> (b: Bitboard)
        requires
            pt != PieceType::NoType,
        ensures
            b == self.piece_bitboards[pt.idx()],
    {
        self.piece_bitboards[pt.index()]
    }

    /// The squares of the pieces of `color` and kind `piece_type`.
    pub fn colored_pieces(&self, color: Color, piece_type: PieceType) -> (b: Bitboard)
        requires
            piece_type != PieceType::NoType,
        ensures
            b.0 == self.colored(color.idx(), piece_type.idx()),
    {
        Bitboard(self.piece_bitboards[piece_type.index()].0 & self.color_bitboards[color.index()].0)
    }

    /// All occupied squares.
    pub fn occupancies(&self) -> (b: Bitboard)
        ensures
            b.0 == self.occ(),
    {
        Bitboard(self.color_bitboards[0].0 | self.color_bitboards[1].0)
    }

    /// The number of full moves played (plies / 2).
    pub fn full_move_number(&self) -> (n: usize)
        ensures
            n == self.half_move_number / 2,
    {
        self.half_move_number / 2
    }

    /// The side to move.
    pub fn side_to_move(&self) -> (c: Color)
        ensures
            c.idx() == self.stm(),
    {
        Color::new((self.half_move_number % 2) as u8)
    }

    /// The en passant target square, if any.
    pub fn en_passant(&self) -> (s: Square)
        ensures
            s == self.board_state.en_passant,
    {
        self.board_state.en_passant
    }

    /// The incrementally maintained position hash.
    pub fn hash(&self) -> (h: u64)
        ensures
            h == self.board_state.hash_keys.zob,
    {
        self.board_state.hash_keys.zobrist()
    }

    /// The material balance, white minus black.
    pub fn material(&self) -> (m: i32)
        ensures
            m == self.board_state.material,
    {
        self.board_state.material
    }

    /// Whether `square` is attacked by the pieces of `by`, as recorded in the state.
    pub fn is_square_attacked(&self, square: Square, by: Color) -> (b: bool)
        requires
            square.valid(),
        ensures
            b == bit(self.board_state.threats_by[by.idx()].0, square.0 as int),
    {
        let m = square.to_bitboard();
        assert(bit(self.board_state.threats_by[by.idx()].0 & m.0, square.0 as int) == bit(
            self.board_state.threats_by[by.idx()].0,
            square.0 as int,
        ));
        let r = self.board_state.threats_by[by.index()].0 & m.0;
        proof {
            if r != 0 {
                assert forall|i: int| 0 <= i < 64 && i != square.0 implies !#[trigger] bit(r, i) by {}
                if !bit(self.board_state.threats_by[by.idx()].0, square.0 as int) {
                    crate::types::bitboard::lemma_bits_ext(r, 0);
                }
            }
        }
        r != 0
    }

    /// The pieces giving check to the side to move, as recorded in the state.
    pub fn checkers(&self) -> (b: Bitboard)
        ensures
            b == self.board_state.checkers,
    {
        self.board_state.checkers
    }

    /// The pieces of `color` pinned to their king, as recorded in the state.
    pub fn pinned(&self, color: Color) -> (b: Bitboard)
        ensures
            b == self.board_state.pinned[color.idx()],
    {
        self.board_state.pinned[color.index()]
    }

    /// The squares the pieces of `color` and kind `piece_type` attack, as recorded in the state.
    pub fn piece_type_attacks(&self, color: Color, piece_type: PieceType) -> (b: Bitboard)
        requires
            piece_type != PieceType::NoType,
        ensures
            b == self.board_state.piece_threats[color.idx()][piece_type.idx()],
    {
        self.board_state.piece_threats[color.index()][piece_type.index()]
    }

    /// The insufficient-material rule: no pawn, rook or queen, and at most a minor piece per
    /// side in the drawn patterns.
    pub open spec fn material_draw(self) -> bool {
        let stm = self.stm();
        let heavy = self.piece_bitboards[0].0 | self.piece_bitboards[3].0 | self.piece_bitboards[4].0;
        let count = popcount(self.occ());
        if heavy != 0 {
            false
        } else if count != 4 {
            count < 4
        } else if popcount(self.colored(stm, 2) | self.colored(stm, 1)) == 1 {
            CORNERS & self.piece_bitboards[5].0 == 0
        } else if self.piece_bitboards[1].0 != 0 {
            false
        } else {
            popcount(self.piece_bitboards[2].0 & LIGHT_SQUARES) != 1
        }
    }

    /// Whether the position is drawn for lack of material: bare kings, a single minor piece,
    /// one minor each (unless a king stands in a corner), or two bishops on one square color.
    pub fn draw_by_material(&self) -> (b: bool)
        ensures
            b == self.material_draw(),
    {
        let stm = self.side_to_move();
        let heavy = self.pieces(PieceType::Pawn).0 | self.pieces(PieceType::Rook).0 | self.pieces(
            PieceType::Queen,
        ).0;
        if heavy != 0 {
            return false;
        }
        let piece_count = self.occupancies().popcount();
        if piece_count != 4 {
            return piece_count < 4;
        }
        let minors = Bitboard(
            self.colored_pieces(stm, PieceType::Bishop).0 | self.colored_pieces(
                stm,
                PieceType::Knight,
            ).0,
        );
        if minors.popcount() == 1 {
            return Bitboard(CORNERS & self.pieces(PieceType::King).0).is_empty();
        }
        if self.pieces(PieceType::Knight).0 != 0 {
            return false;
        }
        Bitboard(self.pieces(PieceType::Bishop).0 & LIGHT_SQUARES).popcount() != 1
    }

    /// The fifty-move rule: a hundred plies without a capture or a pawn move.
    pub fn draw_by_fifty_moves(&self) -> (b: bool)
        ensures
            b == (self.board_state.half_move_clock >= 100),
    {
        self.board_state.half_move_clock >= 100
    }

    /// Repetition detection. The scan over the earlier positions with the same side to move
    /// records nothing, so no position is reported as repeated.
    pub fn draw_by_repetition(&self) -> (b: bool)
        ensures
            !b,
    {
        let len = self.board_state_stack.len();
        if len == 0 {
            return false;
        }
        let current: u64 = self.board_state.hash_keys.zobrist();
        let clock = self.board_state.half_move_clock as usize;
        let lookback = if clock < len - 1 {
            clock
        } else {
            len - 1
        };
        let mut i: usize = 1;
        while i <= lookback
            invariant
                lookback <= len - 1,
                len == self.board_state_stack@.len(),
                1 <= i,
            decreases lookback + 2 - i,
        {
            let state = self.board_state_stack[len - 1 - i];
            if state.hash_keys.zobrist() == current {
            }
            if lookback - i < 2 {
                break;
            }
            i = i + 2;
        }
        false
    }

    /// The position is drawn by the fifty-move rule or for lack of material.
    pub open spec fn draw_spec(self) -> bool {
        self.board_state.half_move_clock >= 100 || self.material_draw()
    }

    /// Whether the position is drawn by the fifty-move rule, material or repetition.
    pub fn is_draw(&self) -> (b: bool)
        ensures
            b == self.draw_spec(),
    {
        self.draw_by_fifty_moves() || self.draw_by_material() || self.draw_by_repetition()
    }

    /// Recomputes the hash from scratch: pieces, en passant square, side and castling rights.
    pub fn refresh_hash(&mut self)
        requires
            old(self).wf(),
        ensures
            final(self).board_state.hash_keys.zob == final(self).position_hash(),
            final(self).piece_squares == old(self).piece_squares,
            final(self).piece_bitboards == old(self).piece_bitboards,
            final(self).color_bitboards == old(self).color_bitboards,
            final(self).half_move_number == old(self).half_move_number,
            final(self).board_state_stack == old(self).board_state_stack,
            final(self).board_state.castling == old(self).board_state.castling,
            final(self).board_state.en_passant == old(self).board_state.en_passant,
            final(self).board_state.half_move_clock == old(self).board_state.half_move_clock,
            final(self).board_state.material == old(self).board_state.material,
            final(self).board_state.captured == old(self).board_state.captured,
            final(self).board_state.threats_by == old(self).board_state.threats_by,
            final(self).board_state.piece_threats == old(self).board_state.piece_threats,
            final(self).board_state.checkers == old(self).board_state.checkers,
            final(self).board_state.pinned == old(self).board_state.pinned,
            final(self).board_state.pinners == old(self).board_state.pinners,
            final(self).wf(),
    {
        self.board_state.hash_keys = HashKeys::empty();
        let mut sq: u8 = 0;
        while sq < 64
            invariant
                sq <= 64,
                self.board_state.hash_keys.zob == pieces_hash(self.squares(), sq as int),
                self.piece_squares == old(self).piece_squares,
                self.piece_bitboards == old(self).piece_bitboards,
                self.color_bitboards == old(self).color_bitboards,
                self.half_move_number == old(self).half_move_number,
                self.board_state_stack == old(self).board_state_stack,
                self.board_state.castling == old(self).board_state.castling,
                self.board_state.en_passant == old(self).board_state.en_passant,
                self.board_state.half_move_clock == old(self).board_state.half_move_clock,
                self.board_state.material == old(self).board_state.material,
                self.board_state.captured == old(self).board_state.captured,
                self.board_state.threats_by == old(self).board_state.threats_by,
                self.board_state.piece_threats == old(self).board_state.piece_threats,
                self.board_state.checkers == old(self).board_state.checkers,
                self.board_state.pinned == old(self).board_state.pinned,
                self.board_state.pinners == old(self).board_state.pinners,
            decreases 64 - sq,
        {
            let piece = self.piece_squares[sq as usize];
            if piece != Piece::NoPiece {
                self.board_state.hash_keys.toggle(piece, Square(sq));
            }
            sq = sq + 1;
        }
        let ghost pieces = self.board_state.hash_keys.zob;
        let ghost e = ep_term(self.board_state.en_passant.0 as int);
        let ghost sd = side_term(self.stm());
        let ghost c = castle_term(self.board_state.castling.raw);
        if self.en_passant().0 != 64 {
            let ep = self.en_passant();
            self.board_state.hash_keys.toggle_en_passant(ep);
        } else {
            proof {
                lemma_xor_rules(pieces, 0, 0);
            }
        }
        assert(self.board_state.hash_keys.zob == pieces ^ e);
        if self.side_to_move() == Color::White {
            self.board_state.hash_keys.toggle_side();
        } else {
            proof {
                lemma_xor_rules(pieces ^ e, 0, 0);
            }
        }
        assert(self.board_state.hash_keys.zob == pieces ^ e ^ sd);
        let castling = self.board_state.castling;
        self.board_state.hash_keys.toggle_castling(castling);
        assert(self.board_state.hash_keys.zob == pieces ^ e ^ sd ^ c);
    }

    /// Puts `piece` on `square`, updating the sets and the hash.
    pub fn add_piece(&mut self, piece: Piece, square: Square)
        requires
            piece != Piece::NoPiece,
            square.valid(),
        ensures
            final(self).piece_squares@ == old(self).piece_squares@.update(square.0 as int, piece),
            final(self).board_state.hash_keys.zob == old(self).board_state.hash_keys.zob ^ piece_key(
                piece.idx(),
                square.0 as int,
            ),
            final(self).board_state.castling == old(self).board_state.castling,
            final(self).board_state.en_passant == old(self).board_state.en_passant,
            final(self).board_state.half_move_clock == old(self).board_state.half_move_clock,
            final(self).board_state.material == old(self).board_state.material,
            final(self).board_state.captured == old(self).board_state.captured,
            final(self).board_state.piece_threats == old(self).board_state.piece_threats,
            final(self).board_state_stack == old(self).board_state_stack,
            final(self).half_move_number == old(self).half_move_number,
            old(self).wf() && old(self).piece_squares[square.0 as int] == Piece::NoPiece
                ==> final(self).wf(),
            old(self).piece_squares[square.0 as int] == Piece::NoPiece ==> final(self).hash_rest()
                == old(self).hash_rest(),
    {
        let ghost s0 = self.squares();
        let ghost h0 = self.board_state.hash_keys.zob;
        self.piece_squares[square.0 as usize] = piece;
        let c = piece.color().index();
        let k = piece.piece_type().index();
        self.color_bitboards[c] = Bitboard(self.color_bitboards[c].0 | (1u64 << (square.0 as u64)));
        self.piece_bitboards[k] = Bitboard(self.piece_bitboards[k].0 | (1u64 << (square.0 as u64)));
        self.board_state.hash_keys.toggle(piece, square);
        proof {
            if s0[square.0 as int] == Piece::NoPiece {
                let key = piece_key(piece.idx(), square.0 as int);
                lemma_pieces_hash_update(s0, square.0 as int, piece, 64);
                assert(self.squares() =~= s0.update(square.0 as int, piece));
                lemma_xor_rules(key, 0, 0);
                lemma_xor_rules(0, key, 0);
                lemma_xor_both(h0, pieces_hash(s0, 64), key);
            }
        }
    }

    /// Takes the piece off `square` and returns it, updating the sets and the hash.
    pub fn remove_piece(&mut self, square: Square) -> (p: Piece)
        requires
            square.valid(),
            old(self).piece_squares[square.0 as int] != Piece::NoPiece,
        ensures
            p == old(self).piece_squares[square.0 as int],
            final(self).piece_squares@ == old(self).piece_squares@.update(
                square.0 as int,
                Piece::NoPiece,
            ),
            final(self).board_state.hash_keys.zob == old(self).board_state.hash_keys.zob ^ piece_key(
                p.idx(),
                square.0 as int,
            ),
            final(self).board_state.castling == old(self).board_state.castling,
            final(self).board_state.en_passant == old(self).board_state.en_passant,
            final(self).board_state.half_move_clock == old(self).board_state.half_move_clock,
            final(self).board_state.material == old(self).board_state.material,
            final(self).board_state.captured == old(self).board_state.captured,
            final(self).board_state.piece_threats == old(self).board_state.piece_threats,
            final(self).board_state_stack == old(self).board_state_stack,
            final(self).half_move_number == old(self).half_move_number,
            old(self).wf() ==> final(self).wf(),
            final(self).hash_rest() == old(self).hash_rest(),
    {
        let ghost s0 = self.squares();
        let ghost h0 = self.board_state.hash_keys.zob;
        let piece = self.piece_squares[square.0 as usize];
        self.piece_squares[square.0 as usize] = Piece::NoPiece;
        let c = piece.color().index();
        let k = piece.piece_type().index();
        self.color_bitboards[c] = Bitboard(self.color_bitboards[c].0 & !(1u64 << (square.0 as u64)));
        self.piece_bitboards[k] = Bitboard(self.piece_bitboards[k].0 & !(1u64 << (square.0 as u64)));
        self.board_state.hash_keys.toggle(piece, square);
        proof {
            let key = piece_key(piece.idx(), square.0 as int);
            lemma_pieces_hash_update(s0, square.0 as int, Piece::NoPiece, 64);
            assert(self.squares() =~= s0.update(square.0 as int, Piece::NoPiece));
            lemma_xor_rules(key, 0, 0);
            lemma_xor_both(h0, pieces_hash(s0, 64), key);
        }
        piece
    }
}

/// An empty board has no material.
proof fn lemma_material_sum_zero(s: Seq<Piece>, n: int)
    requires
        0 <= n <= s.len(),
        forall|t: int| 0 <= t < s.len() ==> #[trigger] s[t] == Piece::NoPiece,
    ensures
        material_sum(s, n) == 0,
    decreases n,
{
    if n > 0 {
        lemma_material_sum_zero(s, n - 1);
    }
}

impl Clone for Board {
    /// A copy of the board, saved states included.
    fn clone(&self) -> (b: Board)
        ensures
            b.same_board(*self),
    {
        Board {
            piece_bitboards: self.piece_bitboards,
            color_bitboards: self.color_bitboards,
            piece_squares: self.piece_squares,
            board_state: self.board_state,
            board_state_stack: self.board_state_stack.clone(),
            half_move_number: self.half_move_number,
        }
    }
}

/// A king and one minor piece (a bishop or a knight) each, and no pawn, rook or queen, with no
/// king on a corner square, is a draw for lack of material, whichever side is to move.
pub proof fn lemma_one_minor_each_is_drawn(b: Board)
    requires
        (b.piece_bitboards[0].0 | b.piece_bitboards[3].0 | b.piece_bitboards[4].0) == 0,
        popcount(b.occ()) == 4,
        popcount(b.colored(0, 2) | b.colored(0, 1)) == 1,
        popcount(b.colored(1, 2) | b.colored(1, 1)) == 1,
        !bit(b.piece_bitboards[5].0, 0),
        !bit(b.piece_bitboards[5].0, 7),
        !bit(b.piece_bitboards[5].0, 56),
        !bit(b.piece_bitboards[5].0, 63),
    ensures
        b.material_draw(),
        b.draw_spec(),
{
    let k = b.piece_bitboards[5].0;
    assert(CORNERS & k == 0) by (bit_vector)
        requires
            !(0 <= 0int < 64 && (k >> 0u64) & 1u64 == 1u64),
            !(0 <= 7int < 64 && (k >> 7u64) & 1u64 == 1u64),
            !(0 <= 56int < 64 && (k >> 56u64) & 1u64 == 1u64),
            !(0 <= 63int < 64 && (k >> 63u64) & 1u64 == 1u64),
    ;
    assert(b.stm() == 0 || b.stm() == 1);
}

/// A king and one minor piece each, with a king on a corner square, is not a draw for lack of
/// material.
pub proof fn lemma_one_minor_each_cornered_is_not_drawn(b: Board, corner: int)
    requires
        (b.piece_bitboards[0].0 | b.piece_bitboards[3].0 | b.piece_bitboards[4].0) == 0,
        popcount(b.occ()) == 4,
        popcount(b.colored(0, 2) | b.colored(0, 1)) == 1,
        popcount(b.colored(1, 2) | b.colored(1, 1)) == 1,
        corner == 0 || corner == 7 || corner == 56 || corner == 63,
        bit(b.piece_bitboards[5].0, corner),
    ensures
        !b.material_draw(),
{
    let k = b.piece_bitboards[5].0;
    let cu = corner as u64;
    assert(CORNERS & k != 0) by (bit_vector)
        requires
            cu == 0 || cu == 7 || cu == 56 || cu == 63,
            (k >> cu) & 1u64 == 1u64,
    ;
    assert(b.stm() == 0 || b.stm() == 1);
}

} // verus!
