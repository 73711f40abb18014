use vstd::prelude::*;
use vstd::string::StringSliceAdditionalSpecFns;
use crate::board::{Board, material_sum, lemma_material_sum_update, lemma_material_sum_bound};
use crate::board::make_move::check_info_fresh;
use crate::types::bitboard::{bit, group_bits, lemma_bits_ext};
use crate::types::castling::{Castling, first_bad, rights_of};
use crate::types::color::Color;
use crate::types::piece::{Piece, letter_piece};
use crate::types::square::{Square, name_square};

verus! {

broadcast use group_bits;

/// The starting position.
pub const STARTPOS: &'static str = "rnbqkbnr/pppppppp/8/8/8/8/PPPPPPPP/RNBQKBNR w KQkq - 0 1";

/// Why a FEN string was refused.
#[derive(Clone, Copy, PartialEq, Eq, Structural, Debug)]
pub enum FenError {
    /// There is no field at all.
    MissingPlacement,
    /// A byte of the placement is neither a digit nor a piece letter.
    BadPiece(u8),
    /// A piece of the placement falls outside the board or onto a square already taken, or a
    /// rank's column count passes 255.
    OffBoard,
    /// The second field is neither `w` nor `b`.
    BadSideToMove,
    /// There is no castling field.
    MissingCastling,
    /// A byte of the castling field is not one of `KQkq-`.
    BadCastling(u8),
    /// A side has no king.
    MissingKing,
}

// ---------------------------------------------------------------------------------------------
// Fields
// ---------------------------------------------------------------------------------------------

/// The length of the UTF-8 encoded white-space character starting at byte `i`, 0 if none
/// does: the ASCII tab, line feed, vertical tab, form feed, carriage return and space, and
/// U+0085, U+00A0, U+1680, U+2000 to U+200A, U+2028, U+2029, U+202F, U+205F and U+3000.
pub open spec fn ws_len(s: Seq<u8>, i: int) -> int {
    if i < 0 || i >= s.len() {
        0
    } else {
        let b = s[i];
        if (9 <= b <= 13) || b == 32 {
            1
        } else if b == 0xC2 && i + 1 < s.len() && (s[i + 1] == 0x85 || s[i + 1] == 0xA0) {
            2
        } else if i + 2 < s.len() && ((b == 0xE1 && s[i + 1] == 0x9A && s[i + 2] == 0x80) || (b
            == 0xE2 && s[i + 1] == 0x80 && ((0x80 <= s[i + 2] <= 0x8A) || s[i + 2] == 0xA8 || s[i
            + 2] == 0xA9 || s[i + 2] == 0xAF)) || (b == 0xE2 && s[i + 1] == 0x81 && s[i + 2]
            == 0x9F) || (b == 0xE3 && s[i + 1] == 0x80 && s[i + 2] == 0x80)) {
            3
        } else {
            0
        }
    }
}

/// The first position from `i` on that does not start white space.
pub open spec fn skip_ws(s: Seq<u8>, i: int) -> int
    decreases s.len() - i,
{
    if i < 0 || i >= s.len() {
        s.len() as int
    } else if ws_len(s, i) > 0 {
        skip_ws(s, i + ws_len(s, i))
    } else {
        i
    }
}

/// The end of the field starting at `i`: the first white space from `i` on.
pub open spec fn token_end(s: Seq<u8>, i: int) -> int
    decreases s.len() - i,
{
    if i < 0 || i >= s.len() {
        s.len() as int
    } else if ws_len(s, i) > 0 {
        i
    } else {
        token_end(s, i + 1)
    }
}

/// Where the field numbered `k` (from 0) of a white-space separated string starts; the length
/// of the string when there are fewer fields.
pub open spec fn field_start(s: Seq<u8>, k: nat) -> int
    decreases k,
{
    if k == 0 {
        skip_ws(s, 0)
    } else {
        skip_ws(s, token_end(s, field_start(s, (k - 1) as nat)))
    }
}

/// Where the field numbered `k` ends.
pub open spec fn field_end(s: Seq<u8>, k: nat) -> int {
    token_end(s, field_start(s, k))
}

/// The field numbered `k`, empty when there are fewer fields.
pub open spec fn field(s: Seq<u8>, k: nat) -> Seq<u8> {
    s.subrange(field_start(s, k), field_end(s, k))
}

/// The string has a field numbered `k`.
pub open spec fn has_field(s: Seq<u8>, k: nat) -> bool {
    field_start(s, k) < s.len()
}

// ---------------------------------------------------------------------------------------------
// Numbers
// ---------------------------------------------------------------------------------------------

/// The value of a string of decimal digits.
pub open spec fn digits_value(t: Seq<u8>) -> int
    decreases t.len(),
{
    if t.len() == 0 {
        0
    } else {
        digits_value(t.drop_last()) * 10 + (t.last() - 48)
    }
}

/// Every byte is a decimal digit.
pub open spec fn all_digits(t: Seq<u8>) -> bool {
    forall|j: int| 0 <= j < t.len() ==> 48 <= #[trigger] t[j] <= 57
}

/// The unsigned number a field spells (decimal digits after an optional `+`), if it spells
/// one no larger than `max`.
pub open spec fn parse_bounded(t: Seq<u8>, max: int) -> Option<int> {
    let body = if t.len() > 0 && t[0] == 43 {
        t.drop_first()
    } else {
        t
    };
    if body.len() == 0 || !all_digits(body) || digits_value(body) > max {
        None
    } else {
        Some(digits_value(body))
    }
}

// ---------------------------------------------------------------------------------------------
// Placement
// ---------------------------------------------------------------------------------------------

/// What reading a placement gives.
pub enum Placing {
    /// The pieces by square.
    Placed(Seq<Piece>),
    /// The first byte that is neither a digit nor a piece letter.
    Stray(u8),
    /// A piece falls outside the board or on a taken square, or a column count passes 255.
    OffBoard,
}

/// Places the pieces of the rank written in `s[i..end]`, counting columns from `file`, on
/// the rank numbered `rank` (taken modulo 256), over the pieces `sq`.
pub open spec fn place_row(s: Seq<u8>, i: int, end: int, rank: int, file: int, sq: Seq<Piece>) -> Placing
    decreases end - i,
{
    if i >= end || i < 0 || end > s.len() {
        Placing::Placed(sq)
    } else if 48 <= s[i] <= 57 {
        let f = file + (s[i] - 48);
        if f > 255 {
            Placing::OffBoard
        } else {
            place_row(s, i + 1, end, rank, f, sq)
        }
    } else {
        match letter_piece(s[i]) {
            None => Placing::Stray(s[i]),
            Some(p) => {
                let t = (rank % 256) * 8 + file;
                if t >= 64 || sq[t] != Piece::NoPiece {
                    Placing::OffBoard
                } else {
                    place_row(s, i + 1, end, rank, file + 1, sq.update(t, p))
                }
            },
        }
    }
}

/// Where the rank ending at `end` starts: just after the last `/` before `end`, or `lo`.
pub open spec fn row_start(s: Seq<u8>, lo: int, end: int) -> int
    decreases end - lo,
{
    if end <= lo {
        lo
    } else if s[end - 1] == 47 {
        end
    } else {
        row_start(s, lo, end - 1)
    }
}

/// A rank starts between the start of the placement and its own end.
pub proof fn lemma_row_start_range(s: Seq<u8>, lo: int, end: int)
    ensures
        lo <= end ==> lo <= row_start(s, lo, end) <= end,
    decreases end - lo,
{
    if end > lo && s[end - 1] != 47 {
        lemma_row_start_range(s, lo, end - 1);
    }
}

/// Places the ranks of the placement `s[lo..end]` from the last one written, which is the
/// rank numbered `rank`, upward.
pub open spec fn place_rows(s: Seq<u8>, lo: int, end: int, rank: int, sq: Seq<Piece>) -> Placing
    decreases end - lo,
{
    let start = row_start(s, lo, end);
    if end < lo {
        Placing::Placed(sq)
    } else {
        match place_row(s, start, end, rank, 0, sq) {
            Placing::Placed(next) => if start <= lo {
                Placing::Placed(next)
            } else {
                proof {
                    lemma_row_start_range(s, lo, end);
                }
                place_rows(s, lo, start - 1, rank + 1, next)
            },
            other => other,
        }
    }
}

/// The empty board.
pub open spec fn no_pieces() -> Seq<Piece> {
    Seq::new(64, |t: int| Piece::NoPiece)
}

/// The placement field of a FEN string, read.
pub open spec fn fen_placement(s: Seq<u8>) -> Placing {
    place_rows(s, field_start(s, 0), field_end(s, 0), 0, no_pieces())
}

/// Both kings stand somewhere among `sq`.
pub open spec fn both_kings(sq: Seq<Piece>) -> bool {
    &&& exists|t: int| 0 <= t < 64 && sq[t] == Piece::WhiteKing
    &&& exists|t: int| 0 <= t < 64 && sq[t] == Piece::BlackKing
}

// ---------------------------------------------------------------------------------------------
// The whole string
// ---------------------------------------------------------------------------------------------

/// The error a FEN string is refused with, checked in the order the fields come; none when
/// it is accepted.
pub open spec fn fen_error(s: Seq<u8>) -> Option<FenError> {
    if !has_field(s, 0) {
        Some(FenError::MissingPlacement)
    } else {
        match fen_placement(s) {
            Placing::Stray(b) => Some(FenError::BadPiece(b)),
            Placing::OffBoard => Some(FenError::OffBoard),
            Placing::Placed(sq) => {
                let side = field(s, 1);
                if side != seq![119u8] && side != seq![98u8] {
                    Some(FenError::BadSideToMove)
                } else if !has_field(s, 2) {
                    Some(FenError::MissingCastling)
                } else if first_bad(field(s, 2)) is Some {
                    Some(FenError::BadCastling(first_bad(field(s, 2))->0))
                } else if !both_kings(sq) {
                    Some(FenError::MissingKing)
                } else {
                    None
                }
            },
        }
    }
}

/// The side to move a FEN string names (0 white, 1 black).
pub open spec fn fen_side(s: Seq<u8>) -> int {
    if field(s, 1) == seq![98u8] {
        1
    } else {
        0
    }
}

/// The fields after the placement, as a board holds them.
pub open spec fn state_fields(s: Seq<u8>, b: Board) -> bool {
    let full = match parse_bounded(field(s, 5), usize::MAX as int) {
        Some(v) => v,
        None => 0,
    };
    &&& b.half_move_number == (full * 2 + fen_side(s)) % (usize::MAX as int + 1)
    &&& b.board_state.castling.raw == rights_of(field(s, 2))
    &&& b.board_state.en_passant.0 == match name_square(field(s, 3)) {
        Some(t) => t,
        None => 64,
    }
    &&& b.board_state.half_move_clock == match parse_bounded(field(s, 4), 255) {
        Some(v) => v,
        None => 0,
    }
}

/// The board a FEN string describes, for a string that is accepted: the pieces, the side to
/// move, the castling rights, the en passant square (none if the field names no square), the
/// half-move clock and the full-move count (0 if the field is not a number in range), and, as
/// from scratch, the hash and the attack information.
pub open spec fn fen_board(s: Seq<u8>, b: Board) -> bool {
    &&& fen_placement(s) matches Placing::Placed(sq) && b.squares() == sq
    &&& b.wf()
    &&& b.material_ok()
    &&& b.kings_present()
    &&& state_fields(s, b)
    &&& b.board_state.captured == Piece::NoPiece
    &&& b.board_state_stack@.len() == 0
    &&& b.board_state.hash_keys.zob == b.position_hash()
    &&& b.threats_fresh()
    &&& check_info_fresh(b)
}

// ---------------------------------------------------------------------------------------------
// Reading
// ---------------------------------------------------------------------------------------------

/// Adding a side (0 or 1) to a doubled count wraps as the sum of the two does.
proof fn lemma_wrap_ply(a: int, side: int, r: int)
    requires
        r > 1,
        0 <= side <= 1,
        0 <= a,
    ensures
        ({
            let h = a % r;
            if h + side > r - 1 {
                h + side - r
            } else {
                h + side
            }
        }) == (a + side) % r,
{
    vstd::arithmetic::div_mod::lemma_mod_adds(a, side, r);
    vstd::arithmetic::div_mod::lemma_small_mod(side as nat, r as nat);
    vstd::arithmetic::div_mod::lemma_mod_bound(a, r);
    let h = a % r;
    assert(side % r == side);
    if h + side >= r {
        assert(side == 1 && h == r - 1);
        assert(r / r == 1) by (nonlinear_arith)
            requires
                r > 0,
        ;
        let x = a % r + side % r;
        assert(x == r);
        assert(x / r == 1);
        assert(r * (x / r) == r) by (nonlinear_arith)
            requires
                x / r == 1,
        ;
        assert((a + side) % r == 0);
    } else {
        assert(a % r + side % r < r);
    }
}

/// White space and fields stay inside the string.
pub proof fn lemma_field_bounds(s: Seq<u8>, i: int)
    requires
        0 <= i <= s.len(),
    ensures
        i <= skip_ws(s, i) <= s.len(),
        i <= token_end(s, i) <= s.len(),
    decreases s.len() - i,
{
    if i < s.len() {
        lemma_field_bounds(s, i + 1);
        if ws_len(s, i) > 0 {
            lemma_field_bounds(s, i + ws_len(s, i));
        }
    }
}

/// Skipping white space stops on a byte that starts none, or at the end.
pub proof fn lemma_skip_ws_stops(s: Seq<u8>, i: int)
    requires
        0 <= i <= s.len(),
    ensures
        skip_ws(s, i) < s.len() ==> ws_len(s, skip_ws(s, i)) == 0,
    decreases s.len() - i,
{
    if i < s.len() && ws_len(s, i) > 0 {
        lemma_skip_ws_stops(s, i + ws_len(s, i));
    }
}

/// A field that starts before the end is not empty.
pub proof fn lemma_token_nonempty(s: Seq<u8>, i: int)
    requires
        0 <= i < s.len(),
        ws_len(s, i) == 0,
    ensures
        token_end(s, i) > i,
{
    lemma_field_bounds(s, i + 1);
}

/// The length of the white-space character starting at byte `i`, 0 if none does.
pub(crate) fn ws_at(bytes: &[u8], i: usize) -> (n: usize)
    requires
        i < bytes@.len(),
    ensures
        n == ws_len(bytes@, i as int),
{
    let b = bytes[i];
    let len = bytes.len();
    if (9 <= b && b <= 13) || b == 32 {
        1
    } else if b == 0xC2 && i + 1 < len && (bytes[i + 1] == 0x85 || bytes[i + 1] == 0xA0) {
        2
    } else if len - i > 2 {
        let b1 = bytes[i + 1];
        let b2 = bytes[i + 2];
        if (b == 0xE1 && b1 == 0x9A && b2 == 0x80) || (b == 0xE2 && b1 == 0x80 && ((0x80 <= b2
            && b2 <= 0x8A) || b2 == 0xA8 || b2 == 0xA9 || b2 == 0xAF)) || (b == 0xE2 && b1 == 0x81
            && b2 == 0x9F) || (b == 0xE3 && b1 == 0x80 && b2 == 0x80) {
            3
        } else {
            0
        }
    } else {
        0
    }
}

/// The next field from `from` on: where it starts and where it ends.
pub fn next_field(bytes: &[u8], from: usize) -> (r: (usize, usize))
    requires
        from <= bytes@.len(),
    ensures
        r.0 == skip_ws(bytes@, from as int),
        r.1 == token_end(bytes@, r.0 as int),
        from <= r.0 <= r.1 <= bytes@.len(),
{
    let ghost s = bytes@;
    let len = bytes.len();
    let mut i = from;
    proof {
        lemma_field_bounds(s, from as int);
    }
    while i < len && ws_at(bytes, i) > 0
        invariant
            from <= i <= len == s.len(),
            s == bytes@,
            skip_ws(s, i as int) == skip_ws(s, from as int),
        decreases len - i,
    {
        i = i + ws_at(bytes, i);
    }
    let start = i;
    proof {
        lemma_field_bounds(s, start as int);
    }
    while i < len && ws_at(bytes, i) == 0
        invariant
            start <= i <= len == s.len(),
            s == bytes@,
            token_end(s, i as int) == token_end(s, start as int),
        decreases len - i,
    {
        i = i + 1;
    }
    (start, i)
}

/// Digit strings are at least as large as their prefixes.
proof fn lemma_digits_grow(t: Seq<u8>, i: int)
    requires
        0 <= i <= t.len(),
        all_digits(t),
    ensures
        digits_value(t.subrange(0, i)) <= digits_value(t),
        0 <= digits_value(t.subrange(0, i)),
    decreases t.len() - i,
{
    if i < t.len() {
        lemma_digits_grow(t, i + 1);
        assert(t.subrange(0, i + 1).drop_last() =~= t.subrange(0, i));
        assert(t[i] == t.subrange(0, i + 1).last());
    } else {
        assert(t.subrange(0, i) =~= t);
        lemma_digits_nonneg(t);
    }
}

/// Digit strings have nonnegative values.
proof fn lemma_digits_nonneg(t: Seq<u8>)
    requires
        all_digits(t),
    ensures
        0 <= digits_value(t),
    decreases t.len(),
{
    if t.len() > 0 {
        let u = t.drop_last();
        assert forall|j: int| 0 <= j < u.len() implies 48 <= #[trigger] u[j] <= 57 by {
            assert(u[j] == t[j]);
        }
        lemma_digits_nonneg(u);
        assert(48 <= t[t.len() - 1] <= 57);
    }
}

/// The number spelled by `bytes[lo..hi]` (decimal digits after an optional `+`), if it spells
/// one no larger than `max`.
pub fn parse_number(bytes: &[u8], lo: usize, hi: usize, max: u64) -> (r: Option<u64>)
    requires
        lo <= hi <= bytes@.len(),
    ensures
        match r {
            Some(v) => parse_bounded(bytes@.subrange(lo as int, hi as int), max as int) == Some(
                v as int,
            ),
            None => parse_bounded(bytes@.subrange(lo as int, hi as int), max as int) is None,
        },
{
    let ghost t = bytes@.subrange(lo as int, hi as int);
    let first = if lo < hi && bytes[lo] == 43 {
        lo + 1
    } else {
        lo
    };
    let ghost body = bytes@.subrange(first as int, hi as int);
    proof {
        if lo < hi {
            assert(t[0] == bytes@[lo as int]);
        }
        if lo < hi && t[0] == 43 {
            assert(body =~= t.drop_first());
        } else {
            assert(body =~= t);
        }
    }
    if first == hi {
        return None;
    }
    let mut i = first;
    let mut v: u64 = 0;
    while i < hi
        invariant
            lo <= first <= i <= hi <= bytes@.len(),
            first < hi,
            body == bytes@.subrange(first as int, hi as int),
            t == bytes@.subrange(lo as int, hi as int),
            lo < hi && t[0] == 43 ==> body == t.drop_first(),
            !(lo < hi && t[0] == 43) ==> body == t,
            all_digits(bytes@.subrange(first as int, i as int)),
            v == digits_value(bytes@.subrange(first as int, i as int)),
            v <= max,
        decreases hi - i,
    {
        let b = bytes[i];
        let ghost pre = bytes@.subrange(first as int, i as int);
        let ghost next = bytes@.subrange(first as int, i as int + 1);
        assert(next.drop_last() =~= pre);
        if b < 48 || b > 57 {
            proof {
                assert(body[i - first] == b);
                assert(!all_digits(body));
            }
            return None;
        }
        let d = (b - 48) as u64;
        if d > max || v > (max - d) / 10 {
            proof {
                assert(next.last() == b);
                assert(all_digits(next));
                assert(digits_value(next) > max) by (nonlinear_arith)
                    requires
                        digits_value(next) == v * 10 + d,
                        d > max || v > (max - d) / 10,
                        0 <= d,
                        v >= 0,
                ;
                if all_digits(body) {
                    lemma_digits_grow(body, i - first + 1);
                    assert(body.subrange(0, i - first + 1) =~= next);
                }
            }
            return None;
        }
        assert(v * 10 + d <= max) by (nonlinear_arith)
            requires
                v <= (max - d) / 10,
                0 <= d,
                v >= 0,
        ;
        v = v * 10 + d;
        i = i + 1;
    }
    assert(bytes@.subrange(first as int, hi as int) =~= body);
    Some(v)
}

/// Where the rank ending at `end` starts, scanning back to `lo`.
fn row_start_at(bytes: &[u8], lo: usize, end: usize) -> (r: usize)
    requires
        lo <= end <= bytes@.len(),
    ensures
        r == row_start(bytes@, lo as int, end as int),
        lo <= r <= end,
{
    let mut e = end;
    while e > lo && bytes[e - 1] != 47
        invariant
            lo <= e <= end <= bytes@.len(),
            row_start(bytes@, lo as int, e as int) == row_start(bytes@, lo as int, end as int),
        decreases e,
    {
        e = e - 1;
    }
    e
}

impl Board {
    /// What reading the other fields keeps: the saved states, the captured piece and the
    /// material.
    pub open spec fn placing_keeps_but_ply(self, old: Board) -> bool {
        &&& self.board_state_stack@ == old.board_state_stack@
        &&& self.board_state.captured == old.board_state.captured
        &&& self.board_state.material == old.board_state.material
        &&& self.piece_bitboards == old.piece_bitboards
        &&& self.color_bitboards == old.color_bitboards
    }

    /// What placing pieces keeps: the saved states, the ply count and the captured piece.
    pub open spec fn placing_keeps(self, old: Board) -> bool {
        &&& self.board_state_stack@ == old.board_state_stack@
        &&& self.half_move_number == old.half_move_number
        &&& self.board_state.captured == old.board_state.captured
    }

    /// Places the pieces of the rank written in `bytes[start..end]` on rank `rank` (modulo
    /// 256), adding their values to the material.
    fn place_row_at(&mut self, bytes: &[u8], start: usize, end: usize, rank: usize) -> (r: Result<(), FenError>)
        requires
            old(self).wf(),
            old(self).material_ok(),
            start <= end <= bytes@.len(),
        ensures
            final(self).wf(),
            final(self).material_ok(),
            final(self).placing_keeps(*old(self)),
            match place_row(bytes@, start as int, end as int, rank as int, 0, old(self).squares()) {
                Placing::Placed(sq) => r is Ok && final(self).squares() == sq,
                Placing::Stray(b) => r == Err::<(), FenError>(FenError::BadPiece(b)),
                Placing::OffBoard => r == Err::<(), FenError>(FenError::OffBoard),
            },
    {
        let ghost total = place_row(bytes@, start as int, end as int, rank as int, 0, self.squares());
        let mut i = start;
        let mut file: usize = 0;
        while i < end
            invariant
                start <= i <= end <= bytes@.len(),
                file <= 255,
                self.wf(),
                self.material_ok(),
                self.placing_keeps(*old(self)),
                place_row(bytes@, i as int, end as int, rank as int, file as int, self.squares())
                    == total,
                total == place_row(bytes@, start as int, end as int, rank as int, 0, old(self).squares()),
            decreases end - i,
        {
            let c = bytes[i];
            if 48 <= c && c <= 57 {
                let f = file + (c - 48) as usize;
                if f > 255 {
                    return Err(FenError::OffBoard);
                }
                file = f;
            } else {
                match Piece::try_from_letter(c) {
                    None => {
                        return Err(FenError::BadPiece(c));
                    },
                    Some(piece) => {
                        let t = (rank % 256) * 8 + file;
                        if t >= 64 {
                            return Err(FenError::OffBoard);
                        }
                        if self.piece_squares[t] != Piece::NoPiece {
                            return Err(FenError::OffBoard);
                        }
                        let ghost sq = self.squares();
                        proof {
                            lemma_material_sum_update(sq, t as int, piece, 64);
                            lemma_material_sum_bound(sq, 64);
                        }
                        self.add_piece(piece, Square(t as u8));
                        self.board_state.material = self.board_state.material + piece.value();
                        assert(self.squares() =~= sq.update(t as int, piece));
                        file = file + 1;
                    },
                }
            }
            i = i + 1;
        }
        Ok(())
    }

    /// Places the pieces of the placement `bytes[lo..hi]`, rank by rank from the last one
    /// written, which is the first rank.
    fn place_pieces(&mut self, bytes: &[u8], lo: usize, hi: usize) -> (r: Result<(), FenError>)
        requires
            old(self).wf(),
            old(self).material_ok(),
            lo <= hi <= bytes@.len(),
        ensures
            final(self).wf(),
            final(self).material_ok(),
            final(self).placing_keeps(*old(self)),
            match place_rows(bytes@, lo as int, hi as int, 0, old(self).squares()) {
                Placing::Placed(sq) => r is Ok && final(self).squares() == sq,
                Placing::Stray(b) => r == Err::<(), FenError>(FenError::BadPiece(b)),
                Placing::OffBoard => r == Err::<(), FenError>(FenError::OffBoard),
            },
    {
        let ghost total = place_rows(bytes@, lo as int, hi as int, 0, self.squares());
        let mut end = hi;
        let mut rank: usize = 0;
        loop
            invariant
                lo <= end <= hi <= bytes@.len(),
                rank <= hi - end,
                self.wf(),
                self.material_ok(),
                self.placing_keeps(*old(self)),
                place_rows(bytes@, lo as int, end as int, rank as int, self.squares()) == total,
                total == place_rows(bytes@, lo as int, hi as int, 0, old(self).squares()),
            decreases end - lo,
        {
            let start = row_start_at(bytes, lo, end);
            let r = self.place_row_at(bytes, start, end, rank);
            if r.is_err() {
                return r;
            }
            if start <= lo {
                return Ok(());
            }
            end = start - 1;
            rank = rank + 1;
        }
    }

    /// Both kings are on the board.
    pub fn both_kings_present(&self) -> (b: bool)
        requires
            self.wf(),
        ensures
            b == self.kings_present(),
            b == both_kings(self.squares()),
    {
        let w = self.colored_pieces(Color::White, crate::types::piece::PieceType::King);
        let k = self.colored_pieces(Color::Black, crate::types::piece::PieceType::King);
        proof {
            lemma_king_set(*self, 0);
            lemma_king_set(*self, 1);
        }
        w.not_empty() && k.not_empty()
    }

    /// Reads the fields after the placement, which ends at `from`: side to move, castling
    /// rights, en passant square, half-move clock and full-move number.
    fn read_state(&mut self, bytes: &[u8], from: usize) -> (r: Result<(), FenError>)
        requires
            old(self).wf(),
            from == field_end(bytes@, 0),
            field_start(bytes@, 0) <= from <= bytes@.len(),
        ensures
            final(self).squares() == old(self).squares(),
            final(self).placing_keeps_but_ply(*old(self)),
            ({
                let s = bytes@;
                let side = field(s, 1);
                if side != seq![119u8] && side != seq![98u8] {
                    r == Err::<(), FenError>(FenError::BadSideToMove)
                } else if !has_field(s, 2) {
                    r == Err::<(), FenError>(FenError::MissingCastling)
                } else if first_bad(field(s, 2)) is Some {
                    r == Err::<(), FenError>(FenError::BadCastling(first_bad(field(s, 2))->0))
                } else {
                    &&& r is Ok
                    &&& final(self).wf()
                    &&& state_fields(s, *final(self))
                }
            }),
    {
        let ghost s = bytes@;
        let (a1, b1) = next_field(bytes, from);
        let side = if b1 - a1 == 1 && bytes[a1] == 119 {
            assert(field(s, 1) =~= seq![119u8]);
            assert(field(s, 1)[0] != seq![98u8][0]);
            Color::White
        } else if b1 - a1 == 1 && bytes[a1] == 98 {
            assert(field(s, 1) =~= seq![98u8]);
            Color::Black
        } else {
            proof {
                let f = field(s, 1);
                assert(f.len() == b1 - a1);
                if f == seq![119u8] || f == seq![98u8] {
                    assert(f[0] == bytes@[a1 as int]);
                }
            }
            return Err(FenError::BadSideToMove);
        };
        let (a2, b2) = next_field(bytes, b1);
        if a2 >= bytes.len() {
            return Err(FenError::MissingCastling);
        }
        let castling = match Castling::parse_rights(bytes, a2, b2) {
            Ok(c) => {
                proof {
                    crate::types::castling::lemma_rights_small(bytes@.subrange(a2 as int, b2 as int));
                }
                c
            },
            Err(b) => {
                return Err(FenError::BadCastling(b));
            },
        };
        let (a3, b3) = next_field(bytes, b2);
        let en_passant = match Square::from_name_in(bytes, a3, b3) {
            Some(sq) => sq,
            None => Square::none(),
        };
        let (a4, b4) = next_field(bytes, b3);
        let clock: u8 = match parse_number(bytes, a4, b4, 255) {
            Some(v) => v as u8,
            None => 0,
        };
        let (a5, b5) = next_field(bytes, b4);
        let full: usize = match parse_number(bytes, a5, b5, usize::MAX as u64) {
            Some(v) => v as usize,
            None => 0,
        };
        self.board_state.castling = castling;
        self.board_state.en_passant = en_passant;
        self.board_state.half_move_clock = clock;
        let doubled = full.wrapping_mul(2);
        self.half_move_number = doubled.wrapping_add(side.index());
        proof {
            lemma_wrap_ply(full * 2, side.idx(), usize::MAX as int + 1);
            assert(doubled == (full * 2) % (usize::MAX as int + 1));
            assert(side.idx() == fen_side(s));
        }
        Ok(())
    }

    /// Reads a position in Forsyth-Edwards notation: placement, side to move, castling rights,
    /// en passant square, half-move clock and full-move number. A missing or unreadable en
    /// passant square, clock or move number is taken as none or 0.
    pub fn parse_fen_string(fen: &str) -> (r: Result<Board, FenError>)
        ensures
            match r {
                Err(e) => fen_error(fen.spec_bytes()) == Some(e),
                Ok(b) => fen_error(fen.spec_bytes()) is None && fen_board(fen.spec_bytes(), b),
            },
    {
        Self::parse_fen_bytes(fen.as_bytes())
    }

    /// Reads a position in Forsyth-Edwards notation from its bytes; see `parse_fen_string`.
    pub fn parse_fen_bytes(bytes: &[u8]) -> (r: Result<Board, FenError>)
        ensures
            match r {
                Err(e) => fen_error(bytes@) == Some(e),
                Ok(b) => fen_error(bytes@) is None && fen_board(bytes@, b),
            },
    {
        let ghost s = bytes@;
        let mut board = Board::empty();
        assert(board.squares() =~= no_pieces());
        let (a0, b0) = next_field(bytes, 0);
        if a0 >= bytes.len() {
            return Err(FenError::MissingPlacement);
        }
        let placed = board.place_pieces(bytes, a0, b0);
        if placed.is_err() {
            return match placed {
                Err(e) => Err(e),
                Ok(_) => Err(FenError::MissingPlacement),
            };
        }
        let ghost sq = board.squares();
        assert(fen_placement(s) == Placing::Placed(sq));
        let state = board.read_state(bytes, b0);
        if state.is_err() {
            return match state {
                Err(e) => Err(e),
                Ok(_) => Err(FenError::MissingPlacement),
            };
        }
        assert(state_fields(s, board));
        assert(board.squares() == sq);
        let ghost before = board;
        let done = Self::finish_setup(board);
        match done {
            Err(e) => Err(e),
            Ok(b) => {
                proof {
                    assert(fen_error(s) is None);
                    assert(b.squares() == sq);
                    assert(state_fields(s, b));
                    assert(fen_board(s, b));
                }
                Ok(b)
            },
        }
    }

    /// Completes a board read from a FEN string: refuses it without both kings, else computes
    /// its hash and its attack information from scratch.
    fn finish_setup(board: Board) -> (r: Result<Board, FenError>)
        requires
            board.wf(),
            board.material_ok(),
        ensures
            match r {
                Err(e) => e == FenError::MissingKing && !both_kings(board.squares()),
                Ok(b) => {
                    &&& both_kings(board.squares())
                    &&& b.squares() == board.squares()
                    &&& b.wf()
                    &&& b.material_ok()
                    &&& b.kings_present()
                    &&& b.half_move_number == board.half_move_number
                    &&& b.board_state.castling == board.board_state.castling
                    &&& b.board_state.en_passant == board.board_state.en_passant
                    &&& b.board_state.half_move_clock == board.board_state.half_move_clock
                    &&& b.board_state.captured == board.board_state.captured
                    &&& b.board_state_stack@ == board.board_state_stack@
                    &&& b.board_state.hash_keys.zob == b.position_hash()
                    &&& b.threats_fresh()
                    &&& check_info_fresh(b)
                },
            },
    {
        let mut board = board;
        if !board.both_kings_present() {
            return Err(FenError::MissingKing);
        }
        board.refresh_hash();
        board.refresh_piece_threats();
        assert(check_info_fresh(board));
        Ok(board)
    }

    /// The starting position, read from its FEN string (an empty board should that fail).
    pub fn startpos() -> (b: Board)
        ensures
            b.wf(),
            b.material_ok(),
            fen_error(STARTPOS.spec_bytes()) is None ==> fen_board(STARTPOS.spec_bytes(), b),
    {
        match Self::parse_fen_string(STARTPOS) {
            Ok(b) => b,
            Err(_) => Board::empty(),
        }
    }
}

/// On a well-formed board, a side has a king exactly when one of its king pieces stands on
/// some square.
proof fn lemma_king_set(b: Board, c: int)
    requires
        b.wf(),
        0 <= c < 2,
    ensures
        b.has_king(c) == exists|t: int| 0 <= t < 64 && b.squares()[t] == (if c == 0 {
            Piece::WhiteKing
        } else {
            Piece::BlackKing
        }),
{
    let x = b.colored(c, 5);
    let king = if c == 0 { Piece::WhiteKing } else { Piece::BlackKing };
    assert forall|t: int| 0 <= t < 64 implies #[trigger] bit(x, t) == (b.squares()[t] == king) by {
        crate::types::piece::lemma_piece_parts(b.squares()[t]);
    }
    if x != 0 {
        if forall|t: int| 0 <= t < 64 ==> !#[trigger] bit(x, t) {
            assert forall|t: int| 0 <= t < 64 implies #[trigger] bit(x, t) == bit(0u64, t) by {}
            lemma_bits_ext(x, 0);
        }
        let t = choose|t: int| 0 <= t < 64 && bit(x, t);
        assert(b.squares()[t] == king);
    } else {
        assert forall|t: int| 0 <= t < 64 implies b.squares()[t] != king by {
            assert(!bit(x, t));
        }
    }
}

} // verus!
