use vstd::prelude::*;
use crate::attacking::{
    get_king_attacks, get_knight_attacks, get_pawn_attacks, pawn_hit, knight_hop, king_step,
    strictly_between, on_line,
};
use crate::board::Board;
use crate::board::make_move::{ep_victim, rook_from, rook_to, pawn_of, attacks_for, piece_attacks};
use crate::rays::{between, line_through};
use crate::board::legality::{
    castle_safe, path_ok, path_to, lemma_pawn_step_path, lemma_pawn_double_path, lemma_pawn_capture_path, lemma_slider_path,
    lemma_leaper_symmetry,
};
use crate::types::bitboard::{Bitboard, bit, group_bits, popcount, FILE_A};
use vstd::std_specs::bits::u64_trailing_zeros;
use crate::types::castling::CastlingDirections;
use crate::types::color::Color;
use crate::types::move_list::{MoveList, MoveEntry};
use crate::types::moves::{Move, MoveFlag};
use crate::types::piece::{Piece, PieceType, piece_of_index};
use crate::types::square::{Square, rank_of, file_of};
use crate::types::{up_dir, spec_up_dir, pawn_start};

verus! {

broadcast use group_bits;

/// Which moves a generation produces.
pub trait GenType {
    /// Whether only captures are produced.
    fn captures_only() -> (b: bool);
}

/// Every legal move.
pub struct AllMoves;

impl GenType for AllMoves {
    fn captures_only() -> (b: bool)
        ensures
            !b,
    {
        false
    }
}

/// Only the legal captures.
pub struct CapturesOnly;

impl GenType for CapturesOnly {
    fn captures_only() -> (b: bool)
        ensures
            b,
    {
        true
    }
}

/// The first and last ranks, where pawns promote.
pub const BOTH_HOME_ROWS: u64 = 0xFF00_0000_0000_00FFu64;

/// The list holds a move from `f` to `t` whose flag has code `code`.
pub open spec fn has_move(ml: Seq<MoveEntry>, f: int, t: int, code: int) -> bool {
    exists|j: int|
        #![trigger ml[j]]
        0 <= j < ml.len() && ml[j].mv.from_idx() == f && ml[j].mv.to_idx() == t && ml[j].mv.code() == code
}

/// `new` holds the moves of `old`, in the same places, and maybe more after them.
pub open spec fn extends(old: Seq<MoveEntry>, new: Seq<MoveEntry>) -> bool {
    &&& old.len() <= new.len()
    &&& forall|j: int| 0 <= j < old.len() ==> #[trigger] new[j] == old[j]
}

/// A list that extends another holds its moves.
pub proof fn lemma_extends_keeps(old: Seq<MoveEntry>, new: Seq<MoveEntry>)
    requires
        extends(old, new),
    ensures
        forall|f: int, t: int, code: int| has_move(old, f, t, code) ==> #[trigger] has_move(new, f, t, code),
{
    assert forall|f: int, t: int, code: int| has_move(old, f, t, code) implies #[trigger] has_move(new, f, t, code) by {
        let j = choose|j: int|
            #![trigger old[j]]
            0 <= j < old.len() && old[j].mv.from_idx() == f && old[j].mv.to_idx() == t && old[j].mv.code() == code;
        assert(new[j] == old[j]);
    }
}

/// Extending is transitive.
pub proof fn lemma_extends_trans(a: Seq<MoveEntry>, b: Seq<MoveEntry>, c: Seq<MoveEntry>)
    requires
        extends(a, b),
        extends(b, c),
    ensures
        extends(a, c),
{
    assert forall|j: int| 0 <= j < a.len() implies #[trigger] c[j] == a[j] by {
        assert(c[j] == b[j]);
    }
}

/// The flag code of a plain move to `t`: a capture where a piece of the other side stands.
pub open spec fn plain_code(b: Board, t: int) -> int {
    if bit(b.color_bitboards[1 - b.stm()].0, t) {
        4
    } else {
        0
    }
}

/// A plain move from `f` to a square of `targets`, flagged as a capture where a piece of the
/// other side stands.
pub open spec fn plain_from(b: Board, mv: Move, f: int, targets: u64) -> bool {
    &&& mv.from_idx() == f
    &&& bit(targets, mv.to_idx())
    &&& mv.code() == plain_code(b, mv.to_idx())
}

/// The list holds a pawn's move from `f` to `t`: on a last rank the four promotions, with
/// codes `base` to `base + 3`, and elsewhere the move with code `plain`.
pub open spec fn pawn_listed(ml: Seq<MoveEntry>, f: int, t: int, base: int, plain: int) -> bool {
    if bit(BOTH_HOME_ROWS, t) {
        &&& has_move(ml, f, t, base)
        &&& has_move(ml, f, t, base + 1)
        &&& has_move(ml, f, t, base + 2)
        &&& has_move(ml, f, t, base + 3)
    } else {
        has_move(ml, f, t, plain)
    }
}

/// A pawn of the side to move on `f` may step forward to a square of `target`: the square is
/// empty, and a pinned pawn stands on its king's file.
pub open spec fn push_cond(b: Board, co: bool, f: int) -> bool {
    let stm = b.stm();
    let one = f + spec_up_dir(stm);
    &&& bit(b.colored(stm, 0), f)
    &&& (bit(b.board_state.pinned[stm].0, f) ==> file_of(f) == file_of(b.king_sq(stm)))
    &&& !bit(b.occ(), one)
    &&& target_ok(b, co, one)
}

/// A pawn of the side to move on `f`, on its start rank, may step two squares forward to a
/// square of `target` over an empty square.
pub open spec fn double_cond(b: Board, co: bool, f: int) -> bool {
    let stm = b.stm();
    let one = f + spec_up_dir(stm);
    let two = one + spec_up_dir(stm);
    &&& bit(b.colored(stm, 0), f)
    &&& (bit(b.board_state.pinned[stm].0, f) ==> file_of(f) == file_of(b.king_sq(stm)))
    &&& !bit(b.occ(), one)
    &&& !bit(BOTH_HOME_ROWS, one)
    &&& rank_of(f) == (if stm == 0 { 1int } else { 6int })
    &&& !bit(b.occ(), two)
    &&& target_ok(b, co, two)
}

/// A pawn of the side to move on `f` may take the piece of the other side on `t`, a square of
/// `target`, staying on its king's line when pinned.
pub open spec fn capture_cond(b: Board, co: bool, f: int, t: int) -> bool {
    let stm = b.stm();
    &&& bit(b.colored(stm, 0), f)
    &&& pawn_hit(f, t, stm)
    &&& bit(b.color_bitboards[1 - stm].0, t)
    &&& target_ok(b, co, t)
    &&& (bit(b.board_state.pinned[stm].0, f) ==> on_line(b.king_sq(stm), f, t))
}

/// A pawn of the side to move on `f` may take en passant, by the legality check.
pub open spec fn ep_cond(b: Board, f: int) -> bool {
    let stm = b.stm();
    let ep = b.board_state.en_passant.0 as int;
    &&& ep != 64
    &&& bit(b.colored(stm, 0), f)
    &&& pawn_hit(ep, f, 1 - stm)
    &&& b.legal_spec(Move((f + 64 * ep + 4096 * 5) as u16))
}

/// The castling moves the generator owes: out of check, with the right held, the squares
/// between king and rook empty, and the king's landing square and the square it crosses
/// unattacked.
pub open spec fn castles_listed(b: Board, ml: Seq<MoveEntry>) -> bool {
    let raw = b.board_state.castling.raw;
    let occ = b.occ();
    let threats = b.board_state.threats_by[1 - b.stm()].0;
    let free = b.board_state.checkers.0 == 0;
    &&& free && b.stm() == 0 && raw & CastlingDirections::WhiteKingside.spec_bit() != 0 && occ & 0x60 == 0
        && 0x60 & threats == 0 ==> has_move(ml, 4, 6, 2)
    &&& free && b.stm() == 0 && raw & CastlingDirections::WhiteQueenside.spec_bit() != 0 && occ & 0x0E == 0
        && 0x0C & threats == 0 ==> has_move(ml, 4, 2, 3)
    &&& free && b.stm() == 1 && raw & CastlingDirections::BlackKingside.spec_bit() != 0 && occ
        & 0x6000000000000000 == 0 && 0x6000000000000000 & threats == 0 ==> has_move(ml, 60, 62, 2)
    &&& free && b.stm() == 1 && raw & CastlingDirections::BlackQueenside.spec_bit() != 0 && occ
        & 0x0E00000000000000 == 0 && 0x0C00000000000000 & threats == 0 ==> has_move(ml, 60, 58, 3)
}

/// The squares the pieces other than the king may move to: not held by the side to move,
/// meeting a check, and holding a piece of the other side when only captures are wanted.
pub open spec fn target_ok(b: Board, co: bool, t: int) -> bool {
    &&& !bit(b.color_bitboards[b.stm()].0, t)
    &&& b.check_ok(t)
    &&& (co ==> bit(b.color_bitboards[1 - b.stm()].0, t))
}

/// The list holds the moves owed of the knights (not
/// pinned), bishops, rooks and queens (a pinned one along its king's line) and pawns (pushes
/// unless only captures are wanted, captures).
pub open spec fn piece_moves_listed(b: Board, co: bool, ml: Seq<MoveEntry>) -> bool {
    let stm = b.stm();
    let king = b.king_sq(stm);
    let pinned = b.board_state.pinned[stm].0;
    &&& forall|f: int, t: int|
        0 <= f < 64 && 0 <= t < 64 && bit(b.colored(stm, 1), f) && !bit(pinned, f) && knight_hop(f, t) && target_ok(b, co, t)
            ==> #[trigger] has_move(ml, f, t, plain_code(b, t))
    &&& forall|k: int, f: int, t: int|
        2 <= k <= 4 && 0 <= f < 64 && 0 <= t < 64 && #[trigger] bit(b.colored(stm, k), f) && piece_attacks(
            stm,
            k,
            f,
            b.occ(),
            t,
        ) && target_ok(b, co, t) && (bit(pinned, f) ==> on_line(king, f, t)) ==> #[trigger] has_move(ml, f, t, plain_code(b, t))
    &&& forall|f: int|
        0 <= f < 64 && !co && #[trigger] push_cond(b, co, f) ==> pawn_listed(ml, f, f + spec_up_dir(stm), 8, 0)
    &&& forall|f: int|
        0 <= f < 64 && !co && #[trigger] double_cond(b, co, f) ==> has_move(ml, f, f + 2 * spec_up_dir(stm), 1)
    &&& forall|f: int, t: int|
        0 <= f < 64 && 0 <= t < 64 && #[trigger] capture_cond(b, co, f, t) ==> pawn_listed(ml, f, t, 12, 4)
}

/// The list holds the king's moves owed: to each adjacent square not held by the side to
/// move and not attacked, holding a piece of the other side when only captures are wanted.
pub open spec fn king_moves_listed(b: Board, co: bool, ml: Seq<MoveEntry>) -> bool {
    let stm = b.stm();
    let king = b.king_sq(stm);
    forall|t: int|
        0 <= t < 64 && king_step(king, t) && !bit(b.color_bitboards[stm].0, t) && !bit(
            b.board_state.threats_by[1 - stm].0,
            t,
        ) && (co ==> bit(b.color_bitboards[1 - stm].0, t)) ==> #[trigger] has_move(ml, king, t, plain_code(b, t))
}

/// The list holds the en passant captures that pass the legality check.
pub open spec fn ep_listed(b: Board, ml: Seq<MoveEntry>) -> bool {
    forall|f: int| 0 <= f < 64 && #[trigger] ep_cond(b, f) ==> has_move(ml, f, b.board_state.en_passant.0 as int, 5)
}

/// The castling move from `f` to `t` with code `code` is owed by `castles_listed`.
pub open spec fn castle_owed(b: Board, f: int, t: int, code: int) -> bool {
    let raw = b.board_state.castling.raw;
    let occ = b.occ();
    let threats = b.board_state.threats_by[1 - b.stm()].0;
    let free = b.board_state.checkers.0 == 0;
    ||| f == 4 && t == 6 && code == 2 && free && b.stm() == 0 && raw & CastlingDirections::WhiteKingside.spec_bit()
        != 0 && occ & 0x60 == 0 && 0x60 & threats == 0
    ||| f == 4 && t == 2 && code == 3 && free && b.stm() == 0 && raw & CastlingDirections::WhiteQueenside.spec_bit()
        != 0 && occ & 0x0E == 0 && 0x0C & threats == 0
    ||| f == 60 && t == 62 && code == 2 && free && b.stm() == 1 && raw & CastlingDirections::BlackKingside.spec_bit()
        != 0 && occ & 0x6000000000000000 == 0 && 0x6000000000000000 & threats == 0
    ||| f == 60 && t == 58 && code == 3 && free && b.stm() == 1 && raw & CastlingDirections::BlackQueenside.spec_bit()
        != 0 && occ & 0x0E00000000000000 == 0 && 0x0C00000000000000 & threats == 0
}

/// The list entry of the move from `f` to `t` with flag code `code`, unscored.
pub open spec fn entry_of(f: int, t: int, code: int) -> MoveEntry {
    MoveEntry { ordering_score: 0, mv: Move((f + 64 * t + 4096 * code) as u16) }
}

/// The entry of a castling move if `castle_owed` holds of it, else nothing.
pub open spec fn castle_entry(b: Board, f: int, t: int, code: int) -> Seq<MoveEntry> {
    if castle_owed(b, f, t, code) {
        seq![entry_of(f, t, code)]
    } else {
        Seq::empty()
    }
}

/// The castling moves the generator adds, in its order: short before long.
pub open spec fn castle_entries(b: Board) -> Seq<MoveEntry> {
    castle_entry(b, 4, 6, 2) + castle_entry(b, 4, 2, 3) + castle_entry(b, 60, 62, 2) + castle_entry(b, 60, 58, 3)
}

/// The move from `f` to `t` with flag code `code` is one that generating all moves owes: a
/// king move; out of double check a knight, bishop, rook or queen move, a pawn push, double
/// push or capture (each promotion on a last rank), an en passant capture, or castling.
pub open spec fn owed(b: Board, f: int, t: int, code: int) -> bool {
    let stm = b.stm();
    let king = b.king_sq(stm);
    let pinned = b.board_state.pinned[stm].0;
    let single = popcount(b.board_state.checkers.0) < 2;
    let up = spec_up_dir(stm);
    &&& 0 <= f < 64
    &&& 0 <= t < 64
    &&& {
        ||| f == king && king_step(king, t) && !bit(b.color_bitboards[stm].0, t) && !bit(
            b.board_state.threats_by[1 - stm].0,
            t,
        ) && code == plain_code(b, t)
        ||| single && bit(b.colored(stm, 1), f) && !bit(pinned, f) && knight_hop(f, t) && target_ok(b, false, t)
            && code == plain_code(b, t)
        ||| single && (exists|k: int|
            2 <= k <= 4 && #[trigger] bit(b.colored(stm, k), f) && piece_attacks(stm, k, f, b.occ(), t))
            && target_ok(b, false, t) && (bit(pinned, f) ==> on_line(king, f, t)) && code == plain_code(b, t)
        ||| single && t == f + up && push_cond(b, false, f) && (if bit(BOTH_HOME_ROWS, t) {
            8 <= code <= 11
        } else {
            code == 0
        })
        ||| single && t == f + 2 * up && double_cond(b, false, f) && code == 1
        ||| single && capture_cond(b, false, f, t) && (if bit(BOTH_HOME_ROWS, t) {
            12 <= code <= 15
        } else {
            code == 4
        })
        ||| single && t == b.board_state.en_passant.0 && ep_cond(b, f) && code == 5
        ||| single && castle_owed(b, f, t, code)
    }
}

/// The flag codes of captures: a capture, en passant, and the four capturing promotions.
pub open spec fn capture_code(code: int) -> bool {
    code == 4 || code == 5 || 12 <= code <= 15
}

/// `mv` is owed by generating all moves, and is a capture when only captures are wanted.
pub open spec fn owed_co(b: Board, co: bool, mv: Move) -> bool {
    &&& owed(b, mv.from_idx(), mv.to_idx(), mv.code())
    &&& co ==> capture_code(mv.code())
}

/// Every move of the list is owed, and a capture when only captures are wanted.
pub open spec fn all_owed(b: Board, co: bool, ml: Seq<MoveEntry>) -> bool {
    forall|i: int| 0 <= i < ml.len() ==> owed_co(b, co, #[trigger] ml[i].mv)
}

/// Castling, where owed, starts from a king.
pub open spec fn castles_from_king(b: Board) -> bool {
    forall|f: int, t: int, code: int| #[trigger] castle_owed(b, f, t, code) ==> b.squares()[f].type_idx() == 5
}

/// The flag code `code` fits the promotion named by `letter` (a kind from 1 to 4, or none).
pub open spec fn fits_letter(code: int, letter: Option<int>) -> bool {
    code < 8 || letter == Some(code % 4 + 1)
}

/// Two moves owed from one square to another, both fitting the same promotion letter, have
/// the same flag.
pub proof fn lemma_owed_code_unique(b: Board, f: int, t: int, c1: int, c2: int, letter: Option<int>)
    requires
        b.gen_ready(),
        castles_from_king(b),
        owed(b, f, t, c1),
        owed(b, f, t, c2),
        fits_letter(c1, letter),
        fits_letter(c2, letter),
    ensures
        c1 == c2,
{
    let s = b.squares();
    let stm = b.stm();
    crate::types::piece::lemma_piece_parts(s[f]);
    crate::types::piece::lemma_piece_parts(s[t]);
    crate::types::bitboard::lemma_lowest_bit(b.colored(stm, 5));
    if castle_owed(b, f, t, c1) {
        assert(s[f].type_idx() == 5);
    }
    if castle_owed(b, f, t, c2) {
        assert(s[f].type_idx() == 5);
    }
}

/// A list that holds all that generating all moves owes holds each owed move.
pub proof fn lemma_owed_listed(b: Board, ml: Seq<MoveEntry>, f: int, t: int, code: int)
    requires
        king_moves_listed(b, false, ml),
        popcount(b.board_state.checkers.0) < 2 ==> piece_moves_listed(b, false, ml),
        popcount(b.board_state.checkers.0) < 2 ==> ep_listed(b, ml),
        popcount(b.board_state.checkers.0) < 2 ==> castles_listed(b, ml),
        owed(b, f, t, code),
    ensures
        has_move(ml, f, t, code),
{
    let stm = b.stm();
    if popcount(b.board_state.checkers.0) < 2 && (exists|k: int|
        2 <= k <= 4 && #[trigger] bit(b.colored(stm, k), f) && piece_attacks(stm, k, f, b.occ(), t)) {
        let k = choose|k: int| 2 <= k <= 4 && #[trigger] bit(b.colored(stm, k), f) && piece_attacks(stm, k, f, b.occ(), t);
        assert(bit(b.colored(stm, k), f));
    }
    if popcount(b.board_state.checkers.0) < 2 && push_cond(b, false, f) {
        assert(pawn_listed(ml, f, f + spec_up_dir(stm), 8, 0));
    }
    if popcount(b.board_state.checkers.0) < 2 && double_cond(b, false, f) {
        assert(has_move(ml, f, f + 2 * spec_up_dir(stm), 1));
    }
    if popcount(b.board_state.checkers.0) < 2 && capture_cond(b, false, f, t) {
        assert(pawn_listed(ml, f, t, 12, 4));
    }
    if popcount(b.board_state.checkers.0) < 2 && ep_cond(b, f) {
        assert(has_move(ml, f, b.board_state.en_passant.0 as int, 5));
    }
}

/// Two moves with the same squares and flag.
pub open spec fn same_move(a: Move, b: Move) -> bool {
    a.from_idx() == b.from_idx() && a.to_idx() == b.to_idx() && a.code() == b.code()
}

/// No move stands twice among the entries from `lo` up to `hi`.
pub open spec fn distinct_in(ml: Seq<MoveEntry>, lo: int, hi: int) -> bool {
    forall|i: int, j: int| lo <= i < j < hi ==> !same_move(#[trigger] ml[i].mv, #[trigger] ml[j].mv)
}

/// The entries from `lo` up to `hi` move pieces of kind `k`, and none of them castles.
pub open spec fn moved_kind(b: Board, ml: Seq<MoveEntry>, lo: int, hi: int, k: int) -> bool {
    forall|i: int|
        lo <= i < hi ==> b.squares()[#[trigger] ml[i].mv.from_idx()].type_idx() == k && !ml[i].mv.spec_is_castling()
}

/// Entries that stay in place stay distinct and keep their kinds.
pub proof fn lemma_distinct_extends(b: Board, old: Seq<MoveEntry>, new: Seq<MoveEntry>, lo: int, k: int)
    requires
        extends(old, new),
        0 <= lo,
    ensures
        distinct_in(old, lo, old.len() as int) ==> distinct_in(new, lo, old.len() as int),
        moved_kind(b, old, lo, old.len() as int, k) ==> moved_kind(b, new, lo, old.len() as int, k),
{
    if distinct_in(old, lo, old.len() as int) {
        assert forall|i: int, j: int| lo <= i < j < old.len() implies !same_move(#[trigger] new[i].mv, #[trigger] new[j].mv) by {
            assert(new[i] == old[i]);
            assert(new[j] == old[j]);
        }
    }
    if moved_kind(b, old, lo, old.len() as int, k) {
        assert forall|i: int| lo <= i < old.len() implies b.squares()[#[trigger] new[i].mv.from_idx()].type_idx() == k && !new[i].mv.spec_is_castling() by {
            assert(new[i] == old[i]);
        }
    }
}

/// Two runs of distinct entries, no entry of the first the same move as one of the second,
/// make one run of distinct entries.
pub proof fn lemma_distinct_join(ml: Seq<MoveEntry>, lo: int, mid: int, hi: int)
    requires
        lo <= mid <= hi,
        distinct_in(ml, lo, mid),
        distinct_in(ml, mid, hi),
        forall|i: int, j: int| lo <= i < mid <= j < hi ==> !same_move(#[trigger] ml[i].mv, #[trigger] ml[j].mv),
    ensures
        distinct_in(ml, lo, hi),
{
}

/// The flag codes of pawn pushes: a quiet step, a double step, and the four promotions.
pub open spec fn push_code(code: int) -> bool {
    code == 0 || code == 1 || 8 <= code <= 11
}

/// The flag codes of pawn captures other than en passant: a capture and the four capturing
/// promotions.
pub open spec fn take_code(code: int) -> bool {
    code == 4 || 12 <= code <= 15
}

/// No move stands twice in the list.
pub open spec fn listed_once(ml: Seq<MoveEntry>) -> bool {
    distinct_in(ml, 0, ml.len() as int)
}

/// A list that holds all that generating only captures owes holds each owed capture.
pub proof fn lemma_owed_capture_listed(b: Board, ml: Seq<MoveEntry>, f: int, t: int, code: int)
    requires
        king_moves_listed(b, true, ml),
        popcount(b.board_state.checkers.0) < 2 ==> piece_moves_listed(b, true, ml),
        popcount(b.board_state.checkers.0) < 2 ==> ep_listed(b, ml),
        owed(b, f, t, code),
        capture_code(code),
    ensures
        has_move(ml, f, t, code),
{
    let stm = b.stm();
    if popcount(b.board_state.checkers.0) < 2 && (exists|k: int|
        2 <= k <= 4 && #[trigger] bit(b.colored(stm, k), f) && piece_attacks(stm, k, f, b.occ(), t)) {
        let k = choose|k: int| 2 <= k <= 4 && #[trigger] bit(b.colored(stm, k), f) && piece_attacks(stm, k, f, b.occ(), t);
        assert(bit(b.colored(stm, k), f));
    }
    if popcount(b.board_state.checkers.0) < 2 && capture_cond(b, false, f, t) {
        assert(capture_cond(b, true, f, t));
        assert(pawn_listed(ml, f, t, 12, 4));
    }
    if popcount(b.board_state.checkers.0) < 2 && ep_cond(b, f) {
        assert(has_move(ml, f, b.board_state.en_passant.0 as int, 5));
    }
}

/// Generating only captures lists the capture moves of generating all moves, and nothing else:
/// en passant and capturing promotions in, quiet moves, quiet promotions and castling out.
pub proof fn lemma_captures_only_lists_the_captures(b: Board, all: Seq<MoveEntry>, caps: Seq<MoveEntry>)
    requires
        all_owed(b, false, all),
        king_moves_listed(b, false, all),
        popcount(b.board_state.checkers.0) < 2 ==> piece_moves_listed(b, false, all),
        popcount(b.board_state.checkers.0) < 2 ==> ep_listed(b, all),
        popcount(b.board_state.checkers.0) < 2 ==> castles_listed(b, all),
        all_owed(b, true, caps),
        king_moves_listed(b, true, caps),
        popcount(b.board_state.checkers.0) < 2 ==> piece_moves_listed(b, true, caps),
        popcount(b.board_state.checkers.0) < 2 ==> ep_listed(b, caps),
    ensures
        forall|f: int, t: int, c: int| #[trigger] has_move(caps, f, t, c) <==> has_move(all, f, t, c) && capture_code(c),
{
    assert forall|f: int, t: int, c: int| #[trigger] has_move(caps, f, t, c) implies has_move(all, f, t, c) && capture_code(c) by {
        let j = choose|j: int|
            #![trigger caps[j]]
            0 <= j < caps.len() && caps[j].mv.from_idx() == f && caps[j].mv.to_idx() == t && caps[j].mv.code() == c;
        assert(owed_co(b, true, caps[j].mv));
        lemma_owed_listed(b, all, f, t, c);
    }
    assert forall|f: int, t: int, c: int| has_move(all, f, t, c) && capture_code(c) implies #[trigger] has_move(caps, f, t, c) by {
        let j = choose|j: int|
            #![trigger all[j]]
            0 <= j < all.len() && all[j].mv.from_idx() == f && all[j].mv.to_idx() == t && all[j].mv.code() == c;
        assert(owed_co(b, false, all[j].mv));
        lemma_owed_capture_listed(b, caps, f, t, c);
    }
}

/// The side to move has no move that generating all moves owes.
pub open spec fn no_owed_move(b: Board) -> bool {
    forall|f: int, t: int, code: int| !#[trigger] owed(b, f, t, code)
}

/// The king of the side to move is recorded attacked.
pub open spec fn in_check_spec(b: Board) -> bool {
    bit(b.board_state.threats_by[1 - b.stm()].0, b.king_sq(b.stm()))
}

/// With no move owed, the list is empty.
pub proof fn lemma_no_owed_empty(b: Board, co: bool, ml: Seq<MoveEntry>)
    requires
        all_owed(b, co, ml),
        no_owed_move(b),
    ensures
        ml.len() == 0,
{
    if ml.len() > 0 {
        assert(owed_co(b, co, ml[0].mv));
    }
}

/// Among the entries from `lo` up to `hi`, each promotion to a queen (code 11, or 15 when it
/// captures) is followed by the promotions to a rook, a bishop and a knight of the same pawn
/// to the same square, in that order.
pub open spec fn promo_runs(ml: Seq<MoveEntry>, lo: int, hi: int) -> bool {
    forall|j: int|
        lo <= j < hi && (#[trigger] ml[j].mv.code() == 11 || ml[j].mv.code() == 15) ==> {
            &&& j + 3 < hi
            &&& promo_step(ml, j, 1) && promo_step(ml, j, 2) && promo_step(ml, j, 3)
        }
}

/// The entry `d` places after entry `j` promotes the same pawn to the same square, to the kind
/// `d` below.
pub open spec fn promo_step(ml: Seq<MoveEntry>, j: int, d: int) -> bool {
    &&& ml[j + d].mv.from_idx() == ml[j].mv.from_idx()
    &&& ml[j + d].mv.to_idx() == ml[j].mv.to_idx()
    &&& ml[j + d].mv.code() == ml[j].mv.code() - d
}

/// Promotion runs stay in place when the list grows.
pub proof fn lemma_promo_runs_extends(old: Seq<MoveEntry>, new: Seq<MoveEntry>, lo: int)
    requires
        extends(old, new),
        promo_runs(old, lo, old.len() as int),
        0 <= lo,
    ensures
        forall|j: int|
            lo <= j < old.len() && (#[trigger] new[j].mv.code() == 11 || new[j].mv.code() == 15) ==> {
                &&& j + 3 < new.len()
                &&& promo_step(new, j, 1) && promo_step(new, j, 2) && promo_step(new, j, 3)
            },
{
    assert forall|j: int|
        lo <= j < old.len() && (#[trigger] new[j].mv.code() == 11 || new[j].mv.code() == 15) implies {
            &&& j + 3 < new.len()
            &&& promo_step(new, j, 1) && promo_step(new, j, 2) && promo_step(new, j, 3)
        } by {
        assert(new[j] == old[j]);
        assert(old[j].mv.code() == 11 || old[j].mv.code() == 15);
        assert(new[j + 1] == old[j + 1]);
        assert(new[j + 2] == old[j + 2]);
        assert(new[j + 3] == old[j + 3]);
    }
}

/// `a` comes before `b` in square order: a lower origin, or the same origin and a lower
/// destination.
pub open spec fn square_order(a: Move, b: Move) -> bool {
    a.from_idx() < b.from_idx() || (a.from_idx() == b.from_idx() && a.to_idx() < b.to_idx())
}

/// The entries from `lo` up to `hi` come in square order.
pub open spec fn sorted_in(ml: Seq<MoveEntry>, lo: int, hi: int) -> bool {
    forall|i: int, j: int| lo <= i < j < hi ==> square_order(#[trigger] ml[i].mv, #[trigger] ml[j].mv)
}

/// The moves generating all moves owes, as origin, destination and flag code.
pub open spec fn owed_set(b: Board) -> Set<(int, int, int)> {
    Set::new(|m: (int, int, int)| owed(b, m.0, m.1, m.2))
}

/// The origin, destination and flag code of each entry.
pub open spec fn triples(ml: Seq<MoveEntry>) -> Seq<(int, int, int)> {
    ml.map_values(|e: MoveEntry| (e.mv.from_idx(), e.mv.to_idx(), e.mv.code()))
}

/// A list of all moves generated holds each owed move once and nothing else, so there are as
/// many entries as owed moves.
pub proof fn lemma_list_counts_owed(b: Board, ml: Seq<MoveEntry>)
    requires
        all_owed(b, false, ml),
        listed_once(ml),
        king_moves_listed(b, false, ml),
        popcount(b.board_state.checkers.0) < 2 ==> piece_moves_listed(b, false, ml),
        popcount(b.board_state.checkers.0) < 2 ==> ep_listed(b, ml),
        popcount(b.board_state.checkers.0) < 2 ==> castles_listed(b, ml),
    ensures
        owed_set(b).finite(),
        ml.len() == owed_set(b).len(),
        triples(ml).no_duplicates(),
        triples(ml).to_set() == owed_set(b),
{
    let tr = triples(ml);
    assert(tr.no_duplicates()) by {
        assert forall|i: int, j: int| 0 <= i < tr.len() && 0 <= j < tr.len() && i != j implies tr[i] != tr[j] by {
            if i < j {
                assert(!same_move(ml[i].mv, ml[j].mv));
            } else {
                assert(!same_move(ml[j].mv, ml[i].mv));
            }
        }
    }
    tr.unique_seq_to_set();
    assert forall|m: (int, int, int)| tr.to_set().contains(m) <==> #[trigger] owed_set(b).contains(m) by {
        if tr.contains(m) {
            let i = choose|i: int| 0 <= i < tr.len() && tr[i] == m;
            assert(owed_co(b, false, ml[i].mv));
        }
        if owed(b, m.0, m.1, m.2) {
            lemma_owed_listed(b, ml, m.0, m.1, m.2);
            let j = choose|j: int|
                #![trigger ml[j]]
                0 <= j < ml.len() && ml[j].mv.from_idx() == m.0 && ml[j].mv.to_idx() == m.1 && ml[j].mv.code() == m.2;
            assert(tr[j] == m);
        }
    }
    assert(tr.to_set() =~= owed_set(b));
    vstd::seq_lib::seq_to_set_is_finite(tr);
}

/// The moves generating owes when only captures are wanted (`co`), or all of them.
pub open spec fn owed_set_co(b: Board, co: bool) -> Set<(int, int, int)> {
    Set::new(|m: (int, int, int)| owed(b, m.0, m.1, m.2) && (co ==> capture_code(m.2)))
}

/// A generated list holds each move it owes once and nothing else.
pub proof fn lemma_list_enumerates(b: Board, co: bool, ml: Seq<MoveEntry>)
    requires
        all_owed(b, co, ml),
        listed_once(ml),
        king_moves_listed(b, co, ml),
        popcount(b.board_state.checkers.0) < 2 ==> piece_moves_listed(b, co, ml),
        popcount(b.board_state.checkers.0) < 2 ==> ep_listed(b, ml),
        popcount(b.board_state.checkers.0) < 2 && !co ==> castles_listed(b, ml),
    ensures
        triples(ml).no_duplicates(),
        triples(ml).to_set() == owed_set_co(b, co),
{
    let tr = triples(ml);
    assert forall|i: int, j: int| 0 <= i < tr.len() && 0 <= j < tr.len() && i != j implies tr[i] != tr[j] by {
        if i < j {
            assert(!same_move(ml[i].mv, ml[j].mv));
        } else {
            assert(!same_move(ml[j].mv, ml[i].mv));
        }
    }
    assert forall|m: (int, int, int)| tr.to_set().contains(m) <==> #[trigger] owed_set_co(b, co).contains(m) by {
        if tr.contains(m) {
            let i = choose|i: int| 0 <= i < tr.len() && tr[i] == m;
            assert(owed_co(b, co, ml[i].mv));
        }
        if owed(b, m.0, m.1, m.2) && (co ==> capture_code(m.2)) {
            if co {
                lemma_owed_capture_listed(b, ml, m.0, m.1, m.2);
            } else {
                lemma_owed_listed(b, ml, m.0, m.1, m.2);
            }
            let j = choose|j: int|
                #![trigger ml[j]]
                0 <= j < ml.len() && ml[j].mv.from_idx() == m.0 && ml[j].mv.to_idx() == m.1 && ml[j].mv.code() == m.2;
            assert(tr[j] == m);
        }
    }
    assert(tr.to_set() =~= owed_set_co(b, co));
}

/// Swapping two entries keeps the moves a list holds, each once.
pub proof fn lemma_swap_keeps_triples(s: Seq<MoveEntry>, i: int, j: int)
    requires
        0 <= i < s.len(),
        0 <= j < s.len(),
        triples(s).no_duplicates(),
    ensures
        triples(s.update(i, s[j]).update(j, s[i])).no_duplicates(),
        triples(s.update(i, s[j]).update(j, s[i])).to_set() == triples(s).to_set(),
{
    let t = s.update(i, s[j]).update(j, s[i]);
    let ts = triples(s);
    let tt = triples(t);
    let p = |k: int| if k == i { j } else if k == j { i } else { k };
    assert forall|k: int| 0 <= k < t.len() implies #[trigger] tt[k] == ts[p(k)] by {}
    assert forall|a: int, c: int| 0 <= a < tt.len() && 0 <= c < tt.len() && a != c implies tt[a] != tt[c] by {
        assert(tt[a] == ts[p(a)]);
        assert(tt[c] == ts[p(c)]);
    }
    assert forall|m: (int, int, int)| tt.to_set().contains(m) <==> #[trigger] ts.to_set().contains(m) by {
        if tt.contains(m) {
            let a = choose|a: int| 0 <= a < tt.len() && tt[a] == m;
            assert(ts[p(a)] == m);
        }
        if ts.contains(m) {
            let a = choose|a: int| 0 <= a < ts.len() && ts[a] == m;
            assert(tt[p(a)] == ts[a]);
        }
    }
    assert(tt.to_set() =~= ts.to_set());
}

/// What the board must hold for move generation: a well-formed board with the mover's king,
/// no pawn of the mover on its last rank, castling rights backed by the king and rook on
/// their squares, and an en passant square that is empty with the pawn to take behind it.
impl Board {
    pub open spec fn gen_ready(self) -> bool {
        let s = self.squares();
        let stm = self.stm();
        let ep = self.board_state.en_passant.0 as int;
        let raw = self.board_state.castling.raw;
        &&& self.wf()
        &&& self.has_king(stm)
        &&& forall|t: int|
            0 <= t < 64 && #[trigger] s[t] == pawn_of(stm) ==> 0 <= t + spec_up_dir(stm) < 64
        &&& (ep != 64 ==> {
            &&& 0 <= ep_victim(ep, stm) < 64
            &&& s[ep] == Piece::NoPiece
            &&& s[ep_victim(ep, stm)] != Piece::NoPiece
        })
        &&& (stm == 0 && raw & 1 != 0 ==> s[4] != Piece::NoPiece && s[4].color_idx() == 0 && s[7] != Piece::NoPiece)
        &&& (stm == 0 && raw & 2 != 0 ==> s[4] != Piece::NoPiece && s[4].color_idx() == 0 && s[0] != Piece::NoPiece)
        &&& (stm == 1 && raw & 4 != 0 ==> s[60] != Piece::NoPiece && s[60].color_idx() == 1 && s[63] != Piece::NoPiece)
        &&& (stm == 1 && raw & 8 != 0 ==> s[60] != Piece::NoPiece && s[60].color_idx() == 1 && s[56] != Piece::NoPiece)
    }

    /// A generated move is playable: it moves a piece of the side to move to another square,
    /// captures exactly when it lands on (or, en passant, behind) an enemy piece, castles only
    /// with the rook on its corner and the king's and rook's landing squares empty, and
    /// promotes only pawns.
    pub open spec fn gen_ok(self, mv: Move) -> bool {
        let s = self.squares();
        let from = mv.from_idx();
        let to = mv.to_idx();
        let stm = self.stm();
        &&& mv.well_formed()
        &&& from != to
        &&& s[from] != Piece::NoPiece
        &&& s[from].color_idx() == stm
        &&& (mv.spec_is_promotion() ==> s[from] == pawn_of(stm))
        &&& if mv.spec_is_castling() {
            let rf = rook_from(stm, mv);
            let rt = rook_to(stm, mv);
            &&& rf != from && rf != to && rt != from && rt != to
            &&& s[to] == Piece::NoPiece
            &&& s[rt] == Piece::NoPiece
            &&& s[rf] != Piece::NoPiece
        } else if mv.spec_is_en_passant() {
            let v = ep_victim(to, stm);
            &&& 0 <= v < 64
            &&& v != from
            &&& s[to] == Piece::NoPiece
            &&& s[v] != Piece::NoPiece
        } else if mv.spec_is_capture() {
            &&& s[to] != Piece::NoPiece
            &&& s[to].color_idx() != stm
        } else {
            s[to] == Piece::NoPiece
        }
    }

    /// Every move of the list is playable.
    pub open spec fn all_gen_ok(self, ml: Seq<MoveEntry>) -> bool {
        forall|i: int| 0 <= i < ml.len() ==> #[trigger] self.gen_ok(ml[i].mv)
    }
}

impl Board {
    /// A move to `t` meets the check: there is no check, or a single one and `t` holds the
    /// checking piece or lies between it and the king.
    pub open spec fn check_ok(self, t: int) -> bool {
        let checkers = self.board_state.checkers.0;
        let checker = u64_trailing_zeros(checkers) as int;
        ||| checkers == 0
        ||| popcount(checkers) < 2 && (bit(checkers, t) || strictly_between(
            self.king_sq(self.stm()),
            checker,
            t,
        ))
    }

    /// The piece on `from` may go to `t` by the legality check (neither castling nor en
    /// passant): a king to an unattacked square; another piece meeting the check, along its
    /// king's line when pinned.
    pub open spec fn legal_to(self, from: int, t: int) -> bool {
        let stm = self.stm();
        if self.squares()[from].type_idx() == 5 {
            !bit(self.board_state.threats_by[1 - stm].0, t)
        } else {
            &&& self.check_ok(t)
            &&& bit(self.board_state.pinned[stm].0, from) ==> on_line(self.king_sq(stm), from, t)
        }
    }

    /// Every castling move of the list passes the castling test, and every other one the
    /// legality check, along a path its piece can take.
    pub open spec fn all_legal(self, ml: Seq<MoveEntry>) -> bool {
        forall|i: int|
            0 <= i < ml.len() ==> if #[trigger] ml[i].mv.spec_is_castling() {
                castle_safe(self, ml[i].mv)
            } else {
                self.legal_spec(ml[i].mv) && path_ok(self, ml[i].mv)
            }
    }
}

/// For a move that neither castles nor takes en passant, the legality check is `legal_to`.
proof fn lemma_legal_plain(b: Board, mv: Move)
    requires
        !mv.spec_is_castling(),
        !mv.spec_is_en_passant(),
    ensures
        b.legal_spec(mv) == b.legal_to(mv.from_idx(), mv.to_idx()),
{
}

/// The squares of the file `f`.
proof fn lemma_file_mask(f: u64, t: int)
    requires
        f < 8,
        0 <= t < 64,
    ensures
        bit(FILE_A << f, t) == (file_of(t) == f),
{
    let u = t as u64;
    assert(f < 8 && u < 64 ==> ((((0x0101_0101_0101_0101u64 << f) >> u) & 1u64 == 1u64) == (u % 8 == f)))
        by (bit_vector);
}

/// A square on its king's file lies on the line through the king and any square of that file.
proof fn lemma_file_line(king: int, from: int, to: int)
    requires
        0 <= king < 64,
        0 <= from < 64,
        0 <= to < 64,
        from != king,
        file_of(from) == file_of(king),
        file_of(to) == file_of(king),
    ensures
        on_line(king, from, to),
{
    if rank_of(from) > rank_of(king) {
        assert(crate::attacking::on_ray(king, from, 1, 0));
        if to != king {
            if rank_of(to) > rank_of(king) {
                assert(crate::attacking::on_ray(king, to, 1, 0));
            } else {
                assert(crate::attacking::on_ray(king, to, -1, 0));
            }
        }
        assert(crate::attacking::dir_line(king, from, to, 1, 0));
    } else {
        assert(crate::attacking::on_ray(king, from, -1, 0));
        if to != king {
            if rank_of(to) > rank_of(king) {
                assert(crate::attacking::on_ray(king, to, 1, 0));
            } else {
                assert(crate::attacking::on_ray(king, to, -1, 0));
            }
        }
        assert(crate::attacking::dir_line(king, from, to, -1, 0));
    }
}

/// Facts about the castling path masks.
proof fn lemma_castle_masks(occ: u64)
    ensures
        occ & 0x60u64 == 0 ==> !bit(occ, 5) && !bit(occ, 6),
        occ & 0x0Eu64 == 0 ==> !bit(occ, 2) && !bit(occ, 3),
        occ & 0x6000_0000_0000_0000u64 == 0 ==> !bit(occ, 61) && !bit(occ, 62),
        occ & 0x0E00_0000_0000_0000u64 == 0 ==> !bit(occ, 58) && !bit(occ, 59),
        occ & 0x0Eu64 == 0 ==> !bit(occ, 1),
        occ & 0x0E00_0000_0000_0000u64 == 0 ==> !bit(occ, 57),
        occ & 0x0Cu64 == 0 ==> !bit(occ, 2) && !bit(occ, 3),
        occ & 0x0C00_0000_0000_0000u64 == 0 ==> !bit(occ, 58) && !bit(occ, 59),
        0x60u64 & occ == 0 ==> !bit(occ, 5) && !bit(occ, 6),
        0x0Cu64 & occ == 0 ==> !bit(occ, 2) && !bit(occ, 3),
        0x6000_0000_0000_0000u64 & occ == 0 ==> !bit(occ, 61) && !bit(occ, 62),
        0x0C00_0000_0000_0000u64 & occ == 0 ==> !bit(occ, 58) && !bit(occ, 59),
{
    assert((0x60u64 & occ == 0 ==> occ & 0x60u64 == 0) && (0x0Cu64 & occ == 0 ==> occ & 0x0Cu64 == 0) && (
    0x6000_0000_0000_0000u64 & occ == 0 ==> occ & 0x6000_0000_0000_0000u64 == 0) && (0x0C00_0000_0000_0000u64
        & occ == 0 ==> occ & 0x0C00_0000_0000_0000u64 == 0)) by (bit_vector);
    assert((occ & 0x0Eu64 == 0 ==> (occ >> 1u64) & 1 != 1) && (occ & 0x0E00_0000_0000_0000u64 == 0 ==> (occ
        >> 57u64) & 1 != 1) && (occ & 0x0Cu64 == 0 ==> (occ >> 2u64) & 1 != 1 && (occ >> 3u64) & 1 != 1) && (occ
        & 0x0C00_0000_0000_0000u64 == 0 ==> (occ >> 58u64) & 1 != 1 && (occ >> 59u64) & 1 != 1)) by (bit_vector);
    assert((occ & 0x60u64 == 0 ==> (occ >> 5u64) & 1 != 1 && (occ >> 6u64) & 1 != 1) && (occ
        & 0x0Eu64 == 0 ==> (occ >> 2u64) & 1 != 1 && (occ >> 3u64) & 1 != 1) && (occ
        & 0x6000_0000_0000_0000u64 == 0 ==> (occ >> 61u64) & 1 != 1 && (occ >> 62u64) & 1 != 1) && (
    occ & 0x0E00_0000_0000_0000u64 == 0 ==> (occ >> 58u64) & 1 != 1 && (occ >> 59u64) & 1 != 1))
        by (bit_vector);
}

impl Board {
    /// Pushes a move from `from` to each square of `targets`: a capture where an enemy piece
    /// stands, a quiet move otherwise.
    fn push_targets(&self, ml: &mut MoveList, from: Square, targets: Bitboard, enemy: Bitboard, co: Ghost<bool>)
        requires
            self.wf(),
            from.valid(),
            self.squares()[from.0 as int] != Piece::NoPiece,
            self.squares()[from.0 as int].color_idx() == self.stm(),
            self.squares()[from.0 as int].type_idx() != 0,
            enemy == self.color_bitboards[1 - self.stm()],
            forall|t: int|
                0 <= t < 64 && #[trigger] bit(targets.0, t) ==> t != from.0 && !bit(
                    self.color_bitboards[self.stm()].0,
                    t,
                ),
            self.all_gen_ok(old(ml)@),
            forall|t: int| 0 <= t < 64 && #[trigger] bit(targets.0, t) ==> self.legal_to(from.0 as int, t),
            forall|t: int| 0 <= t < 64 && #[trigger] bit(targets.0, t) ==> path_to(*self, from.0 as int, t),
            self.all_legal(old(ml)@),
            all_owed(*self, co@, old(ml)@),
            forall|t: int|
                0 <= t < 64 && #[trigger] bit(targets.0, t) ==> owed(*self, from.0 as int, t, plain_code(*self, t)) && (co@
                    ==> capture_code(plain_code(*self, t))),
        ensures
            all_owed(*self, co@, final(ml)@),
            distinct_in(final(ml)@, old(ml)@.len() as int, final(ml)@.len() as int),
            sorted_in(final(ml)@, old(ml)@.len() as int, final(ml)@.len() as int),
            moved_kind(*self, final(ml)@, old(ml)@.len() as int, final(ml)@.len() as int, self.squares()[from.0 as int].type_idx()),
            self.all_gen_ok(final(ml)@),
            self.all_legal(final(ml)@),
            extends(old(ml)@, final(ml)@),
            final(ml)@.len() == old(ml)@.len() + popcount(targets.0),
            forall|t: int|
                0 <= t < 64 && #[trigger] bit(targets.0, t) ==> has_move(final(ml)@, from.0 as int, t, plain_code(*self, t)),
            forall|j: int|
                old(ml)@.len() <= j < final(ml)@.len() ==> plain_from(*self, #[trigger] final(ml)@[j].mv, from.0 as int, targets.0),
    {
        let ghost start = ml@;
        let mut rem = targets;
        while rem.0 != 0
            invariant
                self.wf(),
                from.valid(),
                self.squares()[from.0 as int] != Piece::NoPiece,
                self.squares()[from.0 as int].color_idx() == self.stm(),
                self.squares()[from.0 as int].type_idx() != 0,
                enemy == self.color_bitboards[1 - self.stm()],
                forall|t: int|
                    0 <= t < 64 && #[trigger] bit(rem.0, t) ==> t != from.0 && !bit(
                        self.color_bitboards[self.stm()].0,
                        t,
                    ),
                self.all_gen_ok(ml@),
                forall|t: int| 0 <= t < 64 && #[trigger] bit(rem.0, t) ==> self.legal_to(from.0 as int, t),
                forall|t: int| 0 <= t < 64 && #[trigger] bit(rem.0, t) ==> path_to(*self, from.0 as int, t),
                self.all_legal(ml@),
                all_owed(*self, co@, ml@),
                forall|t: int|
                    0 <= t < 64 && #[trigger] bit(targets.0, t) ==> owed(*self, from.0 as int, t, plain_code(*self, t))
                        && (co@ ==> capture_code(plain_code(*self, t))),
                extends(start, ml@),
                start == old(ml)@,
                distinct_in(ml@, start.len() as int, ml@.len() as int),
                sorted_in(ml@, start.len() as int, ml@.len() as int),
                forall|j: int, u: int|
                    start.len() <= j < ml@.len() && #[trigger] bit(rem.0, u) ==> #[trigger] ml@[j].mv.to_idx() < u,
                moved_kind(*self, ml@, start.len() as int, ml@.len() as int, self.squares()[from.0 as int].type_idx()),
                forall|j: int| start.len() <= j < ml@.len() ==> !bit(rem.0, #[trigger] ml@[j].mv.to_idx()),
                ml@.len() + popcount(rem.0) == start.len() + popcount(targets.0),
                forall|t: int| #[trigger] bit(rem.0, t) ==> bit(targets.0, t),
                forall|t: int|
                    0 <= t < 64 && #[trigger] bit(targets.0, t) && !bit(rem.0, t) ==> has_move(
                        ml@,
                        from.0 as int,
                        t,
                        plain_code(*self, t),
                    ),
                forall|j: int|
                    start.len() <= j < ml@.len() ==> plain_from(*self, #[trigger] ml@[j].mv, from.0 as int, targets.0),
            decreases crate::types::bitboard::popcount(rem.0),
        {
            let ghost rem0 = rem.0;
            let to = rem.pop_lsb();
            let flag = if enemy.contains(to) {
                MoveFlag::Capture
            } else {
                MoveFlag::Quiet
            };
            let mv = Move::new(from, to, flag);
            proof {
                crate::types::piece::lemma_piece_parts(self.squares()[to.0 as int]);
                assert(self.gen_ok(mv));
                lemma_legal_plain(*self, mv);
            }
            let ghost before = ml@;
            ml.push(mv);
            proof {
                assert forall|i: int| 0 <= i < ml@.len() implies #[trigger] self.gen_ok(ml@[i].mv) by {
                    if i < before.len() {
                        assert(ml@[i] == before[i]);
                    }
                }
                assert forall|i: int| 0 <= i < ml@.len() implies if #[trigger] ml@[i].mv.spec_is_castling() {
                    castle_safe(*self, ml@[i].mv)
                } else {
                    self.legal_spec(ml@[i].mv) && path_ok(*self, ml@[i].mv)
                } by {
                    if i < before.len() {
                        assert(ml@[i] == before[i]);
                    }
                }
                assert(extends(before, ml@));
                assert forall|j: int| start.len() <= j < ml@.len() implies !bit(rem.0, #[trigger] ml@[j].mv.to_idx()) by {
                    if j < before.len() {
                        assert(ml@[j] == before[j]);
                    }
                }
                assert forall|i: int, j: int| start.len() <= i < j < ml@.len() implies !same_move(#[trigger] ml@[i].mv, #[trigger] ml@[j].mv) by {
                    assert(ml@[i] == before[i]);
                    if j < before.len() {
                        assert(ml@[j] == before[j]);
                    } else {
                        assert(!bit(rem0, before[i].mv.to_idx()));
                    }
                }
                assert forall|j: int, u: int|
                    start.len() <= j < ml@.len() && #[trigger] bit(rem.0, u) implies #[trigger] ml@[j].mv.to_idx() < u by {
                    assert(bit(rem0, u));
                    if j < before.len() {
                        assert(ml@[j] == before[j]);
                    }
                }
                assert forall|i: int, j: int| start.len() <= i < j < ml@.len() implies square_order(#[trigger] ml@[i].mv, #[trigger] ml@[j].mv) by {
                    assert(ml@[i] == before[i]);
                    if j < before.len() {
                        assert(ml@[j] == before[j]);
                    } else {
                        assert(bit(rem0, to.0 as int));
                    }
                }
                assert forall|i: int| start.len() <= i < ml@.len() implies self.squares()[#[trigger] ml@[i].mv.from_idx()].type_idx() == self.squares()[from.0 as int].type_idx() && !ml@[i].mv.spec_is_castling() by {
                    if i < before.len() {
                        assert(ml@[i] == before[i]);
                    }
                }
                assert forall|i: int| 0 <= i < ml@.len() implies owed_co(*self, co@, #[trigger] ml@[i].mv) by {
                    if i < before.len() {
                        assert(ml@[i] == before[i]);
                    } else {
                        assert(bit(rem0, to.0 as int));
                        assert(bit(targets.0, to.0 as int));
                    }
                }
                lemma_extends_trans(start, before, ml@);
                lemma_extends_keeps(before, ml@);
                assert(ml@[before.len() as int].mv == mv);
                assert(has_move(ml@, from.0 as int, to.0 as int, plain_code(*self, to.0 as int)));
                assert forall|j: int|
                    start.len() <= j < ml@.len() implies plain_from(*self, #[trigger] ml@[j].mv, from.0 as int, targets.0) by {
                    if j < before.len() {
                        assert(ml@[j] == before[j]);
                    } else {
                        assert(bit(rem0, to.0 as int));
                        assert(bit(targets.0, to.0 as int));
                        assert(mv.code() == plain_code(*self, to.0 as int));
                    }
                }
                assert forall|t: int|
                    0 <= t < 64 && #[trigger] bit(targets.0, t) && !bit(rem.0, t) implies has_move(
                        ml@,
                        from.0 as int,
                        t,
                        plain_code(*self, t),
                    ) by {
                    if t != to.0 {
                        assert(!bit(rem0, t));
                        assert(has_move(before, from.0 as int, t, plain_code(*self, t)));
                    }
                }
            }
        }
    }

    /// Pushes `mv` after checking it is playable.
    fn push_ok(&self, ml: &mut MoveList, mv: Move, co: Ghost<bool>)
        requires
            self.gen_ok(mv),
            self.all_gen_ok(old(ml)@),
            if mv.spec_is_castling() {
                castle_safe(*self, mv)
            } else {
                self.legal_spec(mv) && path_ok(*self, mv)
            },
            self.all_legal(old(ml)@),
            all_owed(*self, co@, old(ml)@),
            owed_co(*self, co@, mv),
        ensures
            all_owed(*self, co@, final(ml)@),
            self.all_gen_ok(final(ml)@),
            self.all_legal(final(ml)@),
            final(ml)@ == old(ml)@.push(MoveEntry { ordering_score: 0, mv }),
            extends(old(ml)@, final(ml)@),
            has_move(final(ml)@, mv.from_idx(), mv.to_idx(), mv.code()),
            forall|f: int, t: int, c: int| has_move(old(ml)@, f, t, c) ==> #[trigger] has_move(final(ml)@, f, t, c),
    {
        let ghost before = ml@;
        ml.push(mv);
        proof {
            assert(extends(before, ml@));
            assert forall|i: int| 0 <= i < ml@.len() implies owed_co(*self, co@, #[trigger] ml@[i].mv) by {
                if i < before.len() {
                    assert(ml@[i] == before[i]);
                }
            }
            lemma_extends_keeps(before, ml@);
            assert(ml@[before.len() as int].mv == mv);
            assert forall|i: int| 0 <= i < ml@.len() implies #[trigger] self.gen_ok(ml@[i].mv) by {
                if i < before.len() {
                    assert(ml@[i] == before[i]);
                }
            }
            assert forall|i: int| 0 <= i < ml@.len() implies if #[trigger] ml@[i].mv.spec_is_castling() {
                castle_safe(*self, ml@[i].mv)
            } else {
                self.legal_spec(ml@[i].mv) && path_ok(*self, ml@[i].mv)
            } by {
                if i < before.len() {
                    assert(ml@[i] == before[i]);
                }
            }
        }
    }

    /// The legal moves of the side to move; only captures when `captures_only`.
    pub fn generate_all_legal_moves(&self, captures_only: bool) -> (ml: MoveList)
        requires
            self.gen_ready(),
        ensures
            self.all_gen_ok(ml@),
            self.all_legal(ml@),
            all_owed(*self, captures_only, ml@),
            listed_once(ml@),
            king_moves_listed(*self, captures_only, ml@),
            popcount(self.board_state.checkers.0) < 2 ==> piece_moves_listed(*self, captures_only, ml@),
            popcount(self.board_state.checkers.0) < 2 ==> ep_listed(*self, ml@),
            popcount(self.board_state.checkers.0) < 2 && !captures_only ==> castles_listed(*self, ml@),
    {
        let mut ml = MoveList::new();
        let stm = self.side_to_move();
        let occ = self.occupancies();
        let own = self.get_color(stm);
        let enemy = self.get_color(stm.flip());
        let enemy_threats = self.board_state.threats_by[stm.flip().index()];
        let king_sq = self.king_square(stm);
        proof {
            crate::types::piece::lemma_piece_parts(self.squares()[king_sq.0 as int]);
        }
        let king_targets = if captures_only {
            enemy.0
        } else {
            !own.0
        };
        let kt = Bitboard(get_king_attacks(king_sq).0 & !own.0 & !enemy_threats.0 & king_targets);
        proof {
            assert(self.squares()[king_sq.0 as int].type_idx() == 5);
            assert(ml@ =~= Seq::<MoveEntry>::empty());
            assert forall|t: int|
                0 <= t < 64 && king_step(king_sq.0 as int, t) && !bit(own.0, t) && !bit(enemy_threats.0, t) && (captures_only
                    ==> bit(enemy.0, t)) implies #[trigger] bit(kt.0, t) by {}
        }
        self.push_targets(&mut ml, king_sq, kt, enemy, Ghost(captures_only));
        let ghost after_king = ml@;
        proof {
            assert forall|t: int|
                0 <= t < 64 && king_step(self.king_sq(self.stm()), t) && !bit(self.color_bitboards[self.stm()].0, t)
                    && !bit(self.board_state.threats_by[1 - self.stm()].0, t) && (captures_only ==> bit(
                    self.color_bitboards[1 - self.stm()].0,
                    t,
                )) implies #[trigger] has_move(after_king, self.king_sq(self.stm()), t, plain_code(*self, t)) by {
                assert(bit(kt.0, t));
            }
        }
        if self.checkers().is_multiple() {
            return ml;
        }
        let mut target: u64 = if self.checkers().not_empty() {
            let checker = self.checkers().lsb();
            (between(king_sq, checker).0 | self.checkers().0) & !own.0
        } else {
            !own.0
        };
        if captures_only {
            target = target & enemy.0;
        }
        assert forall|t: int| 0 <= t < 64 && #[trigger] bit(target, t) implies self.check_ok(t) by {}
        assert forall|t: int| 0 <= t < 64 implies #[trigger] bit(target, t) == target_ok(*self, captures_only, t) by {}
        let pinned = self.pinned(stm);
        self.collect_pawn_moves(&mut ml, Bitboard(target), pinned, captures_only);
        let ghost after_pawns = ml@;
        assert(pinned == self.board_state.pinned[self.stm()]);
        let knights0 = self.colored_pieces(stm, PieceType::Knight);
        let mut knights = Bitboard(knights0.0 & !pinned.0);
        while knights.0 != 0
            invariant
                extends(after_pawns, ml@),
                distinct_in(ml@, after_pawns.len() as int, ml@.len() as int),
                moved_kind(*self, ml@, after_pawns.len() as int, ml@.len() as int, 1),
                forall|j: int| after_pawns.len() <= j < ml@.len() ==> !bit(knights.0, #[trigger] ml@[j].mv.from_idx()),
                knights0.0 == self.colored(self.stm(), 1),
                pinned == self.board_state.pinned[self.stm()],
                forall|f: int, t: int|
                    0 <= f < 64 && 0 <= t < 64 && bit(knights0.0, f) && !bit(pinned.0, f) && !bit(knights.0, f)
                        && knight_hop(f, t) && bit(target, t) ==> #[trigger] has_move(ml@, f, t, plain_code(*self, t)),
                self.gen_ready(),
                stm.idx() == self.stm(),
                own == self.color_bitboards[self.stm()],
                enemy == self.color_bitboards[1 - self.stm()],
                forall|t: int| 0 <= t < 64 && #[trigger] bit(target, t) ==> !bit(own.0, t),
                forall|t: int|
                    0 <= t < 64 && #[trigger] bit(knights.0, t) ==> bit(self.colored(self.stm(), 1), t)
                        && !bit(self.board_state.pinned[self.stm()].0, t),
                forall|t: int| 0 <= t < 64 && #[trigger] bit(target, t) ==> self.check_ok(t),
                self.all_gen_ok(ml@),
                self.all_legal(ml@),
                all_owed(*self, captures_only, ml@),
                popcount(self.board_state.checkers.0) < 2,
                forall|t: int| 0 <= t < 64 ==> #[trigger] bit(target, t) == target_ok(*self, captures_only, t),
            decreases crate::types::bitboard::popcount(knights.0),
        {
            let ghost kn0 = knights.0;
            let ghost before = ml@;
            let knight = knights.pop_lsb();
            proof {
                crate::types::piece::lemma_piece_parts(self.squares()[knight.0 as int]);
            }
            let tos = Bitboard(get_knight_attacks(knight).0 & target);
            self.push_targets(&mut ml, knight, tos, enemy, Ghost(captures_only));
            proof {
                lemma_extends_trans(after_pawns, before, ml@);
                lemma_extends_keeps(before, ml@);
                lemma_distinct_extends(*self, before, ml@, after_pawns.len() as int, 1);
                assert forall|i: int, j: int|
                    after_pawns.len() <= i < before.len() <= j < ml@.len() implies !same_move(#[trigger] ml@[i].mv, #[trigger] ml@[j].mv) by {
                    assert(ml@[i] == before[i]);
                    assert(!bit(kn0, before[i].mv.from_idx()));
                }
                lemma_distinct_join(ml@, after_pawns.len() as int, before.len() as int, ml@.len() as int);
                assert forall|j: int| after_pawns.len() <= j < ml@.len() implies !bit(knights.0, #[trigger] ml@[j].mv.from_idx()) by {
                    if j < before.len() {
                        assert(ml@[j] == before[j]);
                    }
                }
                assert forall|f: int, t: int|
                    0 <= f < 64 && 0 <= t < 64 && bit(knights0.0, f) && !bit(pinned.0, f) && !bit(knights.0, f)
                        && knight_hop(f, t) && bit(target, t) implies #[trigger] has_move(ml@, f, t, plain_code(*self, t)) by {
                    if f == knight.0 {
                        assert(bit(tos.0, t));
                    } else {
                        assert(!bit(kn0, f));
                        assert(has_move(before, f, t, plain_code(*self, t)));
                    }
                }
            }
        }
        let ghost after_knights = ml@;
        self.collect_slider(&mut ml, Bitboard(target), PieceType::Bishop, pinned, king_sq, Ghost(captures_only));
        let ghost after_b = ml@;
        self.collect_slider(&mut ml, Bitboard(target), PieceType::Rook, pinned, king_sq, Ghost(captures_only));
        let ghost after_r = ml@;
        self.collect_slider(&mut ml, Bitboard(target), PieceType::Queen, pinned, king_sq, Ghost(captures_only));
        let ghost after_q = ml@;
        if !captures_only {
            self.collect_castling(&mut ml);
        }
        proof {
            lemma_extends_trans(after_king, after_pawns, after_knights);
            lemma_extends_trans(after_king, after_knights, after_b);
            lemma_extends_trans(after_king, after_b, after_r);
            lemma_extends_trans(after_king, after_r, after_q);
            lemma_extends_trans(after_king, after_q, ml@);
            lemma_extends_trans(after_pawns, after_knights, after_b);
            lemma_extends_trans(after_pawns, after_b, after_r);
            lemma_extends_trans(after_pawns, after_r, after_q);
            lemma_extends_trans(after_pawns, after_q, ml@);
            lemma_extends_trans(after_knights, after_b, after_r);
            lemma_extends_trans(after_knights, after_r, after_q);
            lemma_extends_trans(after_knights, after_q, ml@);
            lemma_extends_trans(after_b, after_r, after_q);
            lemma_extends_trans(after_b, after_q, ml@);
            lemma_extends_trans(after_r, after_q, ml@);
            lemma_extends_keeps(after_king, ml@);
            lemma_extends_keeps(after_pawns, ml@);
            lemma_extends_keeps(after_knights, ml@);
            lemma_extends_keeps(after_b, ml@);
            lemma_extends_keeps(after_r, ml@);
            lemma_extends_keeps(after_q, ml@);
            let stm_i = self.stm();
            let pinned_b = self.board_state.pinned[stm_i].0;
            assert forall|f: int, t: int|
                0 <= f < 64 && 0 <= t < 64 && bit(self.colored(stm_i, 1), f) && !bit(pinned_b, f) && knight_hop(f, t)
                    && target_ok(*self, captures_only, t) implies #[trigger] has_move(ml@, f, t, plain_code(*self, t)) by {
                assert(bit(target, t));
                assert(has_move(after_knights, f, t, plain_code(*self, t)));
            }
            assert forall|k: int, f: int, t: int|
                2 <= k <= 4 && 0 <= f < 64 && 0 <= t < 64 && #[trigger] bit(self.colored(stm_i, k), f) && piece_attacks(
                    stm_i,
                    k,
                    f,
                    self.occ(),
                    t,
                ) && target_ok(*self, captures_only, t) && (bit(pinned_b, f) ==> on_line(self.king_sq(stm_i), f, t))
                    implies #[trigger] has_move(ml@, f, t, plain_code(*self, t)) by {
                assert(bit(target, t));
                if k == 2 {
                    assert(has_move(after_b, f, t, plain_code(*self, t)));
                } else if k == 3 {
                    assert(has_move(after_r, f, t, plain_code(*self, t)));
                } else {
                    assert(has_move(after_q, f, t, plain_code(*self, t)));
                }
            }
            assert forall|f: int|
                0 <= f < 64 && !captures_only && #[trigger] push_cond(*self, captures_only, f) implies pawn_listed(
                    ml@,
                    f,
                    f + spec_up_dir(stm_i),
                    8,
                    0,
                ) by {
                
                assert(pawn_listed(after_pawns, f, f + spec_up_dir(stm_i), 8, 0));
            }
            assert forall|f: int|
                0 <= f < 64 && !captures_only && #[trigger] double_cond(*self, captures_only, f) implies has_move(
                    ml@,
                    f,
                    f + 2 * spec_up_dir(stm_i),
                    1,
                ) by {
                
                assert(has_move(after_pawns, f, f + 2 * spec_up_dir(stm_i), 1));
            }
            assert forall|f: int, t: int|
                0 <= f < 64 && 0 <= t < 64 && #[trigger] capture_cond(*self, captures_only, f, t) implies pawn_listed(
                    ml@,
                    f,
                    t,
                    12,
                    4,
                ) by {
                
                assert(pawn_listed(after_pawns, f, t, 12, 4));
            }
            assert(piece_moves_listed(*self, captures_only, ml@));
        }
        ml
    }

    /// Pushes the pawn moves: single and double pushes (a pinned pawn only along its king's
    /// file), captures (a pinned pawn only along its pin line), promotions to queen, rook,
    /// bishop and knight, and the en passant captures that pass the legality check.
    #[verifier::rlimit(60)]
    #[verifier::spinoff_prover]
    fn collect_pawn_moves(&self, ml: &mut MoveList, target: Bitboard, pinned: Bitboard, captures_only: bool)
        requires
            self.gen_ready(),
            forall|t: int| 0 <= t < 64 ==> #[trigger] bit(target.0, t) == target_ok(*self, captures_only, t),
            forall|t: int|
                0 <= t < 64 && #[trigger] bit(target.0, t) ==> !bit(
                    self.color_bitboards[self.stm()].0,
                    t,
                ) && self.check_ok(t),
            pinned == self.board_state.pinned[self.stm()],
            self.all_gen_ok(old(ml)@),
            self.all_legal(old(ml)@),
            all_owed(*self, captures_only, old(ml)@),
            popcount(self.board_state.checkers.0) < 2,
        ensures
            all_owed(*self, captures_only, final(ml)@),
            distinct_in(final(ml)@, old(ml)@.len() as int, final(ml)@.len() as int),
            moved_kind(*self, final(ml)@, old(ml)@.len() as int, final(ml)@.len() as int, 0),
            promo_runs(final(ml)@, old(ml)@.len() as int, final(ml)@.len() as int),
            self.all_gen_ok(final(ml)@),
            self.all_legal(final(ml)@),
            extends(old(ml)@, final(ml)@),
            forall|f: int|
                0 <= f < 64 && !captures_only && #[trigger] push_cond(*self, captures_only, f) ==> pawn_listed(
                    final(ml)@,
                    f,
                    f + spec_up_dir(self.stm()),
                    8,
                    0,
                ),
            forall|f: int|
                0 <= f < 64 && !captures_only && #[trigger] double_cond(*self, captures_only, f) ==> has_move(
                    final(ml)@,
                    f,
                    f + 2 * spec_up_dir(self.stm()),
                    1,
                ),
            forall|f: int, t: int|
                0 <= f < 64 && 0 <= t < 64 && #[trigger] capture_cond(*self, captures_only, f, t) ==> pawn_listed(
                    final(ml)@,
                    f,
                    t,
                    12,
                    4,
                ),
            forall|f: int|
                0 <= f < 64 && #[trigger] ep_cond(*self, f) ==> has_move(
                    final(ml)@,
                    f,
                    self.board_state.en_passant.0 as int,
                    5,
                ),
    {
        let ghost start = ml@;
        let stm = self.side_to_move();
        let up = up_dir(stm);
        let pawns = self.colored_pieces(stm, PieceType::Pawn);
        let empty = Bitboard(!self.occupancies().0);
        let enemy = self.get_color(stm.flip());
        let king_sq = self.king_square(stm);
        let start_rank = pawn_start(stm);
        proof {
            crate::types::piece::lemma_piece_parts(self.squares()[king_sq.0 as int]);
        }
        if !captures_only {
            let kf = king_sq.get_file();
            let pushable = Bitboard(pawns.0 & (!pinned.0 | Bitboard::file(kf).0));
            proof {
                assert forall|t: int| 0 <= t < 64 && #[trigger] bit(pushable.0, t) && bit(pinned.0, t) implies file_of(t)
                    == file_of(king_sq.0 as int) by {
                    lemma_file_mask(kf as u64, t);
                }
            }
            proof {
                assert forall|f: int| 0 <= f < 64 && (push_cond(*self, captures_only, f) || double_cond(*self, captures_only, f))
                    implies #[trigger] bit(pushable.0, f) by {
                    lemma_file_mask(kf as u64, f);
                }
            }
            let mut rem = pushable;
            while rem.0 != 0
                invariant
                    forall|t: int| 0 <= t < 64 ==> #[trigger] bit(target.0, t) == target_ok(*self, captures_only, t),
                    start == old(ml)@,
                    extends(start, ml@),
                    pawns.0 == self.colored(self.stm(), 0),
                    forall|f: int| #[trigger] bit(rem.0, f) ==> bit(pushable.0, f),
                    distinct_in(ml@, start.len() as int, ml@.len() as int),
                    moved_kind(*self, ml@, start.len() as int, ml@.len() as int, 0),
                    promo_runs(ml@, start.len() as int, ml@.len() as int),
                    forall|j: int|
                        start.len() <= j < ml@.len() ==> !bit(rem.0, #[trigger] ml@[j].mv.from_idx()) && push_code(
                            ml@[j].mv.code(),
                        ),
                    forall|f: int|
                        0 <= f < 64 && #[trigger] push_cond(*self, captures_only, f) && bit(pushable.0, f) && !bit(rem.0, f)
                            ==> pawn_listed(ml@, f, f + spec_up_dir(self.stm()), 8, 0),
                    forall|f: int|
                        0 <= f < 64 && #[trigger] double_cond(*self, captures_only, f) && bit(pushable.0, f) && !bit(
                            rem.0,
                            f,
                        ) ==> has_move(ml@, f, f + 2 * spec_up_dir(self.stm()), 1),
                    self.gen_ready(),
                    stm.idx() == self.stm(),
                    up == spec_up_dir(self.stm()),
                    start_rank.idx() == if self.stm() == 0 { 1int } else { 6int },
                    empty.0 == !self.occ(),
                    forall|t: int|
                        0 <= t < 64 && #[trigger] bit(target.0, t) ==> !bit(
                            self.color_bitboards[self.stm()].0,
                            t,
                        ),
                    forall|t: int|
                        0 <= t < 64 && #[trigger] bit(rem.0, t) ==> bit(self.colored(self.stm(), 0), t)
                            && (bit(pinned.0, t) ==> file_of(t) == file_of(king_sq.0 as int)),
                    forall|t: int| 0 <= t < 64 && #[trigger] bit(target.0, t) ==> self.check_ok(t),
                    pinned == self.board_state.pinned[self.stm()],
                    king_sq.valid(),
                    king_sq.0 == self.king_sq(self.stm()),
                    self.squares()[king_sq.0 as int].type_idx() == 5,
                    self.all_gen_ok(ml@),
                    self.all_legal(ml@),
                    all_owed(*self, captures_only, ml@),
                    popcount(self.board_state.checkers.0) < 2,
                decreases crate::types::bitboard::popcount(rem.0),
            {
                let ghost rem0 = rem.0;
                let ghost before = ml@;
                let from = rem.pop_lsb();
                proof {
                    crate::types::piece::lemma_piece_parts(self.squares()[from.0 as int]);
                    assert(self.squares()[from.0 as int] == pawn_of(self.stm()));
                }
                let one = from.shift(up);
                if !empty.contains(one) {
                    continue;
                }
                proof {
                    crate::types::piece::lemma_piece_parts(self.squares()[one.0 as int]);
                    assert(self.squares()[one.0 as int] == Piece::NoPiece);
                    crate::types::piece::lemma_piece_parts(self.squares()[king_sq.0 as int]);
                    if bit(pinned.0, from.0 as int) {
                        lemma_file_line(king_sq.0 as int, from.0 as int, one.0 as int);
                    }
                    lemma_pawn_step_path(*self, from.0 as int, one.0 as int);
                }
                if Bitboard(BOTH_HOME_ROWS).contains(one) {
                    if target.contains(one) {
                        self.push_ok(ml, Move::new(from, one, MoveFlag::PromoQueen), Ghost(captures_only));
                        self.push_ok(ml, Move::new(from, one, MoveFlag::PromoRook), Ghost(captures_only));
                        self.push_ok(ml, Move::new(from, one, MoveFlag::PromoBishop), Ghost(captures_only));
                        self.push_ok(ml, Move::new(from, one, MoveFlag::PromoKnight), Ghost(captures_only));
                    }
                } else {
                    if target.contains(one) {
                        self.push_ok(ml, Move::new(from, one, MoveFlag::Quiet), Ghost(captures_only));
                    }
                    if from.get_rank() == start_rank.index() {
                        let two = one.shift(up);
                        if empty.contains(two) && target.contains(two) {
                            proof {
                                crate::types::piece::lemma_piece_parts(self.squares()[two.0 as int]);
                                crate::types::piece::lemma_piece_parts(self.squares()[king_sq.0 as int]);
                                if bit(pinned.0, from.0 as int) {
                                    lemma_file_line(king_sq.0 as int, from.0 as int, two.0 as int);
                                }
                                lemma_pawn_double_path(*self, from.0 as int, one.0 as int, two.0 as int);
                            }
                            self.push_ok(ml, Move::new(from, two, MoveFlag::DoublePush), Ghost(captures_only));
                        }
                    }
                }
                proof {
                    assert(extends(before, ml@));
                    lemma_extends_trans(start, before, ml@);
                    lemma_extends_keeps(before, ml@);
                    lemma_distinct_extends(*self, before, ml@, start.len() as int, 0);
                    assert forall|j: int|
                        before.len() <= j < ml@.len() implies #[trigger] ml@[j].mv.from_idx() == from.0 && push_code(
                            ml@[j].mv.code(),
                        ) && (ml@[j].mv.to_idx() == one.0 <==> ml@[j].mv.code() != 1) by {}
                    assert forall|i: int, j: int|
                        start.len() <= i < j < ml@.len() implies !same_move(#[trigger] ml@[i].mv, #[trigger] ml@[j].mv) by {
                        if j >= before.len() && i < before.len() {
                            assert(ml@[i] == before[i]);
                            assert(!bit(rem0, before[i].mv.from_idx()));
                        }
                    }
                    assert forall|j: int|
                        start.len() <= j < ml@.len() implies !bit(rem.0, #[trigger] ml@[j].mv.from_idx()) && push_code(
                            ml@[j].mv.code(),
                        ) by {
                        if j < before.len() {
                            assert(ml@[j] == before[j]);
                        }
                    }
                    assert(moved_kind(*self, ml@, start.len() as int, ml@.len() as int, 0));
                    lemma_promo_runs_extends(before, ml@, start.len() as int);
                    assert(promo_runs(ml@, start.len() as int, ml@.len() as int));
                    assert forall|f: int|
                        0 <= f < 64 && #[trigger] push_cond(*self, captures_only, f) && bit(pushable.0, f) && !bit(rem.0, f)
                            implies pawn_listed(ml@, f, f + spec_up_dir(self.stm()), 8, 0) by {
                        if f != from.0 {
                            assert(!bit(rem0, f));
                        }
                    }
                    assert forall|f: int|
                        0 <= f < 64 && #[trigger] double_cond(*self, captures_only, f) && bit(pushable.0, f) && !bit(
                            rem.0,
                            f,
                        ) implies has_move(ml@, f, f + 2 * spec_up_dir(self.stm()), 1) by {
                        if f != from.0 {
                            assert(!bit(rem0, f));
                        }
                    }
                }
            }
        }
        let ghost after_push = ml@;
        let mut rem = pawns;
        while rem.0 != 0
            invariant
                forall|t: int| 0 <= t < 64 ==> #[trigger] bit(target.0, t) == target_ok(*self, captures_only, t),
                start == old(ml)@,
                extends(start, after_push),
                extends(after_push, ml@),
                distinct_in(ml@, start.len() as int, ml@.len() as int),
                moved_kind(*self, ml@, start.len() as int, ml@.len() as int, 0),
                promo_runs(ml@, start.len() as int, ml@.len() as int),
                forall|j: int| start.len() <= j < after_push.len() ==> push_code(#[trigger] ml@[j].mv.code()),
                forall|j: int|
                    after_push.len() <= j < ml@.len() ==> !bit(rem.0, #[trigger] ml@[j].mv.from_idx()) && take_code(
                        ml@[j].mv.code(),
                    ),
                pawns.0 == self.colored(self.stm(), 0),
                forall|f: int|
                    0 <= f < 64 && !captures_only && #[trigger] push_cond(*self, captures_only, f) ==> pawn_listed(
                        after_push,
                        f,
                        f + spec_up_dir(self.stm()),
                        8,
                        0,
                    ),
                forall|f: int|
                    0 <= f < 64 && !captures_only && #[trigger] double_cond(*self, captures_only, f) ==> has_move(
                        after_push,
                        f,
                        f + 2 * spec_up_dir(self.stm()),
                        1,
                    ),
                forall|f: int, t: int|
                    0 <= f < 64 && 0 <= t < 64 && #[trigger] capture_cond(*self, captures_only, f, t) && !bit(rem.0, f)
                        ==> pawn_listed(ml@, f, t, 12, 4),
                self.gen_ready(),
                stm.idx() == self.stm(),
                king_sq.valid(),
                enemy == self.color_bitboards[1 - self.stm()],
                forall|t: int|
                    0 <= t < 64 && #[trigger] bit(target.0, t) ==> !bit(
                        self.color_bitboards[self.stm()].0,
                        t,
                    ),
                forall|t: int|
                    0 <= t < 64 && #[trigger] bit(rem.0, t) ==> bit(self.colored(self.stm(), 0), t),
                forall|t: int| 0 <= t < 64 && #[trigger] bit(target.0, t) ==> self.check_ok(t),
                pinned == self.board_state.pinned[self.stm()],
                king_sq.0 == self.king_sq(self.stm()),
                self.all_gen_ok(ml@),
                self.all_legal(ml@),
                    all_owed(*self, captures_only, ml@),
                    popcount(self.board_state.checkers.0) < 2,
            decreases crate::types::bitboard::popcount(rem.0),
        {
            let ghost rem0 = rem.0;
            let ghost outer_before = ml@;
            let from = rem.pop_lsb();
            proof {
                crate::types::piece::lemma_piece_parts(self.squares()[from.0 as int]);
                assert(self.squares()[from.0 as int] == pawn_of(self.stm()));
            }
            let pin_mask = if pinned.contains(from) {
                line_through(king_sq, from)
            } else {
                Bitboard::all()
            };
            let mut tos = Bitboard(get_pawn_attacks(from, stm).0 & enemy.0 & target.0 & pin_mask.0);
            proof {
                assert(self.squares()[from.0 as int].type_idx() == 0);
                assert forall|t: int| 0 <= t < 64 && #[trigger] capture_cond(*self, captures_only, from.0 as int, t) implies bit(tos.0, t) by {
                    if !bit(pinned.0, from.0 as int) {
                        let u = t as u64;
                        assert(u < 64 ==> (u64::MAX >> u) & 1u64 == 1u64) by (bit_vector);
                    }
                }
            }
            let ghost tos0 = tos.0;
            while tos.0 != 0
                invariant
                    forall|t: int| 0 <= t < 64 ==> #[trigger] bit(target.0, t) == target_ok(*self, captures_only, t),
                    extends(outer_before, ml@),
                    distinct_in(ml@, outer_before.len() as int, ml@.len() as int),
                    promo_runs(ml@, start.len() as int, ml@.len() as int),
                    start.len() <= outer_before.len(),
                    forall|j: int|
                        outer_before.len() <= j < ml@.len() ==> #[trigger] ml@[j].mv.from_idx() == from.0 && take_code(
                            ml@[j].mv.code(),
                        ) && !bit(tos.0, ml@[j].mv.to_idx()),
                    forall|t: int| #[trigger] bit(tos.0, t) ==> bit(tos0, t),
                    forall|t: int| 0 <= t < 64 && #[trigger] capture_cond(*self, captures_only, from.0 as int, t) ==> bit(tos0, t),
                    forall|t: int|
                        0 <= t < 64 && #[trigger] capture_cond(*self, captures_only, from.0 as int, t) && !bit(tos.0, t)
                            ==> pawn_listed(ml@, from.0 as int, t, 12, 4),
                    self.gen_ready(),
                    stm.idx() == self.stm(),
                    from.valid(),
                    self.squares()[from.0 as int] == pawn_of(self.stm()),
                    enemy == self.color_bitboards[1 - self.stm()],
                    forall|t: int|
                        0 <= t < 64 && #[trigger] bit(tos.0, t) ==> bit(enemy.0, t) && pawn_hit(
                            from.0 as int,
                            t,
                            self.stm(),
                        ) && self.legal_to(from.0 as int, t),
                    self.all_gen_ok(ml@),
                    self.all_legal(ml@),
                    all_owed(*self, captures_only, ml@),
                    popcount(self.board_state.checkers.0) < 2,
                decreases crate::types::bitboard::popcount(tos.0),
            {
                let ghost tos1 = tos.0;
                let ghost inner_before = ml@;
                let to = tos.pop_lsb();
                proof {
                    crate::types::piece::lemma_piece_parts(self.squares()[to.0 as int]);
                    assert(self.legal_to(from.0 as int, to.0 as int));
                    lemma_pawn_capture_path(*self, from.0 as int, to.0 as int, self.stm());
                }
                if Bitboard(BOTH_HOME_ROWS).contains(to) {
                    self.push_ok(ml, Move::new(from, to, MoveFlag::PromoCaptureQueen), Ghost(captures_only));
                    self.push_ok(ml, Move::new(from, to, MoveFlag::PromoCaptureRook), Ghost(captures_only));
                    self.push_ok(ml, Move::new(from, to, MoveFlag::PromoCaptureBishop), Ghost(captures_only));
                    self.push_ok(ml, Move::new(from, to, MoveFlag::PromoCaptureKnight), Ghost(captures_only));
                } else {
                    self.push_ok(ml, Move::new(from, to, MoveFlag::Capture), Ghost(captures_only));
                }
                proof {
                    assert(extends(inner_before, ml@));
                    lemma_extends_trans(outer_before, inner_before, ml@);
                    lemma_extends_keeps(inner_before, ml@);
                    lemma_promo_runs_extends(inner_before, ml@, start.len() as int);
                    assert(promo_runs(ml@, start.len() as int, ml@.len() as int));
                    assert forall|j: int|
                        outer_before.len() <= j < ml@.len() implies #[trigger] ml@[j].mv.from_idx() == from.0 && take_code(
                            ml@[j].mv.code(),
                        ) && !bit(tos.0, ml@[j].mv.to_idx()) by {
                        if j < inner_before.len() {
                            assert(ml@[j] == inner_before[j]);
                        }
                    }
                    assert forall|i: int, j: int|
                        outer_before.len() <= i < j < ml@.len() implies !same_move(#[trigger] ml@[i].mv, #[trigger] ml@[j].mv) by {
                        if i < inner_before.len() {
                            assert(ml@[i] == inner_before[i]);
                            if j < inner_before.len() {
                                assert(ml@[j] == inner_before[j]);
                            } else {
                                assert(!bit(tos1, inner_before[i].mv.to_idx()));
                            }
                        }
                    }
                    assert forall|t: int|
                        0 <= t < 64 && #[trigger] capture_cond(*self, captures_only, from.0 as int, t) && !bit(tos.0, t)
                            implies pawn_listed(ml@, from.0 as int, t, 12, 4) by {
                        if t != to.0 {
                            assert(!bit(tos1, t));
                        }
                    }
                }
            }
            proof {
                lemma_extends_trans(after_push, outer_before, ml@);
                lemma_extends_keeps(outer_before, ml@);
                lemma_distinct_extends(*self, outer_before, ml@, start.len() as int, 0);
                assert forall|i: int, j: int|
                    start.len() <= i < outer_before.len() <= j < ml@.len() implies !same_move(#[trigger] ml@[i].mv, #[trigger] ml@[j].mv) by {
                    assert(ml@[i] == outer_before[i]);
                    if i >= after_push.len() {
                        assert(!bit(rem0, outer_before[i].mv.from_idx()));
                    }
                }
                lemma_distinct_join(ml@, start.len() as int, outer_before.len() as int, ml@.len() as int);
                assert forall|j: int| start.len() <= j < after_push.len() implies push_code(#[trigger] ml@[j].mv.code()) by {
                    assert(ml@[j] == outer_before[j]);
                }
                assert forall|j: int|
                    after_push.len() <= j < ml@.len() implies !bit(rem.0, #[trigger] ml@[j].mv.from_idx()) && take_code(
                        ml@[j].mv.code(),
                    ) by {
                    if j < outer_before.len() {
                        assert(ml@[j] == outer_before[j]);
                    }
                }
                assert forall|k: int| outer_before.len() <= k < ml@.len() implies self.squares()[#[trigger] ml@[k].mv.from_idx()].type_idx() == 0 && !ml@[k].mv.spec_is_castling() by {}
                assert forall|k: int| start.len() <= k < outer_before.len() implies self.squares()[#[trigger] ml@[k].mv.from_idx()].type_idx() == 0 && !ml@[k].mv.spec_is_castling() by {
                    assert(ml@[k] == outer_before[k]);
                }
                assert forall|f: int, t: int|
                    0 <= f < 64 && 0 <= t < 64 && #[trigger] capture_cond(*self, captures_only, f, t) && !bit(rem.0, f)
                        implies pawn_listed(ml@, f, t, 12, 4) by {
                    if f != from.0 {
                        assert(!bit(rem0, f));
                    }
                }
            }
        }
        let ghost after_cap = ml@;
        let ep = self.en_passant();
        if ep.0 != 64 {
            let mut froms = Bitboard(get_pawn_attacks(ep, stm.flip()).0 & pawns.0);
            let ghost froms0 = froms.0;
            proof {
                assert forall|f: int| 0 <= f < 64 && #[trigger] ep_cond(*self, f) implies bit(froms0, f) by {}
            }
            while froms.0 != 0
                invariant
                    extends(after_cap, ml@),
                    distinct_in(ml@, start.len() as int, ml@.len() as int),
                    moved_kind(*self, ml@, start.len() as int, ml@.len() as int, 0),
                    promo_runs(ml@, start.len() as int, ml@.len() as int),
                    forall|j: int| start.len() <= j < after_cap.len() ==> #[trigger] ml@[j].mv.code() != 5,
                    forall|j: int|
                        after_cap.len() <= j < ml@.len() ==> !bit(froms.0, #[trigger] ml@[j].mv.from_idx()) && ml@[j].mv.code() == 5,
                    start == old(ml)@,
                    forall|f: int| #[trigger] bit(froms.0, f) ==> bit(froms0, f),
                    forall|f: int| 0 <= f < 64 && #[trigger] ep_cond(*self, f) ==> bit(froms0, f),
                    forall|f: int|
                        0 <= f < 64 && #[trigger] ep_cond(*self, f) && !bit(froms.0, f) ==> has_move(
                            ml@,
                            f,
                            ep.0 as int,
                            5,
                        ),
                    self.gen_ready(),
                    stm.idx() == self.stm(),
                    ep == self.board_state.en_passant,
                    ep.0 < 64,
                    forall|t: int|
                        0 <= t < 64 && #[trigger] bit(froms.0, t) ==> bit(self.colored(self.stm(), 0), t)
                            && pawn_hit(ep.0 as int, t, 1 - self.stm()),
                    self.all_gen_ok(ml@),
                    self.all_legal(ml@),
                    all_owed(*self, captures_only, ml@),
                    popcount(self.board_state.checkers.0) < 2,
                decreases crate::types::bitboard::popcount(froms.0),
            {
                let ghost f1 = froms.0;
                let ghost ep_before = ml@;
                let from = froms.pop_lsb();
                proof {
                    crate::types::piece::lemma_piece_parts(self.squares()[from.0 as int]);
                }
                let mv = Move::new(from, ep, MoveFlag::EnPassant);
                proof {
                    lemma_leaper_symmetry(ep.0 as int, from.0 as int, 1 - self.stm());
                    lemma_pawn_capture_path(*self, from.0 as int, ep.0 as int, self.stm());
                    crate::types::piece::lemma_piece_parts(self.squares()[from.0 as int]);
                }
                if self.is_legal(mv) {
                    self.push_ok(ml, mv, Ghost(captures_only));
                }
                proof {
                    assert(mv == Move((from.0 + 64 * ep.0 + 4096 * 5) as u16));
                    assert(extends(ep_before, ml@));
                    lemma_distinct_extends(*self, ep_before, ml@, start.len() as int, 0);
                    lemma_promo_runs_extends(ep_before, ml@, start.len() as int);
                    assert(promo_runs(ml@, start.len() as int, ml@.len() as int));
                    assert forall|i: int, j: int|
                        start.len() <= i < j < ml@.len() implies !same_move(#[trigger] ml@[i].mv, #[trigger] ml@[j].mv) by {
                        if j >= ep_before.len() {
                            assert(ml@[i] == ep_before[i]);
                            if i >= after_cap.len() {
                                assert(!bit(f1, ep_before[i].mv.from_idx()));
                            }
                        }
                    }
                    assert forall|j: int| start.len() <= j < after_cap.len() implies #[trigger] ml@[j].mv.code() != 5 by {
                        assert(ml@[j] == ep_before[j]);
                    }
                    assert forall|j: int|
                        after_cap.len() <= j < ml@.len() implies !bit(froms.0, #[trigger] ml@[j].mv.from_idx()) && ml@[j].mv.code() == 5 by {
                        if j < ep_before.len() {
                            assert(ml@[j] == ep_before[j]);
                        }
                    }
                    assert forall|k: int| start.len() <= k < ml@.len() implies self.squares()[#[trigger] ml@[k].mv.from_idx()].type_idx() == 0 && !ml@[k].mv.spec_is_castling() by {
                        if k < ep_before.len() {
                            assert(ml@[k] == ep_before[k]);
                        }
                    }
                    lemma_extends_trans(after_cap, ep_before, ml@);
                    lemma_extends_keeps(ep_before, ml@);
                    assert forall|f: int|
                        0 <= f < 64 && #[trigger] ep_cond(*self, f) && !bit(froms.0, f) implies has_move(
                            ml@,
                            f,
                            ep.0 as int,
                            5,
                        ) by {
                        if f != from.0 {
                            assert(!bit(f1, f));
                        }
                    }
                }
            }
        }
        proof {
            lemma_extends_trans(start, after_push, after_cap);
            lemma_extends_trans(start, after_cap, ml@);
            lemma_extends_trans(after_push, after_cap, ml@);
            lemma_extends_keeps(after_push, ml@);
            lemma_extends_keeps(after_cap, ml@);
        }
    }

    /// Pushes the moves of the unpinned sliders of kind `piece_type`, and of the pinned ones
    /// along the line through their king.
    fn collect_slider(
        &self,
        ml: &mut MoveList,
        target: Bitboard,
        piece_type: PieceType,
        pinned: Bitboard,
        king_sq: Square,
        co: Ghost<bool>,
    )
        requires
            self.gen_ready(),
            piece_type == PieceType::Bishop || piece_type == PieceType::Rook || piece_type
                == PieceType::Queen,
            king_sq.valid(),
            forall|t: int|
                0 <= t < 64 && #[trigger] bit(target.0, t) ==> !bit(
                    self.color_bitboards[self.stm()].0,
                    t,
                ) && self.check_ok(t),
            pinned == self.board_state.pinned[self.stm()],
            king_sq.0 == self.king_sq(self.stm()),
            self.all_gen_ok(old(ml)@),
            self.all_legal(old(ml)@),
            all_owed(*self, co@, old(ml)@),
            popcount(self.board_state.checkers.0) < 2,
            forall|t: int| 0 <= t < 64 ==> #[trigger] bit(target.0, t) == target_ok(*self, co@, t),
        ensures
            all_owed(*self, co@, final(ml)@),
            distinct_in(final(ml)@, old(ml)@.len() as int, final(ml)@.len() as int),
            moved_kind(*self, final(ml)@, old(ml)@.len() as int, final(ml)@.len() as int, piece_type.idx()),
            exists|mid: int|
                old(ml)@.len() <= mid <= final(ml)@.len() && sorted_in(final(ml)@, old(ml)@.len() as int, mid)
                    && sorted_in(final(ml)@, mid, final(ml)@.len() as int) && (forall|j: int|
                    old(ml)@.len() <= j < mid ==> !bit(pinned.0, #[trigger] final(ml)@[j].mv.from_idx())) && (forall|j: int|
                    mid <= j < final(ml)@.len() ==> bit(pinned.0, #[trigger] final(ml)@[j].mv.from_idx())),
            self.all_gen_ok(final(ml)@),
            self.all_legal(final(ml)@),
            extends(old(ml)@, final(ml)@),
            forall|f: int, t: int|
                0 <= f < 64 && 0 <= t < 64 && bit(self.colored(self.stm(), piece_type.idx()), f) && piece_attacks(
                    self.stm(),
                    piece_type.idx(),
                    f,
                    self.occ(),
                    t,
                ) && bit(target.0, t) && (bit(pinned.0, f) ==> on_line(king_sq.0 as int, f, t))
                    ==> #[trigger] has_move(final(ml)@, f, t, plain_code(*self, t)),
    {
        let ghost start = ml@;
        let stm = self.side_to_move();
        let enemy = self.get_color(stm.flip());
        let occ = self.occupancies();
        let pieces = self.colored_pieces(stm, piece_type);
        let mut free = Bitboard(pieces.0 & !pinned.0);
        while free.0 != 0
            invariant
                self.gen_ready(),
                stm.idx() == self.stm(),
                piece_type == PieceType::Bishop || piece_type == PieceType::Rook || piece_type
                    == PieceType::Queen,
                enemy == self.color_bitboards[1 - self.stm()],
                occ.0 == self.occ(),
                forall|t: int|
                    0 <= t < 64 && #[trigger] bit(target.0, t) ==> !bit(
                        self.color_bitboards[self.stm()].0,
                        t,
                    ),
                forall|t: int|
                    0 <= t < 64 && #[trigger] bit(free.0, t) ==> bit(
                        self.colored(self.stm(), piece_type.idx()),
                        t,
                    ) && !bit(pinned.0, t),
                forall|t: int| 0 <= t < 64 && #[trigger] bit(target.0, t) ==> self.check_ok(t),
                pinned == self.board_state.pinned[self.stm()],
                self.all_gen_ok(ml@),
                self.all_legal(ml@),
                all_owed(*self, co@, ml@),
                popcount(self.board_state.checkers.0) < 2,
                forall|t: int| 0 <= t < 64 ==> #[trigger] bit(target.0, t) == target_ok(*self, co@, t),
                pieces.0 == self.colored(self.stm(), piece_type.idx()),
                start == old(ml)@,
                extends(start, ml@),
                distinct_in(ml@, start.len() as int, ml@.len() as int),
                moved_kind(*self, ml@, start.len() as int, ml@.len() as int, piece_type.idx()),
                sorted_in(ml@, start.len() as int, ml@.len() as int),
                forall|j: int, u: int|
                    start.len() <= j < ml@.len() && #[trigger] bit(free.0, u) ==> #[trigger] ml@[j].mv.from_idx() < u,
                forall|j: int|
                    start.len() <= j < ml@.len() ==> !bit(free.0, #[trigger] ml@[j].mv.from_idx()) && !bit(
                        pinned.0,
                        ml@[j].mv.from_idx(),
                    ),
                forall|f: int| #[trigger] bit(free.0, f) ==> !bit(pinned.0, f),
                forall|f: int, t: int|
                    0 <= f < 64 && 0 <= t < 64 && bit(pieces.0, f) && !bit(pinned.0, f) && !bit(free.0, f)
                        && piece_attacks(self.stm(), piece_type.idx(), f, self.occ(), t) && bit(target.0, t)
                        ==> #[trigger] has_move(ml@, f, t, plain_code(*self, t)),
            decreases crate::types::bitboard::popcount(free.0),
        {
            let ghost free0 = free.0;
            let ghost before = ml@;
            let from = free.pop_lsb();
            proof {
                crate::types::piece::lemma_piece_parts(self.squares()[from.0 as int]);
            }
            let att = attacks_for(stm, piece_type, from, occ);
            let tos = Bitboard(att.0 & target.0);
            proof {
                assert(2 <= piece_type.idx() <= 4);
                assert(self.squares()[from.0 as int].type_idx() == piece_type.idx());
                assert forall|t: int| 0 <= t < 64 && #[trigger] bit(tos.0, t) implies path_to(*self, from.0 as int, t) by {
                    assert(bit(att.0, t));
                    lemma_slider_path(*self, self.stm(), piece_type.idx(), from.0 as int, t);
                }
            }
            self.push_targets(ml, from, tos, enemy, co);
            proof {
                lemma_extends_trans(start, before, ml@);
                lemma_extends_keeps(before, ml@);
                lemma_distinct_extends(*self, before, ml@, start.len() as int, piece_type.idx());
                assert forall|i: int, j: int|
                    start.len() <= i < before.len() <= j < ml@.len() implies !same_move(#[trigger] ml@[i].mv, #[trigger] ml@[j].mv) by {
                    assert(ml@[i] == before[i]);
                    assert(!bit(free0, before[i].mv.from_idx()));
                }
                lemma_distinct_join(ml@, start.len() as int, before.len() as int, ml@.len() as int);
                assert forall|j: int, u: int|
                    start.len() <= j < ml@.len() && #[trigger] bit(free.0, u) implies #[trigger] ml@[j].mv.from_idx() < u by {
                    assert(bit(free0, u));
                    if j < before.len() {
                        assert(ml@[j] == before[j]);
                    }
                }
                assert forall|i: int, j: int| start.len() <= i < j < ml@.len() implies square_order(#[trigger] ml@[i].mv, #[trigger] ml@[j].mv) by {
                    assert(ml@[i] == before[i] || i >= before.len());
                    if j < before.len() {
                        assert(ml@[i] == before[i]);
                        assert(ml@[j] == before[j]);
                    } else if i < before.len() {
                        assert(ml@[i] == before[i]);
                        assert(bit(free0, from.0 as int));
                    }
                }
                assert forall|j: int|
                    start.len() <= j < ml@.len() implies !bit(free.0, #[trigger] ml@[j].mv.from_idx()) && !bit(
                        pinned.0,
                        ml@[j].mv.from_idx(),
                    ) by {
                    if j < before.len() {
                        assert(ml@[j] == before[j]);
                    }
                }
                assert forall|f: int, t: int|
                    0 <= f < 64 && 0 <= t < 64 && bit(pieces.0, f) && !bit(pinned.0, f) && !bit(free.0, f)
                        && piece_attacks(self.stm(), piece_type.idx(), f, self.occ(), t) && bit(target.0, t)
                        implies #[trigger] has_move(ml@, f, t, plain_code(*self, t)) by {
                    if f == from.0 {
                        assert(bit(att.0, t));
                        assert(bit(tos.0, t));
                    } else {
                        assert(!bit(free0, f));
                        assert(has_move(before, f, t, plain_code(*self, t)));
                    }
                }
            }
        }
        let ghost mid = ml@;
        let mut pinned_pieces = Bitboard(pieces.0 & pinned.0);
        while pinned_pieces.0 != 0
            invariant
                self.gen_ready(),
                stm.idx() == self.stm(),
                king_sq.valid(),
                piece_type == PieceType::Bishop || piece_type == PieceType::Rook || piece_type
                    == PieceType::Queen,
                enemy == self.color_bitboards[1 - self.stm()],
                occ.0 == self.occ(),
                forall|t: int|
                    0 <= t < 64 && #[trigger] bit(target.0, t) ==> !bit(
                        self.color_bitboards[self.stm()].0,
                        t,
                    ),
                forall|t: int|
                    0 <= t < 64 && #[trigger] bit(pinned_pieces.0, t) ==> bit(
                        self.colored(self.stm(), piece_type.idx()),
                        t,
                    ),
                forall|t: int| 0 <= t < 64 && #[trigger] bit(target.0, t) ==> self.check_ok(t),
                pinned == self.board_state.pinned[self.stm()],
                king_sq.0 == self.king_sq(self.stm()),
                self.all_gen_ok(ml@),
                self.all_legal(ml@),
                all_owed(*self, co@, ml@),
                popcount(self.board_state.checkers.0) < 2,
                forall|t: int| 0 <= t < 64 ==> #[trigger] bit(target.0, t) == target_ok(*self, co@, t),
                pieces.0 == self.colored(self.stm(), piece_type.idx()),
                start == old(ml)@,
                extends(start, mid),
                extends(mid, ml@),
                distinct_in(ml@, start.len() as int, ml@.len() as int),
                moved_kind(*self, ml@, start.len() as int, ml@.len() as int, piece_type.idx()),
                start.len() <= mid.len() <= ml@.len(),
                sorted_in(ml@, start.len() as int, mid.len() as int),
                sorted_in(ml@, mid.len() as int, ml@.len() as int),
                forall|j: int, u: int|
                    mid.len() <= j < ml@.len() && #[trigger] bit(pinned_pieces.0, u) ==> #[trigger] ml@[j].mv.from_idx() < u,
                forall|j: int| start.len() <= j < mid.len() ==> !bit(pinned.0, #[trigger] ml@[j].mv.from_idx()),
                forall|j: int|
                    mid.len() <= j < ml@.len() ==> !bit(pinned_pieces.0, #[trigger] ml@[j].mv.from_idx()) && bit(
                        pinned.0,
                        ml@[j].mv.from_idx(),
                    ),
                forall|f: int| #[trigger] bit(pinned_pieces.0, f) ==> bit(pinned.0, f),
                occ.0 == self.occ(),
                forall|f: int, t: int|
                    0 <= f < 64 && 0 <= t < 64 && bit(pieces.0, f) && !bit(pinned.0, f)
                        && piece_attacks(self.stm(), piece_type.idx(), f, self.occ(), t) && bit(target.0, t)
                        ==> #[trigger] has_move(mid, f, t, plain_code(*self, t)),
                forall|f: int, t: int|
                    0 <= f < 64 && 0 <= t < 64 && bit(pieces.0, f) && bit(pinned.0, f) && !bit(pinned_pieces.0, f)
                        && piece_attacks(self.stm(), piece_type.idx(), f, self.occ(), t) && bit(target.0, t)
                        && on_line(king_sq.0 as int, f, t) ==> #[trigger] has_move(ml@, f, t, plain_code(*self, t)),
            decreases crate::types::bitboard::popcount(pinned_pieces.0),
        {
            let ghost pp0 = pinned_pieces.0;
            let ghost before = ml@;
            let from = pinned_pieces.pop_lsb();
            proof {
                crate::types::piece::lemma_piece_parts(self.squares()[from.0 as int]);
            }
            let pin_mask = line_through(king_sq, from);
            let att = attacks_for(stm, piece_type, from, occ);
            let tos = Bitboard(att.0 & target.0 & pin_mask.0);
            proof {
                assert(2 <= piece_type.idx() <= 4);
                assert(self.squares()[from.0 as int].type_idx() == piece_type.idx());
                assert forall|t: int| 0 <= t < 64 && #[trigger] bit(tos.0, t) implies path_to(*self, from.0 as int, t) by {
                    assert(bit(att.0, t));
                    lemma_slider_path(*self, self.stm(), piece_type.idx(), from.0 as int, t);
                }
            }
            self.push_targets(ml, from, tos, enemy, co);
            proof {
                lemma_extends_trans(mid, before, ml@);
                lemma_extends_keeps(before, ml@);
                lemma_distinct_extends(*self, before, ml@, start.len() as int, piece_type.idx());
                assert forall|i: int, j: int|
                    start.len() <= i < before.len() <= j < ml@.len() implies !same_move(#[trigger] ml@[i].mv, #[trigger] ml@[j].mv) by {
                    assert(ml@[i] == before[i]);
                    if i >= mid.len() {
                        assert(!bit(pp0, before[i].mv.from_idx()));
                    } else {
                        assert(mid[i] == before[i]);
                    }
                }
                lemma_distinct_join(ml@, start.len() as int, before.len() as int, ml@.len() as int);
                assert forall|j: int, u: int|
                    mid.len() <= j < ml@.len() && #[trigger] bit(pinned_pieces.0, u) implies #[trigger] ml@[j].mv.from_idx() < u by {
                    assert(bit(pp0, u));
                    if j < before.len() {
                        assert(ml@[j] == before[j]);
                    }
                }
                assert forall|i: int, j: int| start.len() <= i < j < mid.len() implies square_order(#[trigger] ml@[i].mv, #[trigger] ml@[j].mv) by {
                    assert(ml@[i] == before[i]);
                    assert(ml@[j] == before[j]);
                }
                assert forall|i: int, j: int| mid.len() <= i < j < ml@.len() implies square_order(#[trigger] ml@[i].mv, #[trigger] ml@[j].mv) by {
                    if j < before.len() {
                        assert(ml@[i] == before[i]);
                        assert(ml@[j] == before[j]);
                    } else if i < before.len() {
                        assert(ml@[i] == before[i]);
                        assert(bit(pp0, from.0 as int));
                    }
                }
                assert forall|j: int| start.len() <= j < mid.len() implies !bit(pinned.0, #[trigger] ml@[j].mv.from_idx()) by {
                    assert(ml@[j] == before[j]);
                }
                assert forall|j: int|
                    mid.len() <= j < ml@.len() implies !bit(pinned_pieces.0, #[trigger] ml@[j].mv.from_idx()) && bit(
                        pinned.0,
                        ml@[j].mv.from_idx(),
                    ) by {
                    if j < before.len() {
                        assert(ml@[j] == before[j]);
                    }
                }
                assert forall|f: int, t: int|
                    0 <= f < 64 && 0 <= t < 64 && bit(pieces.0, f) && bit(pinned.0, f) && !bit(pinned_pieces.0, f)
                        && piece_attacks(self.stm(), piece_type.idx(), f, self.occ(), t) && bit(target.0, t)
                        && on_line(king_sq.0 as int, f, t) implies #[trigger] has_move(ml@, f, t, plain_code(*self, t)) by {
                    if f == from.0 {
                        assert(bit(att.0, t));
                        assert(bit(pin_mask.0, t));
                        assert(bit(tos.0, t));
                    } else {
                        assert(!bit(pp0, f));
                        assert(has_move(before, f, t, plain_code(*self, t)));
                    }
                }
            }
        }
        proof {
            lemma_extends_trans(start, mid, ml@);
            lemma_extends_keeps(mid, ml@);
        }
    }

    /// Pushes the castling moves whose right is held, whose path is empty and whose king path
    /// is not attacked, unless the side to move is in check.
    fn collect_castling(&self, ml: &mut MoveList)
        requires
            self.gen_ready(),
            self.all_gen_ok(old(ml)@),
            self.all_legal(old(ml)@),
            all_owed(*self, false, old(ml)@),
        ensures
            all_owed(*self, false, final(ml)@),
            self.all_gen_ok(final(ml)@),
            self.all_legal(final(ml)@),
            extends(old(ml)@, final(ml)@),
            castles_listed(*self, final(ml)@),
            final(ml)@ == old(ml)@ + castle_entries(*self),
    {
        let stm = self.side_to_move();
        let occ = self.occupancies();
        let enemy_threats = self.board_state.threats_by[stm.flip().index()];
        if self.checkers().not_empty() {
            return;
        }
        proof {
            lemma_castle_masks(occ.0);
            lemma_castle_masks(enemy_threats.0);
        }
        match stm {
            Color::White => {
                if self.board_state.castling.is_allowed(CastlingDirections::WhiteKingside)
                    && Bitboard(occ.0 & 0x60).is_empty() && Bitboard(0x60 & enemy_threats.0).is_empty() {
                    let mv = Move::new(Square(4), Square(6), MoveFlag::CastleKingside);
                    let ghost before = ml@;
                    self.push_ok(ml, mv, Ghost(false));
                    proof {
                        assert(ml@[before.len() as int].mv == mv);
                        lemma_extends_keeps(before, ml@);
                    }
                }
                if self.board_state.castling.is_allowed(CastlingDirections::WhiteQueenside)
                    && Bitboard(occ.0 & 0x0E).is_empty() && Bitboard(0x0C & enemy_threats.0).is_empty() {
                    let mv = Move::new(Square(4), Square(2), MoveFlag::CastleQueenside);
                    let ghost before = ml@;
                    self.push_ok(ml, mv, Ghost(false));
                    proof {
                        assert(ml@[before.len() as int].mv == mv);
                        lemma_extends_keeps(before, ml@);
                    }
                }
            },
            Color::Black => {
                if self.board_state.castling.is_allowed(CastlingDirections::BlackKingside)
                    && Bitboard(occ.0 & 0x6000000000000000).is_empty() && Bitboard(
                    0x6000000000000000 & enemy_threats.0,
                ).is_empty() {
                    let mv = Move::new(Square(60), Square(62), MoveFlag::CastleKingside);
                    let ghost before = ml@;
                    self.push_ok(ml, mv, Ghost(false));
                    proof {
                        assert(ml@[before.len() as int].mv == mv);
                        lemma_extends_keeps(before, ml@);
                    }
                }
                if self.board_state.castling.is_allowed(CastlingDirections::BlackQueenside)
                    && Bitboard(occ.0 & 0x0E00000000000000).is_empty() && Bitboard(
                    0x0C00000000000000 & enemy_threats.0,
                ).is_empty() {
                    let mv = Move::new(Square(60), Square(58), MoveFlag::CastleQueenside);
                    let ghost before = ml@;
                    self.push_ok(ml, mv, Ghost(false));
                    proof {
                        assert(ml@[before.len() as int].mv == mv);
                        lemma_extends_keeps(before, ml@);
                    }
                }
            },
        }
    }
}

/// The pawns of `c` that stand on their last rank.
proof fn lemma_last_rank_mask(t: u64)
    ensures
        t < 64 ==> (((0xFF00_0000_0000_0000u64 >> t) & 1u64 == 1u64) == (t >= 56)),
        t < 64 ==> (((0xFFu64 >> t) & 1u64 == 1u64) == (t < 8)),
{
    assert(t < 64 ==> (((0xFF00_0000_0000_0000u64 >> t) & 1u64 == 1u64) == (t >= 56))) by (bit_vector);
    assert(t < 64 ==> (((0xFFu64 >> t) & 1u64 == 1u64) == (t < 8))) by (bit_vector);
}

impl Board {
    /// Whether move generation and the moves it produces can be worked on here: both kings are
    /// on the board, no pawn of the side to move stands on its last rank, an en passant
    /// square is empty with the pawn to take behind it, and each castling right of the side to
    /// move has its king and rook in place. A position reached by legal play from a legal
    /// position always passes.
    pub fn ready_to_generate(&self) -> (b: bool)
        requires
            self.wf(),
        ensures
            b == (self.gen_ready() && self.kings_present()),
    {
        let stm = self.side_to_move();
        let white_king = self.colored_pieces(Color::White, PieceType::King);
        let black_king = self.colored_pieces(Color::Black, PieceType::King);
        if white_king.is_empty() || black_king.is_empty() {
            return false;
        }
        let pawns = self.colored_pieces(stm, PieceType::Pawn).0;
        let last_rank: u64 = if stm == Color::White {
            0xFF00_0000_0000_0000u64
        } else {
            0xFFu64
        };
        let ghost s = self.squares();
        let ghost st = stm.idx();
        proof {
            assert forall|t: int| 0 <= t < 64 implies #[trigger] bit(pawns, t) == (s[t] == pawn_of(st)) by {
                crate::types::piece::lemma_piece_parts(s[t]);
            }
        }
        if pawns & last_rank != 0 {
            proof {
                if forall|t: int| 0 <= t < 64 ==> !#[trigger] bit(pawns & last_rank, t) {
                    assert forall|t: int| 0 <= t < 64 implies #[trigger] bit(pawns & last_rank, t) == bit(0u64, t) by {}
                    crate::types::bitboard::lemma_bits_ext(pawns & last_rank, 0);
                }
                let t = choose|t: int| 0 <= t < 64 && bit(pawns & last_rank, t);
                lemma_last_rank_mask(t as u64);
                assert(s[t] == pawn_of(st));
                assert(!(0 <= t + spec_up_dir(st) < 64));
            }
            return false;
        }
        proof {
            assert forall|t: int| 0 <= t < 64 && #[trigger] s[t] == pawn_of(st) implies 0 <= t + spec_up_dir(st) < 64 by {
                lemma_last_rank_mask(t as u64);
                assert(!bit(pawns & last_rank, t));
            }
        }
        let ep = self.en_passant();
        if ep.0 != 64 {
            let victim: i16 = ep.0 as i16 - up_dir(stm) as i16;
            if victim < 0 || victim >= 64 {
                return false;
            }
            if self.piece_squares[ep.0 as usize] != Piece::NoPiece {
                return false;
            }
            if self.piece_squares[victim as usize] == Piece::NoPiece {
                return false;
            }
        }
        let raw = self.board_state.castling.raw;
        let empty = Piece::NoPiece;
        if stm == Color::White {
            let king_home = self.piece_squares[4];
            let home_ok = king_home != empty && king_home.color() == Color::White;
            if raw & 1 != 0 && !(home_ok && self.piece_squares[7] != empty) {
                return false;
            }
            if raw & 2 != 0 && !(home_ok && self.piece_squares[0] != empty) {
                return false;
            }
        } else {
            let king_home = self.piece_squares[60];
            let home_ok = king_home != empty && king_home.color() == Color::Black;
            if raw & 4 != 0 && !(home_ok && self.piece_squares[63] != empty) {
                return false;
            }
            if raw & 8 != 0 && !(home_ok && self.piece_squares[56] != empty) {
                return false;
            }
        }
        true
    }
}

impl Board {
    /// Whether a generated move can be played here: it takes no king (which a move from a
    /// legal position never does) and the ply count has room.
    pub fn can_play(&self, mv: Move) -> (b: bool)
        requires
            self.gen_ok(mv),
        ensures
            self.wf() && self.kings_present() && self.material_ok() ==> (b == self.move_ok(mv)),
    {
        if self.half_move_number == usize::MAX {
            return false;
        }
        if mv.is_castling() {
            true
        } else if mv.is_en_passant() {
            let victim = mv.to().shift(-up_dir(self.side_to_move()));
            self.piece_squares[victim.0 as usize].piece_type() != PieceType::King
        } else if mv.is_capture() {
            self.piece_squares[mv.to().0 as usize].piece_type() != PieceType::King
        } else {
            true
        }
    }
}

} // verus!
