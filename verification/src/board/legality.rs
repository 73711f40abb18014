use vstd::prelude::*;
use crate::attacking::{
    on_line, dir_line, bishop_reaches, rook_reaches, on_ray, ray_dist, valid_dir, slider_reaches, knight_hop,
    pawn_hit, king_step, strictly_between, dir_between,
};
use crate::board::Board;
use crate::board::make_move::{
    make_placement, ep_victim, landing_piece, rook_to, rook_from, piece_attacks, gives_check, slider_check, slider_line,
    own_between, pin_via, check_info_fresh, pawn_of, union6,
};
use crate::board::threat_update::{allowed_dir, lemma_slider_dirs};
use crate::board::make_move::castles_own_rook;
use crate::board::threat_update::no_slider_check;
use crate::types::bitboard::{Bitboard, bit, group_bits, popcount, lemma_popcount_one, lemma_popcount_zero};
use crate::types::move_list::MoveEntry;
use crate::types::moves::Move;
use crate::types::piece::Piece;
use crate::types::square::{rank_of, file_of};
use vstd::std_specs::bits::u64_trailing_zeros;

verus! {

broadcast use group_bits;

/// Color `x` has exactly one king, on `king_sq(x)`.
pub open spec fn single_king(b: Board, x: int) -> bool {
    &&& b.has_king(x)
    &&& forall|w: int| 0 <= w < 64 ==> (#[trigger] bit(b.colored(x, 5), w) == (w == b.king_sq(x)))
}

/// No piece of the other side attacks a king of `x` through the board.
pub open spec fn king_safe(b: Board, x: int) -> bool {
    forall|q: int, k: int, w: int|
        0 <= k < 6 && #[trigger] bit(b.colored(1 - x, k), q) && #[trigger] bit(b.colored(x, 5), w) ==> !piece_attacks(
            1 - x,
            k,
            q,
            b.occ(),
            w,
        )
}

/// The piece on `f` can get to `t`: a knight's jump, a king's step, or a line on which nothing
/// stands before `t` (pawn steps and captures, bishops, rooks, queens).
pub open spec fn path_to(b: Board, f: int, t: int) -> bool {
    let k = b.squares()[f].type_idx();
    if k == 1 {
        knight_hop(f, t)
    } else if k == 5 {
        king_step(f, t)
    } else {
        exists|dr: int, df: int| valid_dir(dr, df) && #[trigger] slider_reaches(f, t, b.occ(), dr, df)
    }
}

/// The mover can get to the destination, and only a pawn takes en passant.
pub open spec fn path_ok(b: Board, mv: Move) -> bool {
    &&& path_to(b, mv.from_idx(), mv.to_idx())
    &&& mv.spec_is_en_passant() ==> b.squares()[mv.from_idx()] == pawn_of(b.stm())
}

/// The generator's test for castling: the king leaves its home square for the square two
/// files over, the squares between king and rook are empty, and neither the king's landing
/// square nor the square it crosses is attacked.
pub open spec fn castle_safe(b: Board, mv: Move) -> bool {
    let stm = b.stm();
    let threats = b.board_state.threats_by[1 - stm].0;
    let occ = b.occ();
    let home: int = if stm == 0 { 4 } else { 60 };
    let to = mv.to_idx();
    let cross = rook_to(stm, mv);
    &&& mv.from_idx() == home
    &&& to == if mv.code() == 2 { home + 2 } else { home - 2 }
    &&& !bit(occ, to) && !bit(occ, cross)
    &&& mv.code() != 2 ==> !bit(occ, home - 3)
    &&& !bit(threats, to) && !bit(threats, cross)
}

/// A pawn's step forward follows its file.
pub proof fn lemma_pawn_step_path(b: Board, from: int, one: int)
    requires
        0 <= from < 64,
        0 <= one < 64,
        one == from + crate::types::spec_up_dir(b.stm()),
        b.squares()[from].type_idx() == 0,
    ensures
        path_to(b, from, one),
{
    let dr: int = if b.stm() == 0 { 1 } else { -1 };
    assert(slider_reaches(from, one, b.occ(), dr, 0));
}

/// A pawn's double step passes over the empty square in front of it.
pub proof fn lemma_pawn_double_path(b: Board, from: int, one: int, two: int)
    requires
        0 <= from < 64,
        0 <= one < 64,
        0 <= two < 64,
        one == from + crate::types::spec_up_dir(b.stm()),
        two == one + crate::types::spec_up_dir(b.stm()),
        !bit(b.occ(), one),
        b.squares()[from].type_idx() == 0,
    ensures
        path_to(b, from, two),
{
    let dr: int = if b.stm() == 0 { 1 } else { -1 };
    assert forall|u: int|
        #![trigger bit(b.occ(), u), on_ray(from, u, dr, 0)]
        on_ray(from, u, dr, 0) && ray_dist(from, u, dr, 0) < ray_dist(from, two, dr, 0) implies !bit(b.occ(), u) by {
        lemma_same_coords(u, one);
    }
    assert(slider_reaches(from, two, b.occ(), dr, 0));
}

/// A pawn's capture is one diagonal step.
pub proof fn lemma_pawn_capture_path(b: Board, from: int, t: int, c: int)
    requires
        0 <= from < 64,
        pawn_hit(from, t, c),
        b.squares()[from].type_idx() == 0,
    ensures
        path_to(b, from, t),
{
    let dr: int = if c == 0 { 1 } else { -1 };
    let df: int = file_of(t) - file_of(from);
    assert(slider_reaches(from, t, b.occ(), dr, df));
}

/// A slider goes where it attacks.
pub proof fn lemma_slider_path(b: Board, c: int, k: int, from: int, t: int)
    requires
        2 <= k <= 4,
        b.squares()[from].type_idx() == k,
        piece_attacks(c, k, from, b.occ(), t),
    ensures
        path_to(b, from, t),
{
    lemma_slider_dirs(c, k, from, b.occ(), t);
}

/// Two squares lie on at most one ray from the first.
pub proof fn lemma_ray_unique(a: int, b: int, dr1: int, df1: int, dr2: int, df2: int)
    requires
        valid_dir(dr1, df1),
        valid_dir(dr2, df2),
        on_ray(a, b, dr1, df1),
        on_ray(a, b, dr2, df2),
    ensures
        dr1 == dr2 && df1 == df2,
{
}

/// A square is given by its rank and file.
pub proof fn lemma_same_coords(a: int, b: int)
    requires
        0 <= a < 64,
        0 <= b < 64,
        rank_of(a) == rank_of(b),
        file_of(a) == file_of(b),
    ensures
        a == b,
{
    crate::attacking::not_magical::lemma_square_coords(a, rank_of(b), file_of(b));
}

/// Along one ray from `k`: from the square `n` steps out, a square `m` steps out lies `m - n`
/// steps further on (when `m > n`), and a square `m` steps out the other way lies `n + m` steps
/// back.
pub proof fn lemma_ray_shift(k: int, f: int, t: int, dr: int, df: int)
    requires
        valid_dir(dr, df),
        0 <= k < 64,
        on_ray(k, f, dr, df),
    ensures
        on_ray(k, t, dr, df) && ray_dist(k, t, dr, df) > ray_dist(k, f, dr, df) ==> on_ray(f, t, dr, df)
            && ray_dist(f, t, dr, df) == ray_dist(k, t, dr, df) - ray_dist(k, f, dr, df),
        on_ray(k, t, -dr, -df) ==> on_ray(f, t, -dr, -df) && ray_dist(f, t, -dr, -df) == ray_dist(k, t, -dr, -df)
            + ray_dist(k, f, dr, df),
        on_ray(f, k, -dr, -df) && ray_dist(f, k, -dr, -df) == ray_dist(k, f, dr, df),
        on_ray(k, t, dr, df) && ray_dist(k, t, dr, df) == ray_dist(k, f, dr, df) ==> t == f,
{
    if on_ray(k, t, dr, df) && ray_dist(k, t, dr, df) == ray_dist(k, f, dr, df) {
        lemma_same_coords(t, f);
    }
}

/// A knight's jump follows no ray.
pub proof fn lemma_knight_off_ray(f: int, t: int, dr: int, df: int)
    requires
        valid_dir(dr, df),
        knight_hop(f, t),
    ensures
        !on_ray(f, t, dr, df),
{
}

/// Nothing stands strictly between a king and a knight or pawn that attacks it.
pub proof fn lemma_nothing_between(k: int, q: int, u: int)
    requires
        knight_hop(k, q) || exists|c: int| #[trigger] pawn_hit(k, q, c),
    ensures
        !strictly_between(k, q, u),
{
}

/// Attacks of knights, kings and pawns read both ways: a pawn of one color attacks where a
/// pawn of the other color on the target would attack from.
pub proof fn lemma_leaper_symmetry(q: int, k: int, e: int)
    requires
        0 <= q < 64,
        0 <= k < 64,
        0 <= e < 2,
    ensures
        knight_hop(q, k) == knight_hop(k, q),
        king_step(q, k) == king_step(k, q),
        pawn_hit(q, k, e) == pawn_hit(k, q, 1 - e),
{
}

/// A set with fewer than two squares holding `q` holds only `q`, its lowest square.
pub proof fn lemma_single_square(x: u64, q: int)
    requires
        popcount(x) < 2,
        bit(x, q),
    ensures
        u64_trailing_zeros(x) == q,
        forall|u: int| #[trigger] bit(x, u) ==> u == q,
{
    lemma_popcount_zero(x);
    if x == 0 {
        crate::types::bitboard::lemma_bit_zero(q);
    }
    lemma_popcount_one(x);
}

/// A piece of the side not moving on the board after a move (not castling) stood there before,
/// off the squares the move changed.
pub proof fn lemma_enemy_kept(b0: Board, mv: Move, b1: Board, q: int)
    requires
        b0.move_ok(mv),
        !mv.spec_is_castling(),
        b1.squares() == make_placement(b0.squares(), mv, b0.stm()),
        0 <= q < 64,
        b1.squares()[q] != Piece::NoPiece,
        b1.squares()[q].color_idx() == 1 - b0.stm(),
    ensures
        b0.squares()[q] == b1.squares()[q],
        q != mv.from_idx(),
        q != mv.to_idx(),
        mv.spec_is_en_passant() ==> q != ep_victim(mv.to_idx(), b0.stm()),
{
    let s = b0.squares();
    let stm = b0.stm();
    crate::types::piece::lemma_piece_parts(s[mv.from_idx()]);
    crate::types::piece::lemma_piece_parts(landing_piece(s, mv, stm));
    crate::types::piece::lemma_piece_parts(b1.squares()[q]);
}

/// A square in one of six sets is in their union.
pub proof fn lemma_union6_bit(a: [Bitboard; 6], k: int, t: int)
    requires
        0 <= k < 6,
        bit(a[k].0, t),
    ensures
        bit(union6(a), t),
{
}

/// A square strictly between `a` and `b` on a ray from `a` lies on the ray back from `b`.
pub proof fn lemma_between_flip(a: int, b: int, u: int, dr: int, df: int)
    requires
        valid_dir(dr, df),
        0 <= a < 64,
        on_ray(a, b, dr, df),
        on_ray(a, u, dr, df),
        ray_dist(a, u, dr, df) < ray_dist(a, b, dr, df),
    ensures
        on_ray(b, u, -dr, -df),
        ray_dist(b, u, -dr, -df) == ray_dist(a, b, dr, df) - ray_dist(a, u, dr, df),
{
}

/// A slider reaching `t` from `s` is reached back from `t` the other way.
pub proof fn lemma_reach_flip(s: int, t: int, occ: u64, dr: int, df: int)
    requires
        valid_dir(dr, df),
        0 <= s < 64,
        slider_reaches(s, t, occ, dr, df),
    ensures
        slider_reaches(t, s, occ, -dr, -df),
{
    lemma_ray_shift(s, t, t, dr, df);
    assert forall|u: int|
        #![trigger bit(occ, u), on_ray(t, u, -dr, -df)]
        on_ray(t, u, -dr, -df) && ray_dist(t, u, -dr, -df) < ray_dist(t, s, -dr, -df) implies !bit(occ, u) by {
        lemma_between_flip(t, s, u, -dr, -df);
        assert(on_ray(s, u, dr, df));
    }
}

/// Strictly between along one direction is strictly between.
pub proof fn lemma_dir_between(a: int, b: int, u: int, dr: int, df: int)
    requires
        valid_dir(dr, df),
        dir_between(a, b, u, dr, df),
    ensures
        strictly_between(a, b, u),
{
}

/// Strictly between `a` and `b` is along the one ray from `a` to `b`.
pub proof fn lemma_between_dir(a: int, b: int, u: int, dr: int, df: int)
    requires
        valid_dir(dr, df),
        on_ray(a, b, dr, df),
        strictly_between(a, b, u),
    ensures
        dir_between(a, b, u, dr, df),
{
    if dir_between(a, b, u, 1, 0) {
        lemma_ray_unique(a, b, dr, df, 1, 0);
    } else if dir_between(a, b, u, -1, 0) {
        lemma_ray_unique(a, b, dr, df, -1, 0);
    } else if dir_between(a, b, u, 0, 1) {
        lemma_ray_unique(a, b, dr, df, 0, 1);
    } else if dir_between(a, b, u, 0, -1) {
        lemma_ray_unique(a, b, dr, df, 0, -1);
    } else if dir_between(a, b, u, 1, 1) {
        lemma_ray_unique(a, b, dr, df, 1, 1);
    } else if dir_between(a, b, u, 1, -1) {
        lemma_ray_unique(a, b, dr, df, 1, -1);
    } else if dir_between(a, b, u, -1, 1) {
        lemma_ray_unique(a, b, dr, df, -1, 1);
    } else {
        lemma_ray_unique(a, b, dr, df, -1, -1);
    }
}

/// `u` on the line through `a` and `b`, with `b` on the ray from `a` in direction (`dr`, `df`).
pub proof fn lemma_line_dir(a: int, b: int, u: int, dr: int, df: int)
    requires
        valid_dir(dr, df),
        on_ray(a, b, dr, df),
        on_line(a, b, u),
    ensures
        u == a || on_ray(a, u, dr, df) || on_ray(a, u, -dr, -df),
{
    if dir_line(a, b, u, 1, 0) {
        lemma_ray_unique(a, b, dr, df, 1, 0);
    } else if dir_line(a, b, u, -1, 0) {
        lemma_ray_unique(a, b, dr, df, -1, 0);
    } else if dir_line(a, b, u, 0, 1) {
        lemma_ray_unique(a, b, dr, df, 0, 1);
    } else if dir_line(a, b, u, 0, -1) {
        lemma_ray_unique(a, b, dr, df, 0, -1);
    } else if dir_line(a, b, u, 1, 1) {
        lemma_ray_unique(a, b, dr, df, 1, 1);
    } else if dir_line(a, b, u, 1, -1) {
        lemma_ray_unique(a, b, dr, df, 1, -1);
    } else if dir_line(a, b, u, -1, 1) {
        lemma_ray_unique(a, b, dr, df, -1, 1);
    } else {
        lemma_ray_unique(a, b, dr, df, -1, -1);
    }
}

/// A slider of the other side seen from the king of `c` along a direction of its kind, with no
/// piece of the other side before it, lines up with that king.
pub proof fn lemma_line_of(b: Board, c: int, q: int, k: int, dr: int, df: int)
    requires
        2 <= k <= 4,
        allowed_dir(k, dr, df),
        bit(b.colored(1 - c, k), q),
        slider_reaches(b.king_sq(c), q, b.color_bitboards[1 - c].0, dr, df),
    ensures
        slider_line(b, c, q),
{
    let kk = b.king_sq(c);
    let eocc = b.color_bitboards[1 - c].0;
    if dr != 0 && df != 0 {
        assert(bishop_reaches(kk, q, eocc));
    } else {
        assert(rook_reaches(kk, q, eocc));
    }
}

/// The line from the king of the side to move along (`er`, `ef`) to a slider of the other side
/// of kind `k` on `q` is clear after `mv`, which moved some other piece: the facts that the two
/// cases below start from.
pub open spec fn line_opened(b0: Board, mv: Move, b1: Board, q: int, k: int, er: int, ef: int) -> bool {
    let stm = b0.stm();
    let s = b0.squares();
    let from = mv.from_idx();
    let to = mv.to_idx();
    let kk = b0.king_sq(stm);
    &&& b0.move_ok(mv)
    &&& !mv.spec_is_castling()
    &&& !mv.spec_is_en_passant()
    &&& s[from].type_idx() != 5
    &&& 0 <= q < 64
    &&& 0 <= kk < 64
    &&& 2 <= k <= 4
    &&& allowed_dir(k, er, ef)
    &&& bit(b0.colored(stm, 5), kk)
    &&& bit(b0.colored(1 - stm, k), q)
    &&& q != from && q != to && kk != to
    &&& slider_reaches(kk, q, b1.occ(), er, ef)
    &&& !strictly_between(kk, q, to)
    &&& forall|u: int|
        #![trigger on_ray(kk, u, er, ef)]
        on_ray(kk, u, er, ef) && ray_dist(kk, u, er, ef) < ray_dist(kk, q, er, ef) && u != from ==> s[u]
            == Piece::NoPiece
}

/// A slider of the other side that reaches the king after a move of another piece (neither
/// castling nor en passant) stands on a line that the move opened.
pub proof fn lemma_line_opened(b0: Board, mv: Move, b1: Board, q: int, k: int, dr: int, df: int)
    requires
        b0.move_ok(mv),
        !mv.spec_is_castling(),
        !mv.spec_is_en_passant(),
        single_king(b0, b0.stm()),
        b1.wf(),
        b1.squares() == make_placement(b0.squares(), mv, b0.stm()),
        b0.squares()[mv.from_idx()].type_idx() != 5,
        0 <= q < 64,
        2 <= k <= 4,
        allowed_dir(k, dr, df),
        bit(b1.colored(1 - b0.stm(), k), q),
        slider_reaches(q, b0.king_sq(b0.stm()), b1.occ(), dr, df),
    ensures
        line_opened(b0, mv, b1, q, k, -dr, -df),
{
    let stm = b0.stm();
    let e = 1 - stm;
    let s = b0.squares();
    let from = mv.from_idx();
    let to = mv.to_idx();
    let kk = b0.king_sq(stm);
    let er = -dr;
    let ef = -df;
    crate::types::piece::lemma_piece_parts(b1.squares()[q]);
    lemma_enemy_kept(b0, mv, b1, q);
    assert(bit(b0.colored(e, k), q));
    crate::types::bitboard::lemma_lowest_bit(b0.colored(stm, 5));
    assert(bit(b0.colored(stm, 5), kk));
    lemma_reach_flip(q, kk, b1.occ(), dr, df);
    assert(slider_reaches(kk, q, b1.occ(), er, ef));
    crate::types::piece::lemma_piece_parts(s[from]);
    crate::types::piece::lemma_piece_parts(landing_piece(s, mv, stm));
    assert(bit(b1.occ(), to));
    assert(kk != to) by {
        crate::types::piece::lemma_piece_parts(s[kk]);
    }
    assert forall|u: int|
        #![trigger on_ray(kk, u, er, ef)]
        on_ray(kk, u, er, ef) && ray_dist(kk, u, er, ef) < ray_dist(kk, q, er, ef) && u != from implies s[u]
            == Piece::NoPiece by {
        assert(!bit(b1.occ(), u));
        crate::types::piece::lemma_piece_parts(b1.squares()[u]);
        assert(b1.squares()[u] == s[u]);
    }
    assert(!strictly_between(kk, q, to)) by {
        if strictly_between(kk, q, to) {
            lemma_between_dir(kk, q, to, er, ef);
        }
    }
}

/// The occupancy the legality check reads for an en passant capture is the occupancy after it.
pub proof fn lemma_ep_occupancy(b0: Board, mv: Move, b1: Board, u: int)
    requires
        b0.move_ok(mv),
        mv.spec_is_en_passant(),
        !mv.spec_is_castling(),
        b1.wf(),
        b1.squares() == make_placement(b0.squares(), mv, b0.stm()),
        0 <= u < 64,
    ensures
        bit(b0.ep_occupancy(mv), u) == bit(b1.occ(), u),
{
    let s = b0.squares();
    let stm = b0.stm();
    let from = mv.from_idx();
    let to = mv.to_idx();
    let v = ep_victim(to, stm);
    crate::types::piece::lemma_piece_parts(s[from]);
    crate::types::piece::lemma_piece_parts(s[u]);
    crate::types::piece::lemma_piece_parts(b1.squares()[u]);
    assert(bit(1u64 << (from as u64), u) == (u == from));
    assert(bit(1u64 << (to as u64), u) == (u == to));
    assert(bit(1u64 << (v as u64), u) == (u == v));
}

/// An en passant capture that passes the legality check opens no line from a slider of the
/// other side to the king.
pub proof fn lemma_ep_no_slider(b0: Board, mv: Move, b1: Board, q: int, k: int, dr: int, df: int)
    requires
        b0.move_ok(mv),
        mv.spec_is_en_passant(),
        !mv.spec_is_castling(),
        b0.legal_spec(mv),
        b0.squares()[mv.from_idx()].type_idx() != 5,
        b1.wf(),
        b1.squares() == make_placement(b0.squares(), mv, b0.stm()),
        0 <= q < 64,
        2 <= k <= 4,
        allowed_dir(k, dr, df),
        bit(b1.colored(1 - b0.stm(), k), q),
    ensures
        !slider_reaches(q, b0.king_sq(b0.stm()), b1.occ(), dr, df),
{
    let stm = b0.stm();
    let e = 1 - stm;
    let kk = b0.king_sq(stm);
    let occ = b0.ep_occupancy(mv);
    if slider_reaches(q, kk, b1.occ(), dr, df) {
        crate::types::piece::lemma_piece_parts(b1.squares()[q]);
        lemma_enemy_kept(b0, mv, b1, q);
        assert(bit(b0.colored(e, k), q));
        lemma_reach_flip(q, kk, b1.occ(), dr, df);
        assert forall|u: int|
            #![trigger bit(occ, u), on_ray(kk, u, -dr, -df)]
            on_ray(kk, u, -dr, -df) && ray_dist(kk, u, -dr, -df) < ray_dist(kk, q, -dr, -df) implies !bit(occ, u) by {
            lemma_ep_occupancy(b0, mv, b1, u);
        }
        assert(slider_reaches(kk, q, occ, -dr, -df));
        if dr != 0 && df != 0 {
            assert(bishop_reaches(kk, q, occ));
            assert(bit(b0.colored(e, 2) | b0.colored(e, 4), q));
        } else {
            assert(rook_reaches(kk, q, occ));
            assert(bit(b0.colored(e, 3) | b0.colored(e, 4), q));
        }
    }
}

/// With the moved piece between the king and the slider, it was pinned, and a pinned piece
/// that passes the legality check along a clear path stays on the line between them.
pub proof fn lemma_pinned_case(b0: Board, mv: Move, b1: Board, q: int, k: int, er: int, ef: int)
    requires
        line_opened(b0, mv, b1, q, k, er, ef),
        b0.legal_spec(mv),
        path_ok(b0, mv),
        check_info_fresh(b0),
    ensures
        !dir_between(b0.king_sq(b0.stm()), q, mv.from_idx(), er, ef),
{
    let stm = b0.stm();
    let s = b0.squares();
    let from = mv.from_idx();
    let to = mv.to_idx();
    let kk = b0.king_sq(stm);
    let eocc = b0.color_bitboards[1 - stm].0;
    let dr = -er;
    let df = -ef;
    if dir_between(kk, q, from, er, ef) {
        crate::types::piece::lemma_piece_parts(s[from]);
        assert forall|u: int|
            #![trigger bit(eocc, u), on_ray(kk, u, er, ef)]
            on_ray(kk, u, er, ef) && ray_dist(kk, u, er, ef) < ray_dist(kk, q, er, ef) implies !bit(eocc, u) by {
            crate::types::piece::lemma_piece_parts(s[u]);
        }
        assert(slider_reaches(kk, q, eocc, er, ef));
        lemma_line_of(b0, stm, q, k, er, ef);
        assert(own_between(b0, stm, q, from)) by {
            lemma_dir_between(kk, q, from, er, ef);
        }
        assert forall|u: int| 0 <= u < 64 && u != from implies !#[trigger] own_between(b0, stm, q, u) by {
            if own_between(b0, stm, q, u) {
                lemma_between_dir(kk, q, u, er, ef);
                crate::types::piece::lemma_piece_parts(s[u]);
            }
        }
        assert(pin_via(b0, stm, q, from));
        assert(bit(b0.board_state.pinned[stm].0, from));
        assert(on_line(kk, from, to));
        lemma_line_dir(kk, from, to, er, ef);
        let kind = s[from].type_idx();
        if on_ray(kk, to, dr, df) {
            lemma_ray_shift(kk, from, to, er, ef);
            if kind == 1 {
                lemma_knight_off_ray(from, to, dr, df);
            } else {
                let (pr, pf) = choose|pr: int, pf: int|
                    valid_dir(pr, pf) && #[trigger] slider_reaches(from, to, b0.occ(), pr, pf);
                lemma_ray_unique(from, to, pr, pf, dr, df);
                assert(on_ray(from, kk, dr, df));
                assert(ray_dist(from, kk, dr, df) < ray_dist(from, to, dr, df));
                assert(bit(b0.occ(), kk));
                assert(slider_reaches(from, to, b0.occ(), dr, df));
            }
        } else {
            assert(on_ray(kk, to, er, ef));
            if ray_dist(kk, to, er, ef) < ray_dist(kk, q, er, ef) {
                lemma_dir_between(kk, q, to, er, ef);
            } else if ray_dist(kk, to, er, ef) == ray_dist(kk, q, er, ef) {
                lemma_ray_shift(kk, q, to, er, ef);
            } else {
                lemma_ray_shift(kk, from, to, er, ef);
                lemma_ray_shift(kk, from, q, er, ef);
                if kind == 1 {
                    lemma_knight_off_ray(from, to, er, ef);
                } else {
                    let (pr, pf) = choose|pr: int, pf: int|
                        valid_dir(pr, pf) && #[trigger] slider_reaches(from, to, b0.occ(), pr, pf);
                    lemma_ray_unique(from, to, pr, pf, er, ef);
                    assert(on_ray(from, q, er, ef));
                    assert(ray_dist(from, q, er, ef) < ray_dist(from, to, er, ef));
                    assert(bit(b0.occ(), q));
                    assert(slider_reaches(from, to, b0.occ(), er, ef));
                }
            }
        }
    }
}

/// With the moved piece off the line between the king and the slider, the slider gave check,
/// and a move that passes the legality check takes it or blocks the line.
pub proof fn lemma_checker_case(b0: Board, mv: Move, b1: Board, q: int, k: int, er: int, ef: int)
    requires
        line_opened(b0, mv, b1, q, k, er, ef),
        b0.legal_spec(mv),
        check_info_fresh(b0),
    ensures
        dir_between(b0.king_sq(b0.stm()), q, mv.from_idx(), er, ef),
{
    let stm = b0.stm();
    let s = b0.squares();
    let from = mv.from_idx();
    let kk = b0.king_sq(stm);
    let eocc = b0.color_bitboards[1 - stm].0;
    if !dir_between(kk, q, from, er, ef) {
        assert forall|u: int|
            #![trigger bit(eocc, u), on_ray(kk, u, er, ef)]
            on_ray(kk, u, er, ef) && ray_dist(kk, u, er, ef) < ray_dist(kk, q, er, ef) implies !bit(eocc, u) by {
            crate::types::piece::lemma_piece_parts(s[u]);
        }
        assert(slider_reaches(kk, q, eocc, er, ef));
        lemma_line_of(b0, stm, q, k, er, ef);
        assert forall|u: int| 0 <= u < 64 implies !#[trigger] own_between(b0, stm, q, u) by {
            if own_between(b0, stm, q, u) {
                lemma_between_dir(kk, q, u, er, ef);
                crate::types::piece::lemma_piece_parts(s[u]);
            }
        }
        assert(slider_check(b0, stm, q));
        assert(gives_check(b0, stm, q));
        assert(bit(b0.board_state.checkers.0, q));
        lemma_single_square(b0.board_state.checkers.0, q);
    }
}

/// After a move of a piece other than the king (not castling) that passes the legality check
/// along a clear path, no piece of the other side attacks the king.
pub proof fn lemma_piece_move_safe(b0: Board, mv: Move, b1: Board, q: int, k: int)
    requires
        b0.move_ok(mv),
        !mv.spec_is_castling(),
        b0.legal_spec(mv),
        path_ok(b0, mv),
        check_info_fresh(b0),
        single_king(b0, b0.stm()),
        king_safe(b0, 1 - b0.stm()),
        b1.wf(),
        b1.squares() == make_placement(b0.squares(), mv, b0.stm()),
        b0.squares()[mv.from_idx()].type_idx() != 5,
        0 <= q < 64,
        0 <= k < 6,
        bit(b1.colored(1 - b0.stm(), k), q),
    ensures
        !piece_attacks(1 - b0.stm(), k, q, b1.occ(), b0.king_sq(b0.stm())),
{
    let stm = b0.stm();
    let e = 1 - stm;
    let s = b0.squares();
    let to = mv.to_idx();
    let kk = b0.king_sq(stm);
    crate::types::piece::lemma_piece_parts(b1.squares()[q]);
    lemma_enemy_kept(b0, mv, b1, q);
    assert(bit(b0.colored(e, k), q));
    crate::types::bitboard::lemma_lowest_bit(b0.colored(stm, 5));
    assert(bit(b0.colored(stm, 5), kk));
    if piece_attacks(e, k, q, b1.occ(), kk) {
        if 2 <= k <= 4 {
            lemma_slider_dirs(e, k, q, b1.occ(), kk);
            let (dr, df) = choose|dr: int, df: int|
                allowed_dir(k, dr, df) && #[trigger] slider_reaches(q, kk, b1.occ(), dr, df);
            if mv.spec_is_en_passant() {
                lemma_ep_no_slider(b0, mv, b1, q, k, dr, df);
            } else {
                lemma_line_opened(b0, mv, b1, q, k, dr, df);
                lemma_pinned_case(b0, mv, b1, q, k, -dr, -df);
                lemma_checker_case(b0, mv, b1, q, k, -dr, -df);
            }
        } else if k == 5 {
            lemma_leaper_symmetry(q, kk, e);
            assert(!piece_attacks(stm, 5, kk, b0.occ(), q));
        } else {
            lemma_leaper_symmetry(q, kk, e);
            assert(gives_check(b0, stm, q));
            assert(bit(b0.board_state.checkers.0, q));
            lemma_single_square(b0.board_state.checkers.0, q);
            let relevant = if mv.spec_is_en_passant() { ep_victim(to, stm) } else { to };
            assert(!strictly_between(kk, q, relevant)) by {
                if k == 0 {
                    assert(pawn_hit(kk, q, stm));
                }
                lemma_nothing_between(kk, q, relevant);
            }
        }
    }
}

/// Strictly between reads both ways: the squares `between(a, b)` holds are those of
/// `between(b, a)`.
pub proof fn lemma_between_symmetric(a: int, b: int, u: int)
    requires
        0 <= a < 64,
        0 <= b < 64,
    ensures
        strictly_between(a, b, u) == strictly_between(b, a, u),
{
    if strictly_between(a, b, u) {
        lemma_between_one_way(a, b, u);
    }
    if strictly_between(b, a, u) {
        lemma_between_one_way(b, a, u);
    }
}

/// A square strictly between `a` and `b` is strictly between `b` and `a`.
pub proof fn lemma_between_one_way(a: int, b: int, u: int)
    requires
        0 <= a < 64,
        0 <= b < 64,
        strictly_between(a, b, u),
    ensures
        strictly_between(b, a, u),
{
    let (dr, df) = choose|dr: int, df: int| valid_dir(dr, df) && #[trigger] dir_between(a, b, u, dr, df);
    lemma_between_flip(a, b, u, dr, df);
    lemma_ray_shift(a, b, b, dr, df);
    assert(dir_between(b, a, u, -dr, -df));
    lemma_dir_between(b, a, u, -dr, -df);
}

/// A king move (not castling) that passes the legality check lands where no piece of the other
/// side attacks it.
pub proof fn lemma_king_move_safe(b0: Board, mv: Move, b1: Board, q: int, k: int)
    requires
        b0.move_ok(mv),
        !mv.spec_is_castling(),
        !mv.spec_is_en_passant(),
        b0.legal_spec(mv),
        b0.threats_fresh(),
        b1.wf(),
        b1.squares() == make_placement(b0.squares(), mv, b0.stm()),
        b0.squares()[mv.from_idx()].type_idx() == 5,
        0 <= k < 6,
        bit(b1.colored(1 - b0.stm(), k), q),
    ensures
        !piece_attacks(1 - b0.stm(), k, q, b1.occ(), mv.to_idx()),
{
    let stm = b0.stm();
    let e = 1 - stm;
    let s = b0.squares();
    let from = mv.from_idx();
    let to = mv.to_idx();
    let ko = b0.occ() ^ b0.colored(stm, 5);
    crate::types::piece::lemma_piece_parts(s[from]);
    crate::types::piece::lemma_piece_parts(b1.squares()[q]);
    lemma_enemy_kept(b0, mv, b1, q);
    assert(bit(b0.colored(e, k), q));
    if piece_attacks(e, k, q, b1.occ(), to) {
        if 2 <= k <= 4 {
            lemma_slider_dirs(e, k, q, b1.occ(), to);
            lemma_slider_dirs(e, k, q, ko, to);
            let (dr, df) = choose|dr: int, df: int| allowed_dir(k, dr, df) && #[trigger] slider_reaches(q, to, b1.occ(), dr, df);
            assert forall|u: int|
                #![trigger bit(ko, u), on_ray(q, u, dr, df)]
                on_ray(q, u, dr, df) && ray_dist(q, u, dr, df) < ray_dist(q, to, dr, df) implies !bit(ko, u) by {
                assert(!bit(b1.occ(), u));
                crate::types::piece::lemma_piece_parts(s[u]);
                if u != from {
                    assert(b1.squares()[u] == s[u]);
                }
            }
            assert(slider_reaches(q, to, ko, dr, df));
        }
        assert(crate::board::make_move::attacked_from(b0.colored(e, k), e, k, ko, to));
        assert(bit(b0.board_state.piece_threats[e][k].0, to));
        lemma_union6_bit(b0.board_state.piece_threats[e], k, to);
        assert(bit(b0.board_state.threats_by[e].0, to));
    }
}

/// Castling, as the generator admits it, lands the king where no piece of the other side
/// attacks it: the attacks were counted through the king's home square, and the rook leaves a
/// corner that no line to the king's landing square runs through.
pub proof fn lemma_castle_safe(b0: Board, mv: Move, b1: Board, q: int, k: int)
    requires
        b0.move_ok(mv),
        mv.spec_is_castling(),
        castle_safe(b0, mv),
        castles_own_rook(b0, mv),
        b0.squares()[mv.from_idx()].type_idx() == 5,
        b0.threats_fresh(),
        b1.wf(),
        b1.squares() == make_placement(b0.squares(), mv, b0.stm()),
        0 <= k < 6,
        bit(b1.colored(1 - b0.stm(), k), q),
    ensures
        !piece_attacks(1 - b0.stm(), k, q, b1.occ(), mv.to_idx()),
{
    let stm = b0.stm();
    let e = 1 - stm;
    let s = b0.squares();
    let from = mv.from_idx();
    let to = mv.to_idx();
    let rf = rook_from(stm, mv);
    let rt = rook_to(stm, mv);
    let ko = b0.occ() ^ b0.colored(stm, 5);
    crate::types::piece::lemma_piece_parts(s[from]);
    crate::types::piece::lemma_piece_parts(s[rf]);
    crate::types::piece::lemma_piece_parts(b1.squares()[q]);
    assert(b1.squares()[q] == s[q]);
    assert(bit(b0.colored(e, k), q));
    if piece_attacks(e, k, q, b1.occ(), to) {
        if 2 <= k <= 4 {
            lemma_slider_dirs(e, k, q, b1.occ(), to);
            lemma_slider_dirs(e, k, q, ko, to);
            let (dr, df) = choose|dr: int, df: int|
                allowed_dir(k, dr, df) && #[trigger] slider_reaches(q, to, b1.occ(), dr, df);
            assert forall|u: int|
                #![trigger bit(ko, u), on_ray(q, u, dr, df)]
                on_ray(q, u, dr, df) && ray_dist(q, u, dr, df) < ray_dist(q, to, dr, df) implies !bit(ko, u) by {
                assert(!bit(b1.occ(), u));
                crate::types::piece::lemma_piece_parts(s[u]);
                crate::types::piece::lemma_piece_parts(b1.squares()[u]);
                if u == rf {
                    lemma_ray_shift(q, rf, to, dr, df);
                }
                if u != from {
                    assert(b1.squares()[u] == s[u]);
                }
            }
            assert(slider_reaches(q, to, ko, dr, df));
        }
        assert(crate::board::make_move::attacked_from(b0.colored(e, k), e, k, ko, to));
        assert(bit(b0.board_state.piece_threats[e][k].0, to));
        lemma_union6_bit(b0.board_state.piece_threats[e], k, to);
    }
}

/// A move that passes the legality check, with the mover's path clear, or a castling move
/// that passes the generator's castling test, leaves the mover's king unattacked: before the
/// move the side to move has one king, the side that is not to move is not in check, the
/// recorded attacks, checks and pins are those of the position, and a castling move takes the
/// king from its home square with the side's own rook.
pub proof fn lemma_legal_move_keeps_king_safe(b0: Board, mv: Move, b1: Board)
    requires
        b0.move_ok(mv),
        castles_own_rook(b0, mv),
        mv.spec_is_castling() ==> castle_safe(b0, mv) && b0.squares()[mv.from_idx()].type_idx() == 5,
        !mv.spec_is_castling() ==> b0.legal_spec(mv) && path_ok(b0, mv),
        b0.threats_fresh(),
        check_info_fresh(b0),
        single_king(b0, b0.stm()),
        king_safe(b0, 1 - b0.stm()),
        b0.made(mv, b1),
    ensures
        king_safe(b1, b0.stm()),
{
    let stm = b0.stm();
    let e = 1 - stm;
    let s = b0.squares();
    let from = mv.from_idx();
    let to = mv.to_idx();
    let kk = b0.king_sq(stm);
    crate::types::piece::lemma_piece_parts(s[from]);
    crate::types::piece::lemma_piece_parts(landing_piece(s, mv, stm));
    crate::types::piece::lemma_piece_parts(s[rook_from(stm, mv)]);
    crate::types::bitboard::lemma_lowest_bit(b0.colored(stm, 5));
    assert forall|q: int, k: int, w: int|
        0 <= k < 6 && #[trigger] bit(b1.colored(1 - stm, k), q) && #[trigger] bit(b1.colored(stm, 5), w) implies !piece_attacks(
        1 - stm,
        k,
        q,
        b1.occ(),
        w,
    ) by {
        crate::types::piece::lemma_piece_parts(b1.squares()[w]);
        crate::types::piece::lemma_piece_parts(s[w]);
        if mv.spec_is_castling() {
            assert(bit(b0.colored(stm, 5), from));
            if w != to {
                assert(b1.squares()[w] == s[w]);
                assert(bit(b0.colored(stm, 5), w));
            }
            lemma_castle_safe(b0, mv, b1, q, k);
        } else if s[from].type_idx() == 5 {
            assert(bit(b0.colored(stm, 5), from));
            if w != to {
                assert(b1.squares()[w] == s[w]);
                assert(bit(b0.colored(stm, 5), w));
            }
            lemma_king_move_safe(b0, mv, b1, q, k);
        } else {
            assert(w != to);
            assert(b1.squares()[w] == s[w]);
            assert(bit(b0.colored(stm, 5), w));
            lemma_piece_move_safe(b0, mv, b1, q, k);
        }
    }
}

/// Every move the generator lists leaves the mover's king unattacked once made, from a
/// position where the side to move has one king, the other side is not in check, the recorded
/// attacks, checks and pins are those of the position, and the castling rights are backed by
/// the king and rook on their home squares.
pub proof fn lemma_generated_move_keeps_king_safe(b0: Board, ml: Seq<MoveEntry>, i: int, b1: Board)
    requires
        b0.all_legal(ml),
        0 <= i < ml.len(),
        b0.move_ok(ml[i].mv),
        castles_own_rook(b0, ml[i].mv),
        ml[i].mv.spec_is_castling() ==> b0.squares()[ml[i].mv.from_idx()].type_idx() == 5,
        b0.threats_fresh(),
        check_info_fresh(b0),
        single_king(b0, b0.stm()),
        king_safe(b0, 1 - b0.stm()),
        b0.made(ml[i].mv, b1),
    ensures
        king_safe(b1, b0.stm()),
{
    lemma_legal_move_keeps_king_safe(b0, ml[i].mv, b1);
}

/// After a generated move made from a legal position (one king for each side, the side not
/// to move not in check, the recorded attacks, checks and pins those of the position, castling
/// rights backed by the king and its own rook), the recorded attacks are those a full recount
/// gives, and the new position is again such a position as far as kings, checks and pins go.
#[verifier::spinoff_prover]
#[verifier::rlimit(40)]
pub proof fn lemma_generated_move_keeps_threats(b0: Board, ml: Seq<MoveEntry>, i: int, b1: Board)
    requires
        b0.all_legal(ml),
        0 <= i < ml.len(),
        b0.move_ok(ml[i].mv),
        castles_own_rook(b0, ml[i].mv),
        ml[i].mv.spec_is_castling() ==> b0.squares()[ml[i].mv.from_idx()].type_idx() == 5,
        b0.threats_fresh(),
        check_info_fresh(b0),
        single_king(b0, b0.stm()),
        single_king(b0, 1 - b0.stm()),
        king_safe(b0, 1 - b0.stm()),
        b0.made(ml[i].mv, b1),
    ensures
        b1.threats_fresh(),
        king_safe(b1, b0.stm()),
        check_info_fresh(b1),
        single_king(b1, b1.stm()),
        single_king(b1, 1 - b1.stm()),
{
    lemma_legal_move_keeps_king_safe(b0, ml[i].mv, b1);
    let stm = b0.stm();
    assert(b1.stm() == 1 - stm);
    assert forall|q: int, k: int, w: int|
        2 <= k <= 4 && #[trigger] bit(b0.colored(stm, k), q) && #[trigger] bit(b0.colored(1 - stm, 5), w) implies !piece_attacks(
        stm,
        k,
        q,
        b0.occ(),
        w,
    ) by {
        assert(bit(b0.colored(1 - (1 - stm), k), q));
    }
    assert(no_slider_check(b0, b0.stm()));
    assert(no_slider_check(b1, b1.stm()));
    lemma_other_king_kept(b0, ml[i].mv, b1);
    lemma_mover_king_kept(b0, ml[i].mv, b1);
}

/// A move takes no king: the king of the side not moving stays where it was.
pub proof fn lemma_other_king_kept(b0: Board, mv: Move, b1: Board)
    requires
        b0.move_ok(mv),
        b1.wf(),
        b1.squares() == make_placement(b0.squares(), mv, b0.stm()),
        b1.stm() == 1 - b0.stm(),
        single_king(b0, 1 - b0.stm()),
        castles_own_rook(b0, mv),
    ensures
        single_king(b1, b1.stm()),
{
    let stm = b0.stm();
    let e = 1 - stm;
    let s0 = b0.squares();
    crate::types::piece::lemma_piece_parts(s0[mv.from_idx()]);
    crate::types::piece::lemma_piece_parts(landing_piece(s0, mv, stm));
    crate::types::piece::lemma_piece_parts(s0[rook_from(stm, mv)]);
    assert forall|w: int| 0 <= w < 64 implies #[trigger] bit(b1.colored(e, 5), w) == bit(b0.colored(e, 5), w) by {
        crate::types::piece::lemma_piece_parts(s0[w]);
        crate::types::piece::lemma_piece_parts(b1.squares()[w]);
    }
    crate::types::bitboard::lemma_bits_ext(b1.colored(e, 5), b0.colored(e, 5));
}

/// After a move the mover still has one king: on the destination when it moved, else where
/// it stood.
pub proof fn lemma_mover_king_kept(b0: Board, mv: Move, b1: Board)
    requires
        b0.move_ok(mv),
        b1.wf(),
        b1.squares() == make_placement(b0.squares(), mv, b0.stm()),
        single_king(b0, b0.stm()),
        castles_own_rook(b0, mv),
        mv.spec_is_castling() ==> b0.squares()[mv.from_idx()].type_idx() == 5,
    ensures
        single_king(b1, b0.stm()),
{
    let stm = b0.stm();
    let s0 = b0.squares();
    let from = mv.from_idx();
    let to = mv.to_idx();
    let kk = b0.king_sq(stm);
    crate::types::piece::lemma_piece_parts(s0[from]);
    crate::types::piece::lemma_piece_parts(landing_piece(s0, mv, stm));
    crate::types::piece::lemma_piece_parts(s0[rook_from(stm, mv)]);
    crate::types::bitboard::lemma_lowest_bit(b0.colored(stm, 5));
    let p = if s0[from].type_idx() == 5 { to } else { kk };
    assert forall|w: int| 0 <= w < 64 implies #[trigger] bit(b1.colored(stm, 5), w) == (w == p) by {
        crate::types::piece::lemma_piece_parts(s0[w]);
        crate::types::piece::lemma_piece_parts(b1.squares()[w]);
        assert(bit(b0.colored(stm, 5), w) == (w == kk));
        if s0[from].type_idx() == 5 {
            assert(bit(b0.colored(stm, 5), from));
            assert(from == kk);
        } else {
            assert(bit(b0.colored(stm, 5), kk));
            assert(from != kk);
        }
        if mv.spec_is_castling() {
            crate::types::piece::lemma_piece_parts(s0[rook_to(stm, mv)]);
        }
        if mv.spec_is_en_passant() {
            crate::types::piece::lemma_piece_parts(s0[ep_victim(to, stm)]);
        }
        crate::types::piece::lemma_piece_parts(s0[to]);
        crate::types::piece::lemma_piece_parts(s0[kk]);
    }
    assert(bit(b1.colored(stm, 5), p));
    crate::types::bitboard::lemma_lowest_bit(b1.colored(stm, 5));
}

/// Some piece of color `c` attacks `t` on the board.
pub open spec fn attacked_by(b: Board, c: int, t: int) -> bool {
    exists|q: int, k: int| 0 <= k < 6 && #[trigger] bit(b.colored(c, k), q) && piece_attacks(c, k, q, b.occ(), t)
}

/// Attacks on `t` read the same through two occupancies that differ at most on `t`.
pub proof fn lemma_attacks_same_off_target(c: int, k: int, q: int, x: u64, y: u64, t: int)
    requires
        forall|u: int| u != t ==> #[trigger] bit(x, u) == bit(y, u),
    ensures
        piece_attacks(c, k, q, x, t) == piece_attacks(c, k, q, y, t),
{
    assert forall|dr: int, df: int| valid_dir(dr, df) implies #[trigger] slider_reaches(q, t, x, dr, df) == slider_reaches(q, t, y, dr, df) by {
        if slider_reaches(q, t, x, dr, df) {
            assert forall|u: int|
                #![trigger bit(y, u), on_ray(q, u, dr, df)]
                on_ray(q, u, dr, df) && ray_dist(q, u, dr, df) < ray_dist(q, t, dr, df) implies !bit(y, u) by {
                assert(!bit(x, u));
            }
        }
        if slider_reaches(q, t, y, dr, df) {
            assert forall|u: int|
                #![trigger bit(x, u), on_ray(q, u, dr, df)]
                on_ray(q, u, dr, df) && ray_dist(q, u, dr, df) < ray_dist(q, t, dr, df) implies !bit(x, u) by {
                assert(!bit(y, u));
            }
        }
    }
    assert(slider_reaches(q, t, x, 1, 0) == slider_reaches(q, t, y, 1, 0));
    assert(slider_reaches(q, t, x, -1, 0) == slider_reaches(q, t, y, -1, 0));
    assert(slider_reaches(q, t, x, 0, 1) == slider_reaches(q, t, y, 0, 1));
    assert(slider_reaches(q, t, x, 0, -1) == slider_reaches(q, t, y, 0, -1));
    assert(slider_reaches(q, t, x, 1, 1) == slider_reaches(q, t, y, 1, 1));
    assert(slider_reaches(q, t, x, 1, -1) == slider_reaches(q, t, y, 1, -1));
    assert(slider_reaches(q, t, x, -1, 1) == slider_reaches(q, t, y, -1, 1));
    assert(slider_reaches(q, t, x, -1, -1) == slider_reaches(q, t, y, -1, -1));
}

/// With the attacks recorded fresh and one king for the side to move, its king is recorded
/// attacked (what `in_check` reads) exactly when a piece of the other side attacks it on the
/// board.
pub proof fn lemma_check_is_real(b: Board)
    requires
        b.wf(),
        b.threats_fresh(),
        single_king(b, b.stm()),
    ensures
        bit(b.board_state.threats_by[1 - b.stm()].0, b.king_sq(b.stm())) == attacked_by(
            b,
            1 - b.stm(),
            b.king_sq(b.stm()),
        ),
{
    let stm = b.stm();
    let e = 1 - stm;
    let kk = b.king_sq(stm);
    let ko = b.occ() ^ b.colored(1 - e, 5);
    crate::types::bitboard::lemma_lowest_bit(b.colored(stm, 5));
    assert forall|u: int| u != kk implies #[trigger] bit(ko, u) == bit(b.occ(), u) by {
        if 0 <= u < 64 {
            assert(bit(b.colored(stm, 5), u) == (u == kk));
        }
    }
    assert forall|k: int, q: int| 0 <= k < 6 implies #[trigger] piece_attacks(e, k, q, ko, kk) == piece_attacks(e, k, q, b.occ(), kk) by {
        lemma_attacks_same_off_target(e, k, q, ko, b.occ(), kk);
    }
    if attacked_by(b, e, kk) {
        let (q, k) = choose|q: int, k: int| 0 <= k < 6 && #[trigger] bit(b.colored(e, k), q) && piece_attacks(e, k, q, b.occ(), kk);
        assert(piece_attacks(e, k, q, ko, kk));
        assert(crate::board::make_move::attacked_from(b.colored(e, k), e, k, ko, kk));
        assert(bit(b.board_state.piece_threats[e][k].0, kk));
        lemma_union6_bit(b.board_state.piece_threats[e], k, kk);
    }
    if bit(b.board_state.threats_by[e].0, kk) {
        let th = b.board_state.piece_threats[e];
        assert(bit(union6(th), kk));
        let k = if bit(th[0].0, kk) { 0int } else if bit(th[1].0, kk) { 1int } else if bit(th[2].0, kk) { 2int } else if bit(th[3].0, kk) { 3int } else if bit(th[4].0, kk) { 4int } else { 5int };
        assert(bit(th[k].0, kk));
        assert(crate::board::make_move::attacked_from(b.colored(e, k), e, k, ko, kk));
        let q = choose|q: int| 0 <= q < 64 && #[trigger] bit(b.colored(e, k), q) && piece_attacks(e, k, q, ko, kk);
        assert(piece_attacks(e, k, q, b.occ(), kk));
        assert(attacked_by(b, e, kk));
    }
}

} // verus!
