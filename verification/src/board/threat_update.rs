use vstd::prelude::*;
use crate::attacking::{on_ray, ray_dist, valid_dir, slider_reaches, rook_reaches, bishop_reaches};
use crate::board::Board;
use crate::board::make_move::{
    make_placement, touched_square, ep_victim, rook_from, rook_to, landing_piece, piece_attacks,
    attacked_from, seen_slider, bucket_fresh, touched_kind, castles_own_rook, taken_piece,
    lemma_kind_kept, lemma_leapers_after_move, union6,
};
use crate::types::bitboard::{bit, group_bits};
use crate::types::moves::Move;

verus! {

broadcast use group_bits;

/// The occupancy the attacks of color `c` are recorded through: the board without the other
/// side's king.
pub open spec fn king_occ(b: Board, c: int) -> u64 {
    b.occ() ^ b.colored(1 - c, 5)
}

/// Along a ray from `s`, a square with property `p` has a nearest one: no square closer to `s`
/// on the ray has it.
pub proof fn nearest_on_ray(s: int, dr: int, df: int, p: spec_fn(int) -> bool, u: int) -> (v: int)
    requires
        on_ray(s, u, dr, df),
        p(u),
    ensures
        on_ray(s, v, dr, df),
        p(v),
        ray_dist(s, v, dr, df) <= ray_dist(s, u, dr, df),
        forall|w: int| #[trigger] on_ray(s, w, dr, df) && ray_dist(s, w, dr, df) < ray_dist(s, v, dr, df) ==> !p(w),
    decreases ray_dist(s, u, dr, df),
{
    if exists|w: int| #[trigger] on_ray(s, w, dr, df) && ray_dist(s, w, dr, df) < ray_dist(s, u, dr, df) && p(w) {
        let w = choose|w: int| #[trigger] on_ray(s, w, dr, df) && ray_dist(s, w, dr, df) < ray_dist(s, u, dr, df) && p(w);
        nearest_on_ray(s, dr, df, p, w)
    } else {
        u
    }
}

/// A ray seen from its far end: `s` lies on the ray from `u` the other way, as far, and the
/// squares strictly between are the same from either end.
pub proof fn lemma_reverse_ray(s: int, u: int, w: int, dr: int, df: int)
    requires
        valid_dir(dr, df),
        0 <= s < 64,
        on_ray(s, u, dr, df),
    ensures
        on_ray(u, s, -dr, -df),
        ray_dist(u, s, -dr, -df) == ray_dist(s, u, dr, df),
        (on_ray(u, w, -dr, -df) && ray_dist(u, w, -dr, -df) < ray_dist(u, s, -dr, -df)) == (on_ray(
            s,
            w,
            dr,
            df,
        ) && ray_dist(s, w, dr, df) < ray_dist(s, u, dr, df)),
{
}

/// On a square the move did not touch, the occupancy seen by either color is unchanged.
proof fn lemma_changed_touched(b0: Board, mv: Move, b1: Board, c: int, u: int)
    requires
        b0.move_ok(mv),
        b1.wf(),
        b1.squares() == make_placement(b0.squares(), mv, b0.stm()),
        0 <= c < 2,
        0 <= u < 64,
        bit(king_occ(b0, c), u) != bit(king_occ(b1, c), u),
    ensures
        touched_square(b1, mv, u),
{
    let s = b0.squares();
    let stm = b0.stm();
    let from = mv.from_idx();
    let to = mv.to_idx();
    crate::types::piece::lemma_piece_parts(s[u]);
    crate::types::piece::lemma_piece_parts(b1.squares()[u]);
    crate::types::piece::lemma_piece_parts(s[from]);
    crate::types::piece::lemma_piece_parts(landing_piece(s, mv, stm));
    let mc = b1.squares()[to].color_idx();
    assert(mc == stm) by {
        if !mv.spec_is_castling() && !mv.spec_is_en_passant() {
            assert(b1.squares()[to] == landing_piece(s, mv, stm));
        }
    }
    if mv.spec_is_castling() {
        let rf = rook_from(stm, mv);
        let rt = rook_to(stm, mv);
        if u != from && u != to && u != rf && u != rt {
            assert(b1.squares()[u] == s[u]);
        }
    } else if mv.spec_is_en_passant() {
        let v = ep_victim(to, stm);
        if u != from && u != to && u != v {
            assert(b1.squares()[u] == s[u]);
        }
    } else {
        if u != from && u != to {
            assert(b1.squares()[u] == s[u]);
        }
    }
}

/// When a move changes whether a slider on `s` reaches `t` along (`dr`, `df`) through the
/// occupancy its color's attacks are recorded through, then either a square the move touched
/// sees the slider back along the ray, or a king of the other color stands on the ray, the
/// slider reaching it through the board after the move (and before it, when that side's kings
/// did not move).
pub proof fn lemma_ray_change(b0: Board, mv: Move, b1: Board, c: int, s: int, t: int, dr: int, df: int)
    requires
        b0.move_ok(mv),
        b1.wf(),
        b1.squares() == make_placement(b0.squares(), mv, b0.stm()),
        0 <= c < 2,
        valid_dir(dr, df),
        0 <= s < 64,
        slider_reaches(s, t, king_occ(b0, c), dr, df) != slider_reaches(s, t, king_occ(b1, c), dr, df),
    ensures
        (exists|z: int| touched_square(b1, mv, z) && #[trigger] slider_reaches(z, s, b1.occ(), -dr, -df)) || (
        exists|w: int|
            #[trigger] bit(b1.colored(1 - c, 5), w) && slider_reaches(s, w, b1.occ(), dr, df) && (b0.colored(
                1 - c,
                5,
            ) == b1.colored(1 - c, 5) ==> slider_reaches(s, w, b0.occ(), dr, df))),
{
    let a = king_occ(b0, c);
    let bb = king_occ(b1, c);
    let ka = b0.colored(1 - c, 5);
    let kb = b1.colored(1 - c, 5);
    let n = ray_dist(s, t, dr, df);
    assert(on_ray(s, t, dr, df));
    // A square before `t` where the two occupancies differ.
    let u0 = if slider_reaches(s, t, a, dr, df) {
        choose|u: int| #[trigger] on_ray(s, u, dr, df) && ray_dist(s, u, dr, df) < n && bit(bb, u)
    } else {
        choose|u: int| #[trigger] on_ray(s, u, dr, df) && ray_dist(s, u, dr, df) < n && bit(a, u)
    };
    let p1 = |u: int| ray_dist(s, u, dr, df) < n && bit(a, u) != bit(bb, u);
    assert(p1(u0));
    let us = nearest_on_ray(s, dr, df, p1, u0);
    let m = ray_dist(s, us, dr, df);
    // Before `us`, both occupancies are empty.
    assert forall|w: int| #[trigger] on_ray(s, w, dr, df) && ray_dist(s, w, dr, df) < m implies !bit(a, w) && !bit(bb, w) by {
        assert(!p1(w));
    }
    let p2 = |w: int| ray_dist(s, w, dr, df) < m && bit(kb, w);
    if exists|w: int| #[trigger] on_ray(s, w, dr, df) && p2(w) {
        let w0 = choose|w: int| #[trigger] on_ray(s, w, dr, df) && p2(w);
        let w = nearest_on_ray(s, dr, df, p2, w0);
        assert forall|x: int| #[trigger] on_ray(s, x, dr, df) && ray_dist(s, x, dr, df) < ray_dist(s, w, dr, df) implies !bit(b1.occ(), x) by {
            assert(!p2(x));
            assert(!bit(bb, x));
        }
        assert(slider_reaches(s, w, b1.occ(), dr, df));
        if ka == kb {
            assert forall|x: int| #[trigger] on_ray(s, x, dr, df) && ray_dist(s, x, dr, df) < ray_dist(s, w, dr, df) implies !bit(b0.occ(), x) by {
                assert(!p2(x));
                assert(!bit(a, x));
            }
            assert(slider_reaches(s, w, b0.occ(), dr, df));
        }
        assert(bit(kb, w));
    } else {
        lemma_changed_touched(b0, mv, b1, c, us);
        lemma_reverse_ray(s, us, 0, dr, df);
        assert forall|x: int| #[trigger] on_ray(us, x, -dr, -df) && ray_dist(us, x, -dr, -df) < ray_dist(us, s, -dr, -df) implies !bit(b1.occ(), x) by {
            lemma_reverse_ray(s, us, x, dr, df);
            assert(!p2(x));
            assert(!bit(bb, x));
        }
        assert(slider_reaches(us, s, b1.occ(), -dr, -df));
    }
}

/// The directions a bishop (2), rook (3) or queen (4) moves in.
pub open spec fn allowed_dir(k: int, dr: int, df: int) -> bool {
    &&& valid_dir(dr, df)
    &&& (k == 3 ==> dr == 0 || df == 0)
    &&& (k == 2 ==> dr != 0 && df != 0)
}

/// A slider's attacks are the squares it reaches along its directions.
pub(crate) proof fn lemma_slider_dirs(c: int, k: int, s: int, occ: u64, t: int)
    requires
        2 <= k <= 4,
    ensures
        piece_attacks(c, k, s, occ, t) == exists|dr: int, df: int|
            allowed_dir(k, dr, df) && #[trigger] slider_reaches(s, t, occ, dr, df),
{
    if piece_attacks(c, k, s, occ, t) {
        if slider_reaches(s, t, occ, 1, 0) && k != 2 {
            assert(allowed_dir(k, 1, 0));
        } else if slider_reaches(s, t, occ, -1, 0) && k != 2 {
            assert(allowed_dir(k, -1, 0));
        } else if slider_reaches(s, t, occ, 0, 1) && k != 2 {
            assert(allowed_dir(k, 0, 1));
        } else if slider_reaches(s, t, occ, 0, -1) && k != 2 {
            assert(allowed_dir(k, 0, -1));
        } else if slider_reaches(s, t, occ, 1, 1) && k != 3 {
            assert(allowed_dir(k, 1, 1));
        } else if slider_reaches(s, t, occ, 1, -1) && k != 3 {
            assert(allowed_dir(k, 1, -1));
        } else if slider_reaches(s, t, occ, -1, 1) && k != 3 {
            assert(allowed_dir(k, -1, 1));
        } else {
            assert(allowed_dir(k, -1, -1));
        }
    }
}

/// A slider seen from `z` back along one of its own directions is seen from `z`.
proof fn lemma_seen_back(b: Board, z: int, q: int, k: int, dr: int, df: int)
    requires
        2 <= k <= 4,
        b.squares()[q].type_idx() == k,
        allowed_dir(k, dr, df),
        slider_reaches(z, q, b.occ(), -dr, -df),
    ensures
        seen_slider(b, z, q),
{
    if dr == 0 || df == 0 {
        assert(rook_reaches(z, q, b.occ()));
    } else {
        assert(bishop_reaches(z, q, b.occ()));
    }
}

/// The side `x` cannot take a king of the other side with a bishop, rook or queen.
pub open spec fn no_slider_check(b: Board, x: int) -> bool {
    forall|q: int, k: int, w: int|
        2 <= k <= 4 && #[trigger] bit(b.colored(x, k), q) && #[trigger] bit(b.colored(1 - x, 5), w) ==> !piece_attacks(
            x,
            k,
            q,
            b.occ(),
            w,
        )
}

/// What recomputing the attacks after a move (`update_move_threat`) leaves: each bucket kept or
/// recomputed on the new position, and recomputed for the kinds the move touched and for the
/// sliders that a touched square sees.
pub open spec fn threats_refreshed(mv: Move, b1: Board, b2: Board) -> bool {
    let to = mv.to_idx();
    let l = b1.piece_squares[to];
    let cap = b1.board_state.captured;
    &&& b2.same_position(b1)
    &&& forall|c: int, k: int|
        0 <= c < 2 && 0 <= k < 6 ==> #[trigger] b2.board_state.piece_threats[c][k]
            == b1.board_state.piece_threats[c][k] || bucket_fresh(b2.board_state.piece_threats[c][k], b1, c, k)
    &&& bucket_fresh(b2.board_state.piece_threats[l.color_idx()][l.type_idx()], b1, l.color_idx(), l.type_idx())
    &&& mv.spec_is_castling() ==> bucket_fresh(b2.board_state.piece_threats[l.color_idx()][3], b1, l.color_idx(), 3)
    &&& mv.spec_is_capture() && !mv.spec_is_castling() ==> bucket_fresh(
        b2.board_state.piece_threats[cap.color_idx()][cap.type_idx()],
        b1,
        cap.color_idx(),
        cap.type_idx(),
    )
    &&& mv.spec_is_promotion() && !mv.spec_is_castling() ==> bucket_fresh(
        b2.board_state.piece_threats[l.color_idx()][0],
        b1,
        l.color_idx(),
        0,
    )
    &&& forall|z: int, q: int|
        0 <= q < 64 && touched_square(b1, mv, z) && #[trigger] seen_slider(b1, z, q) ==> bucket_fresh(
            b2.board_state.piece_threats[b1.squares()[q].color_idx()][b1.squares()[q].type_idx()],
            b1,
            b1.squares()[q].color_idx(),
            b1.squares()[q].type_idx(),
        )
}

/// A recorded bucket fresh on a board is fresh on any board with the same pieces.
proof fn lemma_fresh_same(x: crate::types::bitboard::Bitboard, b1: Board, b2: Board, c: int, k: int)
    requires
        b2.same_position(b1),
        bucket_fresh(x, b1, c, k),
    ensures
        bucket_fresh(x, b2, c, k),
{
}

/// After a move from a position where the side to move gives no check with a slider, to one
/// where the new side to move gives none either, the attacks recorded for a bishop, rook or
/// queen bucket are those of the pieces.
proof fn lemma_slider_bucket(b0: Board, mv: Move, b1: Board, b2: Board, c: int, k: int)
    requires
        b0.move_ok(mv),
        castles_own_rook(b0, mv),
        b0.threats_fresh(),
        b1.wf(),
        b1.squares() == make_placement(b0.squares(), mv, b0.stm()),
        b1.board_state.captured == taken_piece(b0.squares(), mv, b0.stm()),
        b1.board_state.piece_threats == b0.board_state.piece_threats,
        threats_refreshed(mv, b1, b2),
        no_slider_check(b0, b0.stm()),
        no_slider_check(b1, 1 - b0.stm()),
        0 <= c < 2,
        2 <= k <= 4,
    ensures
        bucket_fresh(b2.board_state.piece_threats[c][k], b2, c, k),
{
    let x = b2.board_state.piece_threats[c][k];
    let stm = b0.stm();
    let sq = b0.squares();
    let l = b1.piece_squares[mv.to_idx()];
    crate::types::piece::lemma_piece_parts(sq[mv.from_idx()]);
    crate::types::piece::lemma_piece_parts(landing_piece(sq, mv, stm));
    assert(l == make_placement(sq, mv, stm)[mv.to_idx()]);
    if x != b1.board_state.piece_threats[c][k] {
        lemma_fresh_same(x, b1, b2, c, k);
    } else if touched_kind(b0, mv, c, k) {
        lemma_fresh_same(x, b1, b2, c, k);
    } else if exists|q: int, z: int|
        0 <= q < 64 && bit(b1.colored(c, k), q) && touched_square(b1, mv, z) && #[trigger] seen_slider(b1, z, q) {
        let (q, z) = choose|q: int, z: int|
            0 <= q < 64 && bit(b1.colored(c, k), q) && touched_square(b1, mv, z) && #[trigger] seen_slider(b1, z, q);
        crate::types::piece::lemma_piece_parts(b1.squares()[q]);
        assert(b1.squares()[q].color_idx() == c && b1.squares()[q].type_idx() == k);
        lemma_fresh_same(x, b1, b2, c, k);
    } else {
        lemma_kind_kept(b0, mv, b1, c, k);
        let set = b1.colored(c, k);
        let a = king_occ(b0, c);
        let bb = king_occ(b1, c);
        // The other side's kings did not move when `c` moved.
        if c == stm {
            lemma_kind_kept(b0, mv, b1, 1 - c, 5);
        }
        assert forall|s: int, t: int| 0 <= s < 64 && bit(set, s) implies #[trigger] piece_attacks(c, k, s, a, t)
            == piece_attacks(c, k, s, bb, t) by {
            crate::types::piece::lemma_piece_parts(b1.squares()[s]);
            assert(b1.squares()[s].type_idx() == k);
            assert forall|dr: int, df: int| #[trigger] allowed_dir(k, dr, df) implies slider_reaches(s, t, a, dr, df)
                == slider_reaches(s, t, bb, dr, df) by {
                if slider_reaches(s, t, a, dr, df) != slider_reaches(s, t, bb, dr, df) {
                    lemma_ray_change(b0, mv, b1, c, s, t, dr, df);
                    if exists|z: int| touched_square(b1, mv, z) && #[trigger] slider_reaches(z, s, b1.occ(), -dr, -df) {
                        let z = choose|z: int| touched_square(b1, mv, z) && #[trigger] slider_reaches(z, s, b1.occ(), -dr, -df);
                        lemma_seen_back(b1, z, s, k, dr, df);
                        assert(false);
                    } else {
                        let w = choose|w: int|
                            #[trigger] bit(b1.colored(1 - c, 5), w) && slider_reaches(s, w, b1.occ(), dr, df) && (b0.colored(
                                1 - c,
                                5,
                            ) == b1.colored(1 - c, 5) ==> slider_reaches(s, w, b0.occ(), dr, df));
                        lemma_slider_dirs(c, k, s, b1.occ(), w);
                        lemma_slider_dirs(c, k, s, b0.occ(), w);
                        if c == stm {
                            assert(piece_attacks(c, k, s, b0.occ(), w));
                            assert(false);
                        } else {
                            assert(piece_attacks(c, k, s, b1.occ(), w));
                            assert(false);
                        }
                    }
                }
            }
            lemma_slider_dirs(c, k, s, a, t);
            lemma_slider_dirs(c, k, s, bb, t);
        }
        assert forall|t: int| 0 <= t < 64 implies #[trigger] bit(x.0, t) == attacked_from(set, c, k, bb, t) by {
            assert(bit(x.0, t) == attacked_from(set, c, k, a, t));
            if attacked_from(set, c, k, a, t) {
                let s = choose|s: int| 0 <= s < 64 && #[trigger] bit(set, s) && piece_attacks(c, k, s, a, t);
                assert(piece_attacks(c, k, s, bb, t));
            }
            if attacked_from(set, c, k, bb, t) {
                let s = choose|s: int| 0 <= s < 64 && #[trigger] bit(set, s) && piece_attacks(c, k, s, bb, t);
                assert(piece_attacks(c, k, s, a, t));
            }
        }
        lemma_fresh_same(x, b1, b2, c, k);
    }
}

/// All recorded attacks are those of the pieces after a move, when they were before it, a
/// castling move takes the side's own rook, and on neither side of the move can the side to
/// move take a king with a bishop, rook or queen.
pub proof fn lemma_threats_after_move(b0: Board, mv: Move, b1: Board, b2: Board)
    requires
        b0.move_ok(mv),
        castles_own_rook(b0, mv),
        b0.threats_fresh(),
        b1.wf(),
        b1.squares() == make_placement(b0.squares(), mv, b0.stm()),
        b1.board_state.captured == taken_piece(b0.squares(), mv, b0.stm()),
        b1.board_state.piece_threats == b0.board_state.piece_threats,
        threats_refreshed(mv, b1, b2),
        forall|c: int| 0 <= c < 2 ==> #[trigger] b2.board_state.threats_by[c].0 == union6(b2.board_state.piece_threats[c]),
        no_slider_check(b0, b0.stm()),
        no_slider_check(b1, 1 - b0.stm()),
    ensures
        b2.threats_fresh(),
{
    lemma_leapers_after_move(b0, mv, b1, b2);
    assert forall|c: int, k: int, t: int|
        0 <= c < 2 && 0 <= k < 6 && 0 <= t < 64 implies #[trigger] bit(b2.board_state.piece_threats[c][k].0, t)
            == attacked_from(b2.colored(c, k), c, k, b2.occ() ^ b2.colored(1 - c, 5), t) by {
        if 2 <= k <= 4 {
            lemma_slider_bucket(b0, mv, b1, b2, c, k);
        } else {
            assert(bucket_fresh(b2.board_state.piece_threats[c][k], b2, c, k));
        }
    }
}

} // verus!
