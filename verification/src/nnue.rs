pub mod forward;

use vstd::prelude::*;
use crate::board::Board;
use crate::board::make_move::{ep_victim, rook_from, rook_to, landing_piece, make_placement};
use crate::types::castling::castling_rook_squares;
use crate::types::color::Color;
use crate::types::moves::Move;
use crate::types::piece::{Piece, PieceType, piece_of_index};
use crate::types::square::{Square, rank_of, file_of};
use crate::types::{up_dir, spec_up_dir};

verus! {

/// Inputs of the network: one per piece (of 12) and square (of 64).
pub const INPUT_SIZE: usize = 768;

/// Neurons of the hidden layer, for each perspective.
pub const HIDDEN_SIZE: usize = 128;

/// Quantisation of the hidden layer; activations are clamped to `0..=QA`.
pub const QA: i32 = 255;

/// Quantisation of the output weights.
pub const QB: i32 = 64;

/// Centipawns per output unit.
pub const SCALE: i32 = 400;

/// The weights and biases of the network: input weights (one row per input), hidden biases,
/// output weights (the side to move's half, then the other), output bias.
#[derive(Clone)]
pub struct NNUEParams {
    pub input_weights: [[i16; HIDDEN_SIZE]; INPUT_SIZE],
    pub input_biases: [i16; HIDDEN_SIZE],
    pub output_weights: [i16; 256],
    pub output_bias: i16,
}

/// The hidden layer, kept up to date as pieces come and go: white's perspective and black's.
#[derive(Clone, Copy)]
pub struct Accumulator {
    pub white: [i16; HIDDEN_SIZE],
    pub black: [i16; HIDDEN_SIZE],
}

// ---------------------------------------------------------------------------------------------
// Wrapping arithmetic
// ---------------------------------------------------------------------------------------------

/// `v` wrapped into the range of a signed integer of modulus `m` (`-m/2 .. m/2`).
pub open spec fn wrap(v: int, m: int) -> int {
    ((v + m / 2) % m) - m / 2
}

/// `v` wrapped into the range of `i16`.
pub open spec fn wrap16(v: int) -> int {
    wrap(v, 0x1_0000)
}

/// `v` wrapped into the range of `i32`.
pub open spec fn wrap32(v: int) -> int {
    wrap(v, 0x1_0000_0000)
}

/// Wrapping twice is wrapping the sum.
pub proof fn lemma_wrap_add(a: int, b: int, m: int)
    requires
        m > 0,
        m % 2 == 0,
    ensures
        wrap(wrap(a, m) + b, m) == wrap(a + b, m),
{
    let h = m / 2;
    vstd::arithmetic::div_mod::lemma_add_mod_noop_right(b, a + h, m);
    assert(wrap(a, m) + b + h == b + (a + h) % m);
    assert(b + (a + h) == a + b + h);
}

/// A value in range wraps to itself.
pub proof fn lemma_wrap_small(v: int, m: int)
    requires
        m > 0,
        m % 2 == 0,
        -(m / 2) <= v < m / 2,
    ensures
        wrap(v, m) == v,
{
    vstd::arithmetic::div_mod::lemma_small_mod((v + m / 2) as nat, m as nat);
}

/// A value that is at most one modulus out of range wraps by that modulus.
pub proof fn lemma_wrap_near(v: int, m: int)
    requires
        m > 0,
        m % 2 == 0,
        -(m / 2) - m <= v < m / 2 + m,
    ensures
        wrap(v, m) == if v >= m / 2 {
            v - m
        } else if v < -(m / 2) {
            v + m
        } else {
            v
        },
{
    if v >= m / 2 {
        lemma_wrap_small(v - m, m);
        lemma_wrap_add(v - m, m, m);
        vstd::arithmetic::div_mod::lemma_mod_self_0(m);
        lemma_wrap_mod_shift(v - m, m);
    } else if v < -(m / 2) {
        lemma_wrap_small(v + m, m);
        lemma_wrap_mod_shift(v, m);
    } else {
        lemma_wrap_small(v, m);
    }
}

/// Wrapping ignores a whole modulus.
pub proof fn lemma_wrap_mod_shift(v: int, m: int)
    requires
        m > 0,
    ensures
        wrap(v + m, m) == wrap(v, m),
{
    vstd::arithmetic::div_mod::lemma_mod_add_multiples_vanish(v + m / 2, m);
}

/// `i16::wrapping_add` wraps the sum.
pub proof fn lemma_i16_wrapping_add(x: i16, y: i16)
    ensures
        x.wrapping_add(y) == wrap16(x + y),
{
    lemma_wrap_near(x + y, 0x1_0000);
}

/// `i16::wrapping_sub` wraps the difference.
pub proof fn lemma_i16_wrapping_sub(x: i16, y: i16)
    ensures
        x.wrapping_sub(y) == wrap16(x - y),
{
    lemma_wrap_near(x - y, 0x1_0000);
}

/// `i32::wrapping_add` wraps the sum.
pub proof fn lemma_i32_wrapping_add(x: i32, y: i32)
    ensures
        x.wrapping_add(y) == wrap32(x + y),
{
    lemma_wrap_near(x + y, 0x1_0000_0000);
}

/// `i32::wrapping_mul` wraps the product.
pub proof fn lemma_i32_wrapping_mul(x: i32, y: i32)
    ensures
        x.wrapping_mul(y) == wrap32(x * y),
{
    let big: int = 0x1_0000_0000;
    let h: int = 0x8000_0000;
    let v = x * y;
    vstd::arithmetic::div_mod::lemma_mod_adds(v, h, big);
    vstd::arithmetic::div_mod::lemma_small_mod(h as nat, big as nat);
    vstd::arithmetic::div_mod::lemma_mod_bound(v, big);
    let r = v % big;
    if r >= h {
        let q = (r + h) / big;
        assert(q == 1) by {
            vstd::arithmetic::div_mod::lemma_fundamental_div_mod(r + h, big);
            vstd::arithmetic::div_mod::lemma_mod_bound(r + h, big);
            assert(q >= 1 && q <= 1) by (nonlinear_arith)
                requires
                    r + h == big * q + (r + h) % big,
                    0 <= (r + h) % big < big,
                    big <= r + h < 2 * big,
            ;
        }
        assert(big * q == big);
    } else {
        assert(r + h < big);
    }
}

/// Integer division rounding toward zero, as `/` on machine integers does.
pub open spec fn div_trunc(a: int, b: int) -> int {
    if a >= 0 {
        a / b
    } else {
        -((-a) / b)
    }
}

/// The clamped activation of a lane.
pub open spec fn activation(v: int) -> int {
    if v < 0 {
        0
    } else if v > 255 {
        255
    } else {
        v
    }
}

/// The first `n` terms of the output dot product: squared activations of the side to move's
/// lanes times the first half of the output weights, the other side's times the second.
pub open spec fn dot(us: [i16; 128], them: [i16; 128], w: [i16; 256], n: int) -> int
    decreases n,
{
    if n <= 0 {
        0
    } else {
        dot(us, them, w, n - 1) + activation(us[n - 1] as int) * activation(us[n - 1] as int) * w[n
            - 1] + activation(them[n - 1] as int) * activation(them[n - 1] as int) * w[128 + n - 1]
    }
}

/// The network's output for the two halves, the side to move's first: the dot product
/// (wrapped as `i32`), divided by `QA`, plus the output bias, times `SCALE` (wrapped as
/// `i32`), divided by `QA * QB`, each division rounding toward zero.
pub open spec fn output_value(us: [i16; 128], them: [i16; 128], params: NNUEParams) -> int {
    let s = wrap32(dot(us, them, params.output_weights, 128));
    let o = div_trunc(s, 255) + params.output_bias;
    div_trunc(wrap32(o * 400), 16320)
}

// ---------------------------------------------------------------------------------------------
// Features
// ---------------------------------------------------------------------------------------------

/// The input for `p` on square `sq`, from white's perspective: color, then kind, then square.
pub open spec fn feature(p: Piece, sq: int) -> int {
    (p.color_idx() * 6 + p.type_idx()) * 64 + sq
}

/// The square mirrored across the middle of the board.
pub open spec fn flip_square(sq: int) -> int {
    (7 - rank_of(sq)) * 8 + file_of(sq)
}

/// The piece of the same kind and the other color.
pub open spec fn mirror_piece(p: Piece) -> Piece {
    piece_of_index(2 * p.type_idx() + (1 - p.color_idx()))
}

/// The input for `p` on `sq` from black's perspective: colors swapped, board mirrored.
pub open spec fn mirrored_feature(p: Piece, sq: int) -> int {
    feature(mirror_piece(p), flip_square(sq))
}

/// The input for `piece` on `square`, from white's perspective.
pub(crate) fn feature_index(piece: Piece, square: Square) -> (i: usize)
    requires
        piece != Piece::NoPiece,
        square.valid(),
    ensures
        i == feature(piece, square.0 as int),
        i < INPUT_SIZE,
{
    proof {
        crate::types::piece::lemma_piece_parts(piece);
    }
    let piece_type_idx = piece.piece_type().index();
    let color_idx = piece.color().index();
    (color_idx * PieceType::NUM + piece_type_idx) * 64 + square.0 as usize
}

/// The input for `piece` on `square`, from black's perspective.
pub(crate) fn mirrored_index(piece: Piece, square: Square) -> (i: usize)
    requires
        piece != Piece::NoPiece,
        square.valid(),
    ensures
        i == mirrored_feature(piece, square.0 as int),
        i < INPUT_SIZE,
{
    proof {
        crate::types::piece::lemma_piece_parts(piece);
    }
    let mirrored_piece = Piece::new(piece.color().flip(), piece.piece_type());
    proof {
        crate::types::piece::lemma_piece_parts(mirrored_piece);
    }
    feature_index(mirrored_piece, square.flip_rank())
}

// ---------------------------------------------------------------------------------------------
// Accumulator updates
// ---------------------------------------------------------------------------------------------

/// Each lane of `after` is the lane of `before` plus `sign` times row `row` of the weights.
pub open spec fn lanes_moved(after: [i16; 128], before: [i16; 128], params: NNUEParams, row: int, sign: int) -> bool {
    forall|i: int| 0 <= i < 128 ==> #[trigger] after[i] == wrap16(before[i] + sign * params.input_weights[row][i])
}

impl Default for Accumulator {
    /// All lanes zero.
    fn default() -> (a: Accumulator)
        ensures
            forall|i: int| 0 <= i < 128 ==> #[trigger] a.white[i] == 0 && a.black[i] == 0,
    {
        Accumulator { white: [0i16; 128], black: [0i16; 128] }
    }
}

// ---------------------------------------------------------------------------------------------
// Whole positions and moves
// ---------------------------------------------------------------------------------------------

/// The weight of lane `i` for `p` on `sq`, in white's perspective or black's.
pub open spec fn feature_weight(params: NNUEParams, p: Piece, sq: int, white: bool, i: int) -> int {
    if white {
        params.input_weights[feature(p, sq)][i] as int
    } else {
        params.input_weights[mirrored_feature(p, sq)][i] as int
    }
}

/// Lane `i` summed over the pieces on the first `n` squares.
pub open spec fn board_features(s: Seq<Piece>, params: NNUEParams, white: bool, i: int, n: int) -> int
    decreases n,
{
    if n <= 0 {
        0
    } else if s[n - 1] == Piece::NoPiece {
        board_features(s, params, white, i, n - 1)
    } else {
        board_features(s, params, white, i, n - 1) + feature_weight(params, s[n - 1], n - 1, white, i)
    }
}

/// The accumulator of the pieces `s`: bias plus the weights of every piece, lane by lane.
pub open spec fn accumulates(acc: Accumulator, s: Seq<Piece>, params: NNUEParams) -> bool {
    &&& forall|i: int|
        0 <= i < 128 ==> #[trigger] acc.white[i] == wrap16(params.input_biases[i] + board_features(s, params, true, i, 64))
    &&& forall|i: int|
        0 <= i < 128 ==> #[trigger] acc.black[i] == wrap16(params.input_biases[i] + board_features(s, params, false, i, 64))
}

/// The inputs a move switches, given the board before it: each piece, its square, and
/// whether it appears (true) or disappears.
pub open spec fn move_ops(mv: Move, b: Board) -> Seq<(Piece, int, bool)> {
    let s = b.squares();
    let from = mv.from_idx();
    let to = mv.to_idx();
    let stm = b.stm();
    let moving = s[from];
    if mv.spec_is_castling() {
        let rf = rook_from(stm, mv);
        let rt = rook_to(stm, mv);
        seq![(moving, from, false), (moving, to, true), (s[rf], rf, false), (s[rf], rt, true)]
    } else if mv.spec_is_en_passant() {
        let v = ep_victim(to, stm);
        seq![(moving, from, false), (moving, to, true), (s[v], v, false)]
    } else if mv.spec_is_capture() {
        seq![(moving, from, false), (s[to], to, false), (landing_piece(s, mv, stm), to, true)]
    } else {
        seq![(moving, from, false), (landing_piece(s, mv, stm), to, true)]
    }
}

/// Lane `i` changed by the switches `ops`.
pub open spec fn ops_delta(ops: Seq<(Piece, int, bool)>, params: NNUEParams, white: bool, i: int) -> int
    decreases ops.len(),
{
    if ops.len() == 0 {
        0
    } else {
        let last = ops.last();
        let w = feature_weight(params, last.0, last.1, white, i);
        ops_delta(ops.drop_last(), params, white, i) + if last.2 {
            w
        } else {
            -w
        }
    }
}

/// The present entries of a list of optional switches, in order.
pub open spec fn present(a: Seq<Option<(Piece, Square, bool)>>) -> Seq<(Piece, int, bool)>
    decreases a.len(),
{
    if a.len() == 0 {
        Seq::empty()
    } else {
        let rest = present(a.drop_last());
        match a.last() {
            Some(op) => rest.push((op.0, op.1.0 as int, op.2)),
            None => rest,
        }
    }
}

impl Accumulator {
    /// Both halves at the hidden biases.
    pub fn from_biases(params: &NNUEParams) -> (a: Accumulator)
        ensures
            a.white == params.input_biases,
            a.black == params.input_biases,
    {
        Accumulator { white: params.input_biases, black: params.input_biases }
    }

    /// Rebuilds the accumulator from the pieces of `board`; used when the position changes by
    /// other means than the search's own moves.
    pub fn reset(&mut self, board: &Board, params: &NNUEParams)
        ensures
            accumulates(*final(self), board.squares(), *params),
    {
        *self = Self::from_biases(params);
        let mut sq: u8 = 0;
        proof {
            assert forall|i: int| 0 <= i < 128 implies #[trigger] self.white[i] == wrap16(params.input_biases[i] + board_features(board.squares(), *params, true, i, 0))
                && self.black[i] == wrap16(params.input_biases[i] + board_features(board.squares(), *params, false, i, 0)) by {
                lemma_wrap_small(params.input_biases[i] as int, 0x1_0000);
            }
        }
        while sq < 64
            invariant
                sq <= 64,
                forall|i: int| 0 <= i < 128 ==> #[trigger] self.white[i] == wrap16(params.input_biases[i] + board_features(board.squares(), *params, true, i, sq as int))
                    && self.black[i] == wrap16(params.input_biases[i] + board_features(board.squares(), *params, false, i, sq as int)),
            decreases 64 - sq,
        {
            let square = Square(sq);
            let piece = board.get_piece_on_square(square);
            assert(board.squares()[sq as int] == piece);
            if piece != Piece::NoPiece {
                let ghost before = *self;
                add_at(self, params, piece, square);
                proof {
                    let s = board.squares();
                    assert forall|i: int| 0 <= i < 128 implies #[trigger] self.white[i] == wrap16(params.input_biases[i] + board_features(s, *params, true, i, sq + 1))
                        && self.black[i] == wrap16(params.input_biases[i] + board_features(s, *params, false, i, sq + 1)) by {
                        lemma_wrap_add(params.input_biases[i] + board_features(s, *params, true, i, sq as int), feature_weight(*params, piece, sq as int, true, i), 0x1_0000);
                        lemma_wrap_add(params.input_biases[i] + board_features(s, *params, false, i, sq as int), feature_weight(*params, piece, sq as int, false, i), 0x1_0000);
                        assert(board_features(s, *params, true, i, sq + 1) == board_features(s, *params, true, i, sq as int) + feature_weight(*params, piece, sq as int, true, i));
                        assert(board_features(s, *params, false, i, sq + 1) == board_features(s, *params, false, i, sq as int) + feature_weight(*params, piece, sq as int, false, i));
                        assert(self.white[i] == wrap16(before.white[i] + 1 * params.input_weights[feature(piece, sq as int)][i]));
                    }
                }
            }
            sq = sq + 1;
        }
        proof {
            assert forall|i: int| 0 <= i < 128 implies #[trigger] self.black[i] == wrap16(params.input_biases[i] + board_features(board.squares(), *params, false, i, 64)) by {
                assert(self.white[i] == wrap16(params.input_biases[i] + board_features(board.squares(), *params, true, i, 64)));
            }
        }
    }
}

/// Puts `piece` on `square` in both perspectives.
fn add_at(acc: &mut Accumulator, params: &NNUEParams, piece: Piece, square: Square)
    requires
        piece != Piece::NoPiece,
        square.valid(),
    ensures
        lanes_moved(final(acc).white, old(acc).white, *params, feature(piece, square.0 as int), 1),
        lanes_moved(final(acc).black, old(acc).black, *params, mirrored_feature(piece, square.0 as int), 1),
{
    forward::add_feature(acc, params, piece, square);
}

/// Takes `piece` off `square` in both perspectives.
fn remove_at(acc: &mut Accumulator, params: &NNUEParams, piece: Piece, square: Square)
    requires
        piece != Piece::NoPiece,
        square.valid(),
    ensures
        lanes_moved(final(acc).white, old(acc).white, *params, feature(piece, square.0 as int), -1),
        lanes_moved(final(acc).black, old(acc).black, *params, mirrored_feature(piece, square.0 as int), -1),
{
    forward::remove_feature(acc, params, piece, square);
}

/// The inputs `mv` switches, given `board` before the move: its piece leaves the origin and
/// lands (promoted, for a promotion), a taken piece leaves, a castling rook moves. Applied
/// as they are they play the move; with their polarity flipped they take it back, since
/// taking the move back restores this very board.
fn move_feature_ops(mv: Move, board: &Board) -> (ops: [Option<(Piece, Square, bool)>; 4])
    requires
        board.move_ok(mv),
    ensures
        present(ops@) == move_ops(mv, *board),
        forall|k: int|
            0 <= k < 4 ==> (#[trigger] ops@[k] matches Some(op) ==> op.0 != Piece::NoPiece && op.1.valid()),
{
    let ghost s = board.squares();
    let mut ops: [Option<(Piece, Square, bool)>; 4] = [None; 4];
    let from = mv.from();
    let to = mv.to();
    let stm = board.side_to_move();
    let moving_piece = board.get_piece_on_square(from);
    ops[0] = Some((moving_piece, from, false));
    if mv.is_castling() {
        let (rook_from_sq, rook_to_sq) = castling_rook_squares(stm, mv.flag());
        let rook = board.get_piece_on_square(rook_from_sq);
        ops[1] = Some((moving_piece, to, true));
        ops[2] = Some((rook, rook_from_sq, false));
        ops[3] = Some((rook, rook_to_sq, true));
    } else if mv.is_en_passant() {
        ops[1] = Some((moving_piece, to, true));
        let cap_sq = to.shift(-up_dir(stm));
        let captured = board.get_piece_on_square(cap_sq);
        ops[2] = Some((captured, cap_sq, false));
    } else {
        let mut n: usize = 1;
        if mv.is_capture() {
            let captured = board.get_piece_on_square(to);
            ops[1] = Some((captured, to, false));
            n = 2;
        }
        if mv.is_promotion() {
            let promoted = Piece::new(stm, mv.promotion_piece_type());
            proof {
                crate::types::piece::lemma_piece_parts(promoted);
            }
            ops[n] = Some((promoted, to, true));
        } else {
            ops[n] = Some((moving_piece, to, true));
        }
    }
    proof {
        reveal_with_fuel(present, 5);
        assert(present(ops@) =~= move_ops(mv, *board));
    }
    ops
}

/// Lanes of `after` are those of `before` moved by `sign` times the switches of `mv`.
pub open spec fn lanes_switched(after: Accumulator, before: Accumulator, params: NNUEParams, mv: Move, b: Board, forward: bool) -> bool {
    &&& forall|i: int|
        0 <= i < 128 ==> #[trigger] after.white[i] == wrap16(before.white[i] + signed(forward, ops_delta(move_ops(mv, b), params, true, i)))
    &&& forall|i: int|
        0 <= i < 128 ==> #[trigger] after.black[i] == wrap16(before.black[i] + signed(forward, ops_delta(move_ops(mv, b), params, false, i)))
}

/// `v` as it is (`forward`) or negated.
pub open spec fn signed(forward: bool, v: int) -> int {
    if forward {
        v
    } else {
        -v
    }
}

/// The change one optional switch makes to lane `i`.
pub open spec fn op_delta(op: Option<(Piece, Square, bool)>, params: NNUEParams, white: bool, i: int) -> int {
    match op {
        None => 0,
        Some(o) => if o.2 {
            feature_weight(params, o.0, o.1.0 as int, white, i)
        } else {
            -feature_weight(params, o.0, o.1.0 as int, white, i)
        },
    }
}

/// The switches among the first `k + 1` change a lane by those among the first `k` and the
/// one at `k`.
proof fn lemma_ops_delta_step(ops: Seq<Option<(Piece, Square, bool)>>, k: int, params: NNUEParams, white: bool, i: int)
    requires
        0 <= k < ops.len(),
    ensures
        ops_delta(present(ops.take(k + 1)), params, white, i) == ops_delta(present(ops.take(k)), params, white, i)
            + op_delta(ops[k], params, white, i),
{
    assert(ops.take(k + 1).drop_last() =~= ops.take(k));
    match ops[k] {
        Some(o) => {
            let done = present(ops.take(k));
            assert(done.push((o.0, o.1.0 as int, o.2)).drop_last() =~= done);
        },
        None => {},
    }
}

/// Applies one optional switch, with its polarity kept (`forward`) or flipped.
fn switch_one(acc: &mut Accumulator, params: &NNUEParams, op: Option<(Piece, Square, bool)>, forward: bool)
    requires
        op matches Some(o) ==> o.0 != Piece::NoPiece && o.1.valid(),
    ensures
        forall|i: int|
            0 <= i < 128 ==> #[trigger] final(acc).white[i] == wrap16(old(acc).white[i] + signed(forward, op_delta(op, *params, true, i)))
                && final(acc).black[i] == wrap16(old(acc).black[i] + signed(forward, op_delta(op, *params, false, i))),
{
    match op {
        Some(o) => {
            let (piece, square, is_add) = o;
            if is_add == forward {
                add_at(acc, params, piece, square);
            } else {
                remove_at(acc, params, piece, square);
            }
        },
        None => {
            proof {
                assert forall|i: int| 0 <= i < 128 implies #[trigger] acc.white[i] == wrap16(old(acc).white[i] + 0) && acc.black[i] == wrap16(old(acc).black[i] + 0) by {
                    lemma_wrap_small(old(acc).white[i] as int, 0x1_0000);
                    lemma_wrap_small(old(acc).black[i] as int, 0x1_0000);
                }
            }
        },
    }
}

/// Applies the switches of `mv` with the given polarity (`forward`: as they are).
fn switch_features(acc: &mut Accumulator, params: &NNUEParams, mv: Move, board: &Board, forward: bool)
    requires
        board.move_ok(mv),
    ensures
        lanes_switched(*final(acc), *old(acc), *params, mv, *board, forward),
{
    let ops = move_feature_ops(mv, board);
    let mut k: usize = 0;
    proof {
        assert(present(ops@.take(0)) =~= Seq::<(Piece, int, bool)>::empty());
        assert forall|i: int| 0 <= i < 128 implies #[trigger] acc.white[i] == wrap16(old(acc).white[i] + signed(forward, ops_delta(present(ops@.take(0)), *params, true, i)))
            && acc.black[i] == wrap16(old(acc).black[i] + signed(forward, ops_delta(present(ops@.take(0)), *params, false, i))) by {
            lemma_wrap_small(old(acc).white[i] as int, 0x1_0000);
            lemma_wrap_small(old(acc).black[i] as int, 0x1_0000);
        }
    }
    while k < 4
        invariant
            k <= 4,
            present(ops@) == move_ops(mv, *board),
            forall|j: int| 0 <= j < 4 ==> (#[trigger] ops@[j] matches Some(op) ==> op.0 != Piece::NoPiece && op.1.valid()),
            forall|i: int|
                0 <= i < 128 ==> #[trigger] acc.white[i] == wrap16(old(acc).white[i] + signed(forward, ops_delta(present(ops@.take(k as int)), *params, true, i)))
                    && acc.black[i] == wrap16(old(acc).black[i] + signed(forward, ops_delta(present(ops@.take(k as int)), *params, false, i))),
        decreases 4 - k,
    {
        let ghost before = *acc;
        let op = ops[k];
        switch_one(acc, params, op, forward);
        proof {
            assert forall|i: int| 0 <= i < 128 implies #[trigger] acc.white[i] == wrap16(old(acc).white[i] + signed(forward, ops_delta(present(ops@.take(k as int + 1)), *params, true, i)))
                && acc.black[i] == wrap16(old(acc).black[i] + signed(forward, ops_delta(present(ops@.take(k as int + 1)), *params, false, i))) by {
                lemma_ops_delta_step(ops@, k as int, *params, true, i);
                lemma_ops_delta_step(ops@, k as int, *params, false, i);
                let dw = ops_delta(present(ops@.take(k as int)), *params, true, i);
                let db = ops_delta(present(ops@.take(k as int)), *params, false, i);
                let ow = op_delta(op, *params, true, i);
                let ob = op_delta(op, *params, false, i);
                assert(before.white[i] == wrap16(old(acc).white[i] + signed(forward, dw)));
                assert(acc.white[i] == wrap16(before.white[i] + signed(forward, ow)));
                lemma_wrap_add(old(acc).white[i] + signed(forward, dw), signed(forward, ow), 0x1_0000);
                lemma_wrap_add(old(acc).black[i] + signed(forward, db), signed(forward, ob), 0x1_0000);
                assert(signed(forward, dw + ow) == signed(forward, dw) + signed(forward, ow));
                assert(ops_delta(present(ops@.take(k as int + 1)), *params, true, i) == dw + ow);
            }
        }
        k = k + 1;
    }
    assert(ops@.take(4) =~= ops@);
    assert forall|i: int| 0 <= i < 128 implies #[trigger] acc.black[i] == wrap16(old(acc).black[i] + signed(forward, ops_delta(move_ops(mv, *board), *params, false, i))) by {
        assert(acc.white[i] == wrap16(old(acc).white[i] + signed(forward, ops_delta(present(ops@.take(4)), *params, true, i))));
    }
}

/// Plays `mv` on the accumulator; `board` is the position before the move.
pub fn apply_move(acc: &mut Accumulator, params: &NNUEParams, mv: Move, board: &Board)
    requires
        board.move_ok(mv),
    ensures
        lanes_switched(*final(acc), *old(acc), *params, mv, *board, true),
{
    switch_features(acc, params, mv, board, true);
}

/// Takes `mv` back on the accumulator; `board` is the position before the move, as taking
/// it back on the board restores it.
pub fn undo_move(acc: &mut Accumulator, params: &NNUEParams, mv: Move, board: &Board)
    requires
        board.move_ok(mv),
    ensures
        lanes_switched(*final(acc), *old(acc), *params, mv, *board, false),
{
    switch_features(acc, params, mv, board, false);
}

/// The network's evaluation of `board` from the side to move's perspective.
pub fn evaluate(acc: &Accumulator, board: &Board, params: &NNUEParams) -> (r: i32)
    ensures
        r == if board.stm() == 0 {
            output_value(acc.white, acc.black, *params)
        } else {
            output_value(acc.black, acc.white, *params)
        },
{
    forward::output(acc, board.side_to_move(), params)
}

// ---------------------------------------------------------------------------------------------
// Laws
// ---------------------------------------------------------------------------------------------

/// Taking a move back on the accumulator after playing it there gives the accumulator back
/// exactly.
pub proof fn lemma_undo_restores_accumulator(
    a0: Accumulator,
    a1: Accumulator,
    a2: Accumulator,
    params: NNUEParams,
    mv: Move,
    b: Board,
)
    requires
        lanes_switched(a1, a0, params, mv, b, true),
        lanes_switched(a2, a1, params, mv, b, false),
    ensures
        a2 == a0,
{
    assert forall|i: int| 0 <= i < 128 implies #[trigger] a2.white[i] == a0.white[i] by {
        let dw = ops_delta(move_ops(mv, b), params, true, i);
        assert(a1.white[i] == wrap16(a0.white[i] + dw));
        lemma_wrap_add(a0.white[i] + dw, -dw, 0x1_0000);
        lemma_wrap_small(a0.white[i] as int, 0x1_0000);
    }
    assert forall|i: int| 0 <= i < 128 implies #[trigger] a2.black[i] == a0.black[i] by {
        let db = ops_delta(move_ops(mv, b), params, false, i);
        assert(a1.black[i] == wrap16(a0.black[i] + db));
        lemma_wrap_add(a0.black[i] + db, -db, 0x1_0000);
        lemma_wrap_small(a0.black[i] as int, 0x1_0000);
    }
    assert(a2.white =~= a0.white);
    assert(a2.black =~= a0.black);
}

/// The weight of lane `i` for whatever stands on `sq` (nothing weighs 0).
pub open spec fn square_weight(params: NNUEParams, p: Piece, sq: int, white: bool, i: int) -> int {
    if p == Piece::NoPiece {
        0
    } else {
        feature_weight(params, p, sq, white, i)
    }
}

/// Changing one square changes the summed lane by the difference of the two weights.
proof fn lemma_board_features_update(s: Seq<Piece>, t: int, q: Piece, params: NNUEParams, white: bool, i: int, n: int)
    requires
        0 <= t < s.len(),
        0 <= n <= s.len(),
    ensures
        board_features(s.update(t, q), params, white, i, n) == board_features(s, params, white, i, n) + if t < n {
            square_weight(params, q, t, white, i) - square_weight(params, s[t], t, white, i)
        } else {
            0
        },
    decreases n,
{
    if n > 0 {
        lemma_board_features_update(s, t, q, params, white, i, n - 1);
    }
}

/// Playing a move changes each summed lane by the switches of the move.
proof fn lemma_move_features(b0: Board, mv: Move, params: NNUEParams, white: bool, i: int)
    requires
        b0.move_ok(mv),
    ensures
        board_features(make_placement(b0.squares(), mv, b0.stm()), params, white, i, 64)
            == board_features(b0.squares(), params, white, i, 64) + ops_delta(move_ops(mv, b0), params, white, i),
{
    let s = b0.squares();
    let stm = b0.stm();
    let from = mv.from_idx();
    let to = mv.to_idx();
    let moving = s[from];
    let s1 = s.update(from, Piece::NoPiece);
    lemma_board_features_update(s, from, Piece::NoPiece, params, white, i, 64);
    let ops = move_ops(mv, b0);
    reveal_with_fuel(ops_delta, 5);
    if mv.spec_is_castling() {
        let rf = rook_from(stm, mv);
        let rt = rook_to(stm, mv);
        let s2 = s1.update(to, moving);
        let s3 = s2.update(rf, Piece::NoPiece);
        lemma_board_features_update(s1, to, moving, params, white, i, 64);
        lemma_board_features_update(s2, rf, Piece::NoPiece, params, white, i, 64);
        lemma_board_features_update(s3, rt, s[rf], params, white, i, 64);
        assert(ops.drop_last().drop_last().drop_last().drop_last() =~= Seq::<(Piece, int, bool)>::empty());
    } else if mv.spec_is_en_passant() {
        let v = ep_victim(to, stm);
        let s2 = s1.update(to, moving);
        lemma_board_features_update(s1, to, moving, params, white, i, 64);
        lemma_board_features_update(s2, v, Piece::NoPiece, params, white, i, 64);
        assert(ops.drop_last().drop_last().drop_last() =~= Seq::<(Piece, int, bool)>::empty());
    } else {
        let landing = landing_piece(s, mv, stm);
        crate::types::piece::lemma_piece_parts(landing);
        lemma_board_features_update(s1, to, landing, params, white, i, 64);
        if mv.spec_is_capture() {
            assert(ops.drop_last().drop_last().drop_last() =~= Seq::<(Piece, int, bool)>::empty());
        } else {
            assert(ops.drop_last().drop_last() =~= Seq::<(Piece, int, bool)>::empty());
        }
    }
}

/// Playing a move on the accumulator of a board, as the board plays it, gives the
/// accumulator of the board after the move: the incremental update agrees with a rebuild.
pub proof fn lemma_incremental_accumulator(
    a0: Accumulator,
    a1: Accumulator,
    params: NNUEParams,
    b0: Board,
    mv: Move,
    b1: Board,
)
    requires
        accumulates(a0, b0.squares(), params),
        b0.move_ok(mv),
        b0.made(mv, b1),
        lanes_switched(a1, a0, params, mv, b0, true),
    ensures
        accumulates(a1, b1.squares(), params),
{
    assert forall|i: int| 0 <= i < 128 implies #[trigger] a1.white[i] == wrap16(params.input_biases[i] + board_features(b1.squares(), params, true, i, 64)) by {
        lemma_move_features(b0, mv, params, true, i);
        let fw = board_features(b0.squares(), params, true, i, 64);
        assert(a0.white[i] == wrap16(params.input_biases[i] + fw));
        lemma_wrap_add(params.input_biases[i] + fw, ops_delta(move_ops(mv, b0), params, true, i), 0x1_0000);
    }
    assert forall|i: int| 0 <= i < 128 implies #[trigger] a1.black[i] == wrap16(params.input_biases[i] + board_features(b1.squares(), params, false, i, 64)) by {
        lemma_move_features(b0, mv, params, false, i);
        let fb = board_features(b0.squares(), params, false, i, 64);
        assert(a0.black[i] == wrap16(params.input_biases[i] + fb));
        lemma_wrap_add(params.input_biases[i] + fb, ops_delta(move_ops(mv, b0), params, false, i), 0x1_0000);
    }
}

// ---------------------------------------------------------------------------------------------
// Network files
// ---------------------------------------------------------------------------------------------

/// Bytes of a network file: every parameter as a little-endian `i16`, in the order of the
/// fields of `NNUEParams` (input weights row by row, hidden biases, output weights, output
/// bias), with nothing between them.
pub const NET_BYTES: usize = 197378;

/// The `i16` stored little-endian as the `k`-th parameter of `bytes`.
pub open spec fn le_i16(bytes: Seq<u8>, k: int) -> int {
    let u = bytes[2 * k] + 256 * bytes[2 * k + 1];
    if u >= 32768 {
        u - 65536
    } else {
        u
    }
}

/// `p` holds the parameters of the network file `bytes`, in field order.
pub open spec fn params_of_bytes(p: NNUEParams, bytes: Seq<u8>) -> bool {
    &&& forall|f: int, h: int| 0 <= f < 768 && 0 <= h < 128 ==> #[trigger] p.input_weights[f][h] == le_i16(bytes, 128 * f + h)
    &&& forall|h: int| 0 <= h < 128 ==> #[trigger] p.input_biases[h] == le_i16(bytes, 98304 + h)
    &&& forall|h: int| 0 <= h < 256 ==> #[trigger] p.output_weights[h] == le_i16(bytes, 98432 + h)
    &&& p.output_bias == le_i16(bytes, 98688)
}

/// The `k`-th little-endian `i16` of `bytes`.
fn read_i16(bytes: &[u8], k: usize) -> (v: i16)
    requires
        2 * k + 1 < bytes@.len(),
        bytes@.len() == NET_BYTES,
    ensures
        v == le_i16(bytes@, k as int),
{
    let u: u32 = bytes[2 * k] as u32 + 256 * (bytes[2 * k + 1] as u32);
    if u >= 32768 {
        (u as i32 - 65536) as i16
    } else {
        u as i16
    }
}

impl NNUEParams {
    /// Reads the parameters from the bytes of a network file (`params_of_bytes`). A file of
    /// the wrong size is refused (`false`) and the parameters are left as they were.
    pub fn read_from_bytes(&mut self, bytes: &[u8]) -> (ok: bool)
        ensures
            ok == (bytes@.len() == NET_BYTES),
            ok ==> params_of_bytes(*final(self), bytes@),
            !ok ==> *final(self) == *old(self),
    {
        if bytes.len() != NET_BYTES {
            return false;
        }
        let mut f: usize = 0;
        while f < 768
            invariant
                f <= 768,
                bytes@.len() == NET_BYTES,
                forall|g: int, h: int| 0 <= g < f && 0 <= h < 128 ==> #[trigger] self.input_weights[g][h] == le_i16(bytes@, 128 * g + h),
            decreases 768 - f,
        {
            let mut row: [i16; 128] = [0i16; 128];
            let mut h: usize = 0;
            while h < 128
                invariant
                    h <= 128,
                    f < 768,
                    bytes@.len() == NET_BYTES,
                    forall|i: int| 0 <= i < h ==> #[trigger] row[i] == le_i16(bytes@, 128 * f + i),
                decreases 128 - h,
            {
                let v = read_i16(bytes, 128 * f + h);
                row[h] = v;
                h = h + 1;
            }
            self.input_weights[f] = row;
            f = f + 1;
        }
        let mut h: usize = 0;
        while h < 128
            invariant
                h <= 128,
                bytes@.len() == NET_BYTES,
                forall|g: int, i: int| 0 <= g < 768 && 0 <= i < 128 ==> #[trigger] self.input_weights[g][i] == le_i16(bytes@, 128 * g + i),
                forall|i: int| 0 <= i < h ==> #[trigger] self.input_biases[i] == le_i16(bytes@, 98304 + i),
            decreases 128 - h,
        {
            self.input_biases[h] = read_i16(bytes, 98304 + h);
            h = h + 1;
        }
        let mut h: usize = 0;
        while h < 256
            invariant
                h <= 256,
                bytes@.len() == NET_BYTES,
                forall|g: int, i: int| 0 <= g < 768 && 0 <= i < 128 ==> #[trigger] self.input_weights[g][i] == le_i16(bytes@, 128 * g + i),
                forall|i: int| 0 <= i < 128 ==> #[trigger] self.input_biases[i] == le_i16(bytes@, 98304 + i),
                forall|i: int| 0 <= i < h ==> #[trigger] self.output_weights[i] == le_i16(bytes@, 98432 + i),
            decreases 256 - h,
        {
            self.output_weights[h] = read_i16(bytes, 98432 + h);
            h = h + 1;
        }
        self.output_bias = read_i16(bytes, 98688);
        true
    }
}

/// From black's perspective a piece is seen as the piece of the same kind and the other color
/// on the square mirrored rank by rank (rank `r` to rank `7 - r`, same file): its input is
/// that piece's white-perspective input there.
pub proof fn lemma_mirrored_input(p: Piece, sq: int)
    requires
        p != Piece::NoPiece,
        0 <= sq < 64,
    ensures
        mirrored_feature(p, sq) == ((1 - p.color_idx()) * 6 + p.type_idx()) * 64 + (7 - sq / 8) * 8 + sq % 8,
        0 <= mirrored_feature(p, sq) < 768,
{
    crate::types::piece::lemma_piece_parts(p);
    let q = mirror_piece(p);
    let k = 2 * p.type_idx() + (1 - p.color_idx());
    assert(0 <= k < 12);
    assert(q.idx() == k);
    crate::types::piece::lemma_piece_parts(q);
    assert(q.type_idx() == p.type_idx());
    assert(q.color_idx() == 1 - p.color_idx());
}

} // verus!
