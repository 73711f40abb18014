use vstd::prelude::*;
use crate::nnue::{
    Accumulator, NNUEParams, HIDDEN_SIZE, INPUT_SIZE, QA, QB, SCALE, lanes_moved, wrap16, wrap32,
    dot, activation, output_value, div_trunc, lemma_i16_wrapping_add, lemma_i16_wrapping_sub,
    lemma_i32_wrapping_add, lemma_i32_wrapping_mul, lemma_wrap_add, lemma_wrap_small,
};
use crate::types::color::Color;

verus! {

/// Adds (`sign` 1) or subtracts (`sign` -1) weight row `row` to the lanes, wrapping as `i16`.
fn shift_half(half: &mut [i16; 128], params: &NNUEParams, row: usize, adding: bool)
    requires
        row < INPUT_SIZE,
    ensures
        lanes_moved(*final(half), *old(half), *params, row as int, if adding { 1 } else { -1 }),
{
    let mut i: usize = 0;
    while i < HIDDEN_SIZE
        invariant
            i <= 128,
            row < 768,
            forall|j: int| 0 <= j < i ==> #[trigger] half[j] == wrap16(old(half)[j] + (if adding { 1int } else { -1int }) * params.input_weights[row as int][j]),
            forall|j: int| i <= j < 128 ==> #[trigger] half[j] == old(half)[j],
        decreases 128 - i,
    {
        let w = params.input_weights[row][i];
        let v = half[i];
        proof {
            lemma_i16_wrapping_add(v, w);
            lemma_i16_wrapping_sub(v, w);
        }
        half[i] = if adding {
            v.wrapping_add(w)
        } else {
            v.wrapping_sub(w)
        };
        i = i + 1;
    }
}

/// Adds the input `idx` to white's half and `midx` to black's.
pub fn add(acc: &mut Accumulator, params: &NNUEParams, idx: usize, midx: usize)
    requires
        idx < INPUT_SIZE,
        midx < INPUT_SIZE,
    ensures
        lanes_moved(final(acc).white, old(acc).white, *params, idx as int, 1),
        lanes_moved(final(acc).black, old(acc).black, *params, midx as int, 1),
{
    shift_half(&mut acc.white, params, idx, true);
    shift_half(&mut acc.black, params, midx, true);
}

/// Takes the input `idx` off white's half and `midx` off black's.
pub fn remove(acc: &mut Accumulator, params: &NNUEParams, idx: usize, midx: usize)
    requires
        idx < INPUT_SIZE,
        midx < INPUT_SIZE,
    ensures
        lanes_moved(final(acc).white, old(acc).white, *params, idx as int, -1),
        lanes_moved(final(acc).black, old(acc).black, *params, midx as int, -1),
{
    shift_half(&mut acc.white, params, idx, false);
    shift_half(&mut acc.black, params, midx, false);
}

/// The clamped activation of a lane, with its square.
fn squared_activation(v: i16) -> (r: i32)
    ensures
        r == activation(v as int) * activation(v as int),
        0 <= r <= 65025,
{
    let a: i32 = if v < 0 {
        0
    } else if v > 255 {
        255
    } else {
        v as i32
    };
    assert(0 <= a * a <= 65025) by (nonlinear_arith)
        requires
            0 <= a <= 255,
    ;
    a * a
}

/// The network's output from the side to move's perspective (see `output_value`).
pub fn output(acc: &Accumulator, stm: Color, params: &NNUEParams) -> (r: i32)
    ensures
        r == if stm == Color::White {
            output_value(acc.white, acc.black, *params)
        } else {
            output_value(acc.black, acc.white, *params)
        },
{
    let (us, them) = match stm {
        Color::White => (&acc.white, &acc.black),
        Color::Black => (&acc.black, &acc.white),
    };
    let mut sum: i32 = 0;
    let mut i: usize = 0;
    proof {
        lemma_wrap_small(0, 0x1_0000_0000);
    }
    while i < HIDDEN_SIZE
        invariant
            i <= 128,
            sum == wrap32(dot(*us, *them, params.output_weights, i as int)),
        decreases 128 - i,
    {
        let u = squared_activation(us[i]);
        let wu = params.output_weights[i] as i32;
        assert(-2147483648 <= u * wu <= 2147483647) by (nonlinear_arith)
            requires
                0 <= u <= 65025,
                -32768 <= wu <= 32767,
        ;
        let a = u * wu;
        let t = squared_activation(them[i]);
        let wt = params.output_weights[HIDDEN_SIZE + i] as i32;
        assert(-2147483648 <= t * wt <= 2147483647) by (nonlinear_arith)
            requires
                0 <= t <= 65025,
                -32768 <= wt <= 32767,
        ;
        let b = t * wt;
        proof {
            lemma_i32_wrapping_add(sum, a);
            lemma_wrap_add(dot(*us, *them, params.output_weights, i as int), a as int, 0x1_0000_0000);
            let mid = wrap32(dot(*us, *them, params.output_weights, i as int) + a);
            lemma_wrap_small(mid, 0x1_0000_0000);
            lemma_i32_wrapping_add(sum.wrapping_add(a), b);
            lemma_wrap_add(dot(*us, *them, params.output_weights, i as int) + a, b as int, 0x1_0000_0000);
        }
        sum = sum.wrapping_add(a).wrapping_add(b);
        i = i + 1;
    }
    let mut output = sum / QA;
    assert(-8421505 <= output <= 8421504);
    output = output + params.output_bias as i32;
    proof {
        lemma_i32_wrapping_mul(output, SCALE);
    }
    output = output.wrapping_mul(SCALE);
    output = output / (QA * QB);
    output
}

} // verus!
