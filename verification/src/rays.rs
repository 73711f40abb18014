use vstd::prelude::*;
use crate::attacking::{
    offset, on_ray, ray_dist, dir_between, strictly_between, dir_line, on_line, valid_dir,
};
use crate::types::bitboard::{Bitboard, bit, group_bits};
use crate::types::square::{Square, rank_of, file_of};

verus! {

broadcast use group_bits;

/// Whether `t` is one or more steps from `s` in direction (`dr`, `df`).
fn on_ray_exec(s: u8, t: u8, dr: i8, df: i8) -> (b: bool)
    requires
        s < 64,
        t < 64,
        valid_dir(dr as int, df as int),
    ensures
        b == on_ray(s as int, t as int, dr as int, df as int),
{
    let rs = (s / 8) as i8;
    let fs = (s % 8) as i8;
    let rt = (t / 8) as i8;
    let ft = (t % 8) as i8;
    let n: i8 = if dr == 1 {
        rt - rs
    } else if dr == -1 {
        rs - rt
    } else if df == 1 {
        ft - fs
    } else {
        fs - ft
    };
    let or: i8 = if dr == 1 {
        n
    } else if dr == -1 {
        -n
    } else {
        0
    };
    let of: i8 = if df == 1 {
        n
    } else if df == -1 {
        -n
    } else {
        0
    };
    n >= 1 && rt == rs + or && ft == fs + of
}

/// Whether `u` is strictly between `a` and `b` along direction (`dr`, `df`).
fn dir_between_exec(a: u8, b: u8, u: u8, dr: i8, df: i8) -> (r: bool)
    requires
        a < 64,
        b < 64,
        u < 64,
        valid_dir(dr as int, df as int),
    ensures
        r == dir_between(a as int, b as int, u as int, dr as int, df as int),
{
    if !on_ray_exec(a, b, dr, df) || !on_ray_exec(a, u, dr, df) {
        return false;
    }
    let da: i8 = if dr == 1 {
        (u / 8) as i8 - (a / 8) as i8
    } else if dr == -1 {
        (a / 8) as i8 - (u / 8) as i8
    } else if df == 1 {
        (u % 8) as i8 - (a % 8) as i8
    } else {
        (a % 8) as i8 - (u % 8) as i8
    };
    let db: i8 = if dr == 1 {
        (b / 8) as i8 - (a / 8) as i8
    } else if dr == -1 {
        (a / 8) as i8 - (b / 8) as i8
    } else if df == 1 {
        (b % 8) as i8 - (a % 8) as i8
    } else {
        (a % 8) as i8 - (b % 8) as i8
    };
    da < db
}

/// Whether `u` is on the line through `a` and `b`, when `b` is in direction (`dr`, `df`) from `a`.
fn dir_line_exec(a: u8, b: u8, u: u8, dr: i8, df: i8) -> (r: bool)
    requires
        a < 64,
        b < 64,
        u < 64,
        valid_dir(dr as int, df as int),
    ensures
        r == dir_line(a as int, b as int, u as int, dr as int, df as int),
{
    on_ray_exec(a, b, dr, df) && (u == a || on_ray_exec(a, u, dr, df) || on_ray_exec(a, u, -dr, -df))
}

/// Whether `u` is strictly between `a` and `b` on a rank, file or diagonal.
fn between_exec(a: u8, b: u8, u: u8) -> (r: bool)
    requires
        a < 64,
        b < 64,
        u < 64,
    ensures
        r == strictly_between(a as int, b as int, u as int),
{
    dir_between_exec(a, b, u, 1, 0) || dir_between_exec(a, b, u, -1, 0) || dir_between_exec(
        a,
        b,
        u,
        0,
        1,
    ) || dir_between_exec(a, b, u, 0, -1) || dir_between_exec(a, b, u, 1, 1) || dir_between_exec(
        a,
        b,
        u,
        1,
        -1,
    ) || dir_between_exec(a, b, u, -1, 1) || dir_between_exec(a, b, u, -1, -1)
}

/// Whether `u` is on the rank, file or diagonal through `a` and `b`.
fn line_exec(a: u8, b: u8, u: u8) -> (r: bool)
    requires
        a < 64,
        b < 64,
        u < 64,
    ensures
        r == on_line(a as int, b as int, u as int),
{
    dir_line_exec(a, b, u, 1, 0) || dir_line_exec(a, b, u, -1, 0) || dir_line_exec(a, b, u, 0, 1)
        || dir_line_exec(a, b, u, 0, -1) || dir_line_exec(a, b, u, 1, 1) || dir_line_exec(
        a,
        b,
        u,
        1,
        -1,
    ) || dir_line_exec(a, b, u, -1, 1) || dir_line_exec(a, b, u, -1, -1)
}

/// The squares strictly between `a` and `b` when they share a rank, file or diagonal;
/// empty otherwise.
pub fn between(a: Square, b: Square) -> (r: Bitboard)
    requires
        a.valid(),
        b.valid(),
    ensures
        forall|u: int| 0 <= u < 64 ==> #[trigger] bit(r.0, u) == strictly_between(a.0 as int, b.0 as int, u),
{
    let mut acc: u64 = 0;
    let mut u: u8 = 0;
    while u < 64
        invariant
            u <= 64,
            a.valid(),
            b.valid(),
            forall|t: int|
                0 <= t < 64 ==> #[trigger] bit(acc, t) == (t < u && strictly_between(a.0 as int, b.0 as int, t)),
        decreases 64 - u,
    {
        if between_exec(a.0, b.0, u) {
            acc = acc | (1u64 << (u as u64));
        }
        u = u + 1;
    }
    Bitboard(acc)
}

/// The whole rank, file or diagonal through `a` and `b`, both included, when they are distinct
/// and share one; empty otherwise.
pub fn line_through(a: Square, b: Square) -> (r: Bitboard)
    requires
        a.valid(),
        b.valid(),
    ensures
        forall|u: int| 0 <= u < 64 ==> #[trigger] bit(r.0, u) == on_line(a.0 as int, b.0 as int, u),
{
    let mut acc: u64 = 0;
    let mut u: u8 = 0;
    while u < 64
        invariant
            u <= 64,
            a.valid(),
            b.valid(),
            forall|t: int| 0 <= t < 64 ==> #[trigger] bit(acc, t) == (t < u && on_line(a.0 as int, b.0 as int, t)),
        decreases 64 - u,
    {
        if line_exec(a.0, b.0, u) {
            acc = acc | (1u64 << (u as u64));
        }
        u = u + 1;
    }
    Bitboard(acc)
}

} // verus!
