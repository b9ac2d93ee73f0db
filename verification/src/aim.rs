//! The aim indicator: a marker at the pointer and a row of dots between
//! the cue ball and the pointer.

use vstd::prelude::*;
use crate::ball::Ball;
use crate::fixed::{
    abs, div_toward_zero, lemma_div_toward_zero, lemma_scale_shrinks, BALL_SIZE, COORD_MAX, UNIT,
};

verus! {

/// The point at the fraction `ratio / UNIT` of the way from `start` to
/// `stop`.
pub open spec fn lerp_spec(start: int, stop: int, ratio: int) -> int {
    start + div_toward_zero((stop - start) * ratio, UNIT as int)
}

/// A point at a fraction between nothing and all of the way lies between
/// the two ends.
pub proof fn lemma_lerp_between(start: int, stop: int, ratio: int)
    requires
        0 <= ratio <= UNIT,
    ensures
        start <= stop ==> start <= lerp_spec(start, stop, ratio) <= stop,
        stop <= start ==> stop <= lerp_spec(start, stop, ratio) <= start,
        lerp_spec(start, stop, 0) == start,
        lerp_spec(start, stop, UNIT as int) == stop,
{
    lemma_scale_shrinks(stop - start, ratio, UNIT as int);
    assert((stop - start) * 0 == 0) by (nonlinear_arith);
    lemma_div_toward_zero((stop - start) * UNIT, UNIT as int);
    assert(abs((stop - start) * UNIT) / (UNIT as int) == abs(stop - start)) by (nonlinear_arith)
        requires
            UNIT == 65536,
    ;
    assert((stop - start >= 0 ==> (stop - start) * UNIT >= 0) && (stop - start <= 0 ==> (stop
        - start) * UNIT <= 0)) by (nonlinear_arith)
        requires
            UNIT == 65536,
    ;
}

/// The magnitude of `v` as an unsigned number.
fn magnitude_wide(v: i128) -> (m: u128)
    requires
        v > i128::MIN,
    ensures
        m == abs(v as int),
{
    if v >= 0 {
        v as u128
    } else {
        (-v) as u128
    }
}

/// The point at the fraction `ratio / UNIT` of the way from `start` to
/// `stop`, where that point can be represented.
pub fn lerp(start: i64, stop: i64, ratio: i64) -> (point: i64)
    requires
        i64::MIN <= lerp_spec(start as int, stop as int, ratio as int) <= i64::MAX,
    ensures
        point == lerp_spec(start as int, stop as int, ratio as int),
{
    let range: i128 = stop as i128 - start as i128;
    let range_mag: u128 = magnitude_wide(range);
    let ratio_mag: u128 = magnitude_wide(ratio as i128);
    assert(range_mag * ratio_mag <= 0x1_0000_0000_0000_0000 * 0x8000_0000_0000_0000)
        by (nonlinear_arith)
        requires
            range_mag <= 0x1_0000_0000_0000_0000,
            ratio_mag <= 0x8000_0000_0000_0000,
    ;
    let terp_mag: u128 = range_mag * ratio_mag / (UNIT as u128);
    let same_sign: bool = (range >= 0) == (ratio >= 0);
    proof {
        let product = (stop - start) * ratio;
        lemma_div_toward_zero(product, UNIT as int);
        assert(abs(product) == range_mag * ratio_mag) by (nonlinear_arith)
            requires
                product == (stop - start) * ratio,
                range_mag == abs(stop - start),
                ratio_mag == abs(ratio as int),
        ;
        assert((same_sign ==> product >= 0) && (!same_sign ==> product <= 0)) by (nonlinear_arith)
            requires
                product == (stop - start) * ratio,
                same_sign == ((stop - start >= 0) == (ratio >= 0)),
        ;
        assert(terp_mag <= range_mag * ratio_mag);
    }
    let terp: i128 = if same_sign {
        terp_mag as i128
    } else {
        -(terp_mag as i128)
    };
    (start as i128 + terp) as i64
}

/// Where the aim indicator is drawn: the top-left corner of the marker at
/// the pointer, and that of each dot, from the cue ball outward.
pub struct Aim {
    pub cursor: (i64, i64),
    pub dots: Vec<(i64, i64)>,
}

/// The fraction of the way from the cue ball to the pointer at which dot
/// `i` of `n` lies, counted from 0: the dots divide the way evenly.
pub open spec fn aim_ratio(i: int, n: int) -> int {
    ((i + 1) * UNIT) / (n + 1)
}

/// The radius of dot `i` of `n`: the dots grow from one table unit toward
/// the marker's radius.
pub open spec fn dot_size(cursor_size: int, i: int, n: int) -> int {
    lerp_spec(UNIT as int, cursor_size, aim_ratio(i, n))
}

/// The top-left corner of dot `i` of `n`, on one axis: the point between
/// the cue ball's centre and the pointer, less the dot's radius.
pub open spec fn dot_corner(centre: int, pointer: int, cursor_size: int, i: int, n: int) -> int {
    lerp_spec(centre, pointer, aim_ratio(i, n)) - dot_size(cursor_size, i, n)
}

/// The fraction for a dot is less than all of the way.
pub proof fn lemma_aim_ratio(i: int, n: int)
    requires
        0 <= i < n,
    ensures
        0 <= aim_ratio(i, n) < UNIT,
{
    assert(0 <= ((i + 1) * UNIT) / (n + 1) < UNIT) by (nonlinear_arith)
        requires
            0 <= i < n,
            UNIT == 65536,
    ;
}

/// The radius of each of `num_dots` dots, from the cue ball outward, for a
/// marker of radius `cursor_size`.
pub fn cursor_dot_sizes(cursor_size: i64, num_dots: i32) -> (sizes: Vec<i64>)
    ensures
        sizes@.len() == if num_dots > 0 { num_dots as int } else { 0 },
        forall|i: int|
            0 <= i < sizes@.len() ==> #[trigger] sizes@[i] == dot_size(
                cursor_size as int,
                i,
                num_dots as int,
            ),
{
    let mut sizes: Vec<i64> = Vec::new();
    let mut i: i32 = 0;
    while i < num_dots
        invariant
            0 <= i,
            i <= num_dots || i == 0,
            sizes@.len() == i,
            forall|k: int|
                0 <= k < i ==> #[trigger] sizes@[k] == dot_size(
                    cursor_size as int,
                    k,
                    num_dots as int,
                ),
        decreases num_dots - i,
    {
        let factor: i64 = ratio_of(i, num_dots);
        proof {
            lemma_lerp_between(UNIT as int, cursor_size as int, factor as int);
        }
        sizes.push(lerp(UNIT, cursor_size, factor));
        i += 1;
    }
    sizes
}

/// The fraction of the way at which dot `i` of `n` lies.
fn ratio_of(i: i32, n: i32) -> (factor: i64)
    requires
        0 <= i < n,
    ensures
        factor == aim_ratio(i as int, n as int),
        0 <= factor < UNIT,
{
    assert((i as u64 + 1) * (UNIT as u64) <= 0x8000_0000_0000) by (nonlinear_arith)
        requires
            0 <= i < 0x8000_0000,
            UNIT == 65536,
    ;
    proof {
        lemma_aim_ratio(i as int, n as int);
    }
    (((i as u64 + 1) * (UNIT as u64)) / (n as u64 + 1)) as i64
}

/// Places the aim indicator for a pointer at `pointer`, given in whole
/// table units, with `num_dots` dots and a marker of radius `cursor_size`.
pub fn update_cursor(cue_ball: &Ball, pointer: (i32, i32), cursor_size: i64, num_dots: i32) -> (aim:
    Aim)
    requires
        cue_ball@.in_range(),
        abs(cursor_size as int) <= COORD_MAX,
    ensures
        aim.cursor.0 == pointer.0 * UNIT - cursor_size,
        aim.cursor.1 == pointer.1 * UNIT - cursor_size,
        aim.dots@.len() == if num_dots > 0 { num_dots as int } else { 0 },
        forall|i: int|
            0 <= i < aim.dots@.len() ==> (#[trigger] aim.dots@[i]).0 == dot_corner(
                cue_ball@.x + BALL_SIZE,
                pointer.0 * UNIT,
                cursor_size as int,
                i,
                num_dots as int,
            ) && aim.dots@[i].1 == dot_corner(
                cue_ball@.y + BALL_SIZE,
                pointer.1 * UNIT,
                cursor_size as int,
                i,
                num_dots as int,
            ),
{
    let mx: i64 = pointer.0 as i64 * UNIT;
    let my: i64 = pointer.1 as i64 * UNIT;
    let cbx: i64 = cue_ball.x + BALL_SIZE;
    let cby: i64 = cue_ball.y + BALL_SIZE;
    let mut dots: Vec<(i64, i64)> = Vec::new();
    let mut i: i32 = 0;
    while i < num_dots
        invariant
            0 <= i,
            i <= num_dots || i == 0,
            abs(cursor_size as int) <= COORD_MAX,
            abs(cbx as int) <= COORD_MAX + BALL_SIZE,
            abs(cby as int) <= COORD_MAX + BALL_SIZE,
            abs(mx as int) <= 0x8000_0000 * UNIT,
            abs(my as int) <= 0x8000_0000 * UNIT,
            dots@.len() == i,
            forall|k: int|
                0 <= k < i ==> (#[trigger] dots@[k]).0 == dot_corner(
                    cbx as int,
                    mx as int,
                    cursor_size as int,
                    k,
                    num_dots as int,
                ) && dots@[k].1 == dot_corner(
                    cby as int,
                    my as int,
                    cursor_size as int,
                    k,
                    num_dots as int,
                ),
        decreases num_dots - i,
    {
        let factor: i64 = ratio_of(i, num_dots);
        proof {
            lemma_lerp_between(UNIT as int, cursor_size as int, factor as int);
            lemma_lerp_between(cbx as int, mx as int, factor as int);
            lemma_lerp_between(cby as int, my as int, factor as int);
        }
        let size: i64 = lerp(UNIT, cursor_size, factor);
        let x: i64 = lerp(cbx, mx, factor) - size;
        let y: i64 = lerp(cby, my, factor) - size;
        dots.push((x, y));
        i += 1;
    }
    Aim { cursor: (mx - cursor_size, my - cursor_size), dots }
}

} // verus!
