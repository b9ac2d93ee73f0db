//! Fixed-point units and the integer arithmetic the simulation is built on.
//!
//! Lengths are whole numbers of sub-units, `UNIT` of them to one table unit;
//! speeds are sub-units per second. Division rounds toward zero, so that a
//! quantity and its negation are always treated alike.

use vstd::prelude::*;

verus! {

/// Sub-units in one table unit.
pub const UNIT: i64 = 65536;

/// Physics ticks in one second.
pub const TICKS_PER_SECOND: i64 = 60;

/// Radius of every ball.
pub const BALL_SIZE: i64 = 15 * UNIT;

/// Deceleration of a rolling ball, per second.
pub const FRICTION: i64 = 100 * UNIT;

/// Speed that friction takes from a rolling ball in one tick:
/// `FRICTION / TICKS_PER_SECOND`, rounded down.
pub const FRICTION_STEP: i64 = 109226;

/// Distance from the midpoint of an overlapping pair at which each of the
/// two balls is put back: one table unit more than the radius.
pub const SEPARATION: i64 = BALL_SIZE + UNIT;

/// Parts of a sub-unit in which the distance between two centres is
/// measured, so that dividing by it loses nothing that a sub-unit can
/// show.
pub const FINE: i64 = 0x1_0000_0000;

/// Largest magnitude of a velocity component.
pub const SPEED_MAX: i64 = 0x4000_0000;

/// Largest magnitude of a position coordinate.
pub const COORD_MAX: i64 = 0x100_0000_0000;

/// The magnitude of `v`.
pub open spec fn abs(v: int) -> int {
    if v < 0 {
        -v
    } else {
        v
    }
}

/// The quotient of `n` by a positive `d`, rounded toward zero.
pub open spec fn div_toward_zero(n: int, d: int) -> int
    recommends
        d > 0,
{
    if n >= 0 {
        n / d
    } else {
        -((-n) / d)
    }
}

/// `v` held between `lo` and `hi`.
pub open spec fn clamp(v: int, lo: int, hi: int) -> int
    recommends
        lo <= hi,
{
    if v < lo {
        lo
    } else if v > hi {
        hi
    } else {
        v
    }
}

/// `r` is the integer square root of `n`: the largest whole number whose
/// square does not exceed `n`.
pub open spec fn is_isqrt(n: int, r: int) -> bool {
    0 <= r && r * r <= n < (r + 1) * (r + 1)
}

/// The integer square root of `n`.
pub open spec fn isqrt(n: int) -> int
    recommends
        n >= 0,
{
    choose|r: int| is_isqrt(n, r)
}

/// A number has at most one integer square root.
pub proof fn lemma_isqrt_unique(n: int, r1: int, r2: int)
    requires
        is_isqrt(n, r1),
        is_isqrt(n, r2),
    ensures
        r1 == r2,
{
    if r1 < r2 {
        assert((r1 + 1) * (r1 + 1) <= r2 * r2) by (nonlinear_arith)
            requires
                0 <= r1 + 1 <= r2,
        ;
    } else if r2 < r1 {
        assert((r2 + 1) * (r2 + 1) <= r1 * r1) by (nonlinear_arith)
            requires
                0 <= r2 + 1 <= r1,
        ;
    }
}

/// Every number that is not negative has an integer square root.
pub proof fn lemma_isqrt_exists(n: int)
    requires
        n >= 0,
    ensures
        is_isqrt(n, isqrt(n)),
    decreases n,
{
    if n == 0 {
        assert(is_isqrt(0, 0));
    } else {
        lemma_isqrt_exists(n - 1);
        let r = isqrt(n - 1);
        if n < (r + 1) * (r + 1) {
            assert(is_isqrt(n, r));
        } else {
            assert((r + 1) * (r + 1) < (r + 2) * (r + 2)) by (nonlinear_arith)
                requires
                    0 <= r,
            ;
            assert(is_isqrt(n, r + 1));
        }
    }
}

/// The integer square root of zero is zero.
pub proof fn lemma_isqrt_zero()
    ensures
        isqrt(0) == 0,
{
    assert(is_isqrt(0, 0)) by (nonlinear_arith);
    lemma_isqrt_unique(0, 0, isqrt(0));
}

/// Whatever meets the definition is the integer square root.
pub proof fn lemma_isqrt_is(n: int, r: int)
    requires
        is_isqrt(n, r),
    ensures
        isqrt(n) == r,
{
    lemma_isqrt_unique(n, r, isqrt(n));
}

/// Rounding toward zero keeps the sign of the dividend, and the quotient's
/// magnitude is the quotient of the magnitudes.
pub proof fn lemma_div_toward_zero(n: int, d: int)
    requires
        d > 0,
    ensures
        abs(div_toward_zero(n, d)) == abs(n) / d,
        n >= 0 ==> div_toward_zero(n, d) >= 0,
        n <= 0 ==> div_toward_zero(n, d) <= 0,
        d * abs(div_toward_zero(n, d)) <= abs(n) < d * abs(div_toward_zero(n, d)) + d,
        div_toward_zero(-n, d) == -div_toward_zero(n, d),
{
    let a = abs(n);
    assert(a / d >= 0 && d * (a / d) <= a < d * (a / d) + d) by (nonlinear_arith)
        requires
            a >= 0,
            d > 0,
    ;
}

/// Scaling by a fraction that is at most one never lengthens a quantity
/// and never turns it round.
pub proof fn lemma_scale_shrinks(v: int, num: int, den: int)
    requires
        0 <= num <= den,
        den > 0,
    ensures
        abs(div_toward_zero(v * num, den)) <= abs(v),
        v >= 0 ==> div_toward_zero(v * num, den) >= 0,
        v <= 0 ==> div_toward_zero(v * num, den) <= 0,
{
    lemma_div_toward_zero(v * num, den);
    let a = abs(v);
    assert(abs(v * num) == a * num) by (nonlinear_arith)
        requires
            a == abs(v),
            num >= 0,
    ;
    assert((a * num) / den <= a) by (nonlinear_arith)
        requires
            a >= 0,
            0 <= num <= den,
            den > 0,
    ;
    assert(v >= 0 ==> v * num >= 0) by (nonlinear_arith)
        requires
            num >= 0,
    ;
    assert(v <= 0 ==> v * num <= 0) by (nonlinear_arith)
        requires
            num >= 0,
    ;
}

/// The integer square root of a sum of two squares is at least the
/// magnitude of either term.
pub proof fn lemma_isqrt_dominates(a: int, b: int)
    ensures
        abs(a) <= isqrt(a * a + b * b),
        abs(b) <= isqrt(a * a + b * b),
{
    let s = a * a + b * b;
    assert(a * a >= 0 && b * b >= 0 && abs(a) * abs(a) == a * a && abs(b) * abs(b) == b * b)
        by (nonlinear_arith);
    lemma_isqrt_exists(s);
    let r = isqrt(s);
    if abs(a) > r {
        assert(abs(a) * abs(a) >= (r + 1) * (r + 1)) by (nonlinear_arith)
            requires
                abs(a) >= r + 1,
                r >= 0,
        ;
    }
    if abs(b) > r {
        assert(abs(b) * abs(b) >= (r + 1) * (r + 1)) by (nonlinear_arith)
            requires
                abs(b) >= r + 1,
                r >= 0,
        ;
    }
}

/// The magnitude of `v` as an unsigned number.
pub fn magnitude(v: i64) -> (m: u64)
    ensures
        m == abs(v as int),
{
    if v >= 0 {
        v as u64
    } else {
        let below: i64 = -(v + 1);
        below as u64 + 1
    }
}

/// The integer square root of `n`.
pub fn isqrt_u128(n: u128) -> (r: u128)
    ensures
        r == isqrt(n as int),
        is_isqrt(n as int, r as int),
        r < 0x1_0000_0000_0000_0000,
{
    let mut lo: u128 = 0;
    let mut hi: u128 = 0x1_0000_0000_0000_0000;
    while hi - lo > 1
        invariant
            lo < hi <= 0x1_0000_0000_0000_0000,
            lo * lo <= n < hi * hi,
        decreases hi - lo,
    {
        let mid: u128 = lo + (hi - lo) / 2;
        assert(mid * mid < 0x1_0000_0000_0000_0000_0000_0000_0000_0000) by (nonlinear_arith)
            requires
                mid < 0x1_0000_0000_0000_0000,
        ;
        if mid * mid <= n {
            lo = mid;
        } else {
            hi = mid;
        }
    }
    proof {
        lemma_isqrt_is(n as int, lo as int);
    }
    lo
}

/// The integer square root of `n`.
pub fn isqrt_u64(n: u64) -> (r: u64)
    ensures
        r == isqrt(n as int),
        is_isqrt(n as int, r as int),
        r < 0x1_0000_0000,
{
    let r: u128 = isqrt_u128(n as u128);
    assert(r < 0x1_0000_0000) by (nonlinear_arith)
        requires
            r * r <= n,
            n < 0x1_0000_0000_0000_0000,
            0 <= r,
    ;
    r as u64
}

/// `v * num / den`, rounded toward zero, for a product beyond 64 bits.
pub fn scale_wide(v: i64, num: u128, den: u128) -> (r: i64)
    requires
        den > 0,
        abs(v as int) * num <= u128::MAX,
        (abs(v as int) * num) / (den as int) <= i64::MAX,
    ensures
        r == div_toward_zero(v * num, den as int),
{
    let m: u128 = magnitude(v) as u128;
    assert(m * num == abs(v as int) * num);
    let q: u128 = m * num / den;
    proof {
        if v >= 0 {
            assert(v * num == m * num);
        } else {
            assert(v * num == -(m * num)) by (nonlinear_arith)
                requires
                    m == -v,
            ;
        }
        assert(m * num >= 0) by (nonlinear_arith)
            requires
                m >= 0,
                num >= 0,
        ;
    }
    if v >= 0 {
        q as i64
    } else {
        -(q as i64)
    }
}

/// `v * num / den`, rounded toward zero.
pub fn scale(v: i64, num: u64, den: u64) -> (r: i64)
    requires
        den > 0,
        abs(v as int) * num <= i64::MAX,
    ensures
        r == div_toward_zero(v * num, den as int),
{
    proof {
        let product = abs(v as int) * num;
        assert(product / (den as int) <= product) by (nonlinear_arith)
            requires
                product >= 0,
                den > 0,
        ;
    }
    scale_wide(v, num as u128, den as u128)
}

} // verus!
