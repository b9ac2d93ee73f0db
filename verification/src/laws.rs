//! What holds of the simulation's steps for every ball and every state.

use vstd::prelude::*;
use crate::ball::{
    along, direction, fine_distance, lemma_along_bounded, lemma_fine_distance,
    lemma_response_bounded, slowed, transfer, BallView,
};
use crate::collision::Collision;
use crate::fixed::{
    abs, is_isqrt, isqrt, lemma_div_toward_zero, lemma_isqrt_dominates, lemma_isqrt_exists,
    lemma_isqrt_zero, lemma_scale_shrinks, div_toward_zero, BALL_SIZE, FINE, FRICTION_STEP,
    SEPARATION, UNIT,
};
use crate::state::{StateView, MAX_BALLS};

verus! {

/// Scaling the two parts of a vector of length `m` (rounded down) by
/// `n / m`, with `n < m`, leaves a vector of length at most `n`.
proof fn lemma_scaled_length(a: int, b: int, a2: int, b2: int, m: int, n: int)
    requires
        0 <= n < m,
        0 <= a2,
        0 <= b2,
        0 <= a,
        0 <= b,
        is_isqrt(a * a + b * b, m),
        m * a2 <= n * a,
        m * b2 <= n * b,
    ensures
        a2 * a2 + b2 * b2 < (n + 1) * (n + 1),
{
    let s = a * a + b * b;
    let s2 = a2 * a2 + b2 * b2;
    assert((m * a2) * (m * a2) <= (n * a) * (n * a)) by (nonlinear_arith)
        requires
            0 <= m * a2 <= n * a,
    ;
    assert((m * b2) * (m * b2) <= (n * b) * (n * b)) by (nonlinear_arith)
        requires
            0 <= m * b2 <= n * b,
    ;
    assert((m * a2) * (m * a2) + (m * b2) * (m * b2) == (m * m) * s2) by (nonlinear_arith)
        requires
            s2 == a2 * a2 + b2 * b2,
    ;
    assert((n * a) * (n * a) + (n * b) * (n * b) == (n * n) * s) by (nonlinear_arith)
        requires
            s == a * a + b * b,
    ;
    assert((n * n) * s <= (n * n) * ((m + 1) * (m + 1))) by (nonlinear_arith)
        requires
            s < (m + 1) * (m + 1),
    ;
    assert((n * n) * ((m + 1) * (m + 1)) == (m * n + n) * (m * n + n)) by (nonlinear_arith);
    if s2 >= (n + 1) * (n + 1) {
        assert((m * m) * s2 >= (m * m) * ((n + 1) * (n + 1))) by (nonlinear_arith)
            requires
                s2 >= (n + 1) * (n + 1),
        ;
        assert((m * m) * ((n + 1) * (n + 1)) == (m * n + m) * (m * n + m)) by (nonlinear_arith);
        assert((m * n + n) * (m * n + n) < (m * n + m) * (m * n + m)) by (nonlinear_arith)
            requires
                0 <= n < m,
        ;
    }
}

/// Where a vector `(p, q)` has length at least `n * m`, taking `m` from
/// each of its parts, or all of a part that is less than `m`, leaves a
/// vector of length at least `(n - 2) * m`.
proof fn lemma_shortened_length(p: int, q: int, m: int, n: int)
    requires
        2 <= n,
        0 < m,
        0 <= p,
        0 <= q,
        p * p + q * q >= (n * n) * (m * m),
    ensures
        ({
            let x = if p >= m { p - m } else { 0 };
            let y = if q >= m { q - m } else { 0 };
            x * x + y * y >= ((n - 2) * (n - 2)) * (m * m)
        }),
{
    let big = m * m;
    let s = p * p + q * q;
    let nb = n * big;
    let nnb = n * nb;
    let goal = ((n - 2) * (n - 2)) * big;
    assert(big > 0) by (nonlinear_arith)
        requires
            big == m * m,
            m > 0,
    ;
    assert(nb >= 2 * big && nnb >= 2 * nb) by (nonlinear_arith)
        requires
            nb == n * big,
            nnb == n * nb,
            n >= 2,
            big > 0,
    ;
    assert((n * n) * big == nnb && goal == nnb - 4 * nb + 4 * big) by (nonlinear_arith)
        requires
            nb == n * big,
            nnb == n * nb,
            goal == ((n - 2) * (n - 2)) * big,
    ;
    let e = s - nnb;
    if p >= m && q >= m {
        let t = p + q;
        let mt = m * t;
        let c = 4 * nb - 2 * big;
        let k = e + c;
        assert(t * t <= 2 * s) by (nonlinear_arith)
            requires
                s == p * p + q * q,
                t == p + q,
        ;
        assert((p - m) * (p - m) + (q - m) * (q - m) == s - 2 * mt + 2 * big) by (nonlinear_arith)
            requires
                s == p * p + q * q,
                t == p + q,
                mt == m * t,
                big == m * m,
        ;
        // it remains that k >= 2 * mt, which follows from k * k >= 8 * big * s >= (2 * mt)^2
        assert(k * k == e * e + 2 * (e * c) + c * c) by (nonlinear_arith)
            requires
                k == e + c,
        ;
        assert(e * c == 4 * (e * nb) - 2 * (e * big)) by (nonlinear_arith)
            requires
                c == 4 * nb - 2 * big,
        ;
        assert(c * c == 16 * (nb * nb) - 16 * (nb * big) + 4 * (big * big)) by (nonlinear_arith)
            requires
                c == 4 * nb - 2 * big,
        ;
        assert(big * s == e * big + nb * nb) by (nonlinear_arith)
            requires
                s == e + nnb,
                nnb == n * nb,
                nb == n * big,
        ;
        assert(e * nb >= 2 * (e * big) && nb * nb >= 2 * (nb * big) && big * big >= 0 && e * e
            >= 0 && e * big >= 0) by (nonlinear_arith)
            requires
                e >= 0,
                nb >= 2 * big,
                big > 0,
        ;
        assert(k * k >= 8 * (big * s));
        assert((2 * mt) * (2 * mt) == 4 * (big * (t * t))) by (nonlinear_arith)
            requires
                mt == m * t,
                big == m * m,
        ;
        assert(big * (t * t) <= 2 * (big * s)) by (nonlinear_arith)
            requires
                t * t <= 2 * s,
                big > 0,
        ;
        assert(mt >= 0) by (nonlinear_arith)
            requires
                mt == m * t,
                m > 0,
                t >= 0,
        ;
        if k < 2 * mt {
            assert(k * k < (2 * mt) * (2 * mt)) by (nonlinear_arith)
                requires
                    0 <= k < 2 * mt,
            ;
        }
    } else if p >= m {
        lemma_one_part_carries(p, q, m, n);
    } else if q >= m {
        lemma_one_part_carries(q, p, m, n);
    } else {
        assert(p * p < big && q * q < big) by (nonlinear_arith)
            requires
                0 <= p < m,
                0 <= q < m,
                big == m * m,
        ;
    }
}

/// Where a vector `(p, q)` has length at least `n * m` and `q` is less
/// than `m`, `p` less `m` is at least `(n - 2) * m`.
proof fn lemma_one_part_carries(p: int, q: int, m: int, n: int)
    requires
        2 <= n,
        0 < m,
        m <= p,
        0 <= q < m,
        p * p + q * q >= (n * n) * (m * m),
    ensures
        (p - m) * (p - m) >= ((n - 2) * (n - 2)) * (m * m),
{
    let big = m * m;
    let nb = n * big;
    let nnb = n * nb;
    let low = m * (n - 1);
    assert(big > 0 && q * q < big) by (nonlinear_arith)
        requires
            big == m * m,
            0 <= q < m,
    ;
    assert(nb >= 2 * big) by (nonlinear_arith)
        requires
            nb == n * big,
            n >= 2,
            big > 0,
    ;
    assert((n * n) * big == nnb && low * low == nnb - 2 * nb + big && low == m * (n - 2) + m
        && low >= 0) by (nonlinear_arith)
        requires
            nb == n * big,
            nnb == n * nb,
            big == m * m,
            low == m * (n - 1),
            m > 0,
            n >= 2,
    ;
    if p < low {
        assert(p * p < low * low) by (nonlinear_arith)
            requires
                0 <= p < low,
        ;
    }
    let rest = m * (n - 2);
    assert(rest >= 0 && rest * rest == ((n - 2) * (n - 2)) * big) by (nonlinear_arith)
        requires
            rest == m * (n - 2),
            big == m * m,
            m > 0,
            n >= 2,
    ;
    assert((p - m) * (p - m) >= rest * rest) by (nonlinear_arith)
        requires
            p - m >= rest,
            rest >= 0,
    ;
}

/// Scaling the two parts of a vector of length `m` (rounded down) by
/// `n / m`, each rounded down, leaves a vector of length at least `n - 2`.
proof fn lemma_scaled_length_at_least(a: int, b: int, a2: int, b2: int, m: int, n: int)
    requires
        2 <= n,
        0 < m,
        0 <= a2,
        0 <= b2,
        0 <= a,
        0 <= b,
        is_isqrt(a * a + b * b, m),
        n * a < m * a2 + m,
        n * b < m * b2 + m,
    ensures
        a2 * a2 + b2 * b2 >= (n - 2) * (n - 2),
{
    let p = n * a;
    let q = n * b;
    assert(p >= 0 && q >= 0) by (nonlinear_arith)
        requires
            p == n * a,
            q == n * b,
            n >= 0,
            a >= 0,
            b >= 0,
    ;
    assert(p * p + q * q == (n * n) * (a * a + b * b)) by (nonlinear_arith)
        requires
            p == n * a,
            q == n * b,
    ;
    assert((n * n) * (a * a + b * b) >= (n * n) * (m * m)) by (nonlinear_arith)
        requires
            a * a + b * b >= m * m,
    ;
    lemma_shortened_length(p, q, m, n);
    let x = if p >= m { p - m } else { 0 };
    let y = if q >= m { q - m } else { 0 };
    let u = m * a2;
    let v = m * b2;
    assert(u >= 0 && v >= 0) by (nonlinear_arith)
        requires
            u == m * a2,
            v == m * b2,
            m >= 0,
            a2 >= 0,
            b2 >= 0,
    ;
    assert(u * u >= x * x) by (nonlinear_arith)
        requires
            0 <= x <= u,
    ;
    assert(v * v >= y * y) by (nonlinear_arith)
        requires
            0 <= y <= v,
    ;
    let s2 = a2 * a2 + b2 * b2;
    assert(u * u + v * v == (m * m) * s2) by (nonlinear_arith)
        requires
            u == m * a2,
            v == m * b2,
            s2 == a2 * a2 + b2 * b2,
    ;
    let w = (n - 2) * (n - 2);
    assert((m * m) * s2 >= w * (m * m));
    assert(s2 >= w) by (nonlinear_arith)
        requires
            (m * m) * s2 >= w * (m * m),
            m > 0,
    ;
}

/// Friction slows a free ball and never turns it round. After one tick the
/// speed is the old speed less `FRICTION_STEP`, or less than that by at
/// most two sub-units of rounding, so it is strictly less while the ball
/// moves, and the ball still moves where friction leaves three sub-units
/// of speed or more; a ball no faster than `FRICTION_STEP` comes to rest,
/// and a ball at rest stays at rest; neither velocity component changes
/// its sign.
pub proof fn lemma_friction_slows(b: BallView)
    ensures
        slowed(b.speed()) - 2 <= b.advance().speed() <= slowed(b.speed()),
        b.speed() > 0 ==> b.advance().speed() < b.speed(),
        slowed(b.speed()) >= 3 ==> b.advance().speed() > 0,
        b.speed() <= FRICTION_STEP ==> b.advance().vx == 0 && b.advance().vy == 0,
        b.vx == 0 && b.vy == 0 ==> b.advance().vx == 0 && b.advance().vy == 0,
        b.vx >= 0 ==> b.advance().vx >= 0,
        b.vx <= 0 ==> b.advance().vx <= 0,
        b.vy >= 0 ==> b.advance().vy >= 0,
        b.vy <= 0 ==> b.advance().vy <= 0,
{
    let s = b.vx * b.vx + b.vy * b.vy;
    assert(s >= 0) by (nonlinear_arith)
        requires
            s == b.vx * b.vx + b.vy * b.vy,
    ;
    lemma_isqrt_exists(s);
    let m = b.speed();
    let n = slowed(m);
    let after = b.advance();
    lemma_isqrt_zero();
    if b.vx == 0 && b.vy == 0 {
        assert(s == 0) by (nonlinear_arith)
            requires
                b.vx == 0,
                b.vy == 0,
                s == b.vx * b.vx + b.vy * b.vy,
        ;
    }
    if n == 0 {
        assert(after.vx * after.vx + after.vy * after.vy == 0) by (nonlinear_arith)
            requires
                after.vx == 0,
                after.vy == 0,
        ;
    } else {
        lemma_scale_shrinks(b.vx, n, m);
        lemma_scale_shrinks(b.vy, n, m);
        lemma_div_toward_zero(b.vx * n, m);
        lemma_div_toward_zero(b.vy * n, m);
        let a = abs(b.vx);
        let c = abs(b.vy);
        let a2 = abs(after.vx);
        let c2 = abs(after.vy);
        assert(abs(b.vx * n) == n * a && abs(b.vy * n) == n * c) by (nonlinear_arith)
            requires
                a == abs(b.vx),
                c == abs(b.vy),
                n >= 0,
        ;
        assert(a * a + c * c == s && a2 * a2 + c2 * c2 == after.vx * after.vx + after.vy
            * after.vy) by (nonlinear_arith)
            requires
                a == abs(b.vx),
                c == abs(b.vy),
                a2 == abs(after.vx),
                c2 == abs(after.vy),
                s == b.vx * b.vx + b.vy * b.vy,
        ;
        lemma_scaled_length(a, c, a2, c2, m, n);
        let s2 = after.vx * after.vx + after.vy * after.vy;
        lemma_isqrt_exists(s2);
        let r = isqrt(s2);
        if r > n {
            assert(r * r >= (n + 1) * (n + 1)) by (nonlinear_arith)
                requires
                    r >= n + 1,
                    n >= 0,
            ;
        }
        if n >= 2 {
            lemma_scaled_length_at_least(a, c, a2, c2, m, n);
            if r < n - 2 {
                assert((r + 1) * (r + 1) <= (n - 2) * (n - 2)) by (nonlinear_arith)
                    requires
                        0 <= r + 1 <= n - 2,
                ;
            }
        }
    }
}

/// Friction keeps a moving ball's direction. Each velocity component after
/// a tick is the old one scaled by the ratio of the new speed to the old,
/// rounded toward zero; so the old and the new velocity are parallel but
/// for that rounding, which their cross product bounds, and neither
/// component changes its sign. Where friction leaves three sub-units of
/// speed or more, the new velocity is not zero and points the same way as
/// the old. (A ball no faster than `FRICTION_STEP` stops: the ratio is
/// zero.)
pub proof fn lemma_friction_keeps_direction(b: BallView)
    requires
        b.vx != 0 || b.vy != 0,
    ensures
        ({
            let m = b.speed();
            let n = slowed(m);
            let after = b.advance();
            &&& 0 <= n < m
            &&& m * abs(after.vx) <= n * abs(b.vx) < m * abs(after.vx) + m
            &&& m * abs(after.vy) <= n * abs(b.vy) < m * abs(after.vy) + m
            &&& (b.vx >= 0 ==> after.vx >= 0)
            &&& (b.vx <= 0 ==> after.vx <= 0)
            &&& (b.vy >= 0 ==> after.vy >= 0)
            &&& (b.vy <= 0 ==> after.vy <= 0)
            &&& abs(after.vx * b.vy - after.vy * b.vx) < abs(b.vx) + abs(b.vy)
            &&& n >= 3 ==> (after.vx != 0 || after.vy != 0) && after.vx * b.vx + after.vy * b.vy
                > 0
        }),
{
    let m = b.speed();
    let n = slowed(m);
    let after = b.advance();
    lemma_isqrt_dominates(b.vx, b.vy);
    lemma_friction_slows(b);
    if n >= 3 {
        lemma_isqrt_zero();
        if after.vx == 0 && after.vy == 0 {
            assert(after.vx * after.vx + after.vy * after.vy == 0) by (nonlinear_arith)
                requires
                    after.vx == 0,
                    after.vy == 0,
            ;
        }
        assert(after.vx * b.vx >= 0 && after.vy * b.vy >= 0 && (after.vx != 0 ==> after.vx * b.vx
            > 0) && (after.vy != 0 ==> after.vy * b.vy > 0)) by (nonlinear_arith)
            requires
                b.vx >= 0 ==> after.vx >= 0,
                b.vx <= 0 ==> after.vx <= 0,
                b.vy >= 0 ==> after.vy >= 0,
                b.vy <= 0 ==> after.vy <= 0,
        ;
    }
    let a = abs(b.vx);
    let c = abs(b.vy);
    let a2 = abs(after.vx);
    let c2 = abs(after.vy);
    if n == 0 {
        assert(0 * a == 0 && 0 * c == 0 && m * 0 == 0 && 0 * b.vy - 0 * b.vx == 0)
            by (nonlinear_arith);
    } else {
        lemma_scale_shrinks(b.vx, n, m);
        lemma_scale_shrinks(b.vy, n, m);
        lemma_div_toward_zero(b.vx * n, m);
        lemma_div_toward_zero(b.vy * n, m);
        assert(abs(b.vx * n) == n * a && abs(b.vy * n) == n * c) by (nonlinear_arith)
            requires
                a == abs(b.vx),
                c == abs(b.vy),
                n >= 0,
        ;
        let ex = n * a - m * a2;
        let ey = n * c - m * c2;
        assert(m * (a2 * c - c2 * a) == ey * a - ex * c) by (nonlinear_arith)
            requires
                ex == n * a - m * a2,
                ey == n * c - m * c2,
        ;
        assert(-(m * c) <= ey * a - ex * c <= m * a) by (nonlinear_arith)
            requires
                0 <= ex < m,
                0 <= ey < m,
                0 <= a,
                0 <= c,
        ;
        let cross = a2 * c - c2 * a;
        assert(-c <= cross <= a && (a == 0 ==> cross == 0) && (c == 0 ==> cross == 0))
            by (nonlinear_arith)
            requires
                -(m * c) <= m * cross <= m * a,
                m > 0,
                cross == a2 * c - c2 * a,
                0 <= a2 <= a,
                0 <= c2 <= c,
        ;
        assert(abs(after.vx * b.vy - after.vy * b.vx) == abs(cross)) by (nonlinear_arith)
            requires
                a == abs(b.vx),
                c == abs(b.vy),
                a2 == abs(after.vx),
                c2 == abs(after.vy),
                cross == a2 * c - c2 * a,
                b.vx >= 0 ==> after.vx >= 0,
                b.vx <= 0 ==> after.vx <= 0,
                b.vy >= 0 ==> after.vy >= 0,
                b.vy <= 0 ==> after.vy <= 0,
        ;
    }
}

/// A vector laid along a displacement has its length but for rounding: the
/// two parts of a vector of length `len` make a vector no shorter than
/// `len - 2` and shorter than `len + 1`.
pub proof fn lemma_along_length(len: int, dx: int, dy: int)
    requires
        dx != 0 || dy != 0,
        2 <= len < FINE,
    ensures
        ({
            let dist = fine_distance(dx, dy);
            let px = along(len, dx, dist);
            let py = along(len, dy, dist);
            (len - 2) * (len - 2) <= px * px + py * py < (len + 1) * (len + 1)
        }),
{
    let dist = fine_distance(dx, dy);
    let px = along(len, dx, dist);
    let py = along(len, dy, dist);
    lemma_fine_distance(dx, dy);
    lemma_along_bounded(len, dx, dist);
    lemma_along_bounded(len, dy, dist);
    let a = abs(dx) * FINE;
    let b = abs(dy) * FINE;
    let a2 = abs(px);
    let b2 = abs(py);
    assert(a * a + b * b == (dx * dx + dy * dy) * (FINE * FINE) && a2 * a2 + b2 * b2 == px * px
        + py * py && a >= 0 && b >= 0) by (nonlinear_arith)
        requires
            a == abs(dx) * FINE,
            b == abs(dy) * FINE,
            a2 == abs(px),
            b2 == abs(py),
            FINE > 0,
    ;
    assert(dist * a2 == dist * abs(px) && dist * b2 == dist * abs(py) && len * a == abs(len) * (
    abs(dx) * FINE) && len * b == abs(len) * (abs(dy) * FINE));
    lemma_scaled_length(a, b, a2, b2, dist, len);
    lemma_scaled_length_at_least(a, b, a2, b2, dist, len);
}

/// The part of a vector along a displacement is exact to the last
/// sub-unit: for a vector of length `len` and a displacement `(dx, dy)`,
/// the part on the first axis is `len * dx / length` within one sub-unit,
/// where `length` is the true distance. `d` is `dx` or its magnitude.
pub proof fn lemma_along_accurate(len: int, d: int, dx: int, dy: int)
    requires
        dx != 0 || dy != 0,
        abs(d) == abs(dx),
        abs(len) < FINE,
    ensures
        ({
            let t = abs(along(len, d, fine_distance(dx, dy)));
            let s = dx * dx + dy * dy;
            &&& (t + 1) * (t + 1) * s > (len * dx) * (len * dx)
            &&& t >= 1 ==> (t - 1) * (t - 1) * s < (len * dx) * (len * dx)
        }),
{
    let dist = fine_distance(dx, dy);
    let t = abs(along(len, d, dist));
    let s = dx * dx + dy * dy;
    lemma_fine_distance(dx, dy);
    lemma_along_bounded(len, d, dist);
    let big = abs(len) * abs(dx);
    let fine = big * FINE;
    let ff = FINE * FINE;
    assert(fine == abs(len) * (abs(d) * FINE) && big >= 0 && fine >= 0 && big * big == (len * dx)
        * (len * dx) && fine * fine == (big * big) * ff && ff > 0) by (nonlinear_arith)
        requires
            big == abs(len) * abs(dx),
            fine == big * FINE,
            ff == FINE * FINE,
            abs(d) == abs(dx),
            FINE > 0,
    ;
    // dist * t <= fine < dist * t + dist, and dist^2 <= s * ff < (dist + 1)^2
    let up = (t + 1) * dist;
    assert(up == dist * t + dist && up > fine && up * up > fine * fine && up * up == ((t + 1) * (t
        + 1)) * (dist * dist)) by (nonlinear_arith)
        requires
            up == (t + 1) * dist,
            dist * t <= fine < dist * t + dist,
            fine >= 0,
    ;
    assert(((t + 1) * (t + 1)) * (dist * dist) <= ((t + 1) * (t + 1)) * (s * ff))
        by (nonlinear_arith)
        requires
            dist * dist <= s * ff,
    ;
    let over = (t + 1) * (t + 1) * s;
    assert(((t + 1) * (t + 1)) * (s * ff) == over * ff) by (nonlinear_arith)
        requires
            over == (t + 1) * (t + 1) * s,
    ;
    assert((big * big) * ff < over * ff);
    assert(big * big < over) by (nonlinear_arith)
        requires
            (big * big) * ff < over * ff,
            ff > 0,
    ;
    if t >= 1 {
        let low = (t - 1) * (dist + 1);
        assert(low == dist * t + t - dist - 1 && low >= 0) by (nonlinear_arith)
            requires
                low == (t - 1) * (dist + 1),
                t >= 1,
                dist > 0,
        ;
        assert(low < fine);
        assert(low * low < fine * fine && low * low == ((t - 1) * (t - 1)) * ((dist + 1) * (dist
            + 1))) by (nonlinear_arith)
            requires
                0 <= low < fine,
                low == (t - 1) * (dist + 1),
        ;
        assert(((t - 1) * (t - 1)) * (s * ff) <= ((t - 1) * (t - 1)) * ((dist + 1) * (dist + 1)))
            by (nonlinear_arith)
            requires
                s * ff < (dist + 1) * (dist + 1),
        ;
        let under = (t - 1) * (t - 1) * s;
        assert(((t - 1) * (t - 1)) * (s * ff) == under * ff) by (nonlinear_arith)
            requires
                under == (t - 1) * (t - 1) * s,
        ;
        assert(under * ff < (big * big) * ff);
        assert(under < big * big) by (nonlinear_arith)
            requires
                under * ff < (big * big) * ff,
                ff > 0,
        ;
    }
}

/// The direction from one centre to another is a unit vector but for
/// rounding: its length is at least `UNIT - 2` and less than `UNIT + 1`.
pub proof fn lemma_direction_is_unit(dx: int, dy: int)
    requires
        dx != 0 || dy != 0,
    ensures
        ({
            let dist = fine_distance(dx, dy);
            let dirx = direction(dx, dist);
            let diry = direction(dy, dist);
            (UNIT - 2) * (UNIT - 2) <= dirx * dirx + diry * diry < (UNIT + 1) * (UNIT + 1)
        }),
{
    lemma_along_length(UNIT as int, dx, dy);
}

/// The velocity handed over on an axis is the relative velocity `dv` times
/// the magnitude of the true unit direction on that axis, `|dx| / length`,
/// within one sub-unit; and it has the sign of `dv`.
pub proof fn lemma_transfer_is_weighted(dx: int, dy: int, dv: int)
    requires
        dx != 0 || dy != 0,
        abs(dv) < FINE,
    ensures
        ({
            let t = transfer(dx, fine_distance(dx, dy), dv);
            let s = dx * dx + dy * dy;
            &&& (abs(t) + 1) * (abs(t) + 1) * s > (dv * dx) * (dv * dx)
            &&& abs(t) >= 1 ==> (abs(t) - 1) * (abs(t) - 1) * s < (dv * dx) * (dv * dx)
            &&& abs(t) <= abs(dv)
            &&& (dv >= 0 ==> t >= 0)
            &&& (dv <= 0 ==> t <= 0)
        }),
{
    lemma_along_accurate(dv, abs(dx), dx, dy);
    lemma_fine_distance(dx, dy);
    lemma_along_bounded(dv, abs(dx), fine_distance(dx, dy));
}

/// A contact, once resolved, leaves its two centres twice `SEPARATION`
/// apart, within four sub-units. So the two balls no longer overlap, and a
/// pair stays in contact over several ticks only where something else, a
/// wall or another ball, pushes the two together again.
pub proof fn lemma_contact_separates(a: BallView, b: BallView, active: bool)
    requires
        a.contact(b, active) is Some,
    ensures
        ({
            let r = a.contact(b, active)->0;
            let ex = a.give(r).x - b.take(r).x;
            let ey = a.give(r).y - b.take(r).y;
            &&& (2 * SEPARATION - 4) * (2 * SEPARATION - 4) <= ex * ex + ey * ey
            &&& ex * ex + ey * ey <= (2 * SEPARATION + 4) * (2 * SEPARATION + 4)
            &&& !a.give(r).overlaps(b.take(r))
        }),
{
    let r = a.contact(b, active)->0;
    let dx = a.x - b.x;
    let dy = a.y - b.y;
    let dist = a.distance(b);
    let sx = along(SEPARATION as int, dx, dist);
    let sy = along(SEPARATION as int, dy, dist);
    lemma_fine_distance(dx, dy);
    lemma_along_length(SEPARATION as int, dx, dy);
    lemma_along_bounded(SEPARATION as int, dx, dist);
    lemma_along_bounded(SEPARATION as int, dy, dist);
    lemma_div_toward_zero(dx, 2);
    lemma_div_toward_zero(dy, 2);
    let ex = a.give(r).x - b.take(r).x;
    let ey = a.give(r).y - b.take(r).y;
    assert(ex == (dx - 2 * div_toward_zero(dx, 2)) + 2 * sx);
    assert(ey == (dy - 2 * div_toward_zero(dy, 2)) + 2 * sy);
    let ux = abs(sx);
    let uy = abs(sy);
    assert(2 * ux <= abs(ex) <= 2 * ux + 1);
    assert(2 * uy <= abs(ey) <= 2 * uy + 1);
    assert(4 * (ux * ux) <= ex * ex <= 4 * (ux * ux) + 4 * ux + 1) by (nonlinear_arith)
        requires
            0 <= 2 * ux <= abs(ex) <= 2 * ux + 1,
    ;
    assert(4 * (uy * uy) <= ey * ey <= 4 * (uy * uy) + 4 * uy + 1) by (nonlinear_arith)
        requires
            0 <= 2 * uy <= abs(ey) <= 2 * uy + 1,
    ;
    assert(ux * ux == sx * sx && uy * uy == sy * sy) by (nonlinear_arith)
        requires
            ux == abs(sx),
            uy == abs(sy),
    ;
    let sep = SEPARATION as int;
    assert(4 * ((sep - 2) * (sep - 2)) == (2 * sep - 4) * (2 * sep - 4) && 4 * ((sep + 1) * (sep
        + 1)) + 8 * sep + 2 <= (2 * sep + 4) * (2 * sep + 4) && (2 * sep - 4) * (2 * sep - 4) >= (
    2 * BALL_SIZE) * (2 * BALL_SIZE)) by (nonlinear_arith)
        requires
            sep == 16 * 65536,
            BALL_SIZE == 15 * 65536,
    ;
}

/// Resolving a pair hands velocity from one ball to the other: what the
/// first ball loses on an axis, the second gains. The same holds of the
/// positional correction, so the pair's midpoint stays where it was.
pub proof fn lemma_resolve_conserves(s: StateView, key: Collision)
    requires
        s.names_pair(key),
    ensures
        ({
            let t = s.resolve(key);
            &&& t.first(key).vx - s.first(key).vx == -(t.second(key).vx - s.second(key).vx)
            &&& t.first(key).vy - s.first(key).vy == -(t.second(key).vy - s.second(key).vy)
            &&& t.first(key).x - s.first(key).x == -(t.second(key).x - s.second(key).x)
            &&& t.first(key).y - s.first(key).y == -(t.second(key).y - s.second(key).y)
        }),
{
}

/// A pair that is active already exchanges no velocity when it is resolved
/// again: at most the positions of its two balls change.
pub proof fn lemma_resolve_active_keeps_velocity(s: StateView, key: Collision)
    requires
        s.names_pair(key),
        s.active.contains(key),
    ensures
        ({
            let t = s.resolve(key);
            &&& t.first(key).vx == s.first(key).vx
            &&& t.first(key).vy == s.first(key).vy
            &&& t.second(key).vx == s.second(key).vx
            &&& t.second(key).vy == s.second(key).vy
        }),
{
}

/// After a pair is resolved it is active exactly if its balls were found
/// in contact: overlapping, with different centres. No other pair's
/// activity changes, and no ball outside the pair is touched.
pub proof fn lemma_resolve_marks_contact(s: StateView, key: Collision)
    requires
        s.names_pair(key),
    ensures
        ({
            let t = s.resolve(key);
            &&& t.active.contains(key) <==> s.first(key).overlaps(s.second(key)) && !s.first(
                key,
            ).coincides(s.second(key))
            &&& forall|other: Collision|
                other != key ==> (t.active.contains(other) <==> s.active.contains(other))
            &&& t.balls.len() == s.balls.len()
            &&& forall|k: int|
                0 <= k < s.balls.len() && !key.involves(k) ==> t.balls[k] == s.balls[k]
            &&& key is TwoBalls ==> t.cue == s.cue
            &&& t.bounds == s.bounds
        }),
{
}

/// A pair found in contact does not overlap once it is resolved.
pub proof fn lemma_resolve_separates(s: StateView, key: Collision)
    requires
        s.names_pair(key),
        s.first(key).overlaps(s.second(key)),
        !s.first(key).coincides(s.second(key)),
    ensures
        !s.resolve(key).first(key).overlaps(s.resolve(key).second(key)),
{
    lemma_contact_separates(s.first(key), s.second(key), s.active.contains(key));
}

/// Balls that share one centre are not in contact: resolving such a pair
/// changes neither ball, and leaves the pair inactive.
pub proof fn lemma_resolve_same_centre(s: StateView, key: Collision)
    requires
        s.names_pair(key),
        s.first(key).coincides(s.second(key)),
    ensures
        s.resolve(key).balls == s.balls,
        s.resolve(key).cue == s.cue,
        !s.resolve(key).active.contains(key),
{
}

/// Resolving the pairs of object ball `i` neither adds nor removes a ball.
pub proof fn lemma_pairs_of_len(s: StateView, i: int, upto: int)
    requires
        0 <= i < upto <= s.balls.len() <= MAX_BALLS,
    ensures
        s.pairs_of(i, upto).balls.len() == s.balls.len(),
    decreases upto - i,
{
    if upto > i + 1 {
        lemma_pairs_of_len(s, i, upto - 1);
    }
}

/// Resolving the pairs of object ball `i` changes the activity of no other
/// pair.
pub proof fn lemma_pairs_of_keeps(s: StateView, i: int, upto: int, k: Collision)
    requires
        0 <= i < upto <= s.balls.len() <= MAX_BALLS,
        k != Collision::CueBall(i as usize),
        !(k matches Collision::TwoBalls(a, b) && a == i && i < b < upto),
    ensures
        s.pairs_of(i, upto).active.contains(k) == s.active.contains(k),
    decreases upto - i,
{
    if upto > i + 1 {
        lemma_pairs_of_keeps(s, i, upto - 1, k);
    }
}

/// Once a pair of object ball `i` is resolved, the pairs resolved after it
/// in the same turn do not change its activity.
pub proof fn lemma_pairs_of_later(s: StateView, i: int, from: int, upto: int, k: Collision)
    requires
        0 <= i < from <= upto <= s.balls.len() <= MAX_BALLS,
        !(k matches Collision::TwoBalls(a, b) && a == i && from <= b < upto),
    ensures
        s.pairs_of(i, upto).active.contains(k) == s.pairs_of(i, from).active.contains(k),
    decreases upto - from,
{
    if upto > from {
        lemma_pairs_of_later(s, i, from, upto - 1, k);
    }
}

/// The turns of a tick neither add nor remove a ball.
pub proof fn lemma_turns_len(s: StateView, count: int)
    requires
        0 <= count <= s.balls.len() <= MAX_BALLS,
    ensures
        s.turns(count).balls.len() == s.balls.len(),
    decreases count,
{
    if count > 0 {
        lemma_turns_len(s, count - 1);
        lemma_pairs_of_len(s.turns(count - 1), count - 1, s.balls.len() as int);
    }
}

/// The turns of the object balls from `from` up to, and without, `count`
/// change the activity of no pair but those of these balls.
pub proof fn lemma_turns_keep(s: StateView, from: int, count: int, k: Collision)
    requires
        0 <= from <= count <= s.balls.len() <= MAX_BALLS,
        !(k matches Collision::CueBall(c) && from <= c < count),
        !(k matches Collision::TwoBalls(a, b) && from <= a < count && a < b < s.balls.len()),
    ensures
        s.turns(count).active.contains(k) == s.turns(from).active.contains(k),
    decreases count - from,
{
    if count > from {
        lemma_turns_keep(s, from, count - 1, k);
        lemma_turns_len(s, count - 1);
        lemma_pairs_of_keeps(s.turns(count - 1), count - 1, s.balls.len() as int, k);
    }
}

/// A tick tests each pair once, and nothing else in the tick touches that
/// pair's activity. So a pair is active when it comes to be tested exactly
/// if it was active when the tick began; it is active after the tick
/// exactly if it was then found in contact; and where it was active
/// before, the test changes neither ball's velocity: the pair only gets
/// its positional correction.
pub proof fn lemma_tick_tests_pair_once(s: StateView, k: Collision)
    requires
        s.balls.len() <= MAX_BALLS,
        s.tests(k),
    ensures
        ({
            let at = s.before_pair(k);
            let done = at.resolve(k);
            &&& at.names_pair(k)
            &&& s.after_pair(k) == done
            &&& at.active.contains(k) == s.active.contains(k)
            &&& s.tick().active.contains(k) == done.active.contains(k)
            &&& s.tick().active.contains(k) <==> at.first(k).overlaps(at.second(k)) && !at.first(
                k,
            ).coincides(at.second(k))
            &&& s.active.contains(k) ==> {
                &&& done.first(k).vx == at.first(k).vx
                &&& done.first(k).vy == at.first(k).vy
                &&& done.second(k).vx == at.second(k).vx
                &&& done.second(k).vy == at.second(k).vy
            }
        }),
{
    let n = s.balls.len() as int;
    let start = s.advance_all();
    let at = s.before_pair(k);
    match k {
        Collision::CueBall(c) => {
            let i = c as int;
            lemma_turns_len(start, i);
            lemma_turns_keep(start, 0, i, k);
            lemma_turns_keep(start, i + 1, n, k);
            lemma_pairs_of_later(at, i, i + 1, n, k);
        },
        Collision::TwoBalls(a, b) => {
            let i = a as int;
            let j = b as int;
            let turned = start.turns(i);
            lemma_turns_len(start, i);
            lemma_turns_keep(start, 0, i, k);
            lemma_pairs_of_len(turned, i, j);
            lemma_pairs_of_keeps(turned, i, j, k);
            lemma_turns_keep(start, i + 1, n, k);
            lemma_pairs_of_later(turned, i, j + 1, n, k);
        },
    }
    lemma_resolve_marks_contact(at, k);
    if s.active.contains(k) {
        lemma_resolve_active_keeps_velocity(at, k);
    }
}

/// Friction shortens every velocity component that is not zero: a ball no
/// faster than `c` on either axis is, one tick later, no faster than
/// `c - 1`, or at rest where `c` is zero.
pub proof fn lemma_friction_shortens(b: BallView, c: int)
    requires
        0 <= c,
        b.no_faster_than(c),
    ensures
        b.advance().no_faster_than(if c >= 1 { c - 1 } else { 0 }),
{
    let m = b.speed();
    let n = slowed(m);
    lemma_isqrt_dominates(b.vx, b.vy);
    if n != 0 {
        lemma_div_toward_zero(b.vx * n, m);
        lemma_div_toward_zero(b.vy * n, m);
        let after = b.advance();
        assert(abs(b.vx * n) == n * abs(b.vx) && abs(b.vy * n) == n * abs(b.vy)) by (nonlinear_arith)
            requires
                n >= 0,
        ;
        assert(abs(b.vx) >= 1 ==> abs(after.vx) < abs(b.vx)) by (nonlinear_arith)
            requires
                m * abs(after.vx) <= n * abs(b.vx),
                0 <= n < m,
                abs(after.vx) >= 0,
        ;
        assert(abs(b.vy) >= 1 ==> abs(after.vy) < abs(b.vy)) by (nonlinear_arith)
            requires
                m * abs(after.vy) <= n * abs(b.vy),
                0 <= n < m,
                abs(after.vy) >= 0,
        ;
        assert(abs(b.vx) == 0 ==> abs(after.vx) == 0) by (nonlinear_arith)
            requires
                m * abs(after.vx) <= n * abs(b.vx),
                m > 0,
                abs(after.vx) >= 0,
        ;
        assert(abs(b.vy) == 0 ==> abs(after.vy) == 0) by (nonlinear_arith)
            requires
                m * abs(after.vy) <= n * abs(b.vy),
                m > 0,
                abs(after.vy) >= 0,
        ;
    }
}

/// Resolving a pair makes no ball faster on an axis than the faster of the
/// pair was: a simulation no faster than `c` stays so.
pub proof fn lemma_resolve_no_faster(s: StateView, key: Collision, c: int)
    requires
        s.names_pair(key),
        s.no_faster_than(c),
    ensures
        s.resolve(key).no_faster_than(c),
        s.resolve(key).balls.len() == s.balls.len(),
{
    let a = s.first(key);
    let b = s.second(key);
    if a.contact(b, s.active.contains(key)) is Some {
        lemma_response_bounded(a, b);
    }
}

/// The pairs of an object ball make no ball faster than the fastest was.
pub proof fn lemma_pairs_of_no_faster(s: StateView, i: int, upto: int, c: int)
    requires
        0 <= i < upto <= s.balls.len() <= MAX_BALLS,
        s.no_faster_than(c),
    ensures
        s.pairs_of(i, upto).no_faster_than(c),
        s.pairs_of(i, upto).balls.len() == s.balls.len(),
    decreases upto - i,
{
    if upto <= i + 1 {
        lemma_resolve_no_faster(s, Collision::CueBall(i as usize), c);
    } else {
        lemma_pairs_of_no_faster(s, i, upto - 1, c);
        lemma_resolve_no_faster(
            s.pairs_of(i, upto - 1),
            Collision::TwoBalls(i as usize, (upto - 1) as usize),
            c,
        );
    }
}

/// The turns of a tick make no ball faster than the fastest was.
pub proof fn lemma_turns_no_faster(s: StateView, count: int, c: int)
    requires
        0 <= count <= s.balls.len() <= MAX_BALLS,
        s.no_faster_than(c),
    ensures
        s.turns(count).no_faster_than(c),
        s.turns(count).balls.len() == s.balls.len(),
    decreases count,
{
    if count > 0 {
        lemma_turns_no_faster(s, count - 1, c);
        let before = s.turns(count - 1);
        lemma_pairs_of_no_faster(before, count - 1, s.balls.len() as int, c);
        let paired = before.pairs_of(count - 1, s.balls.len() as int);
        assert forall|k: int| 0 <= k < s.balls.len() implies (#[trigger] s.turns(count).balls[k])
            .no_faster_than(c) by {
            assert(paired.balls[k].no_faster_than(c));
        }
    }
}

/// A tick slows the fastest ball: where no velocity component exceeds `c`
/// before a tick, none exceeds `c - 1` after it, or all are zero where `c`
/// is zero. Only friction changes speeds for good; pairs and walls hand
/// them on or turn them round.
pub proof fn lemma_tick_slows(s: StateView, c: int)
    requires
        s.balls.len() <= MAX_BALLS,
        0 <= c,
        s.no_faster_than(c),
    ensures
        s.tick().no_faster_than(if c >= 1 { c - 1 } else { 0 }),
        s.tick().balls.len() == s.balls.len(),
{
    let less = if c >= 1 { c - 1 } else { 0 };
    let start = s.advance_all();
    lemma_friction_shortens(s.cue, c);
    assert forall|k: int| 0 <= k < s.balls.len() implies (#[trigger] start.balls[k]).no_faster_than(
        less,
    ) by {
        assert(s.balls[k].no_faster_than(c));
        lemma_friction_shortens(s.balls[k], c);
    }
    lemma_turns_no_faster(start, s.balls.len() as int, less);
    let turned = start.turns(s.balls.len() as int);
    assert forall|k: int| 0 <= k < s.balls.len() implies (#[trigger] s.tick().balls[k])
        .no_faster_than(less) by {
        assert(turned.balls[k].no_faster_than(less));
    }
}

/// A simulation at rest stays at rest: a tick gives no ball a velocity.
/// (It may still move balls that overlap apart.)
pub proof fn lemma_rest_stays(s: StateView)
    requires
        s.balls.len() <= MAX_BALLS,
        s.at_rest(),
    ensures
        s.tick().at_rest(),
{
    assert forall|k: int| 0 <= k < s.balls.len() implies (#[trigger] s.balls[k]).no_faster_than(
        0,
    ) by {
        assert(s.balls[k].vx == 0 && s.balls[k].vy == 0);
    }
    lemma_tick_slows(s, 0);
    assert forall|k: int| 0 <= k < s.tick().balls.len() implies (#[trigger] s.tick().balls[k]).vx
        == 0 && s.tick().balls[k].vy == 0 by {
        assert(s.tick().balls[k].no_faster_than(0));
    }
}

/// Every simulation comes to rest, and stays there: where no velocity
/// component exceeds `c`, all balls are at rest after `c` ticks and after
/// every later tick.
pub proof fn lemma_comes_to_rest(s: StateView, c: int, count: int)
    requires
        s.balls.len() <= MAX_BALLS,
        0 <= c <= count,
        s.no_faster_than(c),
    ensures
        s.ticks(count).at_rest(),
        s.ticks(count).balls.len() == s.balls.len(),
{
    lemma_ticks_slow(s, c, count);
    let end = s.ticks(count);
    assert forall|k: int| 0 <= k < end.balls.len() implies (#[trigger] end.balls[k]).vx == 0
        && end.balls[k].vy == 0 by {
        assert(end.balls[k].no_faster_than(0));
    }
}

/// After `count` ticks no velocity component exceeds what `count` losses of
/// one sub-unit leave of `c`.
pub proof fn lemma_ticks_slow(s: StateView, c: int, count: int)
    requires
        s.balls.len() <= MAX_BALLS,
        0 <= c,
        0 <= count,
        s.no_faster_than(c),
    ensures
        s.ticks(count).no_faster_than(if c >= count { c - count } else { 0 }),
        s.ticks(count).balls.len() == s.balls.len(),
    decreases count,
{
    if count > 0 {
        lemma_ticks_slow(s, c, count - 1);
        lemma_tick_slows(s.ticks(count - 1), if c >= count - 1 { c - (count - 1) } else { 0 });
    }
}

} // verus!
