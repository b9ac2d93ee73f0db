//! One ball: its state, its motion under friction and its meeting with
//! walls and with other balls.

use vstd::prelude::*;
use crate::fixed::{
    abs, div_toward_zero, is_isqrt, isqrt, isqrt_u128, isqrt_u64, lemma_div_toward_zero,
    lemma_isqrt_dominates, lemma_isqrt_exists, lemma_scale_shrinks, magnitude, scale, scale_wide,
    BALL_SIZE, COORD_MAX, FINE, FRICTION_STEP, SEPARATION, SPEED_MAX, TICKS_PER_SECOND, UNIT,
};
use crate::collision::Collision;
use crate::table::{Bounds, Table, Wall};

verus! {

/// Further than any ball travels on one axis by its own motion in a tick.
pub const OVERSHOOT: i64 = 0x200_0000;

/// Further than any collision moves a ball on one axis.
pub const REACH: i64 = 0x20_0000;

/// A ball as the contracts see it: position and velocity as unbounded
/// integers.
pub struct BallView {
    pub x: int,
    pub y: int,
    pub vx: int,
    pub vy: int,
}

/// What a collision takes from one ball and gives to the other: a change of
/// velocity and a change of position, each with its `x` and its `y` part.
pub type Response = ((int, int), (int, int));

/// The speed that friction leaves of the speed `m` after one tick.
pub open spec fn slowed(m: int) -> int {
    if m > FRICTION_STEP {
        m - FRICTION_STEP
    } else {
        0
    }
}

/// The distance between two centres that are `(dx, dy)` apart, in
/// `FINE`-ths of a sub-unit, rounded down.
pub open spec fn fine_distance(dx: int, dy: int) -> int {
    isqrt((dx * dx + dy * dy) * (FINE * FINE))
}

/// The part on one axis of a vector of length `len` that points along a
/// displacement: `d` is the displacement's part on that axis, `dist` its
/// length in `FINE`-ths of a sub-unit. This is `len * d / length` in one
/// division, so that only the last sub-unit is rounded.
pub open spec fn along(len: int, d: int, dist: int) -> int {
    div_toward_zero(len * d * FINE, dist)
}

/// One component of the unit vector along a displacement. The unit length
/// is `UNIT`.
pub open spec fn direction(d: int, dist: int) -> int {
    along(UNIT as int, d, dist)
}

/// The velocity handed over on one axis: the relative velocity `dv` on that
/// axis, weighted by the magnitude of the unit direction on it.
pub open spec fn transfer(d: int, dist: int, dv: int) -> int {
    along(dv, abs(d), dist)
}

/// The positional correction on one axis: half the displacement `d`, less
/// the distance `SEPARATION` taken along the direction.
pub open spec fn offset(d: int, dist: int) -> int {
    div_toward_zero(d, 2) - along(SEPARATION as int, d, dist)
}

impl BallView {
    /// Neither velocity component exceeds `c` in magnitude.
    pub open spec fn no_faster_than(self, c: int) -> bool {
        abs(self.vx) <= c && abs(self.vy) <= c
    }

    /// Neither velocity component exceeds `SPEED_MAX` in magnitude.
    pub open spec fn speed_bounded(self) -> bool {
        abs(self.vx) <= SPEED_MAX && abs(self.vy) <= SPEED_MAX
    }

    /// Neither coordinate exceeds `COORD_MAX` in magnitude.
    pub open spec fn in_range(self) -> bool {
        abs(self.x) <= COORD_MAX && abs(self.y) <= COORD_MAX
    }

    /// The ball after it has met `wall`: its velocity across the wall points
    /// back into the table, and its position is no further out than the
    /// wall's coordinate.
    pub open spec fn reflect(self, wall: Wall) -> BallView {
        match wall {
            Wall::East(num) => BallView {
                vx: -abs(self.vx),
                x: if self.x > num { num as int } else { self.x },
                ..self
            },
            Wall::North(num) => BallView {
                vy: abs(self.vy),
                y: if self.y < num { num as int } else { self.y },
                ..self
            },
            Wall::South(num) => BallView {
                vy: -abs(self.vy),
                y: if self.y > num { num as int } else { self.y },
                ..self
            },
            Wall::West(num) => BallView {
                vx: abs(self.vx),
                x: if self.x < num { num as int } else { self.x },
                ..self
            },
        }
    }

    /// The ball after every wall that it has crossed has turned it back.
    /// The two axes are independent: a ball in a corner is corrected on
    /// both.
    pub open spec fn keep_within(self, bounds: Bounds) -> BallView {
        BallView {
            x: if self.x < bounds.left {
                bounds.left
            } else if self.x > bounds.right {
                bounds.right
            } else {
                self.x
            },
            y: if self.y < bounds.top {
                bounds.top
            } else if self.y > bounds.bottom {
                bounds.bottom
            } else {
                self.y
            },
            vx: if self.x < bounds.left {
                abs(self.vx)
            } else if self.x > bounds.right {
                -abs(self.vx)
            } else {
                self.vx
            },
            vy: if self.y < bounds.top {
                abs(self.vy)
            } else if self.y > bounds.bottom {
                -abs(self.vy)
            } else {
                self.vy
            },
        }
    }

    /// The ball less what a collision takes from it.
    pub open spec fn give(self, r: Response) -> BallView {
        BallView {
            x: self.x - r.1.0,
            y: self.y - r.1.1,
            vx: self.vx - r.0.0,
            vy: self.vy - r.0.1,
        }
    }

    /// The ball with what a collision gives to it.
    pub open spec fn take(self, r: Response) -> BallView {
        BallView {
            x: self.x + r.1.0,
            y: self.y + r.1.1,
            vx: self.vx + r.0.0,
            vy: self.vy + r.0.1,
        }
    }

    /// The position lies within `bounds`, or outside by no more than
    /// `margin`.
    pub open spec fn within(self, bounds: Bounds, margin: int) -> bool {
        &&& bounds.left - margin <= self.x <= bounds.right + margin
        &&& bounds.top - margin <= self.y <= bounds.bottom + margin
    }

    /// The ball's speed: the length of its velocity, rounded down.
    pub open spec fn speed(self) -> int {
        isqrt(self.vx * self.vx + self.vy * self.vy)
    }

    /// The ball one tick later, had it met nothing: moved by its velocity,
    /// then slowed by friction along its direction of travel.
    pub open spec fn advance(self) -> BallView {
        let m = self.speed();
        BallView {
            x: self.x + div_toward_zero(self.vx, TICKS_PER_SECOND as int),
            y: self.y + div_toward_zero(self.vy, TICKS_PER_SECOND as int),
            vx: if slowed(m) == 0 {
                0
            } else {
                div_toward_zero(self.vx * slowed(m), m)
            },
            vy: if slowed(m) == 0 {
                0
            } else {
                div_toward_zero(self.vy * slowed(m), m)
            },
        }
    }

    /// The two balls overlap: their centres are less than two radii apart.
    pub open spec fn overlaps(self, other: BallView) -> bool {
        (self.x - other.x) * (self.x - other.x) + (self.y - other.y) * (self.y - other.y) < (2
            * BALL_SIZE) * (2 * BALL_SIZE)
    }

    /// The two balls have the same centre, so no direction leads from one
    /// to the other.
    pub open spec fn coincides(self, other: BallView) -> bool {
        self.x == other.x && self.y == other.y
    }

    /// The distance between the two centres, in `FINE`-ths of a sub-unit,
    /// rounded down.
    pub open spec fn distance(self, other: BallView) -> int {
        fine_distance(self.x - other.x, self.y - other.y)
    }

    /// What a collision of this ball with `other` takes from this ball and
    /// gives to `other`.
    pub open spec fn response(self, other: BallView) -> Response {
        let dpx = self.x - other.x;
        let dpy = self.y - other.y;
        let dist = self.distance(other);
        (
            (transfer(dpx, dist, self.vx - other.vx), transfer(dpy, dist, self.vy - other.vy)),
            (offset(dpx, dist), offset(dpy, dist)),
        )
    }

    /// What is to be done about this ball and `other`: nothing where they do
    /// not overlap or share one centre; else the collision's response, with
    /// no velocity handed over where the pair was `active` already.
    pub open spec fn contact(self, other: BallView, active: bool) -> Option<Response> {
        if self.overlaps(other) && !self.coincides(other) {
            let r = self.response(other);
            Some((if active { (0int, 0int) } else { r.0 }, r.1))
        } else {
            None
        }
    }
}

/// A circular body of radius `BALL_SIZE`. Its position is the top-left corner
/// of its bounding square, so its centre lies one radius further right and
/// down.
#[derive(Clone, Copy, Debug)]
pub struct Ball {
    pub x: i64,
    pub y: i64,
    pub vx: i64,
    pub vy: i64,
}

impl View for Ball {
    type V = BallView;

    open spec fn view(&self) -> BallView {
        BallView { x: self.x as int, y: self.y as int, vx: self.vx as int, vy: self.vy as int }
    }
}

impl Ball {
    /// Velocity and position are within the limits of the arithmetic.
    pub open spec fn wf(&self) -> bool {
        self@.speed_bounded() && self@.in_range()
    }

    /// Whether velocity and position are within the limits of the
    /// arithmetic.
    pub fn is_wf(&self) -> (ok: bool)
        ensures
            ok == self.wf(),
    {
        -SPEED_MAX <= self.vx && self.vx <= SPEED_MAX && -SPEED_MAX <= self.vy && self.vy
            <= SPEED_MAX && -COORD_MAX <= self.x && self.x <= COORD_MAX && -COORD_MAX <= self.y
            && self.y <= COORD_MAX
    }

    /// Whether the ball lies within the bounds of `table` with a bounded
    /// velocity.
    pub fn is_on(&self, table: &Table) -> (ok: bool)
        requires
            table.wf(),
        ensures
            ok == (self@.speed_bounded() && self@.within(table@, 0)),
    {
        -SPEED_MAX <= self.vx && self.vx <= SPEED_MAX && -SPEED_MAX <= self.vy && self.vy
            <= SPEED_MAX && table.left_wall() <= self.x && self.x <= table.right_wall()
            && table.top_wall() <= self.y && self.y <= table.bottom_wall()
    }

    /// Moves the ball by one tick of its velocity, then lets friction slow
    /// it: the speed drops by `FRICTION_STEP`, or to rest, and the direction
    /// stays.
    pub fn process(&mut self)
        requires
            old(self).wf(),
        ensures
            final(self)@ == old(self)@.advance(),
            final(self)@.speed_bounded(),
            abs(final(self)@.vx) <= abs(old(self)@.vx),
            abs(final(self)@.vy) <= abs(old(self)@.vy),
    {
        let step_x: i64 = scale(self.vx, 1, TICKS_PER_SECOND as u64);
        let step_y: i64 = scale(self.vy, 1, TICKS_PER_SECOND as u64);
        proof {
            lemma_scale_shrinks(self.vx as int, 1, TICKS_PER_SECOND as int);
            lemma_scale_shrinks(self.vy as int, 1, TICKS_PER_SECOND as int);
        }
        self.x = self.x + step_x;
        self.y = self.y + step_y;

        let ax: u64 = magnitude(self.vx);
        let ay: u64 = magnitude(self.vy);
        assert(ax * ax + ay * ay <= 0x2000_0000_0000_0000 && ax * ax == self.vx * self.vx && ay
            * ay == self.vy * self.vy) by (nonlinear_arith)
            requires
                ax == abs(self.vx as int),
                ay == abs(self.vy as int),
                ax <= 0x4000_0000,
                ay <= 0x4000_0000,
        ;
        let old_mag: u64 = isqrt_u64(ax * ax + ay * ay);
        if old_mag <= FRICTION_STEP as u64 {
            self.vx = 0;
            self.vy = 0;
        } else {
            let new_mag: u64 = old_mag - FRICTION_STEP as u64;
            proof {
                lemma_scale_shrinks(self.vx as int, new_mag as int, old_mag as int);
                lemma_scale_shrinks(self.vy as int, new_mag as int, old_mag as int);
                assert(ax * new_mag <= i64::MAX && ay * new_mag <= i64::MAX) by (nonlinear_arith)
                    requires
                        ax <= 0x4000_0000,
                        ay <= 0x4000_0000,
                        new_mag < 0x1_0000_0000,
                ;
            }
            self.vy = scale(self.vy, new_mag, old_mag);
            self.vx = scale(self.vx, new_mag, old_mag);
        }
    }

    /// The response to a collision of this ball with `b2`, which overlaps it
    /// and has another centre.
    pub fn collision(&self, b2: &Self) -> (r: ((i64, i64), (i64, i64)))
        requires
            self@.overlaps(b2@),
            !self@.coincides(b2@),
            self@.speed_bounded(),
            b2@.speed_bounded(),
            self@.in_range(),
            b2@.in_range(),
        ensures
            ((r.0.0 as int, r.0.1 as int), (r.1.0 as int, r.1.1 as int)) == self@.response(b2@),
    {
        let dpx: i64 = self.x - b2.x;
        let dpy: i64 = self.y - b2.y;
        let ax: u64 = magnitude(dpx);
        let ay: u64 = magnitude(dpy);
        proof {
            lemma_overlap_is_near(self@, b2@);
        }
        assert(ax * ax + ay * ay < 0x2_0000_0000_0000 && ax * ax == dpx * dpx && ay * ay == dpy
            * dpy) by (nonlinear_arith)
            requires
                ax == abs(dpx as int),
                ay == abs(dpy as int),
                ax < 0x100_0000,
                ay < 0x100_0000,
        ;
        let fine: u128 = FINE as u128;
        assert((ax * ax + ay * ay) * (fine * fine) < 0x2_0000_0000_0000
            * 0x1_0000_0000_0000_0000) by (nonlinear_arith)
            requires
                0 <= ax * ax + ay * ay < 0x2_0000_0000_0000,
                fine == 0x1_0000_0000,
        ;
        let pmag: u128 = isqrt_u128((ax * ax + ay * ay) as u128 * (fine * fine));
        let wx: u128 = ax as u128 * fine;
        let wy: u128 = ay as u128 * fine;
        let reach: u128 = SEPARATION as u128 * fine;

        let dvx: i64 = self.vx - b2.vx;
        let dvy: i64 = self.vy - b2.vy;
        proof {
            lemma_fine_distance(dpx as int, dpy as int);
            lemma_along_bounded(dvx as int, ax as int, pmag as int);
            lemma_along_bounded(dvy as int, ay as int, pmag as int);
            lemma_along_bounded(SEPARATION as int, dpx as int, pmag as int);
            lemma_along_bounded(SEPARATION as int, dpy as int, pmag as int);
            lemma_response_bounded(self@, b2@);
            assert(abs(dvx as int) * wx == abs(dvx * ax * FINE) && abs(dvy as int) * wy == abs(
                dvy * ay * FINE,
            ) && abs(dpx as int) * reach == abs(SEPARATION * dpx * FINE) && abs(dpy as int) * reach
                == abs(SEPARATION * dpy * FINE) && dvx * wx == dvx * ax * FINE && dvy * wy == dvy
                * ay * FINE && dpx * reach == SEPARATION * dpx * FINE && dpy * reach == SEPARATION
                * dpy * FINE) by (nonlinear_arith)
                requires
                    wx == ax * FINE,
                    wy == ay * FINE,
                    reach == SEPARATION * FINE,
                    FINE > 0,
                    SEPARATION > 0,
                    ax >= 0,
                    ay >= 0,
            ;
            assert(abs(dvx as int) * wx <= 0x8000_0000 * 0x100_0000_0000_0000 && abs(dvy as int)
                * wy <= 0x8000_0000 * 0x100_0000_0000_0000 && abs(dpx as int) * reach <= 0x100_0000
                * 0x10_0000_0000_0000 && abs(dpy as int) * reach <= 0x100_0000
                * 0x10_0000_0000_0000) by (nonlinear_arith)
                requires
                    abs(dvx as int) <= 0x8000_0000,
                    abs(dvy as int) <= 0x8000_0000,
                    abs(dpx as int) <= 0x100_0000,
                    abs(dpy as int) <= 0x100_0000,
                    0 <= wx <= 0x100_0000_0000_0000,
                    0 <= wy <= 0x100_0000_0000_0000,
                    0 <= reach <= 0x10_0000_0000_0000,
            ;
        }
        let transferx: i64 = scale_wide(dvx, wx, pmag);
        let transfery: i64 = scale_wide(dvy, wy, pmag);

        let desiredx: i64 = scale_wide(dpx, reach, pmag);
        let desiredy: i64 = scale_wide(dpy, reach, pmag);
        let halfx: i64 = scale(dpx, 1, 2);
        let halfy: i64 = scale(dpy, 1, 2);
        let offsetx: i64 = halfx - desiredx;
        let offsety: i64 = halfy - desiredy;

        ((transferx, transfery), (offsetx, offsety))
    }

    /// Tests whether the two balls are in contact and, where they are, gives
    /// the response to apply. `col` is the pair's key where the pair was in
    /// contact already: the velocity it hands over is then zero.
    pub fn check_hit_ball(ball1: &Ball, ball2: &Ball, col: Option<Collision>) -> (r: Option<
        ((i64, i64), (i64, i64)),
    >)
        requires
            ball1.wf(),
            ball2.wf(),
        ensures
            r is Some <==> ball1@.overlaps(ball2@) && !ball1@.coincides(ball2@),
            match r {
                Some(t) => Some(((t.0.0 as int, t.0.1 as int), (t.1.0 as int, t.1.1 as int)))
                    == ball1@.contact(ball2@, col is Some),
                None => ball1@.contact(ball2@, col is Some) is None,
            },
    {
        let dx: u64 = magnitude(ball2.x - ball1.x);
        let dy: u64 = magnitude(ball2.y - ball1.y);
        let reach: u64 = (BALL_SIZE * 2) as u64;
        proof {
            let ex = ball1.x - ball2.x;
            let ey = ball1.y - ball2.y;
            assert(dx * dx == ex * ex && dy * dy == ey * ey && dx * dx >= 0 && dy * dy >= 0)
                by (nonlinear_arith)
                requires
                    dx == abs(-ex),
                    dy == abs(-ey),
            ;
            if dx >= reach {
                assert(dx * dx >= reach * reach) by (nonlinear_arith)
                    requires
                        dx >= reach,
                        reach >= 0,
                ;
            }
            if dy >= reach {
                assert(dy * dy >= reach * reach) by (nonlinear_arith)
                    requires
                        dy >= reach,
                        reach >= 0,
                ;
            }
            if dx < reach && dy < reach {
                assert(dx * dx + dy * dy < 0x2_0000_0000_0000) by (nonlinear_arith)
                    requires
                        dx < 0x100_0000,
                        dy < 0x100_0000,
                ;
            }
        }
        if dx >= reach || dy >= reach {
            return None;
        }
        if dx * dx + dy * dy < reach * reach && !(dx == 0 && dy == 0) {
            let ((a, b), (c, d)) = ball1.collision(ball2);
            match col {
                Some(_) => Some(((0, 0), (c, d))),
                None => Some(((a, b), (c, d))),
            }
        } else {
            None
        }
    }

    /// Turns the ball back at `wall`.
    pub fn wall_collision(&mut self, wall: Wall)
        requires
            old(self)@.speed_bounded(),
        ensures
            final(self)@ == old(self)@.reflect(wall),
    {
        match wall {
            Wall::East(num) => {
                self.vx = if self.vx < 0 { self.vx } else { -self.vx };
                if self.x > num {
                    self.x = num;
                }
            },
            Wall::North(num) => {
                self.vy = if self.vy < 0 { -self.vy } else { self.vy };
                if self.y < num {
                    self.y = num;
                }
            },
            Wall::South(num) => {
                self.vy = if self.vy < 0 { self.vy } else { -self.vy };
                if self.y > num {
                    self.y = num;
                }
            },
            Wall::West(num) => {
                self.vx = if self.vx < 0 { -self.vx } else { self.vx };
                if self.x < num {
                    self.x = num;
                }
            },
        }
    }

    /// Turns the ball back at every wall of `walls` that it has crossed.
    pub fn check_hit_wall(ball: &mut Ball, walls: &Table)
        requires
            old(ball)@.speed_bounded(),
            walls.wf(),
        ensures
            final(ball)@ == old(ball)@.keep_within(walls@),
            walls@.contains(final(ball)@.x, final(ball)@.y),
            final(ball)@.speed_bounded(),
            old(ball)@.x > walls@.right ==> final(ball)@.vx <= 0,
            old(ball)@.x < walls@.left ==> final(ball)@.vx >= 0,
            old(ball)@.y > walls@.bottom ==> final(ball)@.vy <= 0,
            old(ball)@.y < walls@.top ==> final(ball)@.vy >= 0,
    {
        let low_ball: i64 = ball.y;
        let high_ball: i64 = ball.y;
        let left_ball: i64 = ball.x;
        let right_ball: i64 = ball.x;
        let bottom_wall: i64 = walls.bottom_wall();
        let top_wall: i64 = walls.top_wall();
        let left_wall: i64 = walls.left_wall();
        let right_wall: i64 = walls.right_wall();
        if low_ball > bottom_wall {
            ball.wall_collision(Wall::South(bottom_wall));
        }
        if high_ball < top_wall {
            ball.wall_collision(Wall::North(top_wall));
        }
        if left_ball < left_wall {
            ball.wall_collision(Wall::West(left_wall));
        }
        if right_ball > right_wall {
            ball.wall_collision(Wall::East(right_wall));
        }
    }
}

/// A ball that is turned back at the walls lies within the bounds, with a
/// velocity that points away from every wall it had crossed, and of the
/// same magnitude on each axis. A ball within the bounds is left as it is.
pub proof fn lemma_keep_within(b: BallView, bounds: Bounds)
    requires
        bounds.left <= bounds.right,
        bounds.top <= bounds.bottom,
    ensures
        ({
            let after = b.keep_within(bounds);
            &&& bounds.contains(after.x, after.y)
            &&& abs(after.vx) == abs(b.vx)
            &&& abs(after.vy) == abs(b.vy)
            &&& (b.x > bounds.right ==> after.x == bounds.right && after.vx <= 0)
            &&& (b.x < bounds.left ==> after.x == bounds.left && after.vx >= 0)
            &&& (b.y > bounds.bottom ==> after.y == bounds.bottom && after.vy <= 0)
            &&& (b.y < bounds.top ==> after.y == bounds.top && after.vy >= 0)
            &&& (bounds.contains(b.x, b.y) ==> after == b)
        }),
{
}

/// Balls that overlap are less than two radii apart on either axis.
pub proof fn lemma_overlap_is_near(a: BallView, b: BallView)
    requires
        a.overlaps(b),
    ensures
        abs(a.x - b.x) < 2 * BALL_SIZE,
        abs(a.y - b.y) < 2 * BALL_SIZE,
{
    let dx = a.x - b.x;
    let dy = a.y - b.y;
    let reach = 2 * BALL_SIZE;
    assert(dx * dx >= 0 && dy * dy >= 0) by (nonlinear_arith);
    if abs(dx) >= reach {
        assert(dx * dx >= reach * reach) by (nonlinear_arith)
            requires
                abs(dx) >= reach,
                reach >= 0,
        ;
    }
    if abs(dy) >= reach {
        assert(dy * dy >= reach * reach) by (nonlinear_arith)
            requires
                abs(dy) >= reach,
                reach >= 0,
        ;
    }
}

/// The fine distance between two different centres is at least `FINE`, and
/// at least the displacement on either axis.
pub proof fn lemma_fine_distance(dx: int, dy: int)
    requires
        dx != 0 || dy != 0,
    ensures
        is_isqrt((dx * dx + dy * dy) * (FINE * FINE), fine_distance(dx, dy)),
        FINE <= fine_distance(dx, dy),
        abs(dx) * FINE <= fine_distance(dx, dy),
        abs(dy) * FINE <= fine_distance(dx, dy),
{
    let fx = dx * FINE;
    let fy = dy * FINE;
    assert(fx * fx + fy * fy == (dx * dx + dy * dy) * (FINE * FINE) && fx * fx + fy * fy >= 0
        && abs(fx) == abs(dx) * FINE && abs(fy) == abs(dy) * FINE) by (nonlinear_arith)
        requires
            fx == dx * FINE,
            fy == dy * FINE,
            FINE > 0,
    ;
    lemma_isqrt_exists(fx * fx + fy * fy);
    lemma_isqrt_dominates(fx, fy);
}

/// The part of a vector along a displacement is no longer on an axis than
/// the vector itself, and has the sign of the vector's length times that of
/// the displacement on that axis.
pub proof fn lemma_along_bounded(len: int, d: int, dist: int)
    requires
        0 < dist,
        abs(d) * FINE <= dist,
    ensures
        abs(along(len, d, dist)) <= abs(len),
        abs(along(len, d, dist)) == abs(len * d * FINE) / dist,
        abs(len * d * FINE) == abs(len) * (abs(d) * FINE),
        (len >= 0 && d >= 0) || (len <= 0 && d <= 0) ==> along(len, d, dist) >= 0,
        (len >= 0 && d <= 0) || (len <= 0 && d >= 0) ==> along(len, d, dist) <= 0,
        dist * abs(along(len, d, dist)) <= abs(len) * (abs(d) * FINE) < dist * abs(
            along(len, d, dist),
        ) + dist,
{
    let x = len * d * FINE;
    let w = abs(d) * FINE;
    lemma_div_toward_zero(x, dist);
    assert(abs(x) == abs(len) * w && ((len >= 0 && d >= 0) || (len <= 0 && d <= 0) ==> x >= 0)
        && ((len >= 0 && d <= 0) || (len <= 0 && d >= 0) ==> x <= 0)) by (nonlinear_arith)
        requires
            x == len * d * FINE,
            w == abs(d) * FINE,
            FINE > 0,
    ;
    assert((abs(len) * w) / dist <= abs(len)) by (nonlinear_arith)
        requires
            0 <= w <= dist,
            dist > 0,
            abs(len) >= 0,
    ;
}

/// A collision hands over, on each axis, a part of the relative velocity:
/// between nothing and all of it. So neither ball leaves it faster on an
/// axis than the faster of the two was. The positional correction stays
/// below `REACH`.
pub proof fn lemma_response_bounded(a: BallView, b: BallView)
    requires
        a.overlaps(b),
        !a.coincides(b),
    ensures
        ({
            let r = a.response(b);
            &&& abs(r.1.0) < REACH
            &&& abs(r.1.1) < REACH
            &&& abs(r.0.0) <= abs(a.vx - b.vx)
            &&& abs(r.0.1) <= abs(a.vy - b.vy)
            &&& (a.vx >= b.vx ==> r.0.0 >= 0)
            &&& (a.vx <= b.vx ==> r.0.0 <= 0)
            &&& (a.vy >= b.vy ==> r.0.1 >= 0)
            &&& (a.vy <= b.vy ==> r.0.1 <= 0)
        }),
{
    let dpx = a.x - b.x;
    let dpy = a.y - b.y;
    let dist = a.distance(b);
    lemma_overlap_is_near(a, b);
    lemma_fine_distance(dpx, dpy);
    lemma_along_bounded(a.vx - b.vx, abs(dpx), dist);
    lemma_along_bounded(a.vy - b.vy, abs(dpy), dist);
    lemma_along_bounded(SEPARATION as int, dpx, dist);
    lemma_along_bounded(SEPARATION as int, dpy, dist);
    lemma_scale_shrinks(dpx, 1, 2);
    lemma_scale_shrinks(dpy, 1, 2);
}

/// What a contact does to the two balls keeps their velocities within
/// `SPEED_MAX`, and moves neither by `REACH` or more on an axis.
pub proof fn lemma_contact_bounded(a: BallView, b: BallView, active: bool)
    requires
        a.speed_bounded(),
        b.speed_bounded(),
        a.contact(b, active) is Some,
    ensures
        ({
            let r = a.contact(b, active)->0;
            &&& a.give(r).speed_bounded()
            &&& b.take(r).speed_bounded()
            &&& abs(r.1.0) < REACH
            &&& abs(r.1.1) < REACH
        }),
{
    lemma_response_bounded(a, b);
}

/// One tick of free motion moves a ball by less than `OVERSHOOT` on either
/// axis, and leaves neither velocity component larger than it was.
pub proof fn lemma_advance_bounded(b: BallView)
    requires
        b.speed_bounded(),
    ensures
        abs(b.advance().x - b.x) < OVERSHOOT,
        abs(b.advance().y - b.y) < OVERSHOOT,
        abs(b.advance().vx) <= abs(b.vx),
        abs(b.advance().vy) <= abs(b.vy),
        b.advance().speed_bounded(),
{
    lemma_div_toward_zero(b.vx, TICKS_PER_SECOND as int);
    lemma_div_toward_zero(b.vy, TICKS_PER_SECOND as int);
    let m = b.speed();
    if slowed(m) != 0 {
        lemma_scale_shrinks(b.vx, slowed(m), m);
        lemma_scale_shrinks(b.vy, slowed(m), m);
    }
}

} // verus!
