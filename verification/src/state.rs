//! The whole simulation: the table, the cue ball, the object balls and the
//! pairs in contact, and the tick that moves them on.

use vstd::prelude::*;
use crate::ball::{
    lemma_advance_bounded, lemma_contact_bounded, lemma_keep_within, Ball, BallView, OVERSHOOT,
    REACH,
};
use crate::collision::{ActivePairs, Collision};
use crate::fixed::{abs, clamp, BALL_SIZE, SPEED_MAX, TICKS_PER_SECOND, UNIT};
use crate::table::{Bounds, Table, TABLE_MAX};

verus! {

/// The most object balls that a simulation holds.
pub const MAX_BALLS: usize = 127;

/// What a simulation is set up with.
#[derive(Clone, Copy, Debug)]
pub struct Options {
    /// Width of the strip between the window's edge and the field.
    pub border: i64,
    /// Radius of the marker at the pointer.
    pub cursor_size: i64,
    /// Where the cue ball starts.
    pub start_x: i64,
    pub start_y: i64,
    /// Number of dots between the cue ball and the pointer.
    pub num_dots: i32,
    /// Number of object balls.
    pub num_balls: i8,
    /// Speed given to the cue ball for each sub-unit between its centre
    /// and the pointer.
    pub force_multiplier: i64,
}

/// Where object ball `i` starts: in rows of six, one hundred table units
/// apart.
pub open spec fn rack_spec(i: int) -> (int, int) {
    ((((i + 1) * 100) % 600 + 100) * UNIT, (((i + 1) / 7) * 100 + 200) * UNIT)
}

/// Where object ball `i` starts.
pub fn rack_position(i: i8) -> (at: (i64, i64))
    requires
        0 <= i < 127,
    ensures
        at.0 == rack_spec(i as int).0,
        at.1 == rack_spec(i as int).1,
{
    let k: u64 = i as u64 + 1;
    let x: u64 = (k * 100) % 600 + 100;
    let y: u64 = (k / 7) * 100 + 200;
    (x as i64 * UNIT, y as i64 * UNIT)
}

/// Whether a physics tick is due when `elapsed_ms` milliseconds have passed
/// since the last one: when more than one `TICKS_PER_SECOND`-th of a second
/// has.
pub fn tick_due(elapsed_ms: i32) -> (due: bool)
    ensures
        due == (elapsed_ms * TICKS_PER_SECOND > 1000),
{
    elapsed_ms as i64 * TICKS_PER_SECOND > 1000
}

/// The simulation as the contracts see it.
pub struct StateView {
    pub bounds: Bounds,
    pub cue: BallView,
    pub balls: Seq<BallView>,
    pub active: Set<Collision>,
    pub options: Options,
}

impl StateView {
    /// `key` names a pair of this simulation's balls: its indices are of
    /// object balls that exist, and differ.
    pub open spec fn names_pair(self, key: Collision) -> bool {
        match key {
            Collision::CueBall(i) => i < self.balls.len(),
            Collision::TwoBalls(i, j) => i < self.balls.len() && j < self.balls.len() && i != j,
        }
    }

    /// The first ball of the pair `key`: the one that a collision takes
    /// from.
    pub open spec fn first(self, key: Collision) -> BallView {
        match key {
            Collision::CueBall(i) => self.balls[i as int],
            Collision::TwoBalls(i, _) => self.balls[i as int],
        }
    }

    /// The second ball of the pair `key`: the one that a collision gives
    /// to. With an object ball and the cue ball, that is the cue ball.
    pub open spec fn second(self, key: Collision) -> BallView {
        match key {
            Collision::CueBall(_) => self.cue,
            Collision::TwoBalls(_, j) => self.balls[j as int],
        }
    }

    /// The simulation with the two balls of the pair `key` replaced.
    pub open spec fn with_pair(self, key: Collision, a: BallView, b: BallView) -> StateView {
        match key {
            Collision::CueBall(i) => StateView {
                cue: b,
                balls: self.balls.update(i as int, a),
                ..self
            },
            Collision::TwoBalls(i, j) => StateView {
                balls: self.balls.update(i as int, a).update(j as int, b),
                ..self
            },
        }
    }

    /// The simulation after the pair `key` has been tested and resolved.
    /// Out of contact, the pair becomes inactive and nothing else changes.
    /// In contact, the two balls are pushed apart and the pair becomes
    /// active; velocity passes between them only where the pair was not
    /// active before.
    pub open spec fn resolve(self, key: Collision) -> StateView {
        let a = self.first(key);
        let b = self.second(key);
        match a.contact(b, self.active.contains(key)) {
            Some(r) => StateView {
                active: self.active.insert(key),
                ..self.with_pair(key, a.give(r), b.take(r))
            },
            None => StateView { active: self.active.remove(key), ..self },
        }
    }

    /// The simulation with every ball moved and slowed by one tick.
    pub open spec fn advance_all(self) -> StateView {
        StateView {
            cue: self.cue.advance(),
            balls: Seq::new(self.balls.len(), |k: int| self.balls[k].advance()),
            ..self
        }
    }

    /// The simulation after object ball `i` has been resolved against the
    /// cue ball and then against each object ball from `i + 1` up to, and
    /// without, `upto`.
    pub open spec fn pairs_of(self, i: int, upto: int) -> StateView
        decreases upto - i,
    {
        if upto <= i + 1 {
            self.resolve(Collision::CueBall(i as usize))
        } else {
            self.pairs_of(i, upto - 1).resolve(Collision::TwoBalls(i as usize, (upto - 1) as usize))
        }
    }

    /// The simulation with object ball `i` turned back at the walls.
    pub open spec fn wall(self, i: int) -> StateView {
        StateView { balls: self.balls.update(i, self.balls[i].keep_within(self.bounds)), ..self }
    }

    /// The simulation with the cue ball turned back at the walls.
    pub open spec fn wall_cue(self) -> StateView {
        StateView { cue: self.cue.keep_within(self.bounds), ..self }
    }

    /// The simulation after the turn of object ball `i`: its pairs with the
    /// cue ball and with every later object ball, then the walls.
    pub open spec fn turn(self, i: int) -> StateView {
        self.pairs_of(i, self.balls.len() as int).wall(i)
    }

    /// The simulation after the turns of the first `count` object balls.
    pub open spec fn turns(self, count: int) -> StateView
        decreases count,
    {
        if count <= 0 {
            self
        } else {
            self.turns(count - 1).turn(count - 1)
        }
    }

    /// No velocity component of any ball exceeds `c` in magnitude.
    pub open spec fn no_faster_than(self, c: int) -> bool {
        &&& self.cue.no_faster_than(c)
        &&& forall|k: int| 0 <= k < self.balls.len() ==> (#[trigger] self.balls[k]).no_faster_than(c)
    }

    /// The simulation `count` ticks later.
    pub open spec fn ticks(self, count: int) -> StateView
        decreases count,
    {
        if count <= 0 {
            self
        } else {
            self.ticks(count - 1).tick()
        }
    }

    /// No ball moves.
    pub open spec fn at_rest(self) -> bool {
        &&& self.cue.vx == 0 && self.cue.vy == 0
        &&& forall|k: int|
            0 <= k < self.balls.len() ==> (#[trigger] self.balls[k]).vx == 0 && self.balls[k].vy
                == 0
    }

    /// `key` names a pair that a tick tests: an object ball with the cue
    /// ball, or with a later object ball.
    pub open spec fn tests(self, key: Collision) -> bool {
        match key {
            Collision::CueBall(i) => i < self.balls.len(),
            Collision::TwoBalls(i, j) => i < j && j < self.balls.len(),
        }
    }

    /// The simulation as it is, within the tick that starts here, when
    /// the pair `key` comes to be tested.
    pub open spec fn before_pair(self, key: Collision) -> StateView {
        match key {
            Collision::CueBall(i) => self.advance_all().turns(i as int),
            Collision::TwoBalls(i, j) => self.advance_all().turns(i as int).pairs_of(
                i as int,
                j as int,
            ),
        }
    }

    /// The simulation as it is, within the tick that starts here, when
    /// the pair `key` has just been tested and resolved.
    pub open spec fn after_pair(self, key: Collision) -> StateView {
        match key {
            Collision::CueBall(i) => self.advance_all().turns(i as int).pairs_of(
                i as int,
                i + 1,
            ),
            Collision::TwoBalls(i, j) => self.advance_all().turns(i as int).pairs_of(
                i as int,
                j + 1,
            ),
        }
    }

    /// The simulation one tick later: every ball advanced, then each object
    /// ball's turn in order, then the walls for the cue ball.
    pub open spec fn tick(self) -> StateView {
        self.advance_all().turns(self.balls.len() as int).wall_cue()
    }

    /// The simulation after a launch with the pointer at `pointer`, given
    /// in whole table units: the cue ball's velocity grows by the vector
    /// from the pointer to the cue ball's centre, times the options' force
    /// multiplier. Each component stays within `SPEED_MAX`.
    pub open spec fn launched(self, pointer: (int, int)) -> StateView {
        let force = self.options.force_multiplier as int;
        StateView {
            cue: BallView {
                vx: clamp(
                    self.cue.vx + (self.cue.x + BALL_SIZE - pointer.0 * UNIT) * force,
                    -SPEED_MAX as int,
                    SPEED_MAX as int,
                ),
                vy: clamp(
                    self.cue.vy + (self.cue.y + BALL_SIZE - pointer.1 * UNIT) * force,
                    -SPEED_MAX as int,
                    SPEED_MAX as int,
                ),
                ..self.cue
            },
            ..self
        }
    }

    /// Every ball's velocity is bounded, and every ball lies within the
    /// bounds or outside by no more than `margin`.
    pub open spec fn loose(self, margin: int) -> bool {
        &&& self.cue.speed_bounded()
        &&& self.cue.within(self.bounds, margin)
        &&& forall|k: int|
            0 <= k < self.balls.len() ==> (#[trigger] self.balls[k]).speed_bounded()
                && self.balls[k].within(self.bounds, margin)
    }

    /// The simulation is at rest between two ticks: the bounds are those of
    /// a well-formed table, there are at most `MAX_BALLS` object balls, and
    /// every ball lies within the bounds with a bounded velocity.
    pub open spec fn settled(self) -> bool {
        &&& -TABLE_MAX <= self.bounds.left <= self.bounds.right <= TABLE_MAX
        &&& -TABLE_MAX <= self.bounds.top <= self.bounds.bottom <= TABLE_MAX
        &&& self.balls.len() <= MAX_BALLS
        &&& self.loose(0)
    }
}

/// The simulation.
pub struct State {
    pub field: Table,
    pub cue_ball: Ball,
    pub other_balls: Vec<Ball>,
    pub recent_collisions: ActivePairs,
    pub options: Options,
}

impl View for State {
    type V = StateView;

    open spec fn view(&self) -> StateView {
        StateView {
            bounds: self.field@,
            cue: self.cue_ball@,
            balls: Seq::new(self.other_balls@.len(), |k: int| self.other_balls@[k]@),
            active: self.recent_collisions@,
            options: self.options,
        }
    }
}

impl State {
    /// The simulation is at rest between two ticks: the table is well
    /// formed, there are at most `MAX_BALLS` object balls, and every ball
    /// lies within the table's bounds with a bounded velocity.
    pub open spec fn wf(&self) -> bool {
        self.field.wf() && self@.settled()
    }

    /// The options and the window's size, in whole table units, allow a
    /// simulation: the field is well formed, and the cue ball and every
    /// object ball start within its bounds.
    pub open spec fn startable(options: Options, window: (u32, u32)) -> bool {
        let bounds = Bounds {
            left: options.border as int,
            right: window.0 * UNIT - options.border - 2 * BALL_SIZE,
            top: options.border as int,
            bottom: window.1 * UNIT - options.border - 2 * BALL_SIZE,
        };
        &&& Table::fits(window.0 * UNIT, window.1 * UNIT, options.border as int)
        &&& 0 <= options.num_balls
        &&& bounds.contains(options.start_x as int, options.start_y as int)
        &&& forall|i: int|
            0 <= i < options.num_balls ==> bounds.contains(
                (#[trigger] rack_spec(i)).0,
                rack_spec(i).1,
            )
    }

    /// A simulation at its start: every ball at rest at its starting place,
    /// no pair active. `None` where the options do not allow one.
    pub fn new(options: Options, window: (u32, u32)) -> (state: Option<State>)
        ensures
            state is Some <==> Self::startable(options, window),
            state matches Some(s) ==> {
                &&& s.wf()
                &&& s.options == options
                &&& s.field == (Table {
                    left: options.border,
                    top: options.border,
                    width: (window.0 * UNIT - 2 * options.border) as i64,
                    height: (window.1 * UNIT - 2 * options.border) as i64,
                })
                &&& s.cue_ball == (Ball { x: options.start_x, y: options.start_y, vx: 0, vy: 0 })
                &&& s.other_balls@.len() == options.num_balls
                &&& forall|i: int|
                    0 <= i < options.num_balls ==> #[trigger] s.other_balls@[i] == (Ball {
                        x: rack_spec(i).0 as i64,
                        y: rack_spec(i).1 as i64,
                        vx: 0,
                        vy: 0,
                    })
                &&& s.recent_collisions@ == Set::<Collision>::empty()
            },
    {
        let field = match Table::new(window.0 as i64 * UNIT, window.1 as i64 * UNIT, options.border) {
            Some(field) => field,
            None => { return None; },
        };
        if options.num_balls < 0 {
            return None;
        }
        let cue_ball = Ball { x: options.start_x, y: options.start_y, vx: 0, vy: 0 };
        if !cue_ball.is_on(&field) {
            return None;
        }
        let mut other_balls: Vec<Ball> = Vec::new();
        let mut i: i8 = 0;
        while i < options.num_balls
            invariant
                0 <= i <= options.num_balls,
                field.wf(),
                field@.left == options.border,
                field@.top == options.border,
                field@.right == window.0 * UNIT - options.border - 2 * BALL_SIZE,
                field@.bottom == window.1 * UNIT - options.border - 2 * BALL_SIZE,
                other_balls@.len() == i,
                forall|k: int|
                    0 <= k < i ==> #[trigger] other_balls@[k] == (Ball {
                        x: rack_spec(k).0 as i64,
                        y: rack_spec(k).1 as i64,
                        vx: 0,
                        vy: 0,
                    }),
                forall|k: int|
                    0 <= k < i ==> field@.contains((#[trigger] rack_spec(k)).0, rack_spec(k).1),
            decreases options.num_balls - i,
        {
            let (x, y) = rack_position(i);
            let ball = Ball { x, y, vx: 0, vy: 0 };
            if !ball.is_on(&field) {
                assert(!field@.contains(rack_spec(i as int).0, rack_spec(i as int).1));
                return None;
            }
            other_balls.push(ball);
            i += 1;
        }
        let state = State {
            field,
            cue_ball,
            other_balls,
            recent_collisions: ActivePairs::new(),
            options,
        };
        Some(state)
    }

    /// Whether the simulation is at rest between two ticks.
    pub fn is_wf(&self) -> (ok: bool)
        ensures
            ok == self.wf(),
    {
        if !self.field.is_wf() || self.other_balls.len() > MAX_BALLS || !self.cue_ball.is_on(
            &self.field,
        ) {
            return false;
        }
        let mut k: usize = 0;
        while k < self.other_balls.len()
            invariant
                k <= self.other_balls@.len(),
                self.field.wf(),
                forall|m: int|
                    0 <= m < k ==> (#[trigger] self@.balls[m]).speed_bounded()
                        && self@.balls[m].within(self@.bounds, 0),
            decreases self.other_balls@.len() - k,
        {
            if !self.other_balls[k].is_on(&self.field) {
                assert(!(self@.balls[k as int].speed_bounded() && self@.balls[k as int].within(
                    self@.bounds,
                    0,
                )));
                return false;
            }
            k += 1;
        }
        true
    }

    /// Launches the cue ball: adds to its velocity the vector from
    /// `pointer`, given in whole table units, to its centre, times the
    /// options' force multiplier. Launches add up, within `SPEED_MAX` on
    /// each axis.
    pub fn launch(&mut self, pointer: (i32, i32))
        requires
            old(self).wf(),
        ensures
            final(self)@ == old(self)@.launched((pointer.0 as int, pointer.1 as int)),
            final(self).wf(),
            final(self).field == old(self).field,
            final(self).options == old(self).options,
            final(self).other_balls == old(self).other_balls,
            final(self).recent_collisions == old(self).recent_collisions,
    {
        let vx = Self::pulled(self.cue_ball.vx, self.cue_ball.x, pointer.0, self.options.force_multiplier);
        let vy = Self::pulled(self.cue_ball.vy, self.cue_ball.y, pointer.1, self.options.force_multiplier);
        self.cue_ball = Ball { vx, vy, ..self.cue_ball };
    }

    /// One velocity component after a launch.
    fn pulled(v: i64, position: i64, pointer: i32, force: i64) -> (after: i64)
        requires
            abs(position as int) <= TABLE_MAX,
            abs(v as int) <= SPEED_MAX,
        ensures
            after == clamp(
                v + (position + BALL_SIZE - pointer * UNIT) * force,
                -SPEED_MAX as int,
                SPEED_MAX as int,
            ),
    {
        let centre: i128 = position as i128 + BALL_SIZE as i128;
        let target: i128 = pointer as i128 * UNIT as i128;
        let pull: i128 = centre - target;
        assert(abs(pull * force) <= 0x1_0000_0000_0000 * 0x8000_0000_0000_0000) by (nonlinear_arith)
            requires
                abs(pull as int) <= 0x1_0000_0000_0000,
                abs(force as int) <= 0x8000_0000_0000_0000,
        ;
        let sum: i128 = v as i128 + pull * force as i128;
        if sum < -SPEED_MAX as i128 {
            -SPEED_MAX
        } else if sum > SPEED_MAX as i128 {
            SPEED_MAX
        } else {
            sum as i64
        }
    }

    /// The two balls of the pair `key`.
    fn pair(&self, key: Collision) -> (balls: (Ball, Ball))
        requires
            self@.names_pair(key),
        ensures
            balls.0@ == self@.first(key),
            balls.1@ == self@.second(key),
    {
        match key {
            Collision::CueBall(i) => (self.other_balls[i], self.cue_ball),
            Collision::TwoBalls(i, j) => (self.other_balls[i], self.other_balls[j]),
        }
    }

    /// Replaces the two balls of the pair `key`.
    fn set_pair(&mut self, key: Collision, a: Ball, b: Ball)
        requires
            old(self)@.names_pair(key),
        ensures
            final(self)@ == old(self)@.with_pair(key, a@, b@),
            final(self).field == old(self).field,
            final(self).options == old(self).options,
            final(self).recent_collisions == old(self).recent_collisions,
            final(self).other_balls@.len() == old(self).other_balls@.len(),
    {
        match key {
            Collision::CueBall(i) => {
                self.other_balls.set(i, a);
                self.cue_ball = b;
            },
            Collision::TwoBalls(i, j) => {
                self.other_balls.set(i, a);
                self.other_balls.set(j, b);
            },
        }
        assert(self@.balls =~= old(self)@.with_pair(key, a@, b@).balls);
    }

    /// Tests the pair `pair_key` for contact and resolves it.
    pub fn detect_and_resolve_ball_pair(&mut self, pair_key: Collision)
        requires
            old(self)@.names_pair(pair_key),
            old(self)@.first(pair_key).speed_bounded(),
            old(self)@.first(pair_key).in_range(),
            old(self)@.second(pair_key).speed_bounded(),
            old(self)@.second(pair_key).in_range(),
        ensures
            final(self)@ == old(self)@.resolve(pair_key),
            final(self).field == old(self).field,
            final(self).options == old(self).options,
            final(self).other_balls@.len() == old(self).other_balls@.len(),
    {
        let (a, b) = self.pair(pair_key);
        let mut op: Option<Collision> = None;
        if self.recent_collisions.contains(&pair_key) {
            self.recent_collisions.remove(&pair_key);
            op = Some(pair_key);
        }
        match Ball::check_hit_ball(&a, &b, op) {
            Some(((x, y), (dx, dy))) => {
                proof {
                    lemma_contact_bounded(a@, b@, op is Some);
                }
                let a2 = Ball { x: a.x - dx, y: a.y - dy, vx: a.vx - x, vy: a.vy - y };
                let b2 = Ball { x: b.x + dx, y: b.y + dy, vx: b.vx + x, vy: b.vy + y };
                self.set_pair(pair_key, a2, b2);
                self.recent_collisions.insert(pair_key);
                assert(self@.active =~= old(self)@.active.insert(pair_key));
            },
            None => {
                assert(self@.balls =~= old(self)@.balls);
                assert(self@.active =~= old(self)@.active.remove(pair_key));
            },
        }
    }

    /// Advances every ball by one tick.
    fn advance_all(&mut self)
        requires
            old(self).wf(),
        ensures
            final(self)@ == old(self)@.advance_all(),
            final(self)@.loose(OVERSHOOT as int),
            final(self).field == old(self).field,
            final(self).options == old(self).options,
            final(self).recent_collisions == old(self).recent_collisions,
            final(self).other_balls@.len() == old(self).other_balls@.len(),
    {
        let mut cue = self.cue_ball;
        proof {
            lemma_advance_bounded(cue@);
        }
        cue.process();
        self.cue_ball = cue;
        let n = self.other_balls.len();
        let mut k: usize = 0;
        while k < n
            invariant
                k <= n,
                n == self.other_balls@.len(),
                n == old(self).other_balls@.len(),
                self.field == old(self).field,
                self.options == old(self).options,
                self.field.wf(),
                self.recent_collisions == old(self).recent_collisions,
                self.cue_ball@ == old(self).cue_ball@.advance(),
                old(self)@.loose(0),
                forall|m: int| 0 <= m < k ==> (#[trigger] self.other_balls@[m])@ == old(
                    self,
                ).other_balls@[m]@.advance(),
                forall|m: int| k <= m < n ==> #[trigger] self.other_balls@[m] == old(
                    self,
                ).other_balls@[m],
            decreases n - k,
        {
            let mut ball = self.other_balls[k];
            proof {
                assert(old(self)@.balls[k as int] == ball@);
                lemma_advance_bounded(ball@);
            }
            ball.process();
            self.other_balls.set(k, ball);
            k += 1;
        }
        proof {
            assert(self@.balls =~= old(self)@.advance_all().balls);
            lemma_advance_all_loose(old(self)@);
        }
    }

    /// Turns object ball `i` back at the walls.
    fn wall(&mut self, i: usize)
        requires
            i < old(self).other_balls@.len(),
            old(self).field.wf(),
            old(self)@.balls[i as int].speed_bounded(),
        ensures
            final(self)@ == old(self)@.wall(i as int),
            final(self).field == old(self).field,
            final(self).options == old(self).options,
            final(self).recent_collisions == old(self).recent_collisions,
            final(self).other_balls@.len() == old(self).other_balls@.len(),
            final(self)@.balls[i as int].speed_bounded(),
            final(self)@.balls[i as int].within(final(self)@.bounds, 0),
    {
        let mut ball = self.other_balls[i];
        Ball::check_hit_wall(&mut ball, &self.field);
        self.other_balls.set(i, ball);
        assert(self@.balls =~= old(self)@.wall(i as int).balls);
    }
}

/// Moves the simulation on by one tick: every ball advances; then each
/// object ball in turn is resolved against the cue ball and against
/// every later object ball, and turned back at the walls; last, the cue
/// ball is turned back at the walls.
pub fn calculate_physics(state: &mut State)
    requires
        old(state).wf(),
    ensures
        final(state)@ == old(state)@.tick(),
        final(state).wf(),
        final(state).field == old(state).field,
        final(state).options == old(state).options,
        final(state).other_balls@.len() == old(state).other_balls@.len(),
{
    state.advance_all();
    let ghost start = state@;
    let n = state.other_balls.len();
    let mut i: usize = 0;
    while i < n
        invariant
            i <= n <= MAX_BALLS,
            n == state.other_balls@.len(),
            state.field == old(state).field,
            state.options == old(state).options,
            state.field.wf(),
            old(state)@.settled(),
            start == old(state)@.advance_all(),
            start.balls.len() == n,
            state@ == start.turns(i as int),
        decreases n - i,
    {
        let ghost before = state@;
        let ghost margin = OVERSHOOT + i * TURN_REACH;
        proof {
            lemma_advance_all_loose(old(state)@);
            lemma_turns_loose(start, i as int);
            assert(before.balls[i as int].speed_bounded() && before.balls[i as int].within(
                before.bounds,
                margin,
            ));
        }
        state.detect_and_resolve_ball_pair(Collision::CueBall(i));
        let mut j: usize = i + 1;
        while j < n
            invariant
                i < j <= n <= MAX_BALLS,
                n == state.other_balls@.len(),
                n == before.balls.len(),
                state.field == old(state).field,
                state.options == old(state).options,
                state.field.wf(),
                margin == OVERSHOOT + i * TURN_REACH,
                before.loose(margin),
                state@ == before.pairs_of(i as int, j as int),
            decreases n - j,
        {
            proof {
                lemma_pairs_of_loose(before, i as int, j as int, margin);
                let now = state@;
                assert(now.balls[i as int].speed_bounded() && now.balls[i as int].within(
                    now.bounds,
                    margin + (j - i) * REACH,
                ));
                assert(now.balls[j as int].speed_bounded() && now.balls[j as int].within(
                    now.bounds,
                    margin + (j - i) * REACH,
                ));
            }
            state.detect_and_resolve_ball_pair(Collision::TwoBalls(i, j));
            j += 1;
        }
        proof {
            lemma_pairs_of_loose(before, i as int, n as int, margin);
            assert(state@.balls[i as int].speed_bounded());
        }
        state.wall(i);
        i += 1;
    }
    let mut cue = state.cue_ball;
    proof {
        lemma_advance_all_loose(old(state)@);
        lemma_turns_loose(start, n as int);
        lemma_tick_settles(old(state)@);
    }
    Ball::check_hit_wall(&mut cue, &state.field);
    state.cue_ball = cue;
    assert(state@.balls =~= start.turns(n as int).balls);
}

/// Room for the corrections that one object ball's turn can make to a
/// ball's position on one axis: `REACH` for each of up to 128 pairs.
pub const TURN_REACH: i64 = 0x1000_0000;

/// Advancing every ball keeps every velocity bounded and moves no ball by
/// `OVERSHOOT` or more on an axis.
pub proof fn lemma_advance_all_loose(s: StateView)
    requires
        s.loose(0),
    ensures
        s.advance_all().loose(OVERSHOOT as int),
        s.advance_all().balls.len() == s.balls.len(),
        s.advance_all().bounds == s.bounds,
        s.advance_all().active == s.active,
{
    lemma_advance_bounded(s.cue);
    assert forall|k: int| 0 <= k < s.balls.len() implies (#[trigger] s.advance_all().balls[k])
        .speed_bounded() && s.advance_all().balls[k].within(s.bounds, OVERSHOOT as int) by {
        assert(s.balls[k].speed_bounded() && s.balls[k].within(s.bounds, 0));
        lemma_advance_bounded(s.balls[k]);
    }
}

/// Resolving a pair keeps every velocity bounded and moves no ball by
/// `REACH` or more on an axis; it touches no ball but the two of the pair,
/// and neither the number of balls nor the bounds.
pub proof fn lemma_resolve_loose(s: StateView, key: Collision, margin: int)
    requires
        s.names_pair(key),
        s.loose(margin),
    ensures
        s.resolve(key).loose(margin + REACH),
        s.resolve(key).balls.len() == s.balls.len(),
        s.resolve(key).bounds == s.bounds,
        forall|k: int|
            0 <= k < s.balls.len() && !key.involves(k) ==> s.resolve(key).balls[k] == s.balls[k],
{
    let a = s.first(key);
    let b = s.second(key);
    let active = s.active.contains(key);
    if a.contact(b, active) is Some {
        lemma_contact_bounded(a, b, active);
    }
}

/// Resolving the pairs of an object ball keeps every velocity bounded,
/// moves no ball by more than `REACH` for each pair resolved, and touches
/// no earlier object ball.
pub proof fn lemma_pairs_of_loose(s: StateView, i: int, upto: int, margin: int)
    requires
        0 <= i < upto <= s.balls.len() <= MAX_BALLS,
        s.loose(margin),
    ensures
        s.pairs_of(i, upto).loose(margin + (upto - i) * REACH),
        s.pairs_of(i, upto).balls.len() == s.balls.len(),
        s.pairs_of(i, upto).bounds == s.bounds,
        forall|k: int| 0 <= k < i ==> s.pairs_of(i, upto).balls[k] == s.balls[k],
    decreases upto - i,
{
    if upto <= i + 1 {
        lemma_resolve_loose(s, Collision::CueBall(i as usize), margin);
    } else {
        lemma_pairs_of_loose(s, i, upto - 1, margin);
        let before = s.pairs_of(i, upto - 1);
        lemma_resolve_loose(
            before,
            Collision::TwoBalls(i as usize, (upto - 1) as usize),
            margin + (upto - 1 - i) * REACH,
        );
    }
}

/// The turn of an object ball leaves that ball within the bounds, keeps
/// every velocity bounded, moves no other ball by more than `TURN_REACH`,
/// and touches no earlier object ball.
pub proof fn lemma_turn_loose(s: StateView, i: int, margin: int)
    requires
        0 <= i < s.balls.len() <= MAX_BALLS,
        s.bounds.left <= s.bounds.right,
        s.bounds.top <= s.bounds.bottom,
        0 <= margin,
        s.loose(margin),
    ensures
        s.turn(i).loose(margin + TURN_REACH),
        s.turn(i).balls[i].within(s.bounds, 0),
        s.turn(i).balls.len() == s.balls.len(),
        s.turn(i).bounds == s.bounds,
        forall|k: int| 0 <= k < i ==> s.turn(i).balls[k] == s.balls[k],
{
    let n = s.balls.len() as int;
    lemma_pairs_of_loose(s, i, n, margin);
    let paired = s.pairs_of(i, n);
    assert forall|k: int| 0 <= k < n implies (#[trigger] s.turn(i).balls[k]).speed_bounded()
        && s.turn(i).balls[k].within(s.bounds, margin + TURN_REACH) by {
        assert(paired.balls[k].speed_bounded() && paired.balls[k].within(
            s.bounds,
            margin + (n - i) * REACH,
        ));
    }
}

/// After the turns of the first `count` object balls of a tick, each of
/// these lies within the bounds, and every other ball outside by no more
/// than `OVERSHOOT` and `TURN_REACH` for each turn; every velocity is
/// bounded.
pub proof fn lemma_turns_loose(s: StateView, count: int)
    requires
        0 <= count <= s.balls.len() <= MAX_BALLS,
        s.bounds.left <= s.bounds.right,
        s.bounds.top <= s.bounds.bottom,
        s.loose(OVERSHOOT as int),
    ensures
        s.turns(count).loose(OVERSHOOT + count * TURN_REACH),
        s.turns(count).balls.len() == s.balls.len(),
        s.turns(count).bounds == s.bounds,
        forall|k: int| 0 <= k < count ==> (#[trigger] s.turns(count).balls[k]).within(s.bounds, 0),
    decreases count,
{
    if count > 0 {
        lemma_turns_loose(s, count - 1);
        let before = s.turns(count - 1);
        lemma_turn_loose(before, count - 1, OVERSHOOT + (count - 1) * TURN_REACH);
        assert forall|k: int| 0 <= k < count implies (#[trigger] s.turns(count).balls[k]).within(
            s.bounds,
            0,
        ) by {
            if k < count - 1 {
                assert(before.balls[k].within(s.bounds, 0));
            }
        }
    }
}

/// A tick keeps the simulation settled: it leaves every ball within the
/// table's bounds, with a bounded velocity, and neither adds nor removes a
/// ball.
pub proof fn lemma_tick_settles(s: StateView)
    requires
        s.settled(),
    ensures
        s.tick().settled(),
        s.tick().balls.len() == s.balls.len(),
        s.tick().bounds == s.bounds,
{
    let n = s.balls.len() as int;
    lemma_advance_all_loose(s);
    lemma_turns_loose(s.advance_all(), n);
    let turned = s.advance_all().turns(n);
    assert forall|k: int| 0 <= k < n implies (#[trigger] s.tick().balls[k]).speed_bounded()
        && s.tick().balls[k].within(s.bounds, 0) by {
        assert(turned.balls[k].speed_bounded() && turned.balls[k].within(s.bounds, 0));
    }
    lemma_keep_within(turned.cue, s.bounds);
}

} // verus!
