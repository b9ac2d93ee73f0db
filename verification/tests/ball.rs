use virtual_pool::ball::Ball;
use virtual_pool::collision::Collision;
use virtual_pool::fixed::{isqrt_u64, COORD_MAX, FRICTION_STEP, SPEED_MAX, UNIT};
use virtual_pool::table::{Table, Wall};

fn speed_of(ball: &Ball) -> u64 {
    isqrt_u64((ball.vx * ball.vx + ball.vy * ball.vy) as u64)
}

fn table_800_600() -> Table {
    Table::new(800 * UNIT, 600 * UNIT, 35 * UNIT).unwrap()
}

#[test]
fn process_moves_then_slows() {
    let mut ball = Ball { x: 0, y: 0, vx: -300000, vy: 400000 };
    ball.process();
    assert_eq!(ball.x, -5000);
    assert_eq!(ball.y, 6666);
    assert_eq!(ball.vx, -234464);
    assert_eq!(ball.vy, 312619);
}

#[test]
fn process_three_ticks() {
    let mut ball = Ball { x: 1000, y: -2000, vx: 5000000, vy: -120000 };
    ball.process();
    assert_eq!((ball.x, ball.y, ball.vx, ball.vy), (84333, -4000, 4890805, -117379));
    ball.process();
    assert_eq!((ball.x, ball.y, ball.vx, ball.vy), (165846, -5956, 4781610, -114758));
    ball.process();
    assert_eq!((ball.x, ball.y, ball.vx, ball.vy), (245539, -7868, 4672415, -112137));
}

#[test]
fn process_brings_a_slow_ball_to_rest() {
    let mut ball = Ball { x: 0, y: 0, vx: 6000, vy: 0 };
    ball.process();
    assert_eq!((ball.x, ball.y, ball.vx, ball.vy), (100, 0, 0, 0));
    ball.process();
    assert_eq!((ball.x, ball.y, ball.vx, ball.vy), (100, 0, 0, 0));
}

#[test]
fn process_at_exactly_the_friction_step_stops() {
    let mut ball = Ball { x: 0, y: 0, vx: 0, vy: -FRICTION_STEP };
    ball.process();
    assert_eq!((ball.vx, ball.vy), (0, 0));
    let mut ball = Ball { x: 0, y: 0, vx: 0, vy: -FRICTION_STEP - 1 };
    ball.process();
    assert_eq!((ball.vx, ball.vy), (0, -1));
}

#[test]
fn friction_slows_until_rest() {
    let mut ball = Ball { x: 0, y: 0, vx: 500000, vy: 0 };
    let expected: [i64; 5] = [390774, 281548, 172322, 63096, 0];
    let mut k = 0;
    while k < 5 {
        let before = speed_of(&ball);
        ball.process();
        let after = speed_of(&ball);
        assert!(after < before);
        assert_eq!(ball.vx, expected[k]);
        assert_eq!(ball.vy, 0);
        k += 1;
    }
    ball.process();
    assert_eq!((ball.vx, ball.vy), (0, 0));
    assert_eq!(ball.x, 23460);
}

#[test]
fn friction_takes_the_step_from_the_speed() {
    let mut ball = Ball { x: 0, y: 0, vx: -121241600, vy: -121241600 };
    let mut k = 0;
    while k < 200 {
        let before = speed_of(&ball) as i64;
        ball.process();
        let after = speed_of(&ball) as i64;
        assert!(after <= before - FRICTION_STEP);
        assert!(after >= before - FRICTION_STEP - 2);
        assert!(ball.vx < 0 && ball.vy < 0);
        k += 1;
    }
}

#[test]
fn friction_keeps_the_direction() {
    let mut ball = Ball { x: 0, y: 0, vx: 30 * UNIT, vy: -40 * UNIT };
    let mut k = 0;
    while k < 20 {
        let (vx, vy) = (ball.vx, ball.vy);
        ball.process();
        let cross = ball.vx * vy - ball.vy * vx;
        assert!(cross.abs() < vx.abs() + vy.abs());
        assert!(ball.vx > 0 && ball.vy < 0);
        let before = (vy as f64).atan2(vx as f64);
        let after = (ball.vy as f64).atan2(ball.vx as f64);
        assert!((before - after).abs() < 1e-5);
        k += 1;
    }
}

#[test]
fn process_at_the_speed_limit() {
    let mut ball = Ball { x: COORD_MAX, y: -COORD_MAX, vx: SPEED_MAX, vy: -SPEED_MAX };
    ball.process();
    assert_eq!(ball.x, COORD_MAX + 17895697);
    assert_eq!(ball.y, -COORD_MAX - 17895697);
    assert!(ball.vx > 0 && ball.vx < SPEED_MAX);
    assert_eq!(ball.vy, -ball.vx);
}

#[test]
fn wall_collision_each_wall() {
    let mut ball = Ball { x: 10, y: 20, vx: 3, vy: -4 };
    ball.wall_collision(Wall::East(5));
    assert_eq!((ball.x, ball.y, ball.vx, ball.vy), (5, 20, -3, -4));
    let mut ball = Ball { x: 10, y: 20, vx: -3, vy: -4 };
    ball.wall_collision(Wall::East(5));
    assert_eq!((ball.x, ball.y, ball.vx, ball.vy), (5, 20, -3, -4));
    let mut ball = Ball { x: 10, y: 20, vx: 3, vy: -4 };
    ball.wall_collision(Wall::West(15));
    assert_eq!((ball.x, ball.y, ball.vx, ball.vy), (15, 20, 3, -4));
    let mut ball = Ball { x: 10, y: 20, vx: -3, vy: -4 };
    ball.wall_collision(Wall::West(15));
    assert_eq!((ball.x, ball.y, ball.vx, ball.vy), (15, 20, 3, -4));
    let mut ball = Ball { x: 10, y: 20, vx: 3, vy: -4 };
    ball.wall_collision(Wall::North(25));
    assert_eq!((ball.x, ball.y, ball.vx, ball.vy), (10, 25, 3, 4));
    let mut ball = Ball { x: 10, y: 20, vx: 3, vy: 4 };
    ball.wall_collision(Wall::South(15));
    assert_eq!((ball.x, ball.y, ball.vx, ball.vy), (10, 15, 3, -4));
}

#[test]
fn wall_collision_inside_the_wall_keeps_the_position() {
    let mut ball = Ball { x: 10, y: 20, vx: 3, vy: 4 };
    ball.wall_collision(Wall::East(50));
    assert_eq!((ball.x, ball.y, ball.vx, ball.vy), (10, 20, -3, 4));
    let mut ball = Ball { x: 10, y: 20, vx: 0, vy: 0 };
    ball.wall_collision(Wall::South(50));
    assert_eq!((ball.x, ball.y, ball.vx, ball.vy), (10, 20, 0, 0));
}

#[test]
fn wall_holds_a_ball_from_anywhere() {
    let table = table_800_600();
    let far: [i64; 5] = [i64::MIN, -COORD_MAX, 0, COORD_MAX, i64::MAX];
    let mut i = 0;
    while i < 5 {
        let mut j = 0;
        while j < 5 {
            let mut ball = Ball { x: far[i], y: far[j], vx: 7, vy: -9 };
            Ball::check_hit_wall(&mut ball, &table);
            assert!(35 * UNIT <= ball.x && ball.x <= 735 * UNIT);
            assert!(35 * UNIT <= ball.y && ball.y <= 535 * UNIT);
            j += 1;
        }
        i += 1;
    }
}

#[test]
fn wall_turns_the_velocity_inward() {
    let table = table_800_600();
    let mut ball = Ball { x: 736 * UNIT, y: 100 * UNIT, vx: 5, vy: 6 };
    Ball::check_hit_wall(&mut ball, &table);
    assert_eq!((ball.x, ball.y, ball.vx, ball.vy), (735 * UNIT, 100 * UNIT, -5, 6));
    let mut ball = Ball { x: 34 * UNIT, y: 100 * UNIT, vx: -5, vy: 6 };
    Ball::check_hit_wall(&mut ball, &table);
    assert_eq!((ball.x, ball.y, ball.vx, ball.vy), (35 * UNIT, 100 * UNIT, 5, 6));
    let mut ball = Ball { x: 100 * UNIT, y: 536 * UNIT, vx: -5, vy: 6 };
    Ball::check_hit_wall(&mut ball, &table);
    assert_eq!((ball.x, ball.y, ball.vx, ball.vy), (100 * UNIT, 535 * UNIT, -5, -6));
    let mut ball = Ball { x: 100 * UNIT, y: 34 * UNIT, vx: -5, vy: -6 };
    Ball::check_hit_wall(&mut ball, &table);
    assert_eq!((ball.x, ball.y, ball.vx, ball.vy), (100 * UNIT, 35 * UNIT, -5, 6));
}

#[test]
fn wall_turns_back_a_ball_that_already_points_inward() {
    let table = table_800_600();
    let mut ball = Ball { x: 800 * UNIT, y: 100 * UNIT, vx: -5, vy: 0 };
    Ball::check_hit_wall(&mut ball, &table);
    assert_eq!((ball.x, ball.vx), (735 * UNIT, -5));
    let mut ball = Ball { x: 800 * UNIT, y: 100 * UNIT, vx: 0, vy: 0 };
    Ball::check_hit_wall(&mut ball, &table);
    assert_eq!((ball.x, ball.vx), (735 * UNIT, 0));
}

#[test]
fn wall_corrects_both_axes_in_a_corner() {
    let table = table_800_600();
    let mut ball = Ball { x: 900 * UNIT, y: -10 * UNIT, vx: 11, vy: -13 };
    Ball::check_hit_wall(&mut ball, &table);
    assert_eq!((ball.x, ball.y, ball.vx, ball.vy), (735 * UNIT, 35 * UNIT, -11, 13));
    let mut ball = Ball { x: 0, y: 600 * UNIT, vx: -11, vy: 13 };
    Ball::check_hit_wall(&mut ball, &table);
    assert_eq!((ball.x, ball.y, ball.vx, ball.vy), (35 * UNIT, 535 * UNIT, 11, -13));
}

#[test]
fn wall_leaves_a_ball_inside_alone() {
    let table = table_800_600();
    let mut ball = Ball { x: 400 * UNIT, y: 300 * UNIT, vx: 11, vy: -13 };
    Ball::check_hit_wall(&mut ball, &table);
    assert_eq!((ball.x, ball.y, ball.vx, ball.vy), (400 * UNIT, 300 * UNIT, 11, -13));
}

#[test]
fn ball_on_the_boundary_stays_on_it() {
    let table = table_800_600();
    let mut ball = Ball { x: 735 * UNIT, y: 300 * UNIT, vx: 50 * UNIT, vy: 0 };
    Ball::check_hit_wall(&mut ball, &table);
    assert_eq!((ball.x, ball.y, ball.vx, ball.vy), (735 * UNIT, 300 * UNIT, 50 * UNIT, 0));
    ball.process();
    assert!(ball.x > 735 * UNIT);
    Ball::check_hit_wall(&mut ball, &table);
    assert_eq!(ball.x, 735 * UNIT);
    assert_eq!(ball.y, 300 * UNIT);
    assert!(ball.vx < 0);
    assert_eq!(ball.vy, 0);
}

#[test]
fn collision_head_on() {
    let a = Ball { x: 0, y: 0, vx: 10 * UNIT, vy: 0 };
    let b = Ball { x: 20 * UNIT, y: 0, vx: 0, vy: 0 };
    assert_eq!(a.collision(&b), ((655360, 0), (393216, 0)));
    assert_eq!(b.collision(&a), ((-655360, 0), (-393216, 0)));
}

#[test]
fn collision_oblique() {
    let a = Ball { x: 100 * UNIT, y: 100 * UNIT, vx: 3 * UNIT, vy: -4 * UNIT };
    let b = Ball { x: 110 * UNIT + 5, y: 120 * UNIT - 7, vx: -2 * UNIT, vy: UNIT };
    assert_eq!(a.collision(&b), ((146544, -293085), (141260, 282516)));
}

#[test]
fn collision_one_sub_unit_apart() {
    let a = Ball { x: 0, y: 0, vx: 7, vy: 0 };
    let b = Ball { x: 1, y: 0, vx: 0, vy: 0 };
    assert_eq!(a.collision(&b), ((7, 0), (1048576, 0)));
    let a = Ball { x: 5, y: 5, vx: 0, vy: 0 };
    let b = Ball { x: 4, y: 6, vx: 100, vy: -100 };
    assert_eq!(a.collision(&b), ((-70, 70), (-741455, 741455)));
}

#[test]
fn collision_of_close_centres_uses_a_unit_direction() {
    let a = Ball { x: 1, y: 1, vx: 100 * UNIT, vy: 100 * UNIT };
    let b = Ball { x: 0, y: 0, vx: 0, vy: 0 };
    let ((tx, ty), (ox, oy)) = a.collision(&b);
    assert_eq!((tx, ty), (4634095, 4634095));
    assert_eq!((ox, oy), (-741455, -741455));
    assert!((tx as f64 / (100 * UNIT) as f64 - 0.5_f64.sqrt()).abs() < 1e-6);
    assert!((-ox as f64 / UNIT as f64 - 16.0 * 0.5_f64.sqrt()).abs() < 1e-4);

    let a = Ball { x: 468, y: 468, vx: 100 * UNIT, vy: 0 };
    assert_eq!(a.collision(&b), ((4634095, 0), (-741221, -741221)));
}

#[test]
fn collision_along_a_three_four_five_triangle_is_exact() {
    let a = Ball { x: 3, y: -4, vx: 100 * UNIT, vy: -50 * UNIT };
    let b = Ball { x: 0, y: 0, vx: 0, vy: 0 };
    assert_eq!(a.collision(&b), ((60 * UNIT, -40 * UNIT), (-629144, 838858)));
    let a = Ball { x: 12 * UNIT, y: 16 * UNIT, vx: 1850 * UNIT, vy: 0 };
    let b = Ball { x: 0, y: 0, vx: 0, vy: -1850 * UNIT };
    assert_eq!(a.collision(&b), ((1110 * UNIT, 1480 * UNIT), (-235929, -314572)));
}

#[test]
fn check_hit_ball_needs_less_than_two_radii() {
    let a = Ball { x: 0, y: 0, vx: 10 * UNIT, vy: 0 };
    let touching = Ball { x: 30 * UNIT, y: 0, vx: 0, vy: 0 };
    assert_eq!(Ball::check_hit_ball(&a, &touching, None), None);
    let near = Ball { x: 30 * UNIT - 1, y: 0, vx: 0, vy: 0 };
    assert!(Ball::check_hit_ball(&a, &near, None).is_some());
    let diagonal = Ball { x: 18 * UNIT, y: 24 * UNIT, vx: 0, vy: 0 };
    assert_eq!(Ball::check_hit_ball(&a, &diagonal, None), None);
    let diagonal = Ball { x: 18 * UNIT, y: 24 * UNIT - 1, vx: 0, vy: 0 };
    assert!(Ball::check_hit_ball(&a, &diagonal, None).is_some());
    let far = Ball { x: COORD_MAX, y: -COORD_MAX, vx: 0, vy: 0 };
    let other = Ball { x: -COORD_MAX, y: COORD_MAX, vx: 0, vy: 0 };
    assert_eq!(Ball::check_hit_ball(&far, &other, None), None);
}

#[test]
fn check_hit_ball_first_contact() {
    let a = Ball { x: 0, y: 0, vx: 10 * UNIT, vy: 0 };
    let b = Ball { x: 20 * UNIT, y: 0, vx: 0, vy: 0 };
    assert_eq!(Ball::check_hit_ball(&a, &b, None), Some(((655360, 0), (393216, 0))));
}

#[test]
fn check_hit_ball_continued_contact_hands_over_nothing() {
    let a = Ball { x: 0, y: 0, vx: 10 * UNIT, vy: 0 };
    let b = Ball { x: 20 * UNIT, y: 0, vx: 0, vy: 0 };
    assert_eq!(
        Ball::check_hit_ball(&a, &b, Some(Collision::CueBall(0))),
        Some(((0, 0), (393216, 0)))
    );
    let a = Ball { x: 100 * UNIT, y: 100 * UNIT, vx: 3 * UNIT, vy: -4 * UNIT };
    let b = Ball { x: 110 * UNIT + 5, y: 120 * UNIT - 7, vx: -2 * UNIT, vy: UNIT };
    assert_eq!(
        Ball::check_hit_ball(&a, &b, Some(Collision::TwoBalls(0, 1))),
        Some(((0, 0), (141260, 282516)))
    );
}

#[test]
fn check_hit_ball_same_centre() {
    let a = Ball { x: 7 * UNIT, y: 9 * UNIT, vx: 10 * UNIT, vy: 3 };
    let b = Ball { x: 7 * UNIT, y: 9 * UNIT, vx: -5, vy: 0 };
    assert_eq!(Ball::check_hit_ball(&a, &b, None), None);
    assert_eq!(Ball::check_hit_ball(&a, &b, Some(Collision::CueBall(0))), None);
}

#[test]
fn ball_limits() {
    assert!(Ball { x: COORD_MAX, y: -COORD_MAX, vx: SPEED_MAX, vy: -SPEED_MAX }.is_wf());
    assert!(!Ball { x: COORD_MAX + 1, y: 0, vx: 0, vy: 0 }.is_wf());
    assert!(!Ball { x: 0, y: -COORD_MAX - 1, vx: 0, vy: 0 }.is_wf());
    assert!(!Ball { x: 0, y: 0, vx: SPEED_MAX + 1, vy: 0 }.is_wf());
    assert!(!Ball { x: 0, y: 0, vx: 0, vy: -SPEED_MAX - 1 }.is_wf());
    let table = table_800_600();
    assert!(Ball { x: 35 * UNIT, y: 535 * UNIT, vx: 0, vy: 0 }.is_on(&table));
    assert!(!Ball { x: 35 * UNIT - 1, y: 535 * UNIT, vx: 0, vy: 0 }.is_on(&table));
    assert!(!Ball { x: 35 * UNIT, y: 535 * UNIT + 1, vx: 0, vy: 0 }.is_on(&table));
    assert!(!Ball { x: 35 * UNIT, y: 535 * UNIT, vx: SPEED_MAX + 1, vy: 0 }.is_on(&table));
}
