use virtual_pool::aim::{cursor_dot_sizes, update_cursor};
use virtual_pool::ball::Ball;
use virtual_pool::fixed::UNIT;

#[test]
fn three_dots_toward_the_pointer() {
    let cue = Ball { x: 100 * UNIT, y: 100 * UNIT, vx: 0, vy: 0 };
    let aim = update_cursor(&cue, (300, 300), 6 * UNIT, 3);
    assert_eq!(aim.cursor, (19267584, 19267584));
    assert_eq!(
        aim.dots,
        vec![(10420224, 10420224), (13369344, 13369344), (16318464, 16318464)]
    );
}

#[test]
fn two_dots_up_and_left() {
    let cue = Ball { x: 100 * UNIT, y: 100 * UNIT, vx: 9, vy: -9 };
    let aim = update_cursor(&cue, (-20, 7), 6 * UNIT, 2);
    assert_eq!(aim.cursor, (-1703936, 65536));
    assert_eq!(aim.dots, vec![(4412804, 5002619), (1354504, 2534134)]);
}

#[test]
fn no_dots() {
    let cue = Ball { x: 100 * UNIT, y: 100 * UNIT, vx: 0, vy: 0 };
    let aim = update_cursor(&cue, (300, 200), 6 * UNIT, 0);
    assert_eq!(aim.cursor, (294 * UNIT, 194 * UNIT));
    assert!(aim.dots.is_empty());
    let aim = update_cursor(&cue, (300, 200), 6 * UNIT, -5);
    assert!(aim.dots.is_empty());
}

#[test]
fn dots_lie_between_cue_ball_and_pointer() {
    let cue = Ball { x: 100 * UNIT, y: 400 * UNIT, vx: 0, vy: 0 };
    let aim = update_cursor(&cue, (700, 50), 0, 9);
    assert_eq!(aim.dots.len(), 9);
    let mut i = 0;
    while i < 9 {
        let (x, y) = aim.dots[i];
        assert!(115 * UNIT - UNIT <= x && x <= 700 * UNIT);
        assert!(50 * UNIT - UNIT <= y && y <= 415 * UNIT);
        if i > 0 {
            assert!(aim.dots[i - 1].0 < x);
            assert!(aim.dots[i - 1].1 > y);
        }
        i += 1;
    }
}

#[test]
fn dot_sizes_grow_toward_the_marker() {
    assert_eq!(cursor_dot_sizes(6 * UNIT, 3), vec![147456, 229376, 311296]);
    assert_eq!(cursor_dot_sizes(6 * UNIT, 1), vec![7 * UNIT / 2]);
    assert_eq!(cursor_dot_sizes(0, 2), vec![43691, 21846]);
    assert!(cursor_dot_sizes(6 * UNIT, 0).is_empty());
    assert!(cursor_dot_sizes(6 * UNIT, -1).is_empty());
}

#[test]
fn dots_are_centred_on_the_line() {
    let cue = Ball { x: 100 * UNIT, y: 100 * UNIT, vx: 0, vy: 0 };
    let aim = update_cursor(&cue, (300, 300), 6 * UNIT, 3);
    let sizes = cursor_dot_sizes(6 * UNIT, 3);
    let mut i = 0;
    while i < 3 {
        let centre = aim.dots[i].0 + sizes[i];
        let expected = 115.0_f64 + (300.0 - 115.0) * (i as f64 + 1.0) / 4.0;
        assert!((centre as f64 / UNIT as f64 - expected).abs() < 1e-4);
        assert_eq!(aim.dots[i].0, aim.dots[i].1);
        i += 1;
    }
}
