use virtual_pool::fixed::{BALL_SIZE, UNIT};
use virtual_pool::table::{Table, TABLE_MAX};

#[test]
fn table_from_window_and_border() {
    let table = Table::new(800 * UNIT, 600 * UNIT, 35 * UNIT).unwrap();
    assert_eq!(table.left, 35 * UNIT);
    assert_eq!(table.top, 35 * UNIT);
    assert_eq!(table.width, 730 * UNIT);
    assert_eq!(table.height, 530 * UNIT);
    assert_eq!(table.left_wall(), 2293760);
    assert_eq!(table.right_wall(), 48168960);
    assert_eq!(table.top_wall(), 2293760);
    assert_eq!(table.bottom_wall(), 35061760);
    assert!(table.is_wf());
}

#[test]
fn table_that_just_holds_a_ball() {
    let table = Table::new(2 * BALL_SIZE, 2 * BALL_SIZE, 0).unwrap();
    assert_eq!(table.left_wall(), table.right_wall());
    assert_eq!(table.top_wall(), table.bottom_wall());
    assert!(Table::new(2 * BALL_SIZE - 1, 2 * BALL_SIZE, 0).is_none());
    assert!(Table::new(2 * BALL_SIZE, 2 * BALL_SIZE - 1, 0).is_none());
    assert!(Table::new(2 * BALL_SIZE + 2, 2 * BALL_SIZE + 2, 1).is_some());
    assert!(Table::new(2 * BALL_SIZE + 1, 2 * BALL_SIZE + 2, 1).is_none());
}

#[test]
fn table_refuses_what_is_out_of_range() {
    assert!(Table::new(800 * UNIT, 600 * UNIT, -1).is_none());
    assert!(Table::new(-1, 600 * UNIT, 0).is_none());
    assert!(Table::new(i64::MAX, 600 * UNIT, 0).is_none());
    assert!(Table::new(600 * UNIT, i64::MAX, 0).is_none());
    assert!(Table::new(600 * UNIT, 600 * UNIT, i64::MAX).is_none());
    assert!(Table::new(TABLE_MAX + 2 * BALL_SIZE, 600 * UNIT, 0).is_some());
    assert!(Table::new(TABLE_MAX + 2 * BALL_SIZE + 1, 600 * UNIT, 0).is_none());
}

#[test]
fn table_validity() {
    assert!(Table { left: -TABLE_MAX, top: 0, width: 2 * BALL_SIZE, height: 2 * BALL_SIZE }.is_wf());
    assert!(!Table { left: -TABLE_MAX - 1, top: 0, width: 2 * BALL_SIZE, height: 2 * BALL_SIZE }.is_wf());
    assert!(!Table { left: 0, top: 0, width: 2 * BALL_SIZE - 1, height: 2 * BALL_SIZE }.is_wf());
    assert!(!Table { left: 0, top: 0, width: 2 * BALL_SIZE, height: 0 }.is_wf());
    assert!(!Table { left: i64::MAX, top: 0, width: i64::MAX, height: 2 * BALL_SIZE }.is_wf());
    assert!(!Table { left: 0, top: 1, width: 2 * BALL_SIZE, height: TABLE_MAX + 2 * BALL_SIZE }.is_wf());
}
