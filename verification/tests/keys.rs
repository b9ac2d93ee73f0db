use virtual_pool::collision::{ActivePairs, Collision};

#[test]
fn keys_equal_by_variant_and_indices() {
    assert!(Collision::TwoBalls(1, 2) == Collision::TwoBalls(1, 2));
    assert!(Collision::CueBall(4) == Collision::CueBall(4));
    assert!(Collision::TwoBalls(1, 2) != Collision::TwoBalls(2, 1));
    assert!(Collision::TwoBalls(1, 2) != Collision::TwoBalls(1, 3));
    assert!(Collision::TwoBalls(1, 2) != Collision::TwoBalls(0, 2));
    assert!(Collision::CueBall(4) != Collision::CueBall(5));
    assert!(Collision::CueBall(1) != Collision::TwoBalls(1, 1));
    assert!(Collision::TwoBalls(0, 0) != Collision::CueBall(0));
}

#[test]
fn new_set_is_empty() {
    let pairs = ActivePairs::new();
    assert_eq!(pairs.len(), 0);
    assert!(!pairs.contains(&Collision::CueBall(0)));
    assert!(!pairs.contains(&Collision::TwoBalls(0, 1)));
}

#[test]
fn insert_then_contains() {
    let mut pairs = ActivePairs::new();
    pairs.insert(Collision::CueBall(3));
    pairs.insert(Collision::TwoBalls(1, 2));
    assert!(pairs.contains(&Collision::CueBall(3)));
    assert!(pairs.contains(&Collision::TwoBalls(1, 2)));
    assert!(!pairs.contains(&Collision::TwoBalls(2, 1)));
    assert!(!pairs.contains(&Collision::CueBall(1)));
    assert_eq!(pairs.len(), 2);
}

#[test]
fn insert_twice_holds_once() {
    let mut pairs = ActivePairs::new();
    pairs.insert(Collision::CueBall(3));
    pairs.insert(Collision::CueBall(3));
    assert_eq!(pairs.len(), 1);
    pairs.remove(&Collision::CueBall(3));
    assert_eq!(pairs.len(), 0);
    assert!(!pairs.contains(&Collision::CueBall(3)));
}

#[test]
fn remove_takes_only_its_key() {
    let mut pairs = ActivePairs::new();
    pairs.insert(Collision::CueBall(0));
    pairs.insert(Collision::TwoBalls(0, 1));
    pairs.insert(Collision::CueBall(1));
    pairs.remove(&Collision::TwoBalls(0, 1));
    assert!(pairs.contains(&Collision::CueBall(0)));
    assert!(pairs.contains(&Collision::CueBall(1)));
    assert!(!pairs.contains(&Collision::TwoBalls(0, 1)));
    assert_eq!(pairs.len(), 2);
}

#[test]
fn remove_of_absent_key_changes_nothing() {
    let mut pairs = ActivePairs::new();
    pairs.insert(Collision::CueBall(0));
    pairs.remove(&Collision::CueBall(9));
    assert_eq!(pairs.len(), 1);
    assert!(pairs.contains(&Collision::CueBall(0)));
}
