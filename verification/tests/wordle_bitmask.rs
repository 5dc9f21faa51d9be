use puzzles::wordle::bitmask::Bitmask;

#[test]
fn solve_test_init() {
    let mask = Bitmask::new();
    assert_eq!(mask.0, 0);
}

#[test]
fn solve_test_add() {
    let mut mask = Bitmask::new();
    mask.add(0);
    assert_eq!(mask.0, 1);

    mask.add(2);
    assert_eq!(mask.0, 5);
}

#[test]
fn solve_test_remove() {
    let mut mask = Bitmask::new();
    mask.add(3);
    assert_eq!(mask.0, 8);

    mask.remove(3);
    assert_eq!(mask.0, 0);
}

#[test]
fn solve_test_muli_add() {
    let mut mask = Bitmask::new();
    mask.add(3);
    assert_eq!(mask.0, 8);

    mask.add(3);
    assert_eq!(mask.0, 8);
}

#[test]
fn solve_test_muli_remove() {
    let mut mask = Bitmask::new();
    mask.add(3);
    assert_eq!(mask.0, 8);

    mask.remove(3);
    assert_eq!(mask.0, 0);

    mask.remove(3);
    assert_eq!(mask.0, 0);
}

#[test]
fn solve_test_values() {
    let mut mask = Bitmask::new();
    mask.add(3);
    mask.add(8);

    let values: Vec<usize> = mask.values();
    println!("Values: {:?}", values);
    assert!(values.contains(&3));
    assert!(values.contains(&8));
}

#[test]
fn solve_test_intersection() {
    let mut first = Bitmask::new();
    first.add(1);
    first.add(2);
    first.add(5);
    first.add(7);

    let mut second = Bitmask::new();
    second.add(2);
    second.add(5);
    second.add(6);
    second.add(8);

    let intersection = first.intersection(&second);

    assert!(intersection.has(2));
    assert!(intersection.has(5));
}

#[test]
fn solve_test_difference() {
    let mut first = Bitmask::new();
    first.add(1);
    first.add(2);
    first.add(5);
    first.add(7);

    let mut second = Bitmask::new();
    second.add(2);
    second.add(5);
    second.add(6);
    second.add(8);

    let intersection = first.symmetric_difference(&second);

    assert!(intersection.has(1));
    assert!(intersection.has(6));
    assert!(intersection.has(7));
    assert!(intersection.has(8));
}

#[test]
fn main_test_init() {
    let mask = Bitmask::new();
    assert_eq!(mask.0, 0);
}

#[test]
fn main_test_add() {
    let mut mask = Bitmask::new();
    mask.add(0);
    assert_eq!(mask.0, 1);

    mask.add(2);
    assert_eq!(mask.0, 5);
}

#[test]
fn main_test_remove() {
    let mut mask = Bitmask::new();
    mask.add(3);
    assert_eq!(mask.0, 8);

    mask.remove(3);
    assert_eq!(mask.0, 0);
}

#[test]
fn main_test_muli_add() {
    let mut mask = Bitmask::new();
    mask.add(3);
    assert_eq!(mask.0, 8);

    mask.add(3);
    assert_eq!(mask.0, 8);
}

#[test]
fn main_test_muli_remove() {
    let mut mask = Bitmask::new();
    mask.add(3);
    assert_eq!(mask.0, 8);

    mask.remove(3);
    assert_eq!(mask.0, 0);

    mask.remove(3);
    assert_eq!(mask.0, 0);
}

#[test]
fn main_test_values() {
    let mut mask = Bitmask::new();
    mask.add(3);
    mask.add(8);

    let values: Vec<usize> = mask.values();
    println!("Values: {:?}", values);
    assert!(values.contains(&3));
    assert!(values.contains(&8));
}

#[test]
fn main_test_intersection() {
    let mut first = Bitmask::new();
    first.add(1);
    first.add(2);
    first.add(5);
    first.add(7);

    let mut second = Bitmask::new();
    second.add(2);
    second.add(5);
    second.add(6);
    second.add(8);

    let intersection = first.intersection(&second);

    assert!(intersection.has(2));
    assert!(intersection.has(5));
}

#[test]
fn main_test_difference() {
    let mut first = Bitmask::new();
    first.add(1);
    first.add(2);
    first.add(5);
    first.add(7);

    let mut second = Bitmask::new();
    second.add(2);
    second.add(5);
    second.add(6);
    second.add(8);

    let intersection = first.symmetric_difference(&second);

    assert!(intersection.has(1));
    assert!(intersection.has(6));
    assert!(intersection.has(7));
    assert!(intersection.has(8));
}

#[test]
fn values_are_ascending() {
    let mut mask = Bitmask::new();
    mask.add(8);
    mask.add(3);
    mask.add(63);
    assert_eq!(mask.values(), vec![3, 8, 63]);
}

#[test]
fn default_is_empty() {
    let mask = Bitmask::default();
    assert_eq!(mask.0, 0);
    assert!(mask.values().is_empty());
}
