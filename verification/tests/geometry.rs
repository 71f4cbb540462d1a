use tilewm::util::{Bounds, Direction};

#[test]
fn invert_flips_each_direction() {
    assert_eq!(Direction::Left.invert(), Direction::Right);
    assert_eq!(Direction::Right.invert(), Direction::Left);
    assert_eq!(Direction::Up.invert(), Direction::Down);
    assert_eq!(Direction::Down.invert(), Direction::Up);
}

#[test]
fn same_line_groups_axes() {
    assert!(Direction::Left.is_on_same_line(Direction::Right));
    assert!(Direction::Right.is_on_same_line(Direction::Right));
    assert!(Direction::Up.is_on_same_line(Direction::Down));
    assert!(!Direction::Left.is_on_same_line(Direction::Up));
    assert!(!Direction::Down.is_on_same_line(Direction::Right));
}

#[test]
fn split_right_truncates_and_covers() {
    let b = Bounds::new(0, 0, 7, 5);
    let (near, far) = b.split(Direction::Right, 500);
    assert_eq!(near, Bounds::new(0, 0, 3, 5));
    assert_eq!(far, Bounds::new(3, 0, 4, 5));
}

#[test]
fn split_left_mirrors_the_proportion() {
    let b = Bounds::new(0, 0, 7, 5);
    let (near, far) = b.split(Direction::Left, 500);
    assert_eq!(near, Bounds::new(3, 0, 4, 5));
    assert_eq!(far, Bounds::new(0, 0, 3, 5));
}

#[test]
fn split_down_and_up() {
    let b = Bounds::new(10, 20, 100, 51);
    let (near, far) = b.split(Direction::Down, 500);
    assert_eq!(near, Bounds::new(10, 20, 100, 25));
    assert_eq!(far, Bounds::new(10, 45, 100, 26));
    let (near_u, far_u) = b.split(Direction::Up, 500);
    assert_eq!(near_u, Bounds::new(10, 45, 100, 26));
    assert_eq!(far_u, Bounds::new(10, 20, 100, 25));
}

#[test]
fn split_with_uneven_proportion() {
    let b = Bounds::new(0, 0, 1000, 1000);
    let (near, far) = b.split(Direction::Right, 600);
    assert_eq!(near, Bounds::new(0, 0, 600, 1000));
    assert_eq!(far, Bounds::new(600, 0, 400, 1000));
}

#[test]
fn split_extreme_proportions_leave_no_gap() {
    let b = Bounds::new(5, 5, 9, 9);
    let (near, far) = b.split(Direction::Right, 0);
    assert_eq!(near, Bounds::new(5, 5, 0, 9));
    assert_eq!(far, Bounds::new(5, 5, 9, 9));
    let (near2, far2) = b.split(Direction::Right, 1000);
    assert_eq!(near2, Bounds::new(5, 5, 9, 9));
    assert_eq!(far2, Bounds::new(14, 5, 0, 9));
}

#[test]
fn split_single_takes_the_half_toward_the_direction() {
    let b = Bounds::new(0, 0, 7, 5);
    assert_eq!(b.split_single(Direction::Right), Bounds::new(3, 0, 3, 5));
    assert_eq!(b.split_single(Direction::Left), Bounds::new(0, 0, 3, 5));
    assert_eq!(b.split_single(Direction::Down), Bounds::new(0, 2, 7, 2));
    assert_eq!(b.split_single(Direction::Up), Bounds::new(0, 0, 7, 2));
}

#[test]
fn shrink_for_border_leaves_room_on_both_sides() {
    let b = Bounds::new(0, 0, 100, 50);
    let inner = b.shrink_for_border(3);
    assert_eq!(inner, Bounds::new(0, 0, 94, 44));
    let same = b.shrink_for_border(0);
    assert_eq!(same, b);
}
