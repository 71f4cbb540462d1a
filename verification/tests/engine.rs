use tilewm::layout::{Window, WindowTree};
use tilewm::util::{Bounds, Direction};

fn monitor() -> Bounds {
    Bounds::new(0, 0, 1000, 1000)
}

#[test]
fn insert_into_empty_takes_full_monitor() {
    let mut tree = WindowTree::new(monitor());
    let changed = tree.insert(Window::new(1));
    assert_eq!(changed, vec![(1u64, monitor())]);
    assert_eq!(tree.leaves(), vec![(1u64, monitor())]);
    assert_eq!(tree.focused_window(), Some(1));
}

#[test]
fn second_insert_splits_horizontally() {
    let mut tree = WindowTree::new(monitor());
    tree.insert(Window::new(1));
    let changed = tree.insert(Window::new(2));
    assert_eq!(
        changed,
        vec![(1u64, Bounds::new(0, 0, 500, 1000)), (2u64, Bounds::new(500, 0, 500, 1000))]
    );
    assert_eq!(
        tree.leaves(),
        vec![(1u64, Bounds::new(0, 0, 500, 1000)), (2u64, Bounds::new(500, 0, 500, 1000))]
    );
    assert_eq!(tree.focused_window(), Some(2));
}

#[test]
fn third_insert_alternates_to_vertical() {
    let mut tree = WindowTree::new(monitor());
    tree.insert(Window::new(1));
    tree.insert(Window::new(2));
    let changed = tree.insert(Window::new(3));
    assert_eq!(
        changed,
        vec![(2u64, Bounds::new(500, 0, 500, 500)), (3u64, Bounds::new(500, 500, 500, 500))]
    );
    assert_eq!(
        tree.leaves(),
        vec![
            (1u64, Bounds::new(0, 0, 500, 1000)),
            (2u64, Bounds::new(500, 0, 500, 500)),
            (3u64, Bounds::new(500, 500, 500, 500)),
        ]
    );
    assert_eq!(tree.focused_window(), Some(3));
}

#[test]
fn fourth_insert_alternates_back_to_horizontal() {
    let mut tree = WindowTree::new(monitor());
    tree.insert(Window::new(1));
    tree.insert(Window::new(2));
    tree.insert(Window::new(3));
    let changed = tree.insert(Window::new(4));
    assert_eq!(
        changed,
        vec![(3u64, Bounds::new(500, 500, 250, 500)), (4u64, Bounds::new(750, 500, 250, 500))]
    );
    assert_eq!(tree.focused_window(), Some(4));
}

#[test]
fn move_focus_left_reaches_the_first_window() {
    let mut tree = WindowTree::new(monitor());
    tree.insert(Window::new(1));
    tree.insert(Window::new(2));
    tree.insert(Window::new(3));
    let before = tree.leaves();
    assert_eq!(tree.move_focus(Direction::Left), Some(1));
    assert_eq!(tree.leaves(), before);
    assert_eq!(tree.focused_window(), Some(1));
}

#[test]
fn move_focus_at_the_edge_returns_none_and_keeps_the_tree() {
    let mut tree = WindowTree::new(monitor());
    tree.insert(Window::new(1));
    tree.insert(Window::new(2));
    tree.insert(Window::new(3));
    assert_eq!(tree.move_focus(Direction::Left), Some(1));
    let before = tree.leaves();
    assert_eq!(tree.move_focus(Direction::Left), None);
    assert_eq!(tree.leaves(), before);
    assert_eq!(tree.focused_window(), Some(1));
}

#[test]
fn move_focus_on_empty_tree_returns_none() {
    let mut tree = WindowTree::new(monitor());
    assert_eq!(tree.move_focus(Direction::Right), None);
}

#[test]
fn move_focus_back_and_forth() {
    let mut tree = WindowTree::new(monitor());
    tree.insert(Window::new(1));
    tree.insert(Window::new(2));
    assert_eq!(tree.move_focus(Direction::Left), Some(1));
    assert_eq!(tree.move_focus(Direction::Right), Some(2));
    assert_eq!(tree.move_focus(Direction::Up), None);
}

#[test]
fn remove_focused_splices_the_sibling_in() {
    let mut tree = WindowTree::new(monitor());
    tree.insert(Window::new(1));
    tree.insert(Window::new(2));
    tree.insert(Window::new(3));
    let (removed, new_focus, changed) = tree.remove_focused_window().unwrap();
    assert_eq!(removed, 3);
    assert_eq!(new_focus, Some(2));
    assert_eq!(changed, vec![(2u64, Bounds::new(500, 0, 500, 1000))]);
    assert_eq!(
        tree.leaves(),
        vec![(1u64, Bounds::new(0, 0, 500, 1000)), (2u64, Bounds::new(500, 0, 500, 1000))]
    );
    assert_eq!(tree.focused_window(), Some(2));
}

#[test]
fn remove_single_leaf_empties_the_arena() {
    let mut tree = WindowTree::new(monitor());
    tree.insert(Window::new(7));
    let (removed, new_focus, changed) = tree.remove_focused_window().unwrap();
    assert_eq!(removed, 7);
    assert_eq!(new_focus, None);
    assert!(changed.is_empty());
    assert!(tree.leaves().is_empty());
    assert_eq!(tree.focused_window(), None);
    // the arena is reusable afterwards
    let changed = tree.insert(Window::new(8));
    assert_eq!(changed, vec![(8u64, monitor())]);
}

#[test]
fn remove_on_empty_tree_returns_none() {
    let mut tree = WindowTree::new(monitor());
    assert!(tree.remove_focused_window().is_none());
}

#[test]
fn insert_then_remove_restores_the_tree() {
    let mut tree = WindowTree::new(monitor());
    tree.insert(Window::new(1));
    tree.insert(Window::new(2));
    tree.insert(Window::new(3));
    let before = tree.leaves();
    tree.insert(Window::new(4));
    let (removed, new_focus, _) = tree.remove_focused_window().unwrap();
    assert_eq!(removed, 4);
    assert_eq!(new_focus, Some(3));
    assert_eq!(tree.leaves(), before);
    assert_eq!(tree.focused_window(), Some(3));
}

#[test]
fn resize_right_moves_the_shared_edge() {
    let mut tree = WindowTree::new(monitor());
    tree.insert(Window::new(1));
    tree.insert(Window::new(2));
    let changed = tree.resize_focused_window(Direction::Right, 100).unwrap();
    assert_eq!(
        changed,
        vec![(1u64, Bounds::new(0, 0, 600, 1000)), (2u64, Bounds::new(600, 0, 400, 1000))]
    );
    assert_eq!(tree.focused_window(), Some(2));
}

#[test]
fn resize_and_undo_restore_the_layout() {
    let mut tree = WindowTree::new(monitor());
    tree.insert(Window::new(1));
    tree.insert(Window::new(2));
    let before = tree.leaves();
    tree.resize_focused_window(Direction::Right, 100).unwrap();
    tree.resize_focused_window(Direction::Right, -100).unwrap();
    assert_eq!(tree.leaves(), before);
}

#[test]
fn resize_without_an_ancestor_on_the_axis_returns_none() {
    let mut tree = WindowTree::new(monitor());
    tree.insert(Window::new(1));
    assert!(tree.resize_focused_window(Direction::Right, 100).is_none());
    tree.insert(Window::new(2));
    let before = tree.leaves();
    assert!(tree.resize_focused_window(Direction::Up, 100).is_none());
    assert_eq!(tree.leaves(), before);
}

#[test]
fn resize_on_empty_tree_returns_none() {
    let mut tree = WindowTree::new(monitor());
    assert!(tree.resize_focused_window(Direction::Left, 100).is_none());
}

#[test]
fn resize_is_clamped_away_from_degenerate_tiles() {
    let mut tree = WindowTree::new(monitor());
    tree.insert(Window::new(1));
    tree.insert(Window::new(2));
    let grown = tree.resize_focused_window(Direction::Right, 100000).unwrap();
    assert_eq!(
        grown,
        vec![(1u64, Bounds::new(0, 0, 950, 1000)), (2u64, Bounds::new(950, 0, 50, 1000))]
    );
    let shrunk = tree.resize_focused_window(Direction::Right, -100000).unwrap();
    assert_eq!(
        shrunk,
        vec![(1u64, Bounds::new(0, 0, 50, 1000)), (2u64, Bounds::new(50, 0, 950, 1000))]
    );
}

#[test]
fn resize_left_inverts_the_sign() {
    let mut tree = WindowTree::new(monitor());
    tree.insert(Window::new(1));
    tree.insert(Window::new(2));
    // growing the focused (right) window toward the left shrinks the near child
    let changed = tree.resize_focused_window(Direction::Left, 100).unwrap();
    assert_eq!(
        changed,
        vec![(1u64, Bounds::new(0, 0, 400, 1000)), (2u64, Bounds::new(400, 0, 600, 1000))]
    );
}

#[test]
fn change_tiling_direction_steers_the_next_split() {
    let mut tree = WindowTree::new(monitor());
    tree.insert(Window::new(1));
    tree.insert(Window::new(2));
    // the focused leaf would next split vertically; ask for horizontal instead
    tree.change_tiling_direction(Direction::Right);
    let changed = tree.insert(Window::new(3));
    assert_eq!(
        changed,
        vec![(2u64, Bounds::new(500, 0, 250, 1000)), (3u64, Bounds::new(750, 0, 250, 1000))]
    );
}

#[test]
fn change_tiling_direction_on_empty_tree_is_a_no_op() {
    let mut tree = WindowTree::new(monitor());
    tree.change_tiling_direction(Direction::Down);
    assert!(tree.leaves().is_empty());
}

#[test]
fn leaves_always_tile_the_monitor() {
    let mut tree = WindowTree::new(Bounds::new(0, 0, 999, 777));
    for id in 1..=6u64 {
        tree.insert(Window::new(id));
    }
    tree.move_focus(Direction::Left);
    tree.resize_focused_window(Direction::Right, 130);
    let leaves = tree.leaves();
    let mut area: i64 = 0;
    for (_, b) in leaves.iter() {
        assert!(b.width >= 0 && b.height >= 0);
        assert!(b.x >= 0 && b.y >= 0);
        assert!(b.x + b.width <= 999 && b.y + b.height <= 777);
        area += (b.width as i64) * (b.height as i64);
    }
    // full area inside the monitor with no pairwise overlap: exact coverage
    assert_eq!(area, 999 * 777);
    for i in 0..leaves.len() {
        for j in (i + 1)..leaves.len() {
            let a = leaves[i].1;
            let b = leaves[j].1;
            let overlap_w = a.x.max(b.x) < (a.x + a.width).min(b.x + b.width);
            let overlap_h = a.y.max(b.y) < (a.y + a.height).min(b.y + b.height);
            assert!(!(overlap_w && overlap_h), "leaves {} and {} overlap", i, j);
        }
    }
}

#[test]
fn window_new_keeps_the_id() {
    assert_eq!(Window::new(42).id, 42);
}
