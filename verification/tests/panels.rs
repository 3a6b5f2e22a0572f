use marcterm::panels::{Axis, NavDirection, PanelId, PanelNode};

fn leaf(n: u64) -> PanelNode {
    PanelNode::Leaf(PanelId(n))
}

fn h(a: PanelNode, b: PanelNode) -> PanelNode {
    PanelNode::Horizontal(Box::new(a), Box::new(b))
}

fn v(a: PanelNode, b: PanelNode) -> PanelNode {
    PanelNode::Vertical(Box::new(a), Box::new(b))
}

/// 1 | (2 over 3)
fn sample() -> PanelNode {
    h(leaf(1), v(leaf(2), leaf(3)))
}

#[test]
fn leaves_in_order() {
    let ids: Vec<u64> = sample().leaves().iter().map(|p| p.0).collect();
    assert_eq!(ids, vec![1, 2, 3]);
    assert!(sample().contains(PanelId(3)));
    assert!(!sample().contains(PanelId(4)));
}

#[test]
fn leaf_fraction_halves_per_split() {
    let t = sample();
    // the left half starts at 0.0 in base two
    assert_eq!(t.leaf_fraction(PanelId(1), Axis::Horizontal), Some(vec![false]));
    assert_eq!(t.leaf_fraction(PanelId(1), Axis::Vertical), Some(vec![]));
    assert_eq!(t.leaf_fraction(PanelId(3), Axis::Horizontal), Some(vec![true]));
    assert_eq!(t.leaf_fraction(PanelId(3), Axis::Vertical), Some(vec![true]));
    assert_eq!(t.leaf_fraction(PanelId(2), Axis::Vertical), Some(vec![false]));
    assert_eq!(t.leaf_fraction(PanelId(9), Axis::Vertical), None);
    let deep = h(leaf(1), h(leaf(2), leaf(3)));
    // three quarters: 0.11 in base two
    assert_eq!(deep.leaf_fraction(PanelId(3), Axis::Horizontal), Some(vec![true, true]));
}

#[test]
fn leaf_at_fraction_finds_panel() {
    let t = sample();
    assert_eq!(t.leaf_at_fraction(&vec![], Axis::Horizontal), Some(PanelId(1)));
    assert_eq!(t.leaf_at_fraction(&vec![true], Axis::Horizontal), Some(PanelId(2)));
    assert_eq!(t.leaf_at_fraction(&vec![true], Axis::Vertical), Some(PanelId(1)));
    let stacked = v(leaf(5), leaf(6));
    assert_eq!(stacked.leaf_at_fraction(&vec![true, false], Axis::Vertical), Some(PanelId(6)));
    assert_eq!(stacked.leaf_at_fraction(&vec![false, true], Axis::Vertical), Some(PanelId(5)));
}

#[test]
fn neighbours_across_splits() {
    let t = sample();
    assert_eq!(t.find_neighbour(PanelId(3), NavDirection::Left), Some(PanelId(1)));
    assert_eq!(t.find_neighbour(PanelId(1), NavDirection::Right), Some(PanelId(2)));
    assert_eq!(t.find_neighbour(PanelId(2), NavDirection::Down), Some(PanelId(3)));
    assert_eq!(t.find_neighbour(PanelId(3), NavDirection::Up), Some(PanelId(2)));
    assert_eq!(t.find_neighbour(PanelId(1), NavDirection::Left), None);
    assert_eq!(t.find_neighbour(PanelId(2), NavDirection::Right), None);
    assert_eq!(leaf(1).find_neighbour(PanelId(1), NavDirection::Up), None);
}

#[test]
fn neighbour_keeps_height() {
    // (1 over 2) | (3 over 4): from 2 going right lands on 4.
    let t = h(v(leaf(1), leaf(2)), v(leaf(3), leaf(4)));
    assert_eq!(t.find_neighbour(PanelId(2), NavDirection::Right), Some(PanelId(4)));
    assert_eq!(t.find_neighbour(PanelId(3), NavDirection::Left), Some(PanelId(1)));
}

#[test]
fn replace_leaf_swaps_one_panel() {
    let t = sample().replace_leaf(PanelId(2), h(leaf(2), leaf(7)));
    assert_eq!(t, h(leaf(1), v(h(leaf(2), leaf(7)), leaf(3))));
    let same = sample().replace_leaf(PanelId(9), leaf(8));
    assert_eq!(same, sample());
}

#[test]
fn remove_leaf_lets_sibling_take_room() {
    assert_eq!(sample().remove_leaf(PanelId(2)), Some(h(leaf(1), leaf(3))));
    assert_eq!(sample().remove_leaf(PanelId(1)), Some(v(leaf(2), leaf(3))));
    assert_eq!(leaf(1).remove_leaf(PanelId(1)), None);
    assert_eq!(sample().remove_leaf(PanelId(9)), Some(sample()));
}

#[test]
fn clone_is_equal() {
    let t = sample();
    assert_eq!(t.clone(), t);
}
