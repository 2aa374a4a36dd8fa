use tman::data::auto_schedule::TreeNode;

fn leaf(id: usize, rest_quota: usize, weight: usize) -> TreeNode {
    TreeNode { id, ch: vec![], rest_quota, weight }
}

#[test]
fn leaf_takes_everything() {
    let node = leaf(7, 5, 1);
    assert_eq!(node.allocate(3), vec![(7, 3)]);
}

#[test]
fn leaf_is_listed_with_nothing() {
    let node = leaf(7, 5, 1);
    assert_eq!(node.allocate(0), vec![(7, 0)]);
}

#[test]
fn share_rounded_down_to_nothing_is_listed() {
    let root = TreeNode { id: 0, ch: vec![leaf(1, 1, 1), leaf(2, 2, 2)], rest_quota: 3, weight: 1 };
    assert_eq!(root.allocate(1), vec![(1, 0), (2, 1)]);
}

#[test]
fn every_child_is_listed_when_nothing_is_handed_out() {
    let root = TreeNode { id: 0, ch: vec![leaf(2, 2, 1), leaf(1, 4, 1)], rest_quota: 6, weight: 1 };
    assert_eq!(root.allocate(0), vec![(2, 0), (1, 0)]);
}

#[test]
fn capped_child_leaves_the_rest_to_its_sibling() {
    // a: rest 5, weight 3; b: rest 20, weight 1; a is the more constrained.
    let root = TreeNode { id: 0, ch: vec![leaf(1, 5, 3), leaf(2, 20, 1)], rest_quota: 25, weight: 10 };
    assert_eq!(root.allocate(10), vec![(1, 5), (2, 5)]);
}

#[test]
fn shares_are_proportional_and_rounded_down() {
    // weights 1 and 2, both far from their cap: 10 splits into 3 and 7.
    let root = TreeNode { id: 0, ch: vec![leaf(1, 100, 1), leaf(2, 300, 2)], rest_quota: 400, weight: 1 };
    assert_eq!(root.allocate(10), vec![(1, 3), (2, 7)]);
}

#[test]
fn quota_beyond_the_children_goes_to_the_node() {
    let root = TreeNode { id: 0, ch: vec![leaf(1, 2, 1)], rest_quota: 6, weight: 1 };
    assert_eq!(root.allocate(5), vec![(1, 2), (0, 3)]);
}

#[test]
fn subtree_gets_no_more_than_is_open_in_it() {
    // Under the root stand a leaf and a node with two leaves of its own.
    let inner = TreeNode { id: 2, ch: vec![leaf(3, 1, 1), leaf(4, 3, 1)], rest_quota: 6, weight: 2 };
    let root = TreeNode { id: 0, ch: vec![leaf(1, 2, 1), inner], rest_quota: 8, weight: 1 };
    let out = root.allocate(7);
    assert_eq!(out, vec![(1, 2), (3, 1), (4, 3), (2, 1)]);
    let below = |ids: &[usize]| -> usize { out.iter().filter(|e| ids.contains(&e.0)).map(|e| e.1).sum() };
    assert!(below(&[2, 3, 4]) <= 6);
    assert!(below(&[1]) <= 2);
    assert!(below(&[3]) <= 1);
    assert!(below(&[0, 1, 2, 3, 4]) <= 8);
}
