use game_tree::builder::create_tree;
use game_tree::evaluator::minimax;
use game_tree::pruner::alpha_beta_pruning;
use game_tree::tree_lib::node::{Node, NodeOption};
use game_tree::tree_lib::tree::BTree;

fn leaf(val: i32) -> NodeOption {
    Some(Box::new(Node { val, color: true, left: None, right: None }))
}

fn inner(left: NodeOption, right: NodeOption) -> NodeOption {
    Some(Box::new(Node { val: 0, color: true, left, right }))
}

fn built(scores: &[i32]) -> BTree {
    let mut tree = BTree::new_empty();
    assert!(create_tree(&mut tree, scores));
    tree
}

fn count(node: &NodeOption) -> usize {
    match node {
        None => 0,
        Some(n) => 1 + count(&n.left) + count(&n.right),
    }
}

#[test]
fn pruning_an_empty_tree_gives_zero_and_leaves_it_empty() {
    let mut root: NodeOption = None;
    assert_eq!(alpha_beta_pruning(&mut root, i32::MIN, i32::MAX, true), 0);
    assert_eq!(root, None);
    assert_eq!(alpha_beta_pruning(&mut root, i32::MIN, i32::MAX, false), 0);
}

#[test]
fn pruning_a_single_leaf_gives_its_score() {
    let mut tree = built(&[7]);
    assert_eq!(alpha_beta_pruning(&mut tree.root, i32::MIN, i32::MAX, true), 7);
    assert_eq!(tree.root, leaf(7));
    assert_eq!(alpha_beta_pruning(&mut tree.root, i32::MIN, i32::MAX, false), 7);
}

#[test]
fn a_leaf_ignores_the_window() {
    let mut root = leaf(7);
    assert_eq!(alpha_beta_pruning(&mut root, 100, -100, true), 7);
    assert_eq!(root, leaf(7));
}

#[test]
fn eight_leaves_give_the_minimax_value_and_lose_two_branches() {
    let mut tree = built(&[3, 5, 6, 9, 1, 2, 0, -1]);
    assert_eq!(count(&tree.root), 15);
    assert_eq!(alpha_beta_pruning(&mut tree.root, i32::MIN, i32::MAX, true), 5);
    let expected = inner(
        inner(inner(leaf(3), leaf(5)), inner(leaf(6), None)),
        inner(inner(leaf(1), leaf(2)), None),
    );
    assert_eq!(tree.root, expected);
    assert!(count(&tree.root) < 15);
    assert_eq!(count(&tree.root), 11);
}

#[test]
fn pruning_eight_leaves_with_the_minimizer_first() {
    let mut tree = built(&[3, 5, 6, 9, 1, 2, 0, -1]);
    assert_eq!(alpha_beta_pruning(&mut tree.root, i32::MIN, i32::MAX, false), 1);
    // Root is minimizing: the left half is worth max(min(3,5), min(6,9)) = 6.
    // In the right half min(1,2) = 1 stays below 6, so 0 and -1 are looked at
    // too, and nothing is cut.
    let expected = inner(
        inner(inner(leaf(3), leaf(5)), inner(leaf(6), leaf(9))),
        inner(inner(leaf(1), leaf(2)), inner(leaf(0), None)),
    );
    assert_eq!(tree.root, expected);
}

#[test]
fn nothing_is_cut_while_the_window_is_open() {
    // Maximizer: left is worth min(1, 2) = 1, and the right side starts with
    // 5, which does not fall to 1 or below, so its second leaf is needed.
    let mut tree = built(&[1, 2, 5, 6]);
    assert_eq!(alpha_beta_pruning(&mut tree.root, i32::MIN, i32::MAX, true), 5);
    assert_eq!(tree.root, inner(inner(leaf(1), leaf(2)), inner(leaf(5), leaf(6))));
}

#[test]
fn a_branch_is_cut_when_the_bounds_meet() {
    // Maximizer: left is worth min(5, 6) = 5; on the right the first leaf 5
    // lowers beta to 5, which meets alpha = 5.
    let mut tree = built(&[5, 6, 5, 9]);
    assert_eq!(alpha_beta_pruning(&mut tree.root, i32::MIN, i32::MAX, true), 5);
    assert_eq!(tree.root, inner(inner(leaf(5), leaf(6)), inner(leaf(5), None)));
}

#[test]
fn a_closed_window_cuts_at_once() {
    let mut root = inner(leaf(1), inner(leaf(2), leaf(3)));
    // alpha = beta = 0: after the left child alpha is 1, beta 0.
    assert_eq!(alpha_beta_pruning(&mut root, 0, 0, true), 1);
    assert_eq!(root, inner(leaf(1), None));
}

#[test]
fn a_cut_at_a_minimizing_node_scores_the_lowest_value() {
    let mut root = inner(leaf(2), leaf(3));
    // Minimizing node entered with alpha = 5: the left leaf lowers beta to 2.
    assert_eq!(alpha_beta_pruning(&mut root, 5, i32::MAX, false), i32::MIN);
    assert_eq!(root, inner(leaf(2), None));
}

#[test]
fn a_missing_left_child_counts_as_the_lowest_score_and_moves_no_bound() {
    let mut root = inner(None, leaf(4));
    assert_eq!(alpha_beta_pruning(&mut root, i32::MIN, i32::MAX, true), 4);
    assert_eq!(root, inner(None, leaf(4)));
    let mut root = inner(None, leaf(4));
    assert_eq!(alpha_beta_pruning(&mut root, i32::MIN, i32::MAX, false), i32::MIN);
    assert_eq!(root, inner(None, leaf(4)));
}

#[test]
fn an_empty_right_slot_that_is_not_cut_is_worth_zero() {
    let mut root = inner(leaf(-4), None);
    assert_eq!(alpha_beta_pruning(&mut root, i32::MIN, i32::MAX, true), 0);
    assert_eq!(root, inner(leaf(-4), None));
    let mut root = inner(leaf(4), None);
    assert_eq!(alpha_beta_pruning(&mut root, i32::MIN, i32::MAX, false), 0);
}

#[test]
fn pruned_tree_gives_the_same_score_again() {
    let mut tree = built(&[3, 5, 6, 9, 1, 2, 0, -1]);
    let first = alpha_beta_pruning(&mut tree.root, i32::MIN, i32::MAX, true);
    let pruned = inner(
        inner(inner(leaf(3), leaf(5)), inner(leaf(6), None)),
        inner(inner(leaf(1), leaf(2)), None),
    );
    assert_eq!(tree.root, pruned);
    let second = alpha_beta_pruning(&mut tree.root, i32::MIN, i32::MAX, true);
    assert_eq!(first, second);
    assert_eq!(tree.root, pruned);
}

#[test]
fn pruning_extreme_scores_does_not_overflow() {
    let mut tree = built(&[i32::MAX, i32::MIN, i32::MIN, i32::MAX]);
    assert_eq!(alpha_beta_pruning(&mut tree.root, i32::MIN, i32::MAX, true), i32::MIN);
    let mut tree = built(&[i32::MAX, i32::MIN, i32::MIN, i32::MAX]);
    assert_eq!(alpha_beta_pruning(&mut tree.root, i32::MIN, i32::MAX, false), i32::MAX);
}

#[test]
fn pruning_agrees_with_minimax_on_many_built_trees() {
    let mut seed: u32 = 12345;
    for size in [1usize, 2, 4, 8, 16, 32, 64] {
        for _ in 0..40 {
            let mut scores = Vec::new();
            for _ in 0..size {
                seed = seed.wrapping_mul(1664525).wrapping_add(1013904223);
                scores.push(((seed >> 16) % 21) as i32 - 10);
            }
            for maximizing in [true, false] {
                let mut tree = built(&scores);
                let before = count(&tree.root);
                let expected = minimax(&tree.root, maximizing);
                let got = alpha_beta_pruning(&mut tree.root, i32::MIN, i32::MAX, maximizing);
                assert_eq!(got, expected);
                assert!(count(&tree.root) <= before);
            }
        }
    }
}

#[test]
fn invalid_shape_leaves_an_empty_tree_worth_zero() {
    let mut tree = BTree::new_empty();
    assert!(!create_tree(&mut tree, &[1, 2, 3]));
    assert_eq!(tree.root, None);
    assert_eq!(minimax(&tree.root, true), 0);
    assert_eq!(alpha_beta_pruning(&mut tree.root, i32::MIN, i32::MAX, true), 0);
}
