//! Plain minimax over a game tree.
use vstd::prelude::*;
use crate::tree_lib::node::NodeOption;
use crate::tree_lib::shape::{lemma_same_outline_same_presence, same_outline};

verus! {

/// The score that stands in for a child that is not there.
pub open spec fn absent_score() -> int {
    i32::MIN as int
}

/// The score of an inner node from the scores of its two children: the larger
/// for the maximizing side, the smaller for the minimizing side.
pub open spec fn combine(score_l: int, score_r: int, maximizing: bool) -> int {
    if maximizing {
        if score_l >= score_r {
            score_l
        } else {
            score_r
        }
    } else {
        if score_l <= score_r {
            score_l
        } else {
            score_r
        }
    }
}

/// The minimax value of a tree for the side to move at its root.
///
/// The empty tree is worth 0 and a leaf its stored score. An inner node
/// combines the values of its children, taken for the other side. A missing
/// child counts as `absent_score()` for either side, so at a minimizing node
/// with one child the missing one wins.
pub open spec fn minimax_score(node: NodeOption, maximizing: bool) -> int
    decreases node,
{
    match node {
        None => 0,
        Some(n) => if n.leaf() {
            n.val as int
        } else {
            let score_l = if n.left is Some {
                minimax_score(n.left, !maximizing)
            } else {
                absent_score()
            };
            let score_r = if n.right is Some {
                minimax_score(n.right, !maximizing)
            } else {
                absent_score()
            };
            combine(score_l, score_r, maximizing)
        },
    }
}

/// Picks the score of an inner node from those of its children: the larger
/// when `color` is true, the smaller otherwise.
pub fn pick_score(score_l: i32, score_r: i32, color: bool) -> (score: i32)
    ensures
        score == combine(score_l as int, score_r as int, color),
{
    if color {
        if score_l >= score_r {
            score_l
        } else {
            score_r
        }
    } else {
        if score_l <= score_r {
            score_l
        } else {
            score_r
        }
    }
}

/// Evaluates the tree under `node` by minimax, with `color` true when the
/// maximizing side is to move at `node`. The tree is only read.
pub fn minimax(node: &NodeOption, color: bool) -> (score: i32)
    ensures
        score == minimax_score(*node, color),
    decreases *node,
{
    match node {
        None => 0,
        Some(node) => if node.is_leaf() {
            node.get_val()
        } else {
            let mut score_l: i32 = i32::MIN;
            let mut score_r: i32 = i32::MIN;
            if !node.is_left_none() {
                score_l = minimax(&node.left, !color);
            }
            if !node.is_right_none() {
                score_r = minimax(&node.right, !color);
            }
            pick_score(score_l, score_r, color)
        },
    }
}

/// The minimax value depends on the shape of the tree and the scores at its
/// leaves alone: neither the filler of an inner node nor the side noted in
/// a node is ever read.
pub proof fn lemma_minimax_reads_outline(a: NodeOption, b: NodeOption, maximizing: bool)
    requires
        same_outline(a, b),
    ensures
        minimax_score(a, maximizing) == minimax_score(b, maximizing),
    decreases a,
{
    if let Some(x) = a {
        if !x.leaf() {
            let y = b.unwrap();
            lemma_same_outline_same_presence(x.left, y.left);
            lemma_same_outline_same_presence(x.right, y.right);
            lemma_minimax_reads_outline(x.left, y.left, !maximizing);
            lemma_minimax_reads_outline(x.right, y.right, !maximizing);
        }
    }
}

/// Evaluating a tree that has not changed gives the same value again: two
/// results of `minimax` for one tree and one side are equal.
pub proof fn lemma_minimax_repeats(node: NodeOption, maximizing: bool, first: int, second: int)
    requires
        first == minimax_score(node, maximizing),
        second == minimax_score(node, maximizing),
    ensures
        first == second,
{
}

} // verus!
