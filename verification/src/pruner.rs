//! Alpha-beta evaluation that cuts the branches it skips out of the tree.
use vstd::prelude::*;
use crate::builder::{complete_tree, halvings, is_power_of_two, lemma_complete_tree_is_perfect};
use crate::evaluator::{absent_score, combine, minimax_score, pick_score};
use crate::tree_lib::node::{Node, NodeOption};
use crate::tree_lib::shape::{
    full, left_filled, lemma_full_is_left_filled, lemma_perfect_is_full,
    lemma_right_cut_is_no_larger,
    lemma_right_cut_of_itself, lemma_same_outline_same_presence, node_count, right_cut_of,
    same_outline,
};

verus! {

/// The lower bound in force at a node once its left child has been scored.
/// Only a maximizing node with a left child raises it.
pub open spec fn raised_alpha(alpha: int, score_l: int, has_left: bool, maximizing: bool) -> int {
    if maximizing && has_left && score_l > alpha {
        score_l
    } else {
        alpha
    }
}

/// The upper bound in force at a node once its left child has been scored.
/// Only a minimizing node with a left child lowers it.
pub open spec fn lowered_beta(beta: int, score_l: int, has_left: bool, maximizing: bool) -> int {
    if !maximizing && has_left && score_l < beta {
        score_l
    } else {
        beta
    }
}

/// The cutoff test: the window between the two bounds has closed.
pub open spec fn cutoff(alpha: int, beta: int) -> bool {
    beta <= alpha
}

/// The score that alpha-beta evaluation returns for a tree, a window and the
/// side to move at the root.
///
/// The empty tree is worth 0 and a leaf its stored score. An inner node scores
/// its left child under the window it was given (a missing left child counts
/// as `absent_score()` and leaves the window alone), moves one bound, and
/// tests for a cutoff. On a cutoff the right side counts as `absent_score()`;
/// otherwise the right slot is evaluated under the moved window, an empty slot
/// being worth 0 like any empty tree.
pub open spec fn alpha_beta_score(node: NodeOption, alpha: int, beta: int, maximizing: bool) -> int
    decreases node,
{
    match node {
        None => 0,
        Some(n) => if n.leaf() {
            n.val as int
        } else {
            let score_l = if n.left is Some {
                alpha_beta_score(n.left, alpha, beta, !maximizing)
            } else {
                absent_score()
            };
            let alpha_r = raised_alpha(alpha, score_l, n.left is Some, maximizing);
            let beta_r = lowered_beta(beta, score_l, n.left is Some, maximizing);
            let score_r = if cutoff(alpha_r, beta_r) {
                absent_score()
            } else {
                alpha_beta_score(n.right, alpha_r, beta_r, !maximizing)
            };
            combine(score_l, score_r, maximizing)
        },
    }
}

/// What the left child of `n` contributes under the window the node was
/// entered with.
pub open spec fn left_score(n: Node, alpha: int, beta: int, maximizing: bool) -> int {
    if n.left is Some {
        alpha_beta_score(n.left, alpha, beta, !maximizing)
    } else {
        absent_score()
    }
}

/// The lower bound under which the right side of `n` is considered.
pub open spec fn right_alpha(n: Node, alpha: int, beta: int, maximizing: bool) -> int {
    raised_alpha(alpha, left_score(n, alpha, beta, maximizing), n.left is Some, maximizing)
}

/// The upper bound under which the right side of `n` is considered.
pub open spec fn right_beta(n: Node, alpha: int, beta: int, maximizing: bool) -> int {
    lowered_beta(beta, left_score(n, alpha, beta, maximizing), n.left is Some, maximizing)
}

/// Whether the right subtree of the inner node `n` is cut off under the
/// window the node was entered with.
pub open spec fn prunes_right(n: Node, alpha: int, beta: int, maximizing: bool) -> bool {
    cutoff(right_alpha(n, alpha, beta, maximizing), right_beta(n, alpha, beta, maximizing))
}

/// The tree that alpha-beta evaluation leaves behind: at every inner node it
/// visits, the left subtree as its own visit left it, and the right subtree
/// gone where the node was cut off, else as its own visit left it.
pub open spec fn alpha_beta_pruned(
    node: NodeOption,
    alpha: int,
    beta: int,
    maximizing: bool,
) -> NodeOption
    decreases node,
{
    match node {
        None => None,
        Some(n) => if n.leaf() {
            node
        } else {
            let left = alpha_beta_pruned(n.left, alpha, beta, !maximizing);
            let right = if prunes_right(*n, alpha, beta, maximizing) {
                None
            } else {
                alpha_beta_pruned(
                    n.right,
                    right_alpha(*n, alpha, beta, maximizing),
                    right_beta(*n, alpha, beta, maximizing),
                    !maximizing,
                )
            };
            Some(Box::new(Node { val: n.val, color: n.color, left, right }))
        },
    }
}

/// Both evaluators return scores that an `i32` holds.
pub proof fn lemma_scores_in_range(node: NodeOption, alpha: int, beta: int, maximizing: bool)
    ensures
        i32::MIN <= minimax_score(node, maximizing) <= i32::MAX,
        i32::MIN <= alpha_beta_score(node, alpha, beta, maximizing) <= i32::MAX,
    decreases node,
{
    if let Some(n) = node {
        if !n.leaf() {
            lemma_scores_in_range(n.left, alpha, beta, !maximizing);
            lemma_scores_in_range(
                n.right,
                right_alpha(*n, alpha, beta, maximizing),
                right_beta(*n, alpha, beta, maximizing),
                !maximizing,
            );
        }
    }
}

/// On a full tree and an open window, the alpha-beta score stands on the same
/// side of the window as the minimax value, and equals it when the minimax
/// value lies strictly inside.
pub proof fn lemma_alpha_beta_within_window(
    node: NodeOption,
    alpha: int,
    beta: int,
    maximizing: bool,
)
    requires
        full(node),
        i32::MIN <= alpha < beta,
    ensures
        minimax_score(node, maximizing) <= alpha ==> alpha_beta_score(
            node,
            alpha,
            beta,
            maximizing,
        ) <= alpha,
        minimax_score(node, maximizing) >= beta ==> alpha_beta_score(node, alpha, beta, maximizing)
            >= beta,
        alpha < minimax_score(node, maximizing) < beta ==> alpha_beta_score(
            node,
            alpha,
            beta,
            maximizing,
        ) == minimax_score(node, maximizing),
    decreases node,
{
    if let Some(n) = node {
        if !n.leaf() {
            lemma_alpha_beta_within_window(n.left, alpha, beta, !maximizing);
            if !prunes_right(*n, alpha, beta, maximizing) {
                lemma_alpha_beta_within_window(
                    n.right,
                    right_alpha(*n, alpha, beta, maximizing),
                    right_beta(*n, alpha, beta, maximizing),
                    !maximizing,
                );
            }
        }
    }
}

/// Pruning does not change the answer: on a full tree, alpha-beta evaluation
/// under the widest window returns the minimax value of the tree, whichever
/// side moves first.
pub proof fn lemma_alpha_beta_is_minimax(node: NodeOption, maximizing: bool)
    requires
        full(node),
    ensures
        alpha_beta_score(node, i32::MIN as int, i32::MAX as int, maximizing) == minimax_score(
            node,
            maximizing,
        ),
{
    lemma_scores_in_range(node, i32::MIN as int, i32::MAX as int, maximizing);
    lemma_alpha_beta_within_window(node, i32::MIN as int, i32::MAX as int, maximizing);
}

/// For every tree built over a power of two of leaf scores, alpha-beta
/// evaluation under the widest window returns the minimax value, whichever
/// side moves first.
pub proof fn lemma_alpha_beta_is_minimax_on_built_tree(leaves: Seq<i32>, maximizing: bool)
    requires
        is_power_of_two(leaves.len()),
    ensures
        alpha_beta_score(complete_tree(leaves), i32::MIN as int, i32::MAX as int, maximizing)
            == minimax_score(complete_tree(leaves), maximizing),
{
    lemma_complete_tree_is_perfect(leaves);
    lemma_perfect_is_full(complete_tree(leaves), halvings(leaves.len()));
    lemma_alpha_beta_is_minimax(complete_tree(leaves), maximizing);
}

/// A right subtree leaves the tree only on a cutoff: after the visit of an
/// inner node its right slot is empty exactly when it was empty before or
/// the bounds in force after the left child had closed the window, and never
/// while the upper bound is still above the lower one.
pub proof fn lemma_pruned_only_on_cutoff(n: Node, alpha: int, beta: int, maximizing: bool)
    requires
        !n.leaf(),
    ensures
        ({
            let after = alpha_beta_pruned(Some(Box::new(n)), alpha, beta, maximizing);
            let alpha_r = right_alpha(n, alpha, beta, maximizing);
            let beta_r = right_beta(n, alpha, beta, maximizing);
            &&& after is Some
            &&& after.unwrap().right is None <==> (n.right is None || beta_r <= alpha_r)
            &&& beta_r > alpha_r ==> after.unwrap().right == alpha_beta_pruned(
                n.right,
                alpha_r,
                beta_r,
                !maximizing,
            )
        }),
{
    if n.right is Some && !prunes_right(n, alpha, beta, maximizing) {
        lemma_pruned_keeps_root(
            n.right,
            right_alpha(n, alpha, beta, maximizing),
            right_beta(n, alpha, beta, maximizing),
            !maximizing,
        );
    }
}

/// Pruning never removes the node it is called on.
pub proof fn lemma_pruned_keeps_root(node: NodeOption, alpha: int, beta: int, maximizing: bool)
    ensures
        alpha_beta_pruned(node, alpha, beta, maximizing) is Some <==> node is Some,
{
}

/// Pruning takes right subtrees out of the tree and changes nothing else:
/// every node that stays keeps its score, its side and its place.
pub proof fn lemma_pruned_is_right_cut(node: NodeOption, alpha: int, beta: int, maximizing: bool)
    ensures
        right_cut_of(alpha_beta_pruned(node, alpha, beta, maximizing), node),
    decreases node,
{
    if let Some(n) = node {
        if n.leaf() {
            lemma_right_cut_of_itself(node);
        } else {
            lemma_pruned_is_right_cut(n.left, alpha, beta, !maximizing);
            lemma_pruned_is_right_cut(
                n.right,
                right_alpha(*n, alpha, beta, maximizing),
                right_beta(*n, alpha, beta, maximizing),
                !maximizing,
            );
        }
    }
}

/// Alpha-beta evaluation depends on the shape of the tree and the scores at
/// its leaves alone: two trees of one outline get the same score. Where every
/// inner node has a left child they are also cut in the same places. (An
/// inner node with a right child only, entered under a closed window, loses
/// that child and turns into a leaf whose score is its filler.)
pub proof fn lemma_alpha_beta_reads_outline(
    a: NodeOption,
    b: NodeOption,
    alpha: int,
    beta: int,
    maximizing: bool,
)
    requires
        same_outline(a, b),
    ensures
        alpha_beta_score(a, alpha, beta, maximizing) == alpha_beta_score(
            b,
            alpha,
            beta,
            maximizing,
        ),
        left_filled(a) ==> same_outline(
            alpha_beta_pruned(a, alpha, beta, maximizing),
            alpha_beta_pruned(b, alpha, beta, maximizing),
        ),
    decreases a,
{
    if let Some(x) = a {
        if !x.leaf() {
            let y = b.unwrap();
            lemma_same_outline_same_presence(x.left, y.left);
            lemma_same_outline_same_presence(x.right, y.right);
            lemma_alpha_beta_reads_outline(x.left, y.left, alpha, beta, !maximizing);
            lemma_alpha_beta_reads_outline(
                x.right,
                y.right,
                right_alpha(*x, alpha, beta, maximizing),
                right_beta(*x, alpha, beta, maximizing),
                !maximizing,
            );
            let alpha_r = right_alpha(*x, alpha, beta, maximizing);
            let beta_r = right_beta(*x, alpha, beta, maximizing);
            lemma_pruned_keeps_root(x.left, alpha, beta, !maximizing);
            lemma_pruned_keeps_root(y.left, alpha, beta, !maximizing);
            lemma_pruned_keeps_root(x.right, alpha_r, beta_r, !maximizing);
            lemma_pruned_keeps_root(y.right, alpha_r, beta_r, !maximizing);
            assert(same_outline(None, None));
        }
    }
}

/// Pruning an already pruned tree under the same window changes nothing
/// more, and gives the score that the first evaluation gave. This holds of
/// trees in which every inner node has a left child, so that a node that
/// loses its right subtree stays an inner node.
pub proof fn lemma_pruning_twice(node: NodeOption, alpha: int, beta: int, maximizing: bool)
    requires
        left_filled(node),
    ensures
        ({
            let once = alpha_beta_pruned(node, alpha, beta, maximizing);
            &&& left_filled(once)
            &&& alpha_beta_score(once, alpha, beta, maximizing) == alpha_beta_score(
                node,
                alpha,
                beta,
                maximizing,
            )
            &&& alpha_beta_pruned(once, alpha, beta, maximizing) == once
        }),
    decreases node,
{
    if let Some(n) = node {
        if !n.leaf() {
            let alpha_r = right_alpha(*n, alpha, beta, maximizing);
            let beta_r = right_beta(*n, alpha, beta, maximizing);
            lemma_pruning_twice(n.left, alpha, beta, !maximizing);
            lemma_pruning_twice(n.right, alpha_r, beta_r, !maximizing);
            lemma_pruned_keeps_root(n.left, alpha, beta, !maximizing);
            let once = alpha_beta_pruned(node, alpha, beta, maximizing).unwrap();
            assert(left_score(*once, alpha, beta, maximizing) == left_score(
                *n,
                alpha,
                beta,
                maximizing,
            ));
            assert(left_filled(None));
        }
    }
}

/// A tree built over a power of two of leaf scores, once pruned under the
/// widest window, is not cut any further by a second pass, which returns the
/// score of the first: the minimax value of the tree as it was built.
pub proof fn lemma_pruning_built_tree_twice(leaves: Seq<i32>, maximizing: bool)
    requires
        is_power_of_two(leaves.len()),
    ensures
        ({
            let low = i32::MIN as int;
            let high = i32::MAX as int;
            let once = alpha_beta_pruned(complete_tree(leaves), low, high, maximizing);
            &&& alpha_beta_pruned(once, low, high, maximizing) == once
            &&& alpha_beta_score(once, low, high, maximizing) == minimax_score(
                complete_tree(leaves),
                maximizing,
            )
        }),
{
    lemma_complete_tree_is_perfect(leaves);
    lemma_perfect_is_full(complete_tree(leaves), halvings(leaves.len()));
    lemma_full_is_left_filled(complete_tree(leaves));
    lemma_pruning_twice(complete_tree(leaves), i32::MIN as int, i32::MAX as int, maximizing);
    lemma_alpha_beta_is_minimax(complete_tree(leaves), maximizing);
}

/// Evaluates the tree under `node` within the window `alpha`..`beta`, with
/// `color` true when the maximizing side is to move at `node`, and removes
/// from the tree every right subtree that a cutoff made irrelevant.
///
/// The root call takes the widest window, `i32::MIN`..`i32::MAX`. On a full
/// tree it then returns the minimax value. Whatever the window, the tree
/// loses right subtrees and nothing else.
pub fn alpha_beta_pruning(node: &mut NodeOption, alpha: i32, beta: i32, color: bool) -> (score: i32)
    ensures
        score == alpha_beta_score(*old(node), alpha as int, beta as int, color),
        *final(node) == alpha_beta_pruned(*old(node), alpha as int, beta as int, color),
        right_cut_of(*final(node), *old(node)),
        node_count(*final(node)) <= node_count(*old(node)),
        full(*old(node)) && alpha == i32::MIN && beta == i32::MAX ==> score == minimax_score(
            *old(node),
            color,
        ),
    decreases *old(node),
{
    proof {
        lemma_pruned_is_right_cut(*old(node), alpha as int, beta as int, color);
        lemma_right_cut_is_no_larger(
            alpha_beta_pruned(*old(node), alpha as int, beta as int, color),
            *old(node),
        );
        if full(*old(node)) && alpha == i32::MIN && beta == i32::MAX {
            lemma_alpha_beta_is_minimax(*old(node), color);
        }
    }
    match node {
        None => 0,
        Some(n) => if n.is_leaf() {
            n.get_val()
        } else {
            let mut nalpha: i32 = alpha;
            let mut nbeta: i32 = beta;
            let mut score_l: i32 = i32::MIN;
            let mut score_r: i32 = i32::MIN;
            let has_left = !n.is_left_none();
            let ghost before = **n;
            if has_left {
                score_l = alpha_beta_pruning(&mut n.left, alpha, beta, !color);
            }
            if color && has_left {
                if score_l > alpha {
                    nalpha = score_l;
                }
            } else if has_left {
                if score_l < beta {
                    nbeta = score_l;
                }
            }
            if nbeta <= nalpha {
                n.remove_right();
            } else {
                score_r = alpha_beta_pruning(&mut n.right, nalpha, nbeta, !color);
            }
            assert(**n == (Node {
                val: before.val,
                color: before.color,
                left: alpha_beta_pruned(before.left, alpha as int, beta as int, !color),
                right: n.right,
            }));
            pick_score(score_l, score_r, color)
        },
    }
}

} // verus!
