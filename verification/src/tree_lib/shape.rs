//! Shapes of trees, as the contracts speak of them.
use vstd::prelude::*;
use crate::tree_lib::node::NodeOption;

verus! {

/// Every inner node has both children. The empty tree counts as full.
pub open spec fn full(node: NodeOption) -> bool
    decreases node,
{
    match node {
        None => true,
        Some(n) => n.leaf() || (n.left is Some && n.right is Some && full(n.left) && full(n.right)),
    }
}

/// Every inner node has both children and every leaf lies `height` steps
/// below the root.
pub open spec fn perfect(node: NodeOption, height: nat) -> bool
    decreases height,
{
    match node {
        None => false,
        Some(n) => if height == 0 {
            n.leaf()
        } else {
            &&& n.left is Some
            &&& n.right is Some
            &&& perfect(n.left, (height - 1) as nat)
            &&& perfect(n.right, (height - 1) as nat)
        },
    }
}

/// The scores at the leaves, from left to right.
pub open spec fn leaf_scores(node: NodeOption) -> Seq<i32>
    decreases node,
{
    match node {
        None => Seq::empty(),
        Some(n) => if n.leaf() {
            seq![n.val]
        } else {
            leaf_scores(n.left) + leaf_scores(n.right)
        },
    }
}

/// The number of nodes.
pub open spec fn node_count(node: NodeOption) -> nat
    decreases node,
{
    match node {
        None => 0,
        Some(n) => 1 + node_count(n.left) + node_count(n.right),
    }
}

/// Every inner node has a left child.
pub open spec fn left_filled(node: NodeOption) -> bool
    decreases node,
{
    match node {
        None => true,
        Some(n) => n.leaf() || (n.left is Some && left_filled(n.left) && left_filled(n.right)),
    }
}

/// `after` is `before` with some right subtrees of inner nodes taken out and
/// nothing else changed.
pub open spec fn right_cut_of(after: NodeOption, before: NodeOption) -> bool
    decreases before,
{
    match (after, before) {
        (None, None) => true,
        (Some(a), Some(b)) => {
            &&& a.val == b.val
            &&& a.color == b.color
            &&& right_cut_of(a.left, b.left)
            &&& (right_cut_of(a.right, b.right) || (a.right is None && !b.leaf()))
        },
        _ => false,
    }
}

/// Two trees have the same outline when they have the same shape and the
/// same scores at their leaves. The fillers of inner nodes and the sides
/// noted in the nodes may differ.
pub open spec fn same_outline(a: NodeOption, b: NodeOption) -> bool
    decreases a,
{
    match (a, b) {
        (None, None) => true,
        (Some(x), Some(y)) => if x.leaf() {
            y.leaf() && x.val == y.val
        } else {
            !y.leaf() && same_outline(x.left, y.left) && same_outline(x.right, y.right)
        },
        _ => false,
    }
}

/// Trees of one outline are both empty or both not.
pub proof fn lemma_same_outline_same_presence(a: NodeOption, b: NodeOption)
    requires
        same_outline(a, b),
    ensures
        a is Some <==> b is Some,
{
}

/// A full tree has a left child under every inner node.
pub proof fn lemma_full_is_left_filled(node: NodeOption)
    requires
        full(node),
    ensures
        left_filled(node),
    decreases node,
{
    if let Some(n) = node {
        if !n.leaf() {
            lemma_full_is_left_filled(n.left);
            lemma_full_is_left_filled(n.right);
        }
    }
}

/// A tree is a cut of itself: the one with nothing taken out.
pub proof fn lemma_right_cut_of_itself(node: NodeOption)
    ensures
        right_cut_of(node, node),
    decreases node,
{
    if let Some(n) = node {
        lemma_right_cut_of_itself(n.left);
        lemma_right_cut_of_itself(n.right);
    }
}

/// Taking right subtrees out never adds a node.
pub proof fn lemma_right_cut_is_no_larger(after: NodeOption, before: NodeOption)
    requires
        right_cut_of(after, before),
    ensures
        node_count(after) <= node_count(before),
    decreases before,
{
    if let Some(b) = before {
        let a = after.unwrap();
        lemma_right_cut_is_no_larger(a.left, b.left);
        if right_cut_of(a.right, b.right) {
            lemma_right_cut_is_no_larger(a.right, b.right);
        }
    }
}

/// A tree in which all leaves lie at one depth is full.
pub proof fn lemma_perfect_is_full(node: NodeOption, height: nat)
    requires
        perfect(node, height),
    ensures
        full(node),
    decreases height,
{
    if height > 0 {
        let n = node.unwrap();
        lemma_perfect_is_full(n.left, (height - 1) as nat);
        lemma_perfect_is_full(n.right, (height - 1) as nat);
    }
}

} // verus!
