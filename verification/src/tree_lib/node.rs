//! One position of a game tree.
use vstd::prelude::*;

verus! {

/// An owned node.
pub type NodeRef = Box<Node>;

/// A child slot: either a subtree or nothing.
pub type NodeOption = Option<NodeRef>;

/// A position in the game tree. Each node owns its two subtrees outright.
///
/// `val` is the score of the position and means something only at a leaf; an
/// inner node carries a filler. `color` records the side to move; the
/// evaluators take the side as an argument and never read it from the node.
#[derive(PartialEq, Debug)]
pub struct Node {
    pub val: i32,
    pub color: bool,
    pub left: NodeOption,
    pub right: NodeOption,
}

impl Node {
    /// A node is a leaf when it has no child at all.
    pub open spec fn leaf(self) -> bool {
        self.left is None && self.right is None
    }

    /// Allocates a node with the given score, side and children.
    pub fn new(val: i32, color: bool, left: NodeOption, right: NodeOption) -> (node: NodeRef)
        ensures
            *node == (Node { val, color, left, right }),
    {
        Box::new(Node { val: val, color: color, left: left, right: right })
    }

    pub fn is_left_none(&self) -> (b: bool)
        ensures
            b == (self.left is None),
    {
        self.left.is_none()
    }

    pub fn is_right_none(&self) -> (b: bool)
        ensures
            b == (self.right is None),
    {
        self.right.is_none()
    }

    pub fn is_leaf(&self) -> (b: bool)
        ensures
            b == self.leaf(),
    {
        self.left.is_none() && self.right.is_none()
    }

    pub fn get_val(&self) -> (val: i32)
        ensures
            val == self.val,
    {
        self.val
    }

    pub fn set_val(&mut self, new_val: i32)
        ensures
            *final(self) == (Node { val: new_val, ..*old(self) }),
    {
        self.val = new_val;
    }

    /// Detaches the right subtree and releases every node in it. The rest of
    /// the node stays as it was.
    pub fn remove_right(&mut self)
        ensures
            *final(self) == (Node { right: None, ..*old(self) }),
    {
        self.right = None;
    }

    /// Detaches the left subtree and releases every node in it. The rest of
    /// the node stays as it was.
    pub fn remove_left(&mut self)
        ensures
            *final(self) == (Node { left: None, ..*old(self) }),
    {
        self.left = None;
    }
}

} // verus!
