//! The tree: a root slot and the depth it was made with.
use vstd::prelude::*;
use crate::tree_lib::node::{Node, NodeOption};

verus! {

/// A game tree. `depth` is noted when the tree is made and is informative
/// only: no evaluator reads it and replacing the root leaves it alone.
#[derive(PartialEq, Debug)]
pub struct BTree {
    pub root: NodeOption,
    pub depth: u32,
}

impl BTree {
    /// The tree without any node.
    pub fn new_empty() -> (tree: Self)
        ensures
            tree == (BTree { root: None, depth: 0 }),
    {
        BTree { root: None, depth: 0 }
    }

    /// The tree that is a single leaf.
    pub fn new(val: i32, color: bool) -> (tree: Self)
        ensures
            tree == (BTree {
                root: Some(Box::new(Node { val, color, left: None, right: None })),
                depth: 1,
            }),
    {
        let new_root = Node::new(val, color, None, None);
        BTree { root: Some(new_root), depth: 1 }
    }

    /// Replaces the root, releasing the tree that hung there before.
    pub fn set_root(&mut self, root: NodeOption)
        ensures
            *final(self) == (BTree { root, depth: old(self).depth }),
    {
        self.root = root
    }

    /// True when there is no root or the root has no left child.
    pub fn is_left_none(&self) -> (b: bool)
        ensures
            b == (self.root matches Some(node) ==> node.left is None),
    {
        match &self.root {
            None => true,
            Some(root) => root.left.is_none(),
        }
    }

    /// True when there is no root or the root has no right child.
    pub fn is_right_none(&self) -> (b: bool)
        ensures
            b == (self.root matches Some(node) ==> node.right is None),
    {
        match &self.root {
            None => true,
            Some(root) => root.right.is_none(),
        }
    }

    /// The score stored at the root, if there is a root.
    pub fn get_root_val(&self) -> (val: Option<i32>)
        ensures
            val == match self.root {
                None => None::<i32>,
                Some(node) => Some(node.val),
            },
    {
        match &self.root {
            None => None,
            Some(node) => Some(node.get_val()),
        }
    }
}

} // verus!
