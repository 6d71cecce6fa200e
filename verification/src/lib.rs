//! Evaluation of two-player zero-sum game trees.
//!
//! A complete binary tree is assembled from a row of leaf scores, evaluated
//! with plain minimax, and evaluated again with alpha-beta pruning, which cuts
//! the branches it proves irrelevant out of the tree while it runs.
pub mod builder;
pub mod evaluator;
pub mod input;
pub mod printer;
pub mod pruner;
pub mod tree_lib;

pub use crate::builder::create_tree;
pub use crate::evaluator::minimax;
pub use crate::pruner::alpha_beta_pruning;
pub use crate::tree_lib::node::{Node, NodeOption, NodeRef};
pub use crate::tree_lib::tree::BTree;
