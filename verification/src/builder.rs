//! Assembling a complete binary tree from a row of leaf scores.
use std::collections::VecDeque;
use vstd::arithmetic::power2::{lemma_pow2, lemma_pow2_unfold, pow2};
use vstd::prelude::*;
use crate::tree_lib::node::{Node, NodeOption, NodeRef};
use crate::tree_lib::shape::{leaf_scores, perfect};
use crate::tree_lib::tree::BTree;

verus! {

/// Why no tree was built: the number of leaf scores handed in, which is not
/// a power of two.
#[derive(PartialEq, Eq, Debug, Clone, Copy)]
pub struct InvalidShapeError {
    pub leaf_count: usize,
}

/// `n` is one of 1, 2, 4, 8, ...
pub open spec fn is_power_of_two(n: nat) -> bool
    decreases n,
{
    n == 1 || (n > 1 && n % 2 == 0 && is_power_of_two(n / 2))
}

/// The leaf made for a score.
pub open spec fn leaf_node(val: i32) -> NodeOption {
    Some(Box::new(Node { val, color: true, left: None, right: None }))
}

/// The inner node made over two neighbours of a generation.
pub open spec fn parent_node(left: NodeOption, right: NodeOption) -> NodeOption {
    Some(Box::new(Node { val: 0, color: true, left, right }))
}

/// The generation above `row`: one parent over each pair of neighbours, in
/// order. Where the row has an odd number of entries its last entry gets a
/// parent of its own, with nothing on the right.
pub open spec fn paired(row: Seq<NodeOption>) -> Seq<NodeOption> {
    Seq::new(
        ((row.len() + 1) / 2) as nat,
        |i: int|
            parent_node(
                row[2 * i],
                if 2 * i + 1 < row.len() {
                    row[2 * i + 1]
                } else {
                    None
                },
            ),
    )
}

/// The tree over a row of leaf scores: a single score is a leaf, and a longer
/// row is a filler node over the tree of its first half and the tree of the
/// rest. For a row whose length is a power of two this is the complete binary
/// tree with these leaves from left to right.
pub open spec fn complete_tree(leaves: Seq<i32>) -> NodeOption
    decreases leaves.len(),
{
    if leaves.len() == 0 {
        None
    } else if leaves.len() == 1 {
        leaf_node(leaves[0])
    } else {
        let half = (leaves.len() / 2) as int;
        parent_node(
            complete_tree(leaves.subrange(0, half)),
            complete_tree(leaves.subrange(half, leaves.len() as int)),
        )
    }
}

/// How many times `n` can be halved before it reaches 1: the height of the
/// complete tree over `n` leaves.
pub open spec fn halvings(n: nat) -> nat
    decreases n,
{
    if n <= 1 {
        0
    } else {
        1 + halvings(n / 2)
    }
}

/// A power of two is a number that equals two to the power of the times it
/// can be halved.
pub proof fn lemma_power_of_two_is_pow2(n: nat)
    ensures
        is_power_of_two(n) <==> n == pow2(halvings(n)),
    decreases n,
{
    if n <= 1 {
        lemma_pow2(0);
        assert(pow2(0) == 1) by {
            reveal(vstd::arithmetic::power::pow);
        }
    } else {
        lemma_power_of_two_is_pow2(n / 2);
        lemma_pow2_unfold(halvings(n));
    }
}

/// The tree over a power of two of leaves has every leaf at the same depth
/// and two children under every inner node.
pub proof fn lemma_complete_tree_is_perfect(leaves: Seq<i32>)
    requires
        is_power_of_two(leaves.len()),
    ensures
        perfect(complete_tree(leaves), halvings(leaves.len())),
    decreases leaves.len(),
{
    if leaves.len() > 1 {
        let half = (leaves.len() / 2) as int;
        lemma_complete_tree_is_perfect(leaves.subrange(0, half));
        lemma_complete_tree_is_perfect(leaves.subrange(half, leaves.len() as int));
    }
}

/// The leaves of the tree over a row of scores are that row, in order.
pub proof fn lemma_complete_tree_keeps_leaves(leaves: Seq<i32>)
    ensures
        leaf_scores(complete_tree(leaves)) == leaves,
    decreases leaves.len(),
{
    if leaves.len() > 1 {
        let half = (leaves.len() / 2) as int;
        lemma_complete_tree_keeps_leaves(leaves.subrange(0, half));
        lemma_complete_tree_keeps_leaves(leaves.subrange(half, leaves.len() as int));
    }
}

/// Tells whether `n` is a power of two.
pub fn power_of_two(n: usize) -> (b: bool)
    ensures
        b == is_power_of_two(n as nat),
{
    let mut m: usize = n;
    while m > 1 && m % 2 == 0
        invariant
            is_power_of_two(m as nat) == is_power_of_two(n as nat),
        decreases m,
    {
        m = m / 2;
    }
    m == 1
}

/// Builds the generation above `nodes` by taking its entries off the front two
/// at a time and hanging each pair under a new filler node.
pub fn pair_generation(nodes: VecDeque<NodeOption>) -> (parents: VecDeque<NodeOption>)
    ensures
        parents@ == paired(nodes@),
{
    let mut nodes = nodes;
    let ghost row = nodes@;
    let ghost mut taken: int = 0;
    let mut par_nodes: VecDeque<NodeOption> = VecDeque::new();
    while nodes.len() != 0
        invariant
            0 <= taken <= (row.len() + 1) / 2,
            nodes@.len() > 0 ==> 2 * taken <= row.len() && nodes@ == row.subrange(
                2 * taken,
                row.len() as int,
            ),
            nodes@.len() == 0 ==> taken == (row.len() + 1) / 2,
            par_nodes@ == paired(row).subrange(0, taken),
        decreases nodes@.len(),
    {
        let left_node: NodeOption = match nodes.pop_front() {
            None => None,
            Some(node) => node,
        };
        let right_node: NodeOption = match nodes.pop_front() {
            None => None,
            Some(node) => node,
        };
        let parent_node: NodeOption = Some(Node::new(0, true, left_node, right_node));
        par_nodes.push_back(parent_node);
        proof {
            taken = taken + 1;
        }
    }
    par_nodes
}

/// Two neighbouring blocks of leaves of one size, each under its own tree,
/// make the tree of the double block when hung under a filler node.
proof fn lemma_pair_of_blocks(leaves: Seq<i32>, lo: int, block: int)
    requires
        0 <= lo,
        1 <= block,
        lo + 2 * block <= leaves.len(),
    ensures
        parent_node(
            complete_tree(leaves.subrange(lo, lo + block)),
            complete_tree(leaves.subrange(lo + block, lo + 2 * block)),
        ) == complete_tree(leaves.subrange(lo, lo + 2 * block)),
{
    let both = leaves.subrange(lo, lo + 2 * block);
    assert(both.len() / 2 == block);
    assert(both.subrange(0, block) == leaves.subrange(lo, lo + block));
    assert(both.subrange(block, both.len() as int) == leaves.subrange(lo + block, lo + 2 * block));
}

/// Builds the complete binary tree over `leaves`, which become its leaves
/// from left to right. Starting from one leaf per score, each generation is
/// paired into the next until a single node is left: the root.
///
/// The row must hold a power of two of scores (a single one will do). Any
/// other number, none included, is refused and nothing is built.
pub fn build_tree(leaves: &[i32]) -> (built: Result<NodeRef, InvalidShapeError>)
    ensures
        built is Ok <==> is_power_of_two(leaves@.len()),
        built matches Ok(root) ==> {
            &&& Some(root) == complete_tree(leaves@)
            &&& perfect(Some(root), halvings(leaves@.len()))
            &&& leaf_scores(Some(root)) == leaves@
        },
        built matches Err(e) ==> e.leaf_count == leaves@.len(),
{
    proof {
        lemma_complete_tree_keeps_leaves(leaves@);
        if is_power_of_two(leaves@.len()) {
            lemma_complete_tree_is_perfect(leaves@);
        }
    }
    let mut nodes: VecDeque<NodeOption> = VecDeque::new();
    let mut i: usize = 0;
    while i < leaves.len()
        invariant
            i <= leaves@.len(),
            nodes@.len() == i,
            forall|j: int| 0 <= j < i ==> nodes@[j] == leaf_node(#[trigger] leaves@[j]),
        decreases leaves@.len() - i,
    {
        let newnode: NodeOption = Some(Node::new(leaves[i], true, None, None));
        nodes.push_back(newnode);
        i += 1;
    }
    if !power_of_two(nodes.len()) {
        return Err(InvalidShapeError { leaf_count: leaves.len() });
    }
    let ghost mut block: int = 1;
    while nodes.len() != 1
        invariant
            is_power_of_two(nodes@.len()),
            1 <= block,
            block * nodes@.len() == leaves@.len(),
            forall|j: int|
                0 <= j < nodes@.len() ==> #[trigger] nodes@[j] == complete_tree(
                    leaves@.subrange(j * block, (j + 1) * block),
                ),
        decreases nodes@.len(),
    {
        let ghost row = nodes@;
        nodes = pair_generation(nodes);
        proof {
            let count = row.len() as int;
            assert(count % 2 == 0 && nodes@.len() == count / 2);
            assert((2 * block) * (count / 2) == block * count) by (nonlinear_arith)
                requires
                    count % 2 == 0,
            ;
            assert forall|j: int| 0 <= j < nodes@.len() implies #[trigger] nodes@[j]
                == complete_tree(leaves@.subrange(j * (2 * block), (j + 1) * (2 * block))) by {
                let lo = j * (2 * block);
                assert((2 * j) * block == lo && (2 * j + 1) * block == lo + block && (2 * j + 2)
                    * block == lo + 2 * block && (j + 1) * (2 * block) == lo + 2 * block)
                    by (nonlinear_arith)
                    requires
                        lo == j * (2 * block),
                ;
                assert(0 <= lo && lo + 2 * block <= block * count) by (nonlinear_arith)
                    requires
                        lo == j * (2 * block),
                        0 <= j,
                        2 * j + 2 <= count,
                        1 <= block,
                ;
                assert(row[2 * j] == complete_tree(
                    leaves@.subrange((2 * j) * block, (2 * j + 1) * block),
                ));
                assert(row[2 * j + 1] == complete_tree(
                    leaves@.subrange((2 * j + 1) * block, (2 * j + 1 + 1) * block),
                ));
                lemma_pair_of_blocks(leaves@, lo, block);
            }
            block = 2 * block;
        }
    }
    assert(leaves@.subrange(0 * block, (0 + 1) * block) == leaves@);
    let root: NodeOption = match nodes.pop_front() {
        None => None,
        Some(node) => node,
    };
    Ok(root.unwrap())
}

/// Builds the complete binary tree over `leaves` and hangs it into `tree` as
/// its root, in place of what was there. Returns whether a tree was built:
/// where the number of scores is not a power of two, `tree` is left as it
/// was.
pub fn create_tree(tree: &mut BTree, leaves: &[i32]) -> (created: bool)
    ensures
        created == is_power_of_two(leaves@.len()),
        created ==> {
            &&& *final(tree) == (BTree { root: complete_tree(leaves@), depth: old(tree).depth })
            &&& perfect(final(tree).root, halvings(leaves@.len()))
            &&& leaf_scores(final(tree).root) == leaves@
        },
        !created ==> *final(tree) == *old(tree),
{
    match build_tree(leaves) {
        Ok(root) => {
            tree.set_root(Some(root));
            true
        },
        Err(_) => false,
    }
}

} // verus!
