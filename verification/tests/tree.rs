use game_tree::tree_lib::node::Node;
use game_tree::tree_lib::tree::BTree;

#[test]
fn test_new_empty_tree() {
    let tree = BTree::new_empty();

    assert_eq!(tree, BTree {
        root: None,
        depth: 0
    });
}

#[test]
fn test_new_tree() {
    let tree = BTree::new(12, true);

    assert_eq!(tree, BTree {
        root: Some(Node::new(12, true, None, None)),
        depth: 1
    })
}

#[test]
fn empty_tree_has_no_children_and_no_value() {
    let tree = BTree::new_empty();
    assert!(tree.is_left_none());
    assert!(tree.is_right_none());
    assert_eq!(tree.get_root_val(), None);
}

#[test]
fn single_leaf_tree_reports_its_value() {
    let tree = BTree::new(-3, false);
    assert!(tree.is_left_none());
    assert!(tree.is_right_none());
    assert_eq!(tree.get_root_val(), Some(-3));
}

#[test]
fn set_root_replaces_the_root_and_keeps_the_depth() {
    let mut tree = BTree::new(12, true);
    let root = Node::new(
        9,
        true,
        Some(Node::new(1, true, None, None)),
        None,
    );
    tree.set_root(Some(root));
    assert_eq!(tree.depth, 1);
    assert_eq!(tree.get_root_val(), Some(9));
    assert!(!tree.is_left_none());
    assert!(tree.is_right_none());

    tree.set_root(None);
    assert_eq!(tree, BTree { root: None, depth: 1 });
}

#[test]
fn root_child_queries_look_at_the_root_only() {
    let mut tree = BTree::new_empty();
    let root = Node::new(
        0,
        true,
        None,
        Some(Node::new(1, true, Some(Node::new(2, true, None, None)), None)),
    );
    tree.set_root(Some(root));
    assert!(tree.is_left_none());
    assert!(!tree.is_right_none());
}
