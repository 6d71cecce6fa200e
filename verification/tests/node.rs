use game_tree::tree_lib::node::Node;

#[test]
fn test_new_node() {
    let node = Node::new(12, true, None, None);
    assert_eq!(node, Box::new(Node { val: 12, color: true, left: None, right:
        None}));
}

#[test]
fn new_node_keeps_its_children() {
    let left = Node::new(1, true, None, None);
    let right = Node::new(2, false, None, None);
    let node = Node::new(0, true, Some(left), Some(right));
    assert_eq!(node.val, 0);
    assert!(node.color);
    assert_eq!(node.left, Some(Box::new(Node { val: 1, color: true, left: None, right: None })));
    assert_eq!(node.right, Some(Box::new(Node { val: 2, color: false, left: None, right: None })));
}

#[test]
fn child_queries_tell_the_sides_apart() {
    let only_left = Node::new(0, true, Some(Node::new(4, true, None, None)), None);
    assert!(!only_left.is_left_none());
    assert!(only_left.is_right_none());
    assert!(!only_left.is_leaf());

    let only_right = Node::new(0, true, None, Some(Node::new(4, true, None, None)));
    assert!(only_right.is_left_none());
    assert!(!only_right.is_right_none());
    assert!(!only_right.is_leaf());

    let leaf = Node::new(4, true, None, None);
    assert!(leaf.is_left_none());
    assert!(leaf.is_right_none());
    assert!(leaf.is_leaf());
}

#[test]
fn set_val_changes_only_the_value() {
    let mut node = Node::new(3, false, Some(Node::new(1, true, None, None)), None);
    assert_eq!(node.get_val(), 3);
    node.set_val(-8);
    assert_eq!(node.get_val(), -8);
    assert_eq!(
        node,
        Box::new(Node {
            val: -8,
            color: false,
            left: Some(Box::new(Node { val: 1, color: true, left: None, right: None })),
            right: None,
        })
    );
}

#[test]
fn remove_right_drops_the_whole_right_subtree() {
    let right = Node::new(
        0,
        true,
        Some(Node::new(5, true, None, None)),
        Some(Node::new(6, true, None, None)),
    );
    let mut node = Node::new(0, true, Some(Node::new(1, true, None, None)), Some(right));
    node.remove_right();
    assert_eq!(
        node,
        Box::new(Node {
            val: 0,
            color: true,
            left: Some(Box::new(Node { val: 1, color: true, left: None, right: None })),
            right: None,
        })
    );
    node.remove_right();
    assert!(node.is_right_none());
    assert!(!node.is_left_none());
}

#[test]
fn remove_left_drops_the_whole_left_subtree() {
    let mut node = Node::new(
        7,
        false,
        Some(Node::new(1, true, None, None)),
        Some(Node::new(2, true, None, None)),
    );
    node.remove_left();
    assert_eq!(
        node,
        Box::new(Node {
            val: 7,
            color: false,
            left: None,
            right: Some(Box::new(Node { val: 2, color: true, left: None, right: None })),
        })
    );
}
