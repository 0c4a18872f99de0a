use avl_tree::avl::node::Node;

#[test]
fn test_node_creation() {
    let node = Node {
        height: 1,
        left: None,
        right: None,
        key: 67,
    };

    assert_eq!(node.key, 67);
}

#[test]
fn test_node_with_children() {
    let left_child = Box::new(Node {
        height: 1,
        left: None,
        right: None,
        key: "left",
    });
    let right_child = Box::new(Node {
        height: 1,
        left: None,
        right: None,
        key: "right",
    });

    let parent = Node {
        height: 2,
        left: Some(left_child),
        right: Some(right_child),
        key: "parent",
    };

    assert_eq!(parent.left.as_ref().unwrap().key, "left");
    assert_eq!(parent.right.as_ref().unwrap().key, "right");
    assert_eq!(
        parent.height,
        std::cmp::max(
            parent.left.as_ref().unwrap().height,
            parent.right.as_ref().unwrap().height
        ) + 1
    );
}

#[test]
fn test_new_leaf() {
    let node = Node::new(42u64);
    assert_eq!(node.key, 42);
    assert_eq!(node.height, 0);
    assert!(node.left.is_none());
    assert!(node.right.is_none());
}

#[test]
fn test_update_heigh_and_balance() {
    let mut node = Node {
        height: 0,
        left: Some(Box::new(Node::new(1u8))),
        right: None,
        key: 2u8,
    };
    node.update_heigh();
    assert_eq!(node.height, 1);
    assert_eq!(node.balance_facator(), 1);

    node.right = Some(Box::new(Node::new(3u8)));
    node.update_heigh();
    assert_eq!(node.height, 1);
    assert_eq!(node.balance_facator(), 0);
}
