use avl_tree::avl::tree::Tree;

#[test]
fn test_tree_insert_node_key() {
    let mut tree = Tree::<String>::new();

    tree.insert("b".to_string());
    assert_eq!(tree.root.as_ref().unwrap().key, "b");

    tree.insert("a".to_string());
    tree.insert("c".to_string());
    let root = tree.root.as_ref().unwrap();
    assert_eq!(root.left.as_ref().unwrap().key, "a");
    assert_eq!(root.right.as_ref().unwrap().key, "c");
}

#[test]
fn test_tree_insert_node_height() {
    let mut tree = Tree::<String>::new();

    tree.insert("b".to_string());
    let root = tree.root.as_ref().unwrap();
    assert_eq!(root.height, 0);

    tree.insert("a".to_string());
    tree.insert("c".to_string());
    let root = tree.root.as_ref().unwrap();
    assert_eq!(root.height, 1);
    assert_eq!(root.left.as_ref().unwrap().height, 0);
    assert_eq!(root.right.as_ref().unwrap().height, 0);

    tree.insert("d".to_string());
    let root = tree.root.as_ref().unwrap();
    assert_eq!(root.height, 2);
    assert_eq!(root.left.as_ref().unwrap().height, 0);

    let right = root.right.as_ref().unwrap();
    assert_eq!(right.height, 1);
    assert_eq!(right.right.as_ref().unwrap().height, 0);
}

#[test]
fn test_tree_right_right_rotate_after_simple_insert() {
    let mut tree = Tree::<u8>::new();

    tree.insert(1);
    tree.insert(2);
    tree.insert(3);

    let root = tree.root.as_ref().unwrap();
    let left_child = root.left.as_ref().unwrap();
    let right_child = root.right.as_ref().unwrap();

    assert_eq!(root.key, 2);
    assert_eq!(root.height, 1);

    assert_eq!(left_child.key, 1);
    assert_eq!(left_child.height, 0);

    assert_eq!(right_child.key, 3);
    assert_eq!(right_child.height, 0);
}

#[test]
fn test_tree_right_left_rotate_after_simple_insert() {
    let mut tree = Tree::<u8>::new();

    tree.insert(1);
    tree.insert(3);
    tree.insert(2);

    let root = tree.root.as_ref().unwrap();
    let left_child = root.left.as_ref().unwrap();
    let right_child = root.right.as_ref().unwrap();

    assert_eq!(root.key, 2);
    assert_eq!(root.height, 1);

    assert_eq!(left_child.key, 1);
    assert_eq!(left_child.height, 0);

    assert_eq!(right_child.key, 3);
    assert_eq!(right_child.height, 0);
}

#[test]
fn test_tree_left_left_rotate_after_simple_insert() {
    let mut tree = Tree::<u8>::new();

    tree.insert(3);
    tree.insert(2);
    tree.insert(1);

    let root = tree.root.as_ref().unwrap();
    let left_child = root.left.as_ref().unwrap();
    let right_child = root.right.as_ref().unwrap();

    assert_eq!(root.key, 2);
    assert_eq!(root.height, 1);

    assert_eq!(left_child.key, 1);
    assert_eq!(left_child.height, 0);

    assert_eq!(right_child.key, 3);
    assert_eq!(right_child.height, 0);
}

#[test]
fn test_tree_left_right_rotate_after_simple_insert() {
    let mut tree = Tree::<u8>::new();

    tree.insert(3);
    tree.insert(1);
    tree.insert(2);

    let root = tree.root.as_ref().unwrap();
    let left_child = root.left.as_ref().unwrap();
    let right_child = root.right.as_ref().unwrap();

    assert_eq!(root.key, 2);
    assert_eq!(root.height, 1);

    assert_eq!(left_child.key, 1);
    assert_eq!(left_child.height, 0);

    assert_eq!(right_child.key, 3);
    assert_eq!(right_child.height, 0);
}

#[test]
fn test_predecessor() {
    let mut tree = Tree::<u8>::new();

    tree.insert(3);
    tree.insert(10);
    tree.insert(15);
    tree.insert(20);
    tree.insert(30);
    tree.insert(50);

    assert_eq!(tree.predecessor(2).is_none(), true);
    assert_eq!(*tree.predecessor(4).unwrap(), 3);
    assert_eq!(*tree.predecessor(11).unwrap(), 10);
    assert_eq!(*tree.predecessor(19).unwrap(), 15);
    assert_eq!(*tree.predecessor(27).unwrap(), 20);
    assert_eq!(*tree.predecessor(33).unwrap(), 30);
    assert_eq!(*tree.predecessor(255).unwrap(), 50);
}

#[test]
fn test_predecessor_exact_match_returns_stored_key() {
    let mut tree = Tree::<u8>::new();
    for k in [3u8, 10, 15, 20, 30, 50] {
        tree.insert(k);
    }
    // on an exact match the stored key itself comes back
    assert_eq!(*tree.predecessor(3).unwrap(), 3);
    assert_eq!(*tree.predecessor(20).unwrap(), 20);
}

#[test]
fn test_predecessor_empty_tree() {
    let tree = Tree::<u64>::new();
    assert!(tree.predecessor(7).is_none());
}

#[test]
fn test_other_integer_key_types() {
    let mut signed = Tree::<i64>::new();
    for k in [-5i64, 3, -40, 0, 19] {
        signed.insert(k);
    }
    assert_eq!(*signed.predecessor(1).unwrap(), 0);
    assert_eq!(*signed.predecessor(-6).unwrap(), -40);
    assert!(signed.predecessor(-41).is_none());

    let mut wide = Tree::<u32>::new();
    wide.insert(70_000);
    wide.insert(5);
    assert_eq!(*wide.predecessor(1_000_000).unwrap(), 70_000);

    let mut narrow = Tree::<i32>::new();
    narrow.insert(-1);
    narrow.insert(1);
    assert_eq!(*narrow.predecessor(0).unwrap(), -1);

    let mut sizes = Tree::<usize>::new();
    sizes.insert(5);
    sizes.insert(9);
    assert_eq!(*sizes.predecessor(7).unwrap(), 5);
}

#[test]
fn test_string_keys_lexicographic() {
    let mut tree = Tree::<String>::new();
    for w in ["pear", "apple", "banana", "fig"] {
        tree.insert(w.to_string());
    }
    assert_eq!(tree.predecessor("blueberry".to_string()).unwrap(), "banana");
    assert_eq!(tree.predecessor("grape".to_string()).unwrap(), "fig");
    assert_eq!(tree.predecessor("zebra".to_string()).unwrap(), "pear");
    assert!(tree.predecessor("aardvark".to_string()).is_none());
    assert_eq!(tree.predecessor("apple".to_string()).unwrap(), "apple");
}
