use avl_tree::avl::node::Node;
use avl_tree::avl::tree::Tree;

/// Walks a subtree, checks BST order, the AVL balance bound and the height
/// caches at every node, and returns its height and its in-order key list.
fn check_subtree(node: &Option<Box<Node<u64>>>) -> (i64, Vec<u64>) {
    match node {
        None => (-1, Vec::new()),
        Some(n) => {
            let (left_height, left_keys) = check_subtree(&n.left);
            let (right_height, right_keys) = check_subtree(&n.right);
            for k in &left_keys {
                assert!(*k < n.key);
            }
            for k in &right_keys {
                assert!(*k > n.key);
            }
            assert!((left_height - right_height).abs() <= 1);
            let height = 1 + left_height.max(right_height);
            assert_eq!(n.height as i64, height);
            let mut keys = left_keys;
            keys.push(n.key);
            keys.extend(right_keys);
            (height, keys)
        }
    }
}

fn tree_height(tree: &Tree<u64>) -> i64 {
    match &tree.root {
        None => -1,
        Some(n) => n.height as i64,
    }
}

#[test]
fn test_invariants_after_every_insert() {
    let mut tree = Tree::<u64>::new();
    let mut inserted: Vec<u64> = Vec::new();
    // a scattered but deterministic sequence of keys, with repeats
    let mut x: u64 = 7;
    for _ in 0..200 {
        x = (x * 137 + 31) % 251;
        tree.insert(x);
        if !inserted.contains(&x) {
            inserted.push(x);
        }
        let (_, keys) = check_subtree(&tree.root);
        // in-order traversal is strictly ascending: sorted, no duplicates
        for w in keys.windows(2) {
            assert!(w[0] < w[1]);
        }
        // and it lists exactly the distinct inserted keys
        let mut expected = inserted.clone();
        expected.sort();
        assert_eq!(keys, expected);
    }
}

#[test]
fn test_height_bound() {
    let mut tree = Tree::<u64>::new();
    for n in 1..=512u64 {
        tree.insert(n);
        let h = tree_height(&tree) as f64;
        let bound = 1.44 * ((n + 2) as f64).log2() - 1.0;
        assert!(h <= bound + 1e-9);
    }
}

#[test]
fn test_duplicate_insert_is_identical() {
    let mut tree = Tree::<u64>::new();
    for k in [8u64, 3, 10, 1, 6, 14, 4, 7, 13] {
        tree.insert(k);
    }
    let before = format!("{:?}", tree.root);
    for k in [8u64, 1, 13] {
        tree.insert(k);
        let after = format!("{:?}", tree.root);
        assert_eq!(before, after);
    }
    let (_, keys) = check_subtree(&tree.root);
    assert_eq!(keys, vec![1, 3, 4, 6, 7, 8, 10, 13, 14]);
}

#[test]
fn test_empty_tree() {
    let tree = Tree::<u64>::new();
    assert!(tree.root.is_none());
}
