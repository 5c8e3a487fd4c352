use trees::node::TreeNode;
use trees::rbtree::{NotFound, RBTree};

#[test]
fn empty_tree_basics() {
    let mut tree = RBTree::new_empty();
    assert_eq!(tree.size(), 0);
    assert_eq!(tree.height(), 0);
    assert!(tree.in_order().is_empty());
    assert!(!tree.contains(42));
    assert_eq!(tree.delete(42), Err(NotFound));
    assert!(tree.tree_pretty_print().is_empty());
}

#[test]
fn single_key_tree() {
    let tree = RBTree::new(5);
    assert_eq!(tree.size(), 1);
    assert_eq!(tree.height(), 1);
    assert!(tree.contains(5));
    assert!(!tree.contains(4));
    assert_eq!(tree.in_order(), vec![5]);
}

#[test]
fn contains_follows_inserts_and_deletes() {
    let mut tree = RBTree::new_empty();
    for k in [15, 6, 23, 4, 7, 71, 5] {
        tree.insert(k);
    }
    for k in [15, 6, 23, 4, 7, 71, 5] {
        assert!(tree.contains(k));
    }
    assert!(!tree.contains(8));
    assert!(tree.delete(6).is_ok());
    assert!(!tree.contains(6));
    assert!(tree.contains(7));
    assert_eq!(tree.in_order(), vec![4, 5, 7, 15, 23, 71]);
}

#[test]
fn delete_down_to_empty() {
    let mut tree = RBTree::new_empty();
    for k in [3, 1, 4, 1, 5, 9, 2, 6] {
        tree.insert(k);
    }
    assert_eq!(tree.size(), 7);
    for k in [1, 2, 3, 4, 5, 6, 9] {
        assert!(tree.delete(k).is_ok());
    }
    assert_eq!(tree.size(), 0);
    assert_eq!(tree.height(), 0);
    assert!(tree.in_order().is_empty());
}

#[test]
fn get_parent_key_walks_to_the_parent() {
    let mut tree = RBTree::new_empty();
    for k in [20, 10, 30, 5] {
        tree.insert(k);
    }
    let root = tree.root.as_ref().unwrap();
    assert_eq!(root.get_parent_key(root.key), None);
    assert_eq!(root.get_parent_key(10), Some(20));
    assert_eq!(root.get_parent_key(30), Some(20));
    assert_eq!(root.get_parent_key(5), Some(10));
    assert_eq!(root.get_parent_key(999), None);
}

#[test]
fn rendering_names_the_colors() {
    let mut tree = RBTree::new_empty();
    tree.insert(10);
    tree.insert(20);
    let text = String::from_utf8(tree.tree_pretty_print()).unwrap();
    assert!(text.contains("10 (Black)"));
    assert!(text.contains("20 (Red)"));
    let node = TreeNode::new(77);
    let text = String::from_utf8(node.print_tree()).unwrap();
    assert!(text.contains("77 (Red)"));
}

#[test]
fn extreme_keys_are_ordinary_keys() {
    let mut tree = RBTree::new_empty();
    tree.insert(0);
    tree.insert(u32::MAX);
    tree.insert(1);
    assert_eq!(tree.in_order(), vec![0, 1, u32::MAX]);
    assert!(tree.delete(0).is_ok());
    assert_eq!(tree.in_order(), vec![1, u32::MAX]);
}

#[test]
fn extremes_and_neighbours() {
    let mut tree = RBTree::new_empty();
    assert_eq!(tree.minimum(), None);
    assert_eq!(tree.maximum(), None);
    assert_eq!(tree.successor(5), None);
    assert_eq!(tree.predecessor(5), None);
    for k in [20, 10, 30, 25, 40] {
        tree.insert(k);
    }
    assert_eq!(tree.minimum(), Some(10));
    assert_eq!(tree.maximum(), Some(40));
    assert_eq!(tree.successor(20), Some(25));
    assert_eq!(tree.successor(21), Some(25));
    assert_eq!(tree.successor(40), None);
    assert_eq!(tree.predecessor(20), Some(10));
    assert_eq!(tree.predecessor(25), Some(20));
    assert_eq!(tree.predecessor(10), None);
    assert!(tree.delete(25).is_ok());
    assert_eq!(tree.successor(20), Some(30));
}
