use trees::node::{Color, TreeNode};
use trees::rbtree::{NotFound, RBTree};

fn render(tree: &RBTree) -> String {
    String::from_utf8(tree.tree_pretty_print()).unwrap()
}

#[test]
fn two_keys_no_rotation() {
    let mut tree = RBTree::new_empty();
    tree.insert(5);
    tree.insert(10);
    let root = tree.root.as_ref().unwrap();
    assert_eq!(root.key, 5);
    assert!(root.color == Color::Black);
    assert!(root.left.is_none());
    let right = root.right.as_ref().unwrap();
    assert_eq!(right.key, 10);
    assert!(right.color == Color::Red);
    assert_eq!(tree.size(), 2);
}

#[test]
fn ascending_insert_triggers_left_rotation() {
    let mut tree = RBTree::new_empty();
    tree.insert(10);
    tree.insert(20);
    tree.insert(30);
    let root = tree.root.as_ref().unwrap();
    assert_eq!(root.key, 20);
    assert!(root.color == Color::Black);
    let left = root.left.as_ref().unwrap();
    let right = root.right.as_ref().unwrap();
    assert_eq!(left.key, 10);
    assert!(left.color == Color::Red);
    assert_eq!(right.key, 30);
    assert!(right.color == Color::Red);
}

#[test]
fn six_keys_height_and_order() {
    let mut tree = RBTree::new_empty();
    for k in [10, 20, 30, 40, 50, 25] {
        tree.insert(k);
    }
    assert!(tree.height() <= 4);
    assert_eq!(tree.in_order(), vec![10, 20, 25, 30, 40, 50]);
    assert_eq!(tree.size(), 6);
}

#[test]
fn delete_red_leaf_needs_no_fixup() {
    let mut tree = RBTree::new_empty();
    tree.insert(10);
    tree.insert(20);
    tree.insert(30);
    // 10 is a Red leaf under the Black root 20
    assert!(tree.root.as_ref().unwrap().left.as_ref().unwrap().color == Color::Red);
    assert!(tree.delete(10).is_ok());
    assert_eq!(tree.in_order(), vec![20, 30]);
    assert_eq!(tree.size(), 2);
    let root = tree.root.as_ref().unwrap();
    assert_eq!(root.key, 20);
    assert!(root.color == Color::Black);
    assert!(root.left.is_none());
    assert!(root.right.as_ref().unwrap().color == Color::Red);
}

#[test]
fn delete_root_of_two_node_tree_promotes_child() {
    let mut tree = RBTree::new(20);
    tree.insert(10);
    let root = tree.root.as_ref().unwrap();
    assert!(root.color == Color::Black);
    assert!(root.left.as_ref().unwrap().color == Color::Red);
    assert!(tree.delete(20).is_ok());
    let root = tree.root.as_ref().unwrap();
    assert_eq!(root.key, 10);
    assert!(root.color == Color::Black);
    assert!(root.left.is_none() && root.right.is_none());
    assert_eq!(tree.size(), 1);
}

#[test]
fn delete_absent_key_reports_not_found_and_changes_nothing() {
    let mut tree = RBTree::new_empty();
    for k in [10, 20, 30, 40, 50, 25] {
        tree.insert(k);
    }
    let before_render = render(&tree);
    let before_order = tree.in_order();
    let before_size = tree.size();
    let before_height = tree.height();
    assert_eq!(tree.delete(999), Err(NotFound));
    assert_eq!(render(&tree), before_render);
    assert_eq!(tree.in_order(), before_order);
    assert_eq!(tree.size(), before_size);
    assert_eq!(tree.height(), before_height);
}

#[test]
fn duplicate_insert_is_a_silent_no_op() {
    let mut tree = RBTree::new_empty();
    for k in [7, 3, 9] {
        tree.insert(k);
    }
    let before_render = render(&tree);
    tree.insert(7);
    tree.insert(3);
    assert_eq!(tree.size(), 3);
    assert_eq!(tree.in_order(), vec![3, 7, 9]);
    assert_eq!(render(&tree), before_render);
}

#[test]
fn insert_then_delete_round_trip_restores_key_set() {
    let mut tree = RBTree::new_empty();
    for k in [8, 4, 12, 2, 6] {
        tree.insert(k);
    }
    let before_order = tree.in_order();
    tree.insert(5);
    assert!(tree.delete(5).is_ok());
    assert_eq!(tree.in_order(), before_order);
    assert_eq!(tree.size(), 5);
}

#[test]
fn many_keys_stay_sorted_and_shallow() {
    let mut tree = RBTree::new_empty();
    // a deliberately adversarial mix: ascending, descending, interleaved
    for k in 0..50u32 {
        tree.insert(k * 2);
    }
    for k in (0..50u32).rev() {
        tree.insert(k * 2 + 1);
    }
    assert_eq!(tree.size(), 100);
    let keys = tree.in_order();
    assert_eq!(keys.len(), 100);
    for i in 0..keys.len() - 1 {
        assert!(keys[i] < keys[i + 1]);
    }
    // red-black height bound: 2^h <= (n + 1)^2
    let h = tree.height() as u32;
    assert!(1u64 << h <= 101u64 * 101u64);
    // delete every third key and check the survivors again
    for k in 0..100u32 {
        if k % 3 == 0 {
            assert!(tree.delete(k).is_ok());
        }
    }
    assert_eq!(tree.size(), 66);
    let keys = tree.in_order();
    assert_eq!(keys.len(), 66);
    for i in 0..keys.len() - 1 {
        assert!(keys[i] < keys[i + 1]);
    }
    for k in 0..100u32 {
        assert_eq!(tree.contains(k), k % 3 != 0);
    }
}

#[test]
fn tree_node_insert_attaches_red_leaf() {
    let mut tree = RBTree::new(10);
    let root = tree.root.take().unwrap();
    let root = root.insert(5);
    assert_eq!(root.key, 10);
    let left = root.left.as_ref().unwrap();
    assert_eq!(left.key, 5);
    assert!(left.color == Color::Red);
    // a duplicate insert hands the subtree back unchanged
    let root = root.insert(5);
    assert_eq!(root.key, 10);
    assert_eq!(root.left.as_ref().unwrap().key, 5);
    assert!(root.right.is_none());
}

#[test]
fn fresh_nodes_are_red() {
    let n = TreeNode::new(7);
    assert_eq!(n.key, 7);
    assert!(n.color == Color::Red);
    assert!(n.left.is_none() && n.right.is_none());
    let slot = TreeNode::new_rb(9);
    let boxed = slot.unwrap();
    assert_eq!(boxed.key, 9);
    assert!(boxed.color == Color::Red);
}
