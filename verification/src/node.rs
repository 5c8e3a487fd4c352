use vstd::prelude::*;

use crate::model::{all_gt, all_lt, balanced, bh, bst, color_of, keys_of, near_red_red, no_red_red,
    seq_of};

verus! {

broadcast use vstd::set::group_set_axioms, vstd::seq::group_seq_axioms;

/// Color tag of a tree node.  Absent ("nil") children count as Black.
#[derive(Clone, Copy, Debug, PartialEq, Eq, Structural)]
pub enum Color {
    Red,
    Black,
}

/// One cell of the tree: a key, a color tag, and the two owned children.
///
/// Children are ownership relations; a node exclusively owns its subtrees.
/// No parent back-reference is stored: the tree is edited top-down, so the
/// upward walks that a back-pointer would serve are replaced by downward
/// rebuilding, and the parent of a stored key can still be recovered with
/// [`TreeNode::get_parent_key`].
#[derive(Debug)]
pub struct TreeNode {
    pub color: Color,
    pub key: u32,
    pub left: Option<Box<TreeNode>>,
    pub right: Option<Box<TreeNode>>,
}

impl TreeNode {
    /// A fresh node holding `key`: Red at birth, with no children.
    pub fn new(key: u32) -> (r: TreeNode)
        ensures
            r.color == Color::Red,
            r.key == key,
            r.left is None,
            r.right is None,
    {
        TreeNode { color: Color::Red, key, left: None, right: None }
    }

    /// A fresh Red node holding `key`, already wrapped as a child slot.
    pub fn new_rb(key: u32) -> (r: Option<Box<TreeNode>>)
        ensures
            r is Some,
            color_of(r) == Color::Red,
            keys_of(r) == Set::<u32>::empty().insert(key),
            seq_of(r) == seq![key],
            bst(r),
            no_red_red(r),
            near_red_red(r),
            balanced(r),
            bh(r) == 0,
    {
        let n = TreeNode { color: Color::Red, key, left: None, right: None };
        let b = Box::new(n);
        let r = Some(b);
        proof {
            assert(*b == n);
            assert(n.left is None);
            assert(keys_of(n.left) == Set::<u32>::empty());
            assert(keys_of(r) == keys_of(n.left).insert(n.key).union(keys_of(n.right)));
            assert(keys_of(r) =~= Set::<u32>::empty().insert(key));
            assert(seq_of(n.left) == Seq::<u32>::empty());
            assert(seq_of(r) == seq_of(n.left) + seq![n.key] + seq_of(n.right));
            assert(seq_of(r).len() == 1);
            assert(seq_of(r)[0] == key);
            assert(seq_of(r) =~= seq![key]);
            assert(bst(n.left) && all_lt(n.left, n.key));
            assert(bst(n.right) && all_gt(n.right, n.key));
            assert(bst(r));
            assert(no_red_red(n.left) && no_red_red(n.right));
            assert(color_of(n.left) == Color::Black && color_of(n.right) == Color::Black);
            assert(no_red_red(r));
            assert(bh(n.left) == 0 && bh(n.right) == 0);
            assert(balanced(n.left) && balanced(n.right));
            assert(balanced(r) && bh(r) == 0);
        }
        r
    }
}

/// The key of the parent of the node holding `key` within the subtree
/// rooted at `n`, following the binary-search path: `None` when `key` sits
/// at the subtree root or is absent.
pub open spec fn parent_key_in(n: TreeNode, key: u32) -> Option<u32>
    decreases n,
{
    if key == n.key {
        None
    } else if key < n.key {
        match n.left {
            None => None,
            Some(l) => if l.key == key {
                Some(n.key)
            } else {
                parent_key_in(*l, key)
            },
        }
    } else {
        match n.right {
            None => None,
            Some(r) => if r.key == key {
                Some(n.key)
            } else {
                parent_key_in(*r, key)
            },
        }
    }
}

impl TreeNode {
    /// The key of the parent of the node holding `key`, recovered by a
    /// downward binary-search walk; `None` for the subtree root itself and
    /// for an absent key.
    pub fn get_parent_key(&self, key: u32) -> (r: Option<u32>)
        ensures
            r == parent_key_in(*self, key),
        decreases *self,
    {
        if key == self.key {
            None
        } else if key < self.key {
            match &self.left {
                None => None,
                Some(l) => {
                    if l.key == key {
                        Some(self.key)
                    } else {
                        l.get_parent_key(key)
                    }
                },
            }
        } else {
            match &self.right {
                None => None,
                Some(r) => {
                    if r.key == key {
                        Some(self.key)
                    } else {
                        r.get_parent_key(key)
                    }
                },
            }
        }
    }
}

} // verus!
