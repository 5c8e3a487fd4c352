//! The tree container: owns the root, tracks the number of stored keys and
//! exposes the public API.  Every mutating operation keeps the red-black
//! invariants — binary-search ordering, Black root, no Red-Red edge,
//! path-invariant black-height — and moves the abstract key set exactly as
//! its contract states.

use vstd::prelude::*;

use crate::node::{Color, TreeNode};
use crate::model::{Link, all_gt, all_lt, balanced, bh, bst, color_of, height_of, keys_of, seq_of, sorted_strict,
    no_red_red, lemma_bst_sorted, lemma_height_le_count, lemma_keys_finite, lemma_seq_keys,
    lemma_sorted_len};
use crate::insertion::{ins, link_contains};
use crate::deletion::{del, paint_black};

verus! {

broadcast use vstd::set::group_set_axioms, vstd::seq::group_seq_axioms;

/// The only domain error: deleting a key that is not stored.
#[derive(Clone, Copy, Debug, PartialEq, Eq, Structural)]
pub struct NotFound;

/// A red-black tree over `u32` keys.
pub struct RBTree {
    pub root: Link,
    pub size: usize,
}

impl View for RBTree {
    type V = Set<u32>;

    /// The abstract value of the tree: the set of stored keys.
    open spec fn view(&self) -> Set<u32> {
        keys_of(self.root)
    }
}

impl RBTree {
    /// The red-black invariants: binary-search ordering, a Black root, no
    /// Red node with a Red child, the same number of Black nodes on every
    /// root-to-nil path, and an accurate size.
    pub open spec fn well_formed(&self) -> bool {
        &&& bst(self.root)
        &&& no_red_red(self.root)
        &&& balanced(self.root)
        &&& color_of(self.root) == Color::Black
        &&& self.size == self@.len()
    }

    /// The in-order key sequence.
    pub open spec fn inorder(&self) -> Seq<u32> {
        seq_of(self.root)
    }

    /// An empty tree.
    pub fn new_empty() -> (t: RBTree)
        ensures
            t.well_formed(),
            t@ == Set::<u32>::empty(),
            t.inorder() == Seq::<u32>::empty(),
    {
        let t = RBTree { root: None, size: 0 };
        proof {
            assert(t@ =~= Set::<u32>::empty());
            assert(t.inorder() =~= Seq::<u32>::empty());
        }
        t
    }

    /// A tree holding the single key `key`; the root is born Black.
    pub fn new(key: u32) -> (t: RBTree)
        ensures
            t.well_formed(),
            t@ == Set::<u32>::empty().insert(key),
    {
        let n = TreeNode { color: Color::Black, key, left: None, right: None };
        let b = Box::new(n);
        let root = Some(b);
        let t = RBTree { root, size: 1 };
        proof {
            assert(*b == n && t.root == root);
            assert(keys_of(n.left) == Set::<u32>::empty());
            assert(t@ =~= Set::<u32>::empty().insert(key));
            assert(bst(n.left) && bst(n.right));
            assert(all_lt(n.left, n.key) && all_gt(n.right, n.key));
            assert(no_red_red(n.left) && no_red_red(n.right));
            assert(bst(root) && no_red_red(root));
            assert(bh(n.left) == 0 && balanced(n.left) && balanced(n.right));
            assert(balanced(root) && bh(root) == 1);
            assert(t@.len() == 1);
        }
        t
    }

    /// Whether `key` is stored.
    pub fn contains(&self, key: u32) -> (r: bool)
        requires
            self.well_formed(),
        ensures
            r == self@.contains(key),
    {
        link_contains(&self.root, key)
    }

    /// The number of stored keys.
    pub fn size(&self) -> (s: usize)
        requires
            self.well_formed(),
        ensures
            s == self@.len(),
    {
        self.size
    }

    /// Insert `key`.  A duplicate insert is a silent no-op that leaves the
    /// tree untouched; a new key is attached as a Red leaf and the fixup
    /// pass restores the invariants, forcing the root Black at the end.
    /// The precondition only rules out growing past what the size counter
    /// can hold — a machine limit, not a policy.
    pub fn insert(&mut self, key: u32)
        requires
            old(self).well_formed(),
            old(self)@.len() < usize::MAX || old(self)@.contains(key),
        ensures
            final(self).well_formed(),
            final(self)@ == old(self)@.insert(key),
            old(self)@.contains(key) ==> *final(self) == *old(self),
    {
        proof {
            lemma_keys_finite(self.root);
        }
        if self.contains(key) {
            proof {
                assert(old(self)@.insert(key) =~= old(self)@);
            }
            return;
        }
        let root = self.root.take();
        let n = ins(root, key);
        let newroot = paint_black(Some(n));
        self.root = newroot;
        proof {
            assert(self@ == old(self)@.insert(key));
            assert(self@.len() == old(self)@.len() + 1);
        }
        self.size = self.size + 1;
    }

    /// Delete `key`.  If it is absent the tree is left untouched and
    /// `NotFound` is reported; otherwise the node is spliced out, the
    /// deficiency fixup runs, and the root is forced Black.
    pub fn delete(&mut self, key: u32) -> (res: Result<(), NotFound>)
        requires
            old(self).well_formed(),
        ensures
            final(self).well_formed(),
            old(self)@.contains(key) ==> res is Ok && final(self)@ == old(self)@.remove(key),
            !old(self)@.contains(key) ==> res is Err && *final(self) == *old(self),
    {
        proof {
            lemma_keys_finite(self.root);
        }
        if !self.contains(key) {
            return Err(NotFound);
        }
        let root = self.root.take();
        let n = root.unwrap();
        let d = del(n, key);
        let newroot = paint_black(d);
        self.root = newroot;
        proof {
            assert(self@ == old(self)@.remove(key));
            assert(self@.len() + 1 == old(self)@.len());
        }
        self.size = self.size - 1;
        Ok(())
    }

    /// The number of nodes on the longest root-to-nil path (0 when empty).
    pub fn height(&self) -> (h: usize)
        requires
            self.well_formed(),
        ensures
            h == height_of(self.root),
    {
        proof {
            lemma_height_le_count(self.root);
            lemma_bst_sorted(self.root);
            lemma_sorted_len(seq_of(self.root));
            lemma_seq_keys(self.root);
            assert(height_of(self.root) <= self@.len());
        }
        link_height(&self.root)
    }

    /// The stored keys in ascending order; a fresh vector on every call.
    pub fn in_order(&self) -> (v: Vec<u32>)
        requires
            self.well_formed(),
        ensures
            v@ == self.inorder(),
            sorted_strict(v@),
            v@.to_set() == self@,
            v@.len() == self@.len(),
    {
        let mut out: Vec<u32> = Vec::new();
        collect_in_order(&self.root, &mut out);
        proof {
            assert(out@ == seq_of(self.root));
            lemma_bst_sorted(self.root);
            lemma_seq_keys(self.root);
            lemma_sorted_len(seq_of(self.root));
        }
        out
    }
}

/// Height of a subtree, bounded by the node count so the machine integer
/// cannot overflow.
fn link_height(t: &Link) -> (h: usize)
    requires
        height_of(*t) <= usize::MAX,
    ensures
        h == height_of(*t),
    decreases *t,
{
    match t {
        None => 0,
        Some(n) => {
            let hl = link_height(&n.left);
            let hr = link_height(&n.right);
            if hl >= hr {
                1 + hl
            } else {
                1 + hr
            }
        },
    }
}

/// Append the in-order key sequence of a subtree to `out`.
fn collect_in_order(t: &Link, out: &mut Vec<u32>)
    ensures
        final(out)@ == old(out)@ + seq_of(*t),
    decreases *t,
{
    match t {
        None => {
            proof {
                assert(out@ =~= old(out)@ + seq_of(*t));
            }
        },
        Some(n) => {
            collect_in_order(&n.left, out);
            out.push(n.key);
            collect_in_order(&n.right, out);
            proof {
                assert(out@ =~= old(out)@ + seq_of(*t));
            }
        },
    }
}

} // verus!
