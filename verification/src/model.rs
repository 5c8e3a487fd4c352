//! The mathematical model of the tree: spec functions for the stored key
//! set, the in-order sequence, the binary-search ordering, the red-black
//! color discipline and the black-height balance, together with the lemmas
//! that connect them.

use vstd::prelude::*;

use crate::node::{Color, TreeNode};

verus! {

broadcast use vstd::set::group_set_axioms, vstd::seq::group_seq_axioms;

/// A child slot: an owned subtree or nothing.
pub type Link = Option<Box<TreeNode>>;

/// The set of keys stored in a subtree.
pub open spec fn keys_of(t: Link) -> Set<u32>
    decreases t,
{
    match t {
        None => Set::empty(),
        Some(n) => keys_of(n.left).insert(n.key).union(keys_of(n.right)),
    }
}

/// The in-order key sequence of a subtree (left subtree, root, right subtree).
pub open spec fn seq_of(t: Link) -> Seq<u32>
    decreases t,
{
    match t {
        None => Seq::empty(),
        Some(n) => seq_of(n.left) + seq![n.key] + seq_of(n.right),
    }
}

/// Every key in the subtree lies strictly below `bound`.
pub open spec fn all_lt(t: Link, bound: u32) -> bool
    decreases t,
{
    match t {
        None => true,
        Some(n) => n.key < bound && all_lt(n.left, bound) && all_lt(n.right, bound),
    }
}

/// Every key in the subtree lies strictly above `bound`.
pub open spec fn all_gt(t: Link, bound: u32) -> bool
    decreases t,
{
    match t {
        None => true,
        Some(n) => n.key > bound && all_gt(n.left, bound) && all_gt(n.right, bound),
    }
}

/// Binary-search ordering: at every node, the left subtree holds smaller
/// keys and the right subtree larger ones, so the in-order sequence is
/// strictly increasing and no key is stored twice.
pub open spec fn bst(t: Link) -> bool
    decreases t,
{
    match t {
        None => true,
        Some(n) => bst(n.left) && bst(n.right) && all_lt(n.left, n.key) && all_gt(n.right, n.key),
    }
}

/// The color of a subtree root; an absent child counts as Black.
pub open spec fn color_of(t: Link) -> Color {
    match t {
        None => Color::Black,
        Some(n) => n.color,
    }
}

/// No Red node has a Red child anywhere in the subtree.
pub open spec fn no_red_red(t: Link) -> bool
    decreases t,
{
    match t {
        None => true,
        Some(n) => {
            &&& (n.color == Color::Red ==> color_of(n.left) == Color::Black && color_of(n.right)
                == Color::Black)
            &&& no_red_red(n.left)
            &&& no_red_red(n.right)
        },
    }
}

/// Both subtrees are clean of Red-Red edges; the root itself may still be a
/// Red node with a Red child.  This is the transient state that a fixup pass
/// hands to its caller to resolve one level up.
pub open spec fn near_red_red(t: Link) -> bool {
    match t {
        None => true,
        Some(n) => no_red_red(n.left) && no_red_red(n.right),
    }
}

/// Black-height: the number of Black nodes on the path from the root of the
/// subtree down its leftmost spine to a nil leaf, the root included.
pub open spec fn bh(t: Link) -> nat
    decreases t,
{
    match t {
        None => 0,
        Some(n) => bh(n.left) + if n.color == Color::Black {
            1nat
        } else {
            0nat
        },
    }
}

/// Every path from any node to a descendant nil leaf passes through the same
/// number of Black nodes.
pub open spec fn balanced(t: Link) -> bool
    decreases t,
{
    match t {
        None => true,
        Some(n) => bh(n.left) == bh(n.right) && balanced(n.left) && balanced(n.right),
    }
}

/// The number of nodes on the longest root-to-nil path (0 for an empty slot).
pub open spec fn height_of(t: Link) -> nat
    decreases t,
{
    match t {
        None => 0,
        Some(n) => 1 + if height_of(n.left) >= height_of(n.right) {
            height_of(n.left)
        } else {
            height_of(n.right)
        },
    }
}

/// A strictly ascending sequence of keys.
pub open spec fn sorted_strict(s: Seq<u32>) -> bool {
    forall|i: int, j: int| 0 <= i < j < s.len() ==> s[i] < s[j]
}

/// `all_lt` says exactly that every stored key is below the bound.
pub proof fn lemma_all_lt_equiv(t: Link, bound: u32)
    ensures
        all_lt(t, bound) <==> (forall|k: u32| keys_of(t).contains(k) ==> k < bound),
    decreases t,
{
    match t {
        None => {
        },
        Some(n) => {
            lemma_all_lt_equiv(n.left, bound);
            lemma_all_lt_equiv(n.right, bound);
            assert(keys_of(t).contains(n.key));
            if all_lt(t, bound) {
                assert forall|k: u32| keys_of(t).contains(k) implies k < bound by {
                    if k != n.key && !keys_of(n.left).contains(k) {
                        assert(keys_of(n.right).contains(k));
                    }
                }
            }
            if forall|k: u32| keys_of(t).contains(k) ==> k < bound {
                assert forall|k: u32| keys_of(n.left).contains(k) implies k < bound by {
                    assert(keys_of(t).contains(k));
                }
                assert forall|k: u32| keys_of(n.right).contains(k) implies k < bound by {
                    assert(keys_of(t).contains(k));
                }
                assert(all_lt(t, bound));
            }
        },
    }
}

/// `all_gt` says exactly that every stored key is above the bound.
pub proof fn lemma_all_gt_equiv(t: Link, bound: u32)
    ensures
        all_gt(t, bound) <==> (forall|k: u32| keys_of(t).contains(k) ==> k > bound),
    decreases t,
{
    match t {
        None => {
        },
        Some(n) => {
            lemma_all_gt_equiv(n.left, bound);
            lemma_all_gt_equiv(n.right, bound);
            assert(keys_of(t).contains(n.key));
            if all_gt(t, bound) {
                assert forall|k: u32| keys_of(t).contains(k) implies k > bound by {
                    if k != n.key && !keys_of(n.left).contains(k) {
                        assert(keys_of(n.right).contains(k));
                    }
                }
            }
            if forall|k: u32| keys_of(t).contains(k) ==> k > bound {
                assert forall|k: u32| keys_of(n.left).contains(k) implies k > bound by {
                    assert(keys_of(t).contains(k));
                }
                assert forall|k: u32| keys_of(n.right).contains(k) implies k > bound by {
                    assert(keys_of(t).contains(k));
                }
                assert(all_gt(t, bound));
            }
        },
    }
}

/// The key set of a subtree is finite.
pub proof fn lemma_keys_finite(t: Link)
    ensures
        keys_of(t).finite(),
    decreases t,
{
    broadcast use vstd::set::group_set_axioms, vstd::seq::group_seq_axioms;

    match t {
        None => {
        },
        Some(n) => {
            lemma_keys_finite(n.left);
            lemma_keys_finite(n.right);
        },
    }
}

/// Everything below `b1` is also below any larger bound `b2`.
pub proof fn lemma_all_lt_widen(t: Link, b1: u32, b2: u32)
    requires
        all_lt(t, b1),
        b1 <= b2,
    ensures
        all_lt(t, b2),
{
    lemma_all_lt_equiv(t, b1);
    lemma_all_lt_equiv(t, b2);
    assert forall|k: u32| keys_of(t).contains(k) implies k < b2 by {
        assert(k < b1);
    }
}

/// Everything above `b1` is also above any smaller bound `b2`.
pub proof fn lemma_all_gt_widen(t: Link, b1: u32, b2: u32)
    requires
        all_gt(t, b1),
        b2 <= b1,
    ensures
        all_gt(t, b2),
{
    lemma_all_gt_equiv(t, b1);
    lemma_all_gt_equiv(t, b2);
    assert forall|k: u32| keys_of(t).contains(k) implies k > b2 by {
        assert(k > b1);
    }
}

/// A subtree clean of Red-Red edges is in particular clean below its root.
pub proof fn lemma_invc_near(t: Link)
    requires
        no_red_red(t),
    ensures
        near_red_red(t),
{
    match t {
        None => {
        },
        Some(n) => {
        },
    }
}

/// A Black-rooted subtree whose children are clean is clean everywhere.
pub proof fn lemma_near_black_invc(t: Link)
    requires
        near_red_red(t),
        color_of(t) != Color::Red,
    ensures
        no_red_red(t),
{
    match t {
        None => {
        },
        Some(n) => {
        },
    }
}

/// The in-order sequence enumerates exactly the stored key set.
pub proof fn lemma_seq_keys(t: Link)
    ensures
        seq_of(t).to_set() == keys_of(t),
    decreases t,
{
    match t {
        None => {
            assert(seq_of(t).to_set() =~= keys_of(t));
        },
        Some(n) => {
            lemma_seq_keys(n.left);
            lemma_seq_keys(n.right);
            vstd::seq_lib::seq_to_set_distributes_over_add(seq_of(n.left) + seq![n.key], seq_of(n.right));
            vstd::seq_lib::seq_to_set_distributes_over_add(seq_of(n.left), seq![n.key]);
            assert(seq![n.key].to_set() =~= Set::<u32>::empty().insert(n.key)) by {
                assert(seq![n.key].len() == 1 && seq![n.key][0] == n.key);
                assert(seq![n.key].contains(n.key));
            }
            assert(seq_of(t) == seq_of(n.left) + seq![n.key] + seq_of(n.right));
            assert(seq_of(t).to_set() =~= keys_of(t));
        },
    }
}

/// A binary-search-ordered subtree lists its keys in strictly ascending
/// order.
pub proof fn lemma_bst_sorted(t: Link)
    requires
        bst(t),
    ensures
        sorted_strict(seq_of(t)),
    decreases t,
{
    match t {
        None => {
        },
        Some(n) => {
            lemma_bst_sorted(n.left);
            lemma_bst_sorted(n.right);
            lemma_seq_keys(n.left);
            lemma_seq_keys(n.right);
            lemma_all_lt_equiv(n.left, n.key);
            lemma_all_gt_equiv(n.right, n.key);
            let sl = seq_of(n.left);
            let sr = seq_of(n.right);
            let s = seq_of(t);
            assert(s == sl + seq![n.key] + sr);
            assert forall|i: int, j: int| 0 <= i < j < s.len() implies s[i] < s[j] by {
                let ln = sl.len() as int;
                if i < ln {
                    assert(s[i] == sl[i]);
                    assert(sl.contains(sl[i]));
                    assert(keys_of(n.left).contains(sl[i]));
                    assert(s[i] < n.key);
                } else if i == ln {
                    assert(s[i] == n.key);
                } else {
                    assert(s[i] == sr[i - ln - 1]);
                    assert(sr.contains(sr[i - ln - 1]));
                    assert(keys_of(n.right).contains(sr[i - ln - 1]));
                    assert(s[i] > n.key);
                }
                if j < ln {
                    assert(s[j] == sl[j]);
                } else if j == ln {
                    assert(s[j] == n.key);
                } else {
                    assert(s[j] == sr[j - ln - 1]);
                    assert(sr.contains(sr[j - ln - 1]));
                    assert(keys_of(n.right).contains(sr[j - ln - 1]));
                    assert(s[j] > n.key);
                }
            }
        },
    }
}

/// The longest path visits no node twice, so the height is at most the
/// number of stored nodes.
pub proof fn lemma_height_le_count(t: Link)
    ensures
        height_of(t) <= seq_of(t).len(),
    decreases t,
{
    match t {
        None => {
        },
        Some(n) => {
            lemma_height_le_count(n.left);
            lemma_height_le_count(n.right);
            assert(seq_of(t).len() == seq_of(n.left).len() + 1 + seq_of(n.right).len());
        },
    }
}

/// A strictly ascending sequence has no repeated entries, so its length is
/// the cardinality of the set of its entries.
pub proof fn lemma_sorted_len(s: Seq<u32>)
    requires
        sorted_strict(s),
    ensures
        s.no_duplicates(),
        s.to_set().len() == s.len(),
{
    assert forall|i: int, j: int|
        0 <= i < s.len() && 0 <= j < s.len() && i != j implies s[i] != s[j] by {
        if i < j {
            assert(s[i] < s[j]);
        } else {
            assert(s[j] < s[i]);
        }
    }
    s.unique_seq_to_set();
}

} // verus!
