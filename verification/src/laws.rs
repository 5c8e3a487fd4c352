//! The global laws of the tree, each proved from the model: every
//! well-formed tree satisfies the six structural invariants, enumerates its
//! keys in strictly ascending order, and keeps its height within the
//! red-black bound; insertion and deletion compose to a round trip and a
//! duplicate insert changes nothing.

use vstd::prelude::*;
use vstd::arithmetic::power2::{pow2, lemma_pow2_adds, lemma_pow2_strictly_increases,
    lemma_pow2_pos};

use crate::node::Color;
use crate::model::{Link, balanced, bh, bst, color_of, height_of, keys_of, seq_of, sorted_strict,
    no_red_red, lemma_bst_sorted, lemma_seq_keys, lemma_sorted_len};
use crate::rbtree::RBTree;

verus! {

broadcast use vstd::set::group_set_axioms, vstd::seq::group_seq_axioms;

/// A subtree free of Red-Red edges is at most twice as tall as its
/// black-height, plus one more level when its root is Red.
pub proof fn lemma_height_le_two_bh(t: Link)
    requires
        no_red_red(t),
        balanced(t),
    ensures
        height_of(t) <= 2 * bh(t) + (if color_of(t) == Color::Red { 1int } else { 0int }),
    decreases t,
{
    match t {
        None => {
        },
        Some(n) => {
            lemma_height_le_two_bh(n.left);
            lemma_height_le_two_bh(n.right);
        },
    }
}

/// A balanced subtree stores at least `pow2(bh) - 1` keys: every level up
/// to the black-height is fully occupied.
pub proof fn lemma_count_ge_pow2_bh(t: Link)
    requires
        balanced(t),
    ensures
        seq_of(t).len() + 1 >= pow2(bh(t)),
    decreases t,
{
    match t {
        None => {
            vstd::arithmetic::power2::lemma2_to64();
        },
        Some(n) => {
            lemma_count_ge_pow2_bh(n.left);
            lemma_count_ge_pow2_bh(n.right);
            assert(seq_of(t).len() == seq_of(n.left).len() + 1 + seq_of(n.right).len());
            if n.color == Color::Black {
                lemma_pow2_adds(bh(n.left), 1);
                vstd::arithmetic::power2::lemma2_to64();
                assert(pow2(bh(t)) == pow2(bh(n.left)) * 2);
            } else {
                assert(bh(t) == bh(n.left));
                lemma_pow2_pos(bh(n.left));
            }
        },
    }
}

/// Invariant preservation (the six invariants of a well-formed tree):
/// every node is Red or Black by construction; the root is Black; no Red
/// node has a Red child; the black-height is the same along every path;
/// the in-order sequence is strictly increasing with no duplicate keys;
/// and `size` counts exactly the keys reachable from the root.  The
/// constructors establish `well_formed` and `insert` and `delete` preserve
/// it, so this holds after every operation.
pub proof fn lemma_invariants_hold(tree: &RBTree)
    requires
        tree.well_formed(),
    ensures
        bst(tree.root),
        no_red_red(tree.root),
        balanced(tree.root),
        color_of(tree.root) == Color::Black,
        sorted_strict(tree.inorder()),
        tree.inorder().to_set() == tree@,
        tree.size == tree@.len(),
        tree.inorder().len() == tree@.len(),
{
    lemma_bst_sorted(tree.root);
    lemma_seq_keys(tree.root);
    lemma_sorted_len(seq_of(tree.root));
}

/// Order preservation: the enumeration of a well-formed tree is strictly
/// ascending and carries exactly the stored key set — the set that the
/// `insert` and `delete` contracts build up and tear down, key by key.
pub proof fn lemma_order_preservation(tree: &RBTree)
    requires
        tree.well_formed(),
    ensures
        sorted_strict(tree.inorder()),
        tree.inorder().to_set() == tree@,
{
    lemma_invariants_hold(tree);
}

/// Bounded height: with `n` stored keys the height `h` satisfies
/// `2^h <= (n + 1)^2`, i.e. `h <= 2 * log2(n + 1)`.
pub proof fn lemma_height_bound(tree: &RBTree)
    requires
        tree.well_formed(),
    ensures
        pow2(height_of(tree.root)) <= (tree@.len() + 1) * (tree@.len() + 1),
{
    let h = height_of(tree.root);
    let b = bh(tree.root);
    let n = tree@.len();
    lemma_height_le_two_bh(tree.root);
    assert(h <= 2 * b);
    lemma_count_ge_pow2_bh(tree.root);
    lemma_invariants_hold(tree);
    assert(seq_of(tree.root).len() == n);
    assert(pow2(b) <= n + 1);
    lemma_pow2_adds(b, b);
    assert(pow2(2 * b) == pow2(b) * pow2(b));
    if h < 2 * b {
        lemma_pow2_strictly_increases(h, 2 * b);
    }
    assert(pow2(h) <= pow2(b) * pow2(b));
    assert(pow2(b) * pow2(b) <= (n + 1) * (n + 1)) by (nonlinear_arith)
        requires
            pow2(b) <= n + 1,
            pow2(b) >= 0,
            n >= 0,
    ;
}

/// Round trip: inserting a fresh key and then deleting it restores the
/// original key set, which is what the `insert` and `delete` contracts
/// yield when chained (both also preserve `well_formed`, so the invariants
/// hold at every intermediate state).
pub proof fn lemma_insert_delete_round_trip(s: Set<u32>, key: u32)
    requires
        !s.contains(key),
    ensures
        s.insert(key).remove(key) == s,
{
    assert(s.insert(key).remove(key) =~= s);
}

/// Idempotent duplicate insert: on a stored key, `insert` promises
/// `*final(self) == *old(self)` — the tree value, hence its size and its
/// enumeration, are untouched.  At the level of the key set this reads:
pub proof fn lemma_duplicate_insert_noop(s: Set<u32>, key: u32)
    requires
        s.contains(key),
    ensures
        s.insert(key) == s,
{
    assert(s.insert(key) =~= s);
}

} // verus!
