//! The deletion engine: a binary-search descent to the doomed node, a
//! splice, and a fixup pass that resolves the "double-black" deficiency
//! left behind when a Black node is removed.  A subtree that lost a Black
//! node reports a black-height one lower; each ancestor either absorbs the
//! deficiency by recoloring a Red node Black or rebalances with at most a
//! double rotation.
//!
//! A deliberate design choice, stated here because it differs from the
//! textbook successor-copy: a node with two children is removed by joining
//! its two subtrees ([`join`]) in its place.  The in-order successor — the
//! minimum of the right subtree — still ends up where the deleted key
//! stood in the enumeration, but no key is copied between nodes and the
//! colored skeleton is rebalanced by the join itself.

use vstd::prelude::*;

use crate::node::{Color, TreeNode};
use crate::model::{Link, all_gt, all_lt, balanced, bh, bst, color_of, height_of, keys_of, near_red_red,
    no_red_red, lemma_all_gt_equiv, lemma_all_lt_equiv, lemma_invc_near, lemma_near_black_invc};
use crate::insertion::is_red;

verus! {

broadcast use vstd::set::group_set_axioms, vstd::seq::group_seq_axioms;

/// Recolor the root of a subtree Black; everything else is untouched.
pub(crate) fn paint_black(t: Link) -> (res: Link)
    ensures
        keys_of(res) == keys_of(t),
        bst(t) ==> bst(res),
        balanced(t) ==> balanced(res),
        near_red_red(t) ==> no_red_red(res),
        color_of(res) == Color::Black,
        bh(res) == bh(t) + (if color_of(t) == Color::Red { 1int } else { 0int }),
        res is Some <==> t is Some,
{
    match t {
        None => None,
        Some(n) => {
            let TreeNode { color: _, key, left, right } = *n;
            let res = Box::new(TreeNode { color: Color::Black, key, left, right });
            proof {
                assert(keys_of(Some(res)) =~= keys_of(t));
            }
            Some(res)
        },
    }
}

/// Rebalance a node whose right child `r` may carry Red-Red edges at its
/// root (for the delete fixup the sibling is repainted Red, which may put
/// it next to a Red child).  The result is a clean subtree, Red on top with
/// Black children after a rotation and Black on top otherwise.
fn bali_right(l: Link, key: u32, r: Box<TreeNode>) -> (res: Box<TreeNode>)
    requires
        no_red_red(l),
        near_red_red(Some(r)),
        balanced(l),
        balanced(Some(r)),
        bh(l) == bh(Some(r)),
        bst(l),
        bst(Some(r)),
        all_lt(l, key),
        all_gt(Some(r), key),
    ensures
        keys_of(Some(res)) == keys_of(l).insert(key).union(keys_of(Some(r))),
        bst(Some(res)),
        balanced(Some(res)),
        bh(Some(res)) == bh(l) + 1,
        no_red_red(Some(res)),
{
    let r_red = r.color == Color::Red;
    let far_red = is_red(&r.right);
    let near_red = is_red(&r.left);
    if r_red && far_red {
        // Red far grandchild: single rotation toward the short side.
        let TreeNode { color: _, key: rk, left: rl, right: rr } = *r;
        let rrn = rr.unwrap();
        let TreeNode { color: _, key: fk, left: f1, right: f2 } = *rrn;
        let fb = Box::new(TreeNode { color: Color::Black, key: fk, left: f1, right: f2 });
        let nl = Box::new(TreeNode { color: Color::Black, key, left: l, right: rl });
        let res = Box::new(
            TreeNode { color: Color::Red, key: rk, left: Some(nl), right: Some(fb) },
        );
        proof {
            assert(rr == Some(rrn));
            assert(keys_of(Some(fb)) =~= keys_of(rr));
            assert(keys_of(Some(nl)) =~= keys_of(l).insert(key).union(keys_of(rl)));
            assert(keys_of(Some(res)) =~= keys_of(l).insert(key).union(keys_of(Some(r))));
            assert(all_gt(rl, key) && rk > key && all_gt(rr, rk));
            assert(bst(rl) && bst(rr) && bst(Some(rrn)));
            assert(all_lt(f1, fk) && all_gt(f2, fk) && bst(f1) && bst(f2));
            assert(bst(Some(nl)) && bst(Some(fb)));
            lemma_all_lt_equiv(l, key);
            lemma_all_lt_equiv(Some(nl), rk);
            assert forall|k2: u32| keys_of(Some(nl)).contains(k2) implies k2 < rk by {
                lemma_all_lt_equiv(rl, rk);
                if keys_of(l).contains(k2) {
                    assert(k2 < key);
                }
            }
            assert(all_lt(Some(nl), rk));
            assert(all_gt(Some(fb), rk));
            assert(bst(Some(res)));
            assert(no_red_red(rr) && rrn.color == Color::Red);
            assert(color_of(f1) == Color::Black && color_of(f2) == Color::Black);
            assert(no_red_red(Some(fb)) && no_red_red(Some(nl)));
            assert(no_red_red(Some(res)));
            assert(bh(rl) == bh(rr) && bh(Some(r)) == bh(rl));
            assert(balanced(rl) && balanced(rr) && balanced(Some(rrn)));
            assert(bh(rr) == bh(f1) + 0);
            assert(bh(f1) == bh(f2) && balanced(f1) && balanced(f2));
            assert(bh(Some(nl)) == bh(l) + 1 && bh(Some(fb)) == bh(f1) + 1);
            assert(balanced(Some(nl)) && balanced(Some(fb)));
            assert(balanced(Some(res)) && bh(Some(res)) == bh(l) + 1);
        }
        res
    } else if r_red && near_red {
        // Red near grandchild only: double rotation around it.
        let TreeNode { color: _, key: rk, left: rl, right: rr } = *r;
        let rln = rl.unwrap();
        let TreeNode { color: _, key: mk, left: m1, right: m2 } = *rln;
        let nl = Box::new(TreeNode { color: Color::Black, key, left: l, right: m1 });
        let nr = Box::new(TreeNode { color: Color::Black, key: rk, left: m2, right: rr });
        let res = Box::new(
            TreeNode { color: Color::Red, key: mk, left: Some(nl), right: Some(nr) },
        );
        proof {
            assert(rl == Some(rln));
            assert(keys_of(rl) == keys_of(m1).insert(mk).union(keys_of(m2)));
            assert(keys_of(Some(nl)) =~= keys_of(l).insert(key).union(keys_of(m1)));
            assert(keys_of(Some(nr)) =~= keys_of(m2).insert(rk).union(keys_of(rr)));
            assert(keys_of(Some(res)) =~= keys_of(l).insert(key).union(keys_of(Some(r))));
            assert(bst(rl));
            assert(bst(Some(rln)));
            assert(bst(m1));
            assert(bst(m2));
            assert(all_gt(rl, key) && all_gt(Some(rln), key));
            assert(mk > key && all_gt(m1, key) && all_gt(m2, key));
            assert(all_lt(rl, rk) && all_lt(Some(rln), rk));
            assert(all_lt(m1, mk) && all_gt(m2, mk) && all_lt(m2, rk));
            assert(all_gt(rr, rk));
            assert(bst(Some(nl)) && bst(Some(nr)));
            lemma_all_lt_equiv(Some(nl), mk);
            assert forall|k2: u32| keys_of(Some(nl)).contains(k2) implies k2 < mk by {
                lemma_all_lt_equiv(l, key);
                lemma_all_lt_equiv(m1, mk);
                if keys_of(l).contains(k2) {
                    assert(k2 < key);
                }
            }
            assert(all_lt(Some(nl), mk));
            lemma_all_gt_equiv(Some(nr), mk);
            assert forall|k2: u32| keys_of(Some(nr)).contains(k2) implies k2 > mk by {
                lemma_all_gt_equiv(m2, mk);
                lemma_all_gt_equiv(rr, rk);
                if keys_of(rr).contains(k2) {
                    assert(k2 > rk);
                }
            }
            assert(all_gt(Some(nr), mk));
            assert(bst(Some(res)));
            assert(no_red_red(rl) && rln.color == Color::Red);
            assert(color_of(m1) == Color::Black && color_of(m2) == Color::Black);
            assert(color_of(rr) == Color::Black);
            assert(no_red_red(Some(nl)) && no_red_red(Some(nr)));
            assert(no_red_red(Some(res)));
            assert(bh(rl) == bh(rr) && bh(Some(r)) == bh(rl));
            assert(balanced(rl) && balanced(rr) && balanced(Some(rln)));
            assert(bh(rl) == bh(m1) + 0);
            assert(bh(m1) == bh(m2) && balanced(m1) && balanced(m2));
            assert(bh(Some(nl)) == bh(l) + 1 && bh(Some(nr)) == bh(m2) + 1);
            assert(balanced(Some(nl)) && balanced(Some(nr)));
            assert(balanced(Some(res)) && bh(Some(res)) == bh(l) + 1);
        }
        res
    } else {
        // No Red grandchild to rotate through: a Black parent absorbs.
        let res = Box::new(TreeNode { color: Color::Black, key, left: l, right: Some(r) });
        proof {
            assert(keys_of(Some(res)) =~= keys_of(l).insert(key).union(keys_of(Some(r))));
            assert(bst(Some(res)));
            if r.color == Color::Red {
                assert(color_of(r.left) == Color::Black && color_of(r.right) == Color::Black);
                assert(no_red_red(Some(r)));
            } else {
                lemma_near_black_invc(Some(r));
            }
            assert(no_red_red(Some(res)));
            assert(balanced(Some(res)) && bh(Some(res)) == bh(l) + 1);
        }
        res
    }
}

/// Mirror image of [`bali_right`]: the left child `l` may carry Red-Red
/// edges at its root.
fn bali_left(l: Box<TreeNode>, key: u32, r: Link) -> (res: Box<TreeNode>)
    requires
        no_red_red(r),
        near_red_red(Some(l)),
        balanced(r),
        balanced(Some(l)),
        bh(r) == bh(Some(l)),
        bst(r),
        bst(Some(l)),
        all_gt(r, key),
        all_lt(Some(l), key),
    ensures
        keys_of(Some(res)) == keys_of(Some(l)).insert(key).union(keys_of(r)),
        bst(Some(res)),
        balanced(Some(res)),
        bh(Some(res)) == bh(r) + 1,
        no_red_red(Some(res)),
{
    let l_red = l.color == Color::Red;
    let far_red = is_red(&l.left);
    let near_red = is_red(&l.right);
    if l_red && far_red {
        // Red far grandchild: single rotation toward the short side.
        let TreeNode { color: _, key: lk, left: ll, right: lr } = *l;
        let lln = ll.unwrap();
        let TreeNode { color: _, key: fk, left: f1, right: f2 } = *lln;
        let fb = Box::new(TreeNode { color: Color::Black, key: fk, left: f1, right: f2 });
        let nr = Box::new(TreeNode { color: Color::Black, key, left: lr, right: r });
        let res = Box::new(
            TreeNode { color: Color::Red, key: lk, left: Some(fb), right: Some(nr) },
        );
        proof {
            assert(ll == Some(lln));
            assert(keys_of(Some(fb)) =~= keys_of(ll));
            assert(keys_of(Some(nr)) =~= keys_of(lr).insert(key).union(keys_of(r)));
            assert(keys_of(Some(res)) =~= keys_of(Some(l)).insert(key).union(keys_of(r)));
            assert(all_lt(lr, key) && lk < key && all_lt(ll, lk));
            assert(bst(lr) && bst(ll) && bst(Some(lln)));
            assert(all_lt(f1, fk) && all_gt(f2, fk) && bst(f1) && bst(f2));
            assert(bst(Some(nr)) && bst(Some(fb)));
            lemma_all_gt_equiv(r, key);
            lemma_all_gt_equiv(Some(nr), lk);
            assert forall|k2: u32| keys_of(Some(nr)).contains(k2) implies k2 > lk by {
                lemma_all_gt_equiv(lr, lk);
                if keys_of(r).contains(k2) {
                    assert(k2 > key);
                }
            }
            assert(all_gt(Some(nr), lk));
            assert(all_lt(Some(fb), lk));
            assert(bst(Some(res)));
            assert(no_red_red(ll) && lln.color == Color::Red);
            assert(color_of(f1) == Color::Black && color_of(f2) == Color::Black);
            assert(no_red_red(Some(fb)) && no_red_red(Some(nr)));
            assert(no_red_red(Some(res)));
            assert(bh(ll) == bh(lr) && bh(Some(l)) == bh(ll));
            assert(balanced(ll) && balanced(lr) && balanced(Some(lln)));
            assert(bh(ll) == bh(f1) + 0);
            assert(bh(f1) == bh(f2) && balanced(f1) && balanced(f2));
            assert(bh(Some(nr)) == bh(r) + 1 && bh(Some(fb)) == bh(f1) + 1);
            assert(balanced(Some(nr)) && balanced(Some(fb)));
            assert(balanced(Some(res)) && bh(Some(res)) == bh(r) + 1);
        }
        res
    } else if l_red && near_red {
        // Red near grandchild only: double rotation around it.
        let TreeNode { color: _, key: lk, left: ll, right: lr } = *l;
        let lrn = lr.unwrap();
        let TreeNode { color: _, key: mk, left: m1, right: m2 } = *lrn;
        let nl = Box::new(TreeNode { color: Color::Black, key: lk, left: ll, right: m1 });
        let nr = Box::new(TreeNode { color: Color::Black, key, left: m2, right: r });
        let res = Box::new(
            TreeNode { color: Color::Red, key: mk, left: Some(nl), right: Some(nr) },
        );
        proof {
            assert(lr == Some(lrn));
            assert(keys_of(lr) == keys_of(m1).insert(mk).union(keys_of(m2)));
            assert(keys_of(Some(nl)) =~= keys_of(ll).insert(lk).union(keys_of(m1)));
            assert(keys_of(Some(nr)) =~= keys_of(m2).insert(key).union(keys_of(r)));
            assert(keys_of(Some(res)) =~= keys_of(Some(l)).insert(key).union(keys_of(r)));
            assert(bst(lr));
            assert(bst(Some(lrn)));
            assert(bst(m1));
            assert(bst(m2));
            assert(all_lt(lr, key) && all_lt(Some(lrn), key));
            assert(mk < key && all_lt(m1, key) && all_lt(m2, key));
            assert(all_gt(lr, lk) && all_gt(Some(lrn), lk));
            assert(all_lt(m1, mk) && all_gt(m1, lk) && all_gt(m2, mk));
            assert(all_lt(ll, lk));
            assert(bst(Some(nl)) && bst(Some(nr)));
            lemma_all_lt_equiv(Some(nl), mk);
            assert forall|k2: u32| keys_of(Some(nl)).contains(k2) implies k2 < mk by {
                lemma_all_lt_equiv(ll, lk);
                lemma_all_lt_equiv(m1, mk);
                if keys_of(ll).contains(k2) {
                    assert(k2 < lk);
                }
            }
            assert(all_lt(Some(nl), mk));
            lemma_all_gt_equiv(Some(nr), mk);
            assert forall|k2: u32| keys_of(Some(nr)).contains(k2) implies k2 > mk by {
                lemma_all_gt_equiv(m2, mk);
                lemma_all_gt_equiv(r, key);
                if keys_of(r).contains(k2) {
                    assert(k2 > key);
                }
            }
            assert(all_gt(Some(nr), mk));
            assert(bst(Some(res)));
            assert(no_red_red(lr) && lrn.color == Color::Red);
            assert(color_of(m1) == Color::Black && color_of(m2) == Color::Black);
            assert(color_of(ll) == Color::Black);
            assert(no_red_red(Some(nl)) && no_red_red(Some(nr)));
            assert(no_red_red(Some(res)));
            assert(bh(ll) == bh(lr) && bh(Some(l)) == bh(ll));
            assert(balanced(ll) && balanced(lr) && balanced(Some(lrn)));
            assert(bh(lr) == bh(m1) + 0);
            assert(bh(m1) == bh(m2) && balanced(m1) && balanced(m2));
            assert(bh(Some(nl)) == bh(ll) + 1 && bh(Some(nr)) == bh(m2) + 1);
            assert(balanced(Some(nl)) && balanced(Some(nr)));
            assert(balanced(Some(res)) && bh(Some(res)) == bh(r) + 1);
        }
        res
    } else {
        // No Red grandchild to rotate through: a Black parent absorbs.
        let res = Box::new(TreeNode { color: Color::Black, key, left: Some(l), right: r });
        proof {
            assert(keys_of(Some(res)) =~= keys_of(Some(l)).insert(key).union(keys_of(r)));
            assert(bst(Some(res)));
            if l.color == Color::Red {
                assert(color_of(l.left) == Color::Black && color_of(l.right) == Color::Black);
                assert(no_red_red(Some(l)));
            } else {
                lemma_near_black_invc(Some(l));
            }
            assert(no_red_red(Some(res)));
            assert(balanced(Some(res)) && bh(Some(res)) == bh(r) + 1);
        }
        res
    }
}

/// Rebuild a node whose left subtree `l` just lost a Black node and is one
/// Black short (`bh(l) + 1 == bh(r)`).  The result has black-height `bh(r)`,
/// i.e. the deficiency is either absorbed here or passed up by one less
/// Black on top.
fn bald_left(l: Link, key: u32, r: Link) -> (res: Box<TreeNode>)
    requires
        near_red_red(l),
        no_red_red(r),
        balanced(l),
        balanced(r),
        bh(l) + 1 == bh(r),
        bst(l),
        bst(r),
        all_lt(l, key),
        all_gt(r, key),
    ensures
        keys_of(Some(res)) == keys_of(l).insert(key).union(keys_of(r)),
        bst(Some(res)),
        balanced(Some(res)),
        bh(Some(res)) == bh(r),
        near_red_red(Some(res)),
        color_of(r) == Color::Black ==> no_red_red(Some(res)),
{
    if is_red(&l) {
        // A Red root on the short side absorbs the deficiency by turning
        // Black.
        let ln = l.unwrap();
        let TreeNode { color: _, key: lk, left: ll, right: lr } = *ln;
        let lb = Box::new(TreeNode { color: Color::Black, key: lk, left: ll, right: lr });
        let res = Box::new(TreeNode { color: Color::Red, key, left: Some(lb), right: r });
        proof {
            assert(l == Some(ln));
            assert(keys_of(Some(lb)) =~= keys_of(l));
            assert(keys_of(Some(res)) =~= keys_of(l).insert(key).union(keys_of(r)));
            assert(bst(Some(lb)) && all_lt(Some(lb), key));
            assert(bst(Some(res)));
            assert(no_red_red(Some(lb)));
            assert(near_red_red(Some(res)));
            if color_of(r) == Color::Black {
                assert(no_red_red(Some(res)));
            }
            assert(bh(Some(lb)) == bh(l) + 1);
            assert(balanced(Some(lb)));
            assert(balanced(Some(res)) && bh(Some(res)) == bh(r));
        }
        res
    } else if !is_red(&r) {
        // Black sibling: repaint it Red and rebalance; a Red grandchild is
        // rotated in, otherwise the deficiency moves up.
        proof {
            assert(bh(r) > 0);
            assert(r is Some);
            lemma_near_black_invc(l);
        }
        let rn = r.unwrap();
        let TreeNode { color: _, key: rk, left: rl, right: rr } = *rn;
        let reds = Box::new(TreeNode { color: Color::Red, key: rk, left: rl, right: rr });
        proof {
            assert(r == Some(rn));
            assert(keys_of(Some(reds)) =~= keys_of(r));
            assert(bst(Some(reds)) && all_gt(Some(reds), key));
            assert(near_red_red(Some(reds)));
            assert(bh(Some(reds)) == bh(rl) && bh(r) == bh(rl) + 1);
            assert(balanced(Some(reds)));
        }
        let res = bali_right(l, key, reds);
        proof {
            assert(keys_of(Some(res)) =~= keys_of(l).insert(key).union(keys_of(r)));
            lemma_invc_near(Some(res));
            assert(bh(Some(res)) == bh(r));
        }
        res
    } else {
        // Red sibling: rotate it up; its Black near child becomes the new
        // sibling and the inner rebalance resolves against it.
        let rn = r.unwrap();
        let TreeNode { color: _, key: rk, left: rl, right: rr } = *rn;
        proof {
            assert(r == Some(rn));
            assert(rn.color == Color::Red);
            assert(color_of(rl) == Color::Black && color_of(rr) == Color::Black);
            assert(bh(rl) == bh(r) && bh(rl) == bh(l) + 1);
            assert(bh(rl) > 0);
            assert(rl is Some);
            lemma_near_black_invc(l);
        }
        let rln = rl.unwrap();
        let TreeNode { color: _, key: ck, left: c1, right: c2 } = *rln;
        let reds = Box::new(TreeNode { color: Color::Red, key: ck, left: c1, right: c2 });
        proof {
            assert(rl == Some(rln));
            assert(rln.color == Color::Black);
            assert(keys_of(Some(reds)) =~= keys_of(rl));
            assert(bst(rl) && bst(Some(rln)));
            assert(all_gt(rl, key) && all_gt(Some(rln), key));
            assert(bst(Some(reds)) && all_gt(Some(reds), key));
            assert(no_red_red(rl) && no_red_red(Some(rln)));
            assert(near_red_red(Some(reds)));
            assert(balanced(rl) && balanced(Some(rln)));
            assert(bh(Some(reds)) == bh(c1) && bh(rl) == bh(c1) + 1);
            assert(balanced(Some(reds)));
        }
        let inner = bali_right(l, key, reds);
        let res = Box::new(TreeNode { color: Color::Red, key: rk, left: Some(inner), right: rr });
        proof {
            assert(keys_of(Some(inner)) =~= keys_of(l).insert(key).union(keys_of(rl)));
            assert(keys_of(Some(res)) =~= keys_of(l).insert(key).union(keys_of(r)));
            lemma_all_lt_equiv(Some(inner), rk);
            assert forall|k2: u32| keys_of(Some(inner)).contains(k2) implies k2 < rk by {
                lemma_all_lt_equiv(l, key);
                lemma_all_lt_equiv(rl, rk);
                assert(all_lt(rl, rk));
                if keys_of(l).contains(k2) {
                    assert(k2 < key && key < rk);
                }
            }
            assert(all_lt(Some(inner), rk));
            assert(all_gt(rr, rk));
            assert(bst(Some(res)));
            assert(no_red_red(rr));
            assert(near_red_red(Some(res)));
            assert(bh(Some(inner)) == bh(l) + 1 && bh(rr) == bh(rl));
            assert(balanced(Some(res)) && bh(Some(res)) == bh(r));
        }
        res
    }
}

/// Mirror image of [`bald_left`]: the right subtree `r` is one Black short.
fn bald_right(l: Link, key: u32, r: Link) -> (res: Box<TreeNode>)
    requires
        near_red_red(r),
        no_red_red(l),
        balanced(l),
        balanced(r),
        bh(r) + 1 == bh(l),
        bst(l),
        bst(r),
        all_lt(l, key),
        all_gt(r, key),
    ensures
        keys_of(Some(res)) == keys_of(l).insert(key).union(keys_of(r)),
        bst(Some(res)),
        balanced(Some(res)),
        bh(Some(res)) == bh(l),
        near_red_red(Some(res)),
        color_of(l) == Color::Black ==> no_red_red(Some(res)),
{
    if is_red(&r) {
        // A Red root on the short side absorbs the deficiency by turning
        // Black.
        let rn = r.unwrap();
        let TreeNode { color: _, key: rk, left: rl, right: rr } = *rn;
        let rb = Box::new(TreeNode { color: Color::Black, key: rk, left: rl, right: rr });
        let res = Box::new(TreeNode { color: Color::Red, key, left: l, right: Some(rb) });
        proof {
            assert(r == Some(rn));
            assert(keys_of(Some(rb)) =~= keys_of(r));
            assert(keys_of(Some(res)) =~= keys_of(l).insert(key).union(keys_of(r)));
            assert(bst(Some(rb)) && all_gt(Some(rb), key));
            assert(bst(Some(res)));
            assert(no_red_red(Some(rb)));
            assert(near_red_red(Some(res)));
            if color_of(l) == Color::Black {
                assert(no_red_red(Some(res)));
            }
            assert(bh(Some(rb)) == bh(r) + 1);
            assert(balanced(Some(rb)));
            assert(balanced(Some(res)) && bh(Some(res)) == bh(l));
        }
        res
    } else if !is_red(&l) {
        // Black sibling: repaint it Red and rebalance; a Red grandchild is
        // rotated in, otherwise the deficiency moves up.
        proof {
            assert(bh(l) > 0);
            assert(l is Some);
            lemma_near_black_invc(r);
        }
        let ln = l.unwrap();
        let TreeNode { color: _, key: lk, left: ll, right: lr } = *ln;
        let reds = Box::new(TreeNode { color: Color::Red, key: lk, left: ll, right: lr });
        proof {
            assert(l == Some(ln));
            assert(keys_of(Some(reds)) =~= keys_of(l));
            assert(bst(Some(reds)) && all_lt(Some(reds), key));
            assert(near_red_red(Some(reds)));
            assert(bh(Some(reds)) == bh(ll) && bh(l) == bh(ll) + 1);
            assert(balanced(Some(reds)));
        }
        let res = bali_left(reds, key, r);
        proof {
            assert(keys_of(Some(res)) =~= keys_of(l).insert(key).union(keys_of(r)));
            lemma_invc_near(Some(res));
            assert(bh(Some(res)) == bh(l));
        }
        res
    } else {
        // Red sibling: rotate it up; its Black near child becomes the new
        // sibling and the inner rebalance resolves against it.
        let ln = l.unwrap();
        let TreeNode { color: _, key: lk, left: ll, right: lr } = *ln;
        proof {
            assert(l == Some(ln));
            assert(ln.color == Color::Red);
            assert(color_of(ll) == Color::Black && color_of(lr) == Color::Black);
            assert(bh(lr) == bh(l) && bh(lr) == bh(r) + 1);
            assert(bh(lr) > 0);
            assert(lr is Some);
            lemma_near_black_invc(r);
        }
        let lrn = lr.unwrap();
        let TreeNode { color: _, key: ck, left: c1, right: c2 } = *lrn;
        let reds = Box::new(TreeNode { color: Color::Red, key: ck, left: c1, right: c2 });
        proof {
            assert(lr == Some(lrn));
            assert(lrn.color == Color::Black);
            assert(keys_of(Some(reds)) =~= keys_of(lr));
            assert(bst(lr) && bst(Some(lrn)));
            assert(all_lt(lr, key) && all_lt(Some(lrn), key));
            assert(bst(Some(reds)) && all_lt(Some(reds), key));
            assert(no_red_red(lr) && no_red_red(Some(lrn)));
            assert(near_red_red(Some(reds)));
            assert(balanced(lr) && balanced(Some(lrn)));
            assert(bh(Some(reds)) == bh(c1) && bh(lr) == bh(c1) + 1);
            assert(balanced(Some(reds)));
        }
        let inner = bali_left(reds, key, r);
        let res = Box::new(TreeNode { color: Color::Red, key: lk, left: ll, right: Some(inner) });
        proof {
            assert(keys_of(Some(inner)) =~= keys_of(lr).insert(key).union(keys_of(r)));
            assert(keys_of(Some(res)) =~= keys_of(l).insert(key).union(keys_of(r)));
            lemma_all_gt_equiv(Some(inner), lk);
            assert forall|k2: u32| keys_of(Some(inner)).contains(k2) implies k2 > lk by {
                lemma_all_gt_equiv(r, key);
                lemma_all_gt_equiv(lr, lk);
                assert(all_gt(lr, lk));
                if keys_of(r).contains(k2) {
                    assert(k2 > key && key > lk);
                }
            }
            assert(all_gt(Some(inner), lk));
            assert(all_lt(ll, lk));
            assert(bst(Some(res)));
            assert(no_red_red(ll));
            assert(near_red_red(Some(res)));
            assert(bh(Some(inner)) == bh(r) + 1 && bh(ll) == bh(lr));
            assert(balanced(Some(res)) && bh(Some(res)) == bh(l));
        }
        res
    }
}

/// Concatenate two subtrees of equal black-height, every key on the left
/// below every key on the right.  This is the splice that removes a node
/// with two children: the doomed node's subtrees are joined in its place.
#[verifier::rlimit(100)]
fn join(l: Link, r: Link) -> (res: Link)
    requires
        no_red_red(l),
        no_red_red(r),
        balanced(l),
        balanced(r),
        bh(l) == bh(r),
        bst(l),
        bst(r),
        forall|x: u32, y: u32| keys_of(l).contains(x) && keys_of(r).contains(y) ==> x < y,
    ensures
        keys_of(res) == keys_of(l).union(keys_of(r)),
        bst(res),
        balanced(res),
        bh(res) == bh(l),
        near_red_red(res),
        color_of(l) == Color::Black && color_of(r) == Color::Black ==> no_red_red(res),
    decreases height_of(l) + height_of(r),
{
    match l {
        None => {
            proof {
                assert(keys_of(r) =~= keys_of(l).union(keys_of(r)));
                lemma_invc_near(r);
            }
            r
        },
        Some(ln) => {
            match r {
                None => {
                    proof {
                        assert(keys_of(Some(ln)) =~= keys_of(Some(ln)).union(keys_of(r)));
                        lemma_invc_near(Some(ln));
                    }
                    Some(ln)
                },
                Some(rn) => {
                    let l_red = ln.color == Color::Red;
                    let r_red = rn.color == Color::Red;
                    if l_red && r_red {
                        let TreeNode { color: _, key: ka, left: t1, right: t2 } = *ln;
                        let TreeNode { color: _, key: kc, left: t3, right: t4 } = *rn;
                        proof {
                            assert(l == Some(ln) && r == Some(rn));
                            assert(keys_of(l).contains(ka) && keys_of(r).contains(kc));
                            assert forall|x: u32, y: u32|
                                keys_of(t2).contains(x) && keys_of(t3).contains(y) implies x
                                < y by {
                                assert(keys_of(l).contains(x) && keys_of(r).contains(y));
                            }
                            assert(color_of(t1) == Color::Black && color_of(t2) == Color::Black);
                            assert(color_of(t3) == Color::Black && color_of(t4) == Color::Black);
                            assert(bh(t2) == bh(t1) && bh(l) == bh(t1));
                            assert(bh(t3) == bh(t4) && bh(r) == bh(t3));
                            assert(height_of(t2) < height_of(l) && height_of(t3) < height_of(r));
                        }
                        let j = join(t2, t3);
                        if is_red(&j) {
                            let jn = j.unwrap();
                            let TreeNode { color: _, key: kb, left: u2, right: u3 } = *jn;
                            let nl = Box::new(
                                TreeNode { color: Color::Red, key: ka, left: t1, right: u2 },
                            );
                            let nr = Box::new(
                                TreeNode { color: Color::Red, key: kc, left: u3, right: t4 },
                            );
                            let res = Some(
                                Box::new(
                                    TreeNode {
                                        color: Color::Red,
                                        key: kb,
                                        left: Some(nl),
                                        right: Some(nr),
                                    },
                                ),
                            );
                            proof {
                                assert(j == Some(jn));
                                assert(keys_of(j) == keys_of(u2).insert(kb).union(keys_of(u3)));
                                assert(keys_of(Some(nl)) =~= keys_of(t1).insert(ka).union(
                                    keys_of(u2),
                                ));
                                assert(keys_of(Some(nr)) =~= keys_of(u3).insert(kc).union(
                                    keys_of(t4),
                                ));
                                assert(keys_of(l) == keys_of(t1).insert(ka).union(keys_of(t2)));
                                assert(keys_of(r) == keys_of(t3).insert(kc).union(keys_of(t4)));
                                assert(keys_of(j) =~= keys_of(t2).union(keys_of(t3)));
                                assert forall|k2: u32|
                                    keys_of(res).contains(k2) == keys_of(l).union(
                                        keys_of(r),
                                    ).contains(k2) by {
                                    assert(keys_of(res).contains(k2) == (keys_of(
                                        Some(nl),
                                    ).contains(k2) || k2 == kb || keys_of(Some(nr)).contains(k2)));
                                    assert(keys_of(j).contains(k2) == (keys_of(u2).contains(k2)
                                        || k2 == kb || keys_of(u3).contains(k2)));
                                    assert(keys_of(j).contains(k2) == (keys_of(t2).contains(k2)
                                        || keys_of(t3).contains(k2)));
                                }
                                assert(keys_of(res) =~= keys_of(l).union(keys_of(r)));
                                assert(bst(j) && bst(Some(jn)) && bst(u2) && bst(u3));
                                assert(all_lt(u2, kb) && all_gt(u3, kb));
                                assert(keys_of(j).contains(kb));
                                lemma_all_gt_equiv(u2, ka);
                                assert forall|k2: u32|
                                    keys_of(u2).contains(k2) implies k2 > ka by {
                                    assert(keys_of(j).contains(k2));
                                    lemma_all_gt_equiv(t2, ka);
                                    if keys_of(t2).contains(k2) {
                                    } else {
                                        assert(keys_of(t3).contains(k2));
                                        assert(keys_of(r).contains(k2));
                                        assert(keys_of(l).contains(ka));
                                    }
                                }
                                assert(all_gt(u2, ka));
                                lemma_all_lt_equiv(u3, kc);
                                assert forall|k2: u32|
                                    keys_of(u3).contains(k2) implies k2 < kc by {
                                    assert(keys_of(j).contains(k2));
                                    lemma_all_lt_equiv(t3, kc);
                                    if keys_of(t3).contains(k2) {
                                    } else {
                                        assert(keys_of(t2).contains(k2));
                                        assert(keys_of(l).contains(k2));
                                        assert(keys_of(r).contains(kc));
                                    }
                                }
                                assert(all_lt(u3, kc));
                                assert(bst(Some(nl)) && bst(Some(nr)));
                                assert(ka < kb || keys_of(t3).contains(kb)) by {
                                    if keys_of(t2).contains(kb) {
                                        lemma_all_gt_equiv(t2, ka);
                                    }
                                }
                                assert(ka < kb && kb < kc) by {
                                    lemma_all_gt_equiv(t2, ka);
                                    lemma_all_lt_equiv(t3, kc);
                                    if keys_of(t2).contains(kb) {
                                        assert(keys_of(l).contains(kb));
                                        assert(keys_of(l).contains(ka));
                                        assert(keys_of(r).contains(kc));
                                    } else {
                                        assert(keys_of(t3).contains(kb));
                                        assert(keys_of(r).contains(kb));
                                        assert(keys_of(l).contains(ka));
                                    }
                                }
                                lemma_all_lt_equiv(Some(nl), kb);
                                assert forall|k2: u32|
                                    keys_of(Some(nl)).contains(k2) implies k2 < kb by {
                                    lemma_all_lt_equiv(t1, ka);
                                    lemma_all_lt_equiv(u2, kb);
                                    if keys_of(t1).contains(k2) {
                                        assert(k2 < ka);
                                    } else if keys_of(u2).contains(k2) {
                                        assert(k2 < kb);
                                    }
                                }
                                assert(all_lt(Some(nl), kb));
                                lemma_all_gt_equiv(Some(nr), kb);
                                assert forall|k2: u32|
                                    keys_of(Some(nr)).contains(k2) implies k2 > kb by {
                                    lemma_all_gt_equiv(t4, kc);
                                    lemma_all_gt_equiv(u3, kb);
                                    if keys_of(t4).contains(k2) {
                                        assert(k2 > kc);
                                    } else if keys_of(u3).contains(k2) {
                                        assert(k2 > kb);
                                    }
                                }
                                assert(all_gt(Some(nr), kb));
                                assert(bst(res));
                                assert(no_red_red(j));
                                assert(jn.color == Color::Red);
                                assert(color_of(u2) == Color::Black && color_of(u3)
                                    == Color::Black);
                                assert(no_red_red(Some(nl)) && no_red_red(Some(nr)));
                                assert(near_red_red(res));
                                assert(bh(j) == bh(u2) + 0 && bh(u2) == bh(u3));
                                assert(balanced(u2) && balanced(u3));
                                assert(bh(Some(nl)) == bh(t1) && bh(Some(nr)) == bh(u3));
                                assert(balanced(Some(nl)) && balanced(Some(nr)));
                                assert(balanced(res) && bh(res) == bh(l));
                            }
                            res
                        } else {
                            let inner = Box::new(
                                TreeNode { color: Color::Red, key: kc, left: j, right: t4 },
                            );
                            let res = Some(
                                Box::new(
                                    TreeNode {
                                        color: Color::Red,
                                        key: ka,
                                        left: t1,
                                        right: Some(inner),
                                    },
                                ),
                            );
                            proof {
                                assert(keys_of(Some(inner)) =~= keys_of(j).insert(kc).union(
                                    keys_of(t4),
                                ));
                                assert(keys_of(res) =~= keys_of(l).union(keys_of(r)));
                                lemma_all_lt_equiv(j, kc);
                                assert forall|k2: u32|
                                    keys_of(j).contains(k2) implies k2 < kc by {
                                    lemma_all_lt_equiv(t3, kc);
                                    if keys_of(t2).contains(k2) {
                                        assert(keys_of(r).contains(kc));
                                        assert(keys_of(l).contains(k2));
                                    }
                                }
                                assert(all_lt(j, kc));
                                assert(bst(Some(inner)));
                                lemma_all_gt_equiv(Some(inner), ka);
                                assert forall|k2: u32|
                                    keys_of(Some(inner)).contains(k2) implies k2 > ka by {
                                    lemma_all_gt_equiv(t2, ka);
                                    lemma_all_gt_equiv(t4, kc);
                                    assert(keys_of(l).contains(ka));
                                    if keys_of(j).contains(k2) {
                                        if keys_of(t3).contains(k2) {
                                            assert(keys_of(r).contains(k2));
                                        } else {
                                            assert(keys_of(t2).contains(k2));
                                        }
                                    } else if k2 == kc {
                                        assert(keys_of(r).contains(kc));
                                    } else {
                                        assert(keys_of(t4).contains(k2));
                                        assert(keys_of(r).contains(k2));
                                    }
                                }
                                assert(all_gt(Some(inner), ka));
                                assert(bst(res));
                                assert(color_of(j) == Color::Black);
                                assert(no_red_red(Some(inner)));
                                assert(near_red_red(res));
                                assert(bh(Some(inner)) == bh(j) && bh(j) == bh(t4));
                                assert(balanced(Some(inner)));
                                assert(balanced(res) && bh(res) == bh(l));
                            }
                            res
                        }
                    } else if !l_red && !r_red {
                        let TreeNode { color: _, key: ka, left: t1, right: t2 } = *ln;
                        let TreeNode { color: _, key: kc, left: t3, right: t4 } = *rn;
                        proof {
                            assert(l == Some(ln) && r == Some(rn));
                            assert(keys_of(l).contains(ka) && keys_of(r).contains(kc));
                            assert forall|x: u32, y: u32|
                                keys_of(t2).contains(x) && keys_of(t3).contains(y) implies x
                                < y by {
                                assert(keys_of(l).contains(x) && keys_of(r).contains(y));
                            }
                            assert(bh(t2) == bh(t1) && bh(l) == bh(t1) + 1);
                            assert(bh(t3) == bh(t4) && bh(r) == bh(t3) + 1);
                            assert(height_of(t2) < height_of(l) && height_of(t3) < height_of(r));
                        }
                        let j = join(t2, t3);
                        if is_red(&j) {
                            let jn = j.unwrap();
                            let TreeNode { color: _, key: kb, left: u2, right: u3 } = *jn;
                            let nl = Box::new(
                                TreeNode { color: Color::Black, key: ka, left: t1, right: u2 },
                            );
                            let nr = Box::new(
                                TreeNode { color: Color::Black, key: kc, left: u3, right: t4 },
                            );
                            let res = Some(
                                Box::new(
                                    TreeNode {
                                        color: Color::Red,
                                        key: kb,
                                        left: Some(nl),
                                        right: Some(nr),
                                    },
                                ),
                            );
                            proof {
                                assert(j == Some(jn));
                                assert(keys_of(j) == keys_of(u2).insert(kb).union(keys_of(u3)));
                                assert(keys_of(Some(nl)) =~= keys_of(t1).insert(ka).union(
                                    keys_of(u2),
                                ));
                                assert(keys_of(Some(nr)) =~= keys_of(u3).insert(kc).union(
                                    keys_of(t4),
                                ));
                                assert(keys_of(l) == keys_of(t1).insert(ka).union(keys_of(t2)));
                                assert(keys_of(r) == keys_of(t3).insert(kc).union(keys_of(t4)));
                                assert(keys_of(j) =~= keys_of(t2).union(keys_of(t3)));
                                assert(keys_of(l) == keys_of(t1).insert(ka).union(keys_of(t2)));
                                assert(keys_of(r) == keys_of(t3).insert(kc).union(keys_of(t4)));
                                assert(keys_of(j) =~= keys_of(t2).union(keys_of(t3)));
                                assert forall|k2: u32|
                                    keys_of(res).contains(k2) == keys_of(l).union(
                                        keys_of(r),
                                    ).contains(k2) by {
                                    assert(keys_of(res).contains(k2) == (keys_of(
                                        Some(nl),
                                    ).contains(k2) || k2 == kb || keys_of(Some(nr)).contains(k2)));
                                    assert(keys_of(j).contains(k2) == (keys_of(u2).contains(k2)
                                        || k2 == kb || keys_of(u3).contains(k2)));
                                    assert(keys_of(j).contains(k2) == (keys_of(t2).contains(k2)
                                        || keys_of(t3).contains(k2)));
                                }
                                assert(keys_of(res) =~= keys_of(l).union(keys_of(r)));
                                assert(bst(j) && bst(Some(jn)) && bst(u2) && bst(u3));
                                assert(all_lt(u2, kb) && all_gt(u3, kb));
                                assert(keys_of(j).contains(kb));
                                lemma_all_gt_equiv(u2, ka);
                                assert forall|k2: u32|
                                    keys_of(u2).contains(k2) implies k2 > ka by {
                                    assert(keys_of(j).contains(k2));
                                    lemma_all_gt_equiv(t2, ka);
                                    if keys_of(t2).contains(k2) {
                                    } else {
                                        assert(keys_of(t3).contains(k2));
                                        assert(keys_of(r).contains(k2));
                                        assert(keys_of(l).contains(ka));
                                    }
                                }
                                assert(all_gt(u2, ka));
                                lemma_all_lt_equiv(u3, kc);
                                assert forall|k2: u32|
                                    keys_of(u3).contains(k2) implies k2 < kc by {
                                    assert(keys_of(j).contains(k2));
                                    lemma_all_lt_equiv(t3, kc);
                                    if keys_of(t3).contains(k2) {
                                    } else {
                                        assert(keys_of(t2).contains(k2));
                                        assert(keys_of(l).contains(k2));
                                        assert(keys_of(r).contains(kc));
                                    }
                                }
                                assert(all_lt(u3, kc));
                                assert(bst(Some(nl)) && bst(Some(nr)));
                                assert(ka < kb && kb < kc) by {
                                    lemma_all_gt_equiv(t2, ka);
                                    lemma_all_lt_equiv(t3, kc);
                                    if keys_of(t2).contains(kb) {
                                        assert(keys_of(l).contains(kb));
                                        assert(keys_of(l).contains(ka));
                                        assert(keys_of(r).contains(kc));
                                    } else {
                                        assert(keys_of(t3).contains(kb));
                                        assert(keys_of(r).contains(kb));
                                        assert(keys_of(l).contains(ka));
                                    }
                                }
                                lemma_all_lt_equiv(Some(nl), kb);
                                assert forall|k2: u32|
                                    keys_of(Some(nl)).contains(k2) implies k2 < kb by {
                                    lemma_all_lt_equiv(t1, ka);
                                    lemma_all_lt_equiv(u2, kb);
                                    if keys_of(t1).contains(k2) {
                                        assert(k2 < ka);
                                    } else if keys_of(u2).contains(k2) {
                                        assert(k2 < kb);
                                    }
                                }
                                assert(all_lt(Some(nl), kb));
                                lemma_all_gt_equiv(Some(nr), kb);
                                assert forall|k2: u32|
                                    keys_of(Some(nr)).contains(k2) implies k2 > kb by {
                                    lemma_all_gt_equiv(t4, kc);
                                    lemma_all_gt_equiv(u3, kb);
                                    if keys_of(t4).contains(k2) {
                                        assert(k2 > kc);
                                    } else if keys_of(u3).contains(k2) {
                                        assert(k2 > kb);
                                    }
                                }
                                assert(all_gt(Some(nr), kb));
                                assert(bst(res));
                                assert(near_red_red(j));
                                assert(no_red_red(u2) && no_red_red(u3));
                                assert(no_red_red(Some(nl)) && no_red_red(Some(nr)));
                                assert(no_red_red(res));
                                assert(near_red_red(res));
                                assert(jn.color == Color::Red);
                                assert(bh(j) == bh(u2) + 0 && bh(u2) == bh(u3));
                                assert(balanced(u2) && balanced(u3));
                                assert(bh(Some(nl)) == bh(t1) + 1 && bh(Some(nr)) == bh(u3) + 1);
                                assert(balanced(Some(nl)) && balanced(Some(nr)));
                                assert(balanced(res) && bh(res) == bh(l));
                            }
                            res
                        } else {
                            proof {
                                lemma_near_black_invc(j);
                            }
                            let nb = Box::new(
                                TreeNode { color: Color::Black, key: kc, left: j, right: t4 },
                            );
                            proof {
                                assert(keys_of(Some(nb)) =~= keys_of(j).insert(kc).union(
                                    keys_of(t4),
                                ));
                                lemma_all_lt_equiv(j, kc);
                                assert forall|k2: u32|
                                    keys_of(j).contains(k2) implies k2 < kc by {
                                    lemma_all_lt_equiv(t3, kc);
                                    if keys_of(t2).contains(k2) {
                                        assert(keys_of(r).contains(kc));
                                        assert(keys_of(l).contains(k2));
                                    }
                                }
                                assert(all_lt(j, kc));
                                assert(bst(Some(nb)));
                                assert(no_red_red(Some(nb)));
                                assert(bh(Some(nb)) == bh(j) + 1 && bh(j) == bh(t4));
                                assert(balanced(Some(nb)));
                                // separator facts for the deficiency fixup
                                lemma_invc_near(t1);
                                lemma_all_gt_equiv(Some(nb), ka);
                                assert forall|k2: u32|
                                    keys_of(Some(nb)).contains(k2) implies k2 > ka by {
                                    lemma_all_gt_equiv(t2, ka);
                                    assert(keys_of(l).contains(ka));
                                    if keys_of(j).contains(k2) {
                                        if keys_of(t2).contains(k2) {
                                        } else {
                                            assert(keys_of(t3).contains(k2));
                                            assert(keys_of(r).contains(k2));
                                        }
                                    } else if k2 == kc {
                                        assert(keys_of(r).contains(kc));
                                    } else {
                                        assert(keys_of(t4).contains(k2));
                                        assert(keys_of(r).contains(k2));
                                    }
                                }
                                assert(all_gt(Some(nb), ka));
                            }
                            let fixed = bald_left(t1, ka, Some(nb));
                            let res = Some(fixed);
                            proof {
                                assert(keys_of(res) =~= keys_of(l).union(keys_of(r)));
                                lemma_invc_near(res);
                                assert(bh(res) == bh(Some(nb)) && bh(res) == bh(l));
                            }
                            res
                        }
                    } else if r_red {
                        // Black-rooted left, Red right: peel the Red root off.
                        let TreeNode { color: _, key: kc, left: t3, right: t4 } = *rn;
                        proof {
                            assert(r == Some(rn));
                            assert(keys_of(r).contains(kc));
                            assert(color_of(t3) == Color::Black && color_of(t4) == Color::Black);
                            assert(bh(t3) == bh(t4) && bh(r) == bh(t3));
                            assert(height_of(t3) < height_of(r));
                            assert forall|x: u32, y: u32|
                                keys_of(Some(ln)).contains(x) && keys_of(t3).contains(y) implies x
                                < y by {
                                assert(keys_of(r).contains(y));
                            }
                        }
                        let j = join(Some(ln), t3);
                        let res = Some(
                            Box::new(TreeNode { color: Color::Red, key: kc, left: j, right: t4 }),
                        );
                        proof {
                            assert(keys_of(res) =~= keys_of(l).union(keys_of(r)));
                            lemma_all_lt_equiv(j, kc);
                            assert forall|k2: u32| keys_of(j).contains(k2) implies k2 < kc by {
                                lemma_all_lt_equiv(t3, kc);
                                if keys_of(Some(ln)).contains(k2) {
                                    assert(keys_of(r).contains(kc));
                                }
                            }
                            assert(all_lt(j, kc));
                            assert(all_gt(t4, kc));
                            assert(bst(res));
                            assert(no_red_red(j) && no_red_red(t4));
                            assert(near_red_red(res));
                            assert(bh(j) == bh(l) && bh(j) == bh(t4));
                            assert(balanced(res) && bh(res) == bh(l));
                        }
                        res
                    } else {
                        // Red-rooted left, Black right: peel the Red root off.
                        let TreeNode { color: _, key: ka, left: t1, right: t2 } = *ln;
                        proof {
                            assert(l == Some(ln));
                            assert(keys_of(l).contains(ka));
                            assert(color_of(t1) == Color::Black && color_of(t2) == Color::Black);
                            assert(bh(t1) == bh(t2) && bh(l) == bh(t1));
                            assert(height_of(t2) < height_of(l));
                            assert forall|x: u32, y: u32|
                                keys_of(t2).contains(x) && keys_of(Some(rn)).contains(y) implies x
                                < y by {
                                assert(keys_of(l).contains(x));
                            }
                        }
                        let j = join(t2, Some(rn));
                        let res = Some(
                            Box::new(TreeNode { color: Color::Red, key: ka, left: t1, right: j }),
                        );
                        proof {
                            assert(keys_of(res) =~= keys_of(l).union(keys_of(r)));
                            lemma_all_gt_equiv(j, ka);
                            assert forall|k2: u32| keys_of(j).contains(k2) implies k2 > ka by {
                                lemma_all_gt_equiv(t2, ka);
                                if keys_of(Some(rn)).contains(k2) {
                                    assert(keys_of(l).contains(ka));
                                }
                            }
                            assert(all_gt(j, ka));
                            assert(all_lt(t1, ka));
                            assert(bst(res));
                            assert(no_red_red(j) && no_red_red(t1));
                            assert(near_red_red(res));
                            assert(bh(j) == bh(t2) && bh(t1) == bh(j));
                            assert(balanced(res) && bh(res) == bh(l));
                        }
                        res
                    }
                },
            }
        },
    }
}

/// Binary-search descent to the node holding `key`, splice it out, and
/// repair the Black deficiency on the way back up.  A Red subtree root
/// keeps its black-height; a Black one reports a height one lower, which
/// the caller (or the final repaint of the root) settles.
pub(crate) fn del(n: Box<TreeNode>, key: u32) -> (res: Link)
    requires
        bst(Some(n)),
        no_red_red(Some(n)),
        balanced(Some(n)),
        keys_of(Some(n)).contains(key),
    ensures
        keys_of(res) == keys_of(Some(n)).remove(key),
        bst(res),
        balanced(res),
        near_red_red(res),
        n.color == Color::Red ==> bh(res) == bh(Some(n)) && no_red_red(res),
        n.color == Color::Black ==> bh(res) + 1 == bh(Some(n)),
    decreases n,
{
    let TreeNode { color, key: a, left, right } = *n;
    if key < a {
        proof {
            lemma_all_gt_equiv(right, a);
            assert(!keys_of(right).contains(key));
            assert(keys_of(left).contains(key));
            assert(left is Some);
        }
        let child_red = is_red(&left);
        let ln2 = left.unwrap();
        let l2 = del(ln2, key);
        proof {
            assert(left == Some(ln2));
            lemma_all_lt_equiv(left, a);
            lemma_all_lt_equiv(l2, a);
            assert forall|k2: u32| keys_of(l2).contains(k2) implies k2 < a by {
                assert(keys_of(left).contains(k2));
            }
            assert(all_lt(l2, a));
        }
        if child_red {
            proof {
                assert(color == Color::Black);
            }
            let res = Some(Box::new(TreeNode { color: Color::Red, key: a, left: l2, right }));
            proof {
                assert(keys_of(res) =~= keys_of(Some(n)).remove(key));
                assert(bst(res));
                assert(no_red_red(l2) && no_red_red(right));
                assert(near_red_red(res));
                assert(bh(l2) == bh(left));
                assert(balanced(res) && bh(res) + 1 == bh(Some(n)));
            }
            res
        } else {
            let fixed = bald_left(l2, a, right);
            let res = Some(fixed);
            proof {
                assert(keys_of(res) =~= keys_of(Some(n)).remove(key));
                assert(bh(l2) + 1 == bh(left) && bh(left) == bh(right));
                if color == Color::Red {
                    assert(color_of(right) == Color::Black);
                    assert(no_red_red(res));
                    assert(bh(res) == bh(Some(n)));
                } else {
                    assert(bh(res) + 1 == bh(Some(n)));
                }
            }
            res
        }
    } else if key > a {
        proof {
            lemma_all_lt_equiv(left, a);
            assert(!keys_of(left).contains(key));
            assert(keys_of(right).contains(key));
            assert(right is Some);
        }
        let child_red = is_red(&right);
        let rn2 = right.unwrap();
        let r2 = del(rn2, key);
        proof {
            assert(right == Some(rn2));
            lemma_all_gt_equiv(right, a);
            lemma_all_gt_equiv(r2, a);
            assert forall|k2: u32| keys_of(r2).contains(k2) implies k2 > a by {
                assert(keys_of(right).contains(k2));
            }
            assert(all_gt(r2, a));
        }
        if child_red {
            proof {
                assert(color == Color::Black);
            }
            let res = Some(Box::new(TreeNode { color: Color::Red, key: a, left, right: r2 }));
            proof {
                assert(keys_of(res) =~= keys_of(Some(n)).remove(key));
                assert(bst(res));
                assert(no_red_red(r2) && no_red_red(left));
                assert(near_red_red(res));
                assert(bh(r2) == bh(right));
                assert(balanced(res) && bh(res) + 1 == bh(Some(n)));
            }
            res
        } else {
            let fixed = bald_right(left, a, r2);
            let res = Some(fixed);
            proof {
                assert(keys_of(res) =~= keys_of(Some(n)).remove(key));
                assert(bh(r2) + 1 == bh(right) && bh(left) == bh(right));
                if color == Color::Red {
                    assert(color_of(left) == Color::Black);
                    assert(no_red_red(res));
                    assert(bh(res) == bh(Some(n)));
                } else {
                    assert(bh(res) + 1 == bh(Some(n)));
                }
            }
            res
        }
    } else {
        proof {
            lemma_all_lt_equiv(left, a);
            lemma_all_gt_equiv(right, a);
            assert forall|x: u32, y: u32|
                keys_of(left).contains(x) && keys_of(right).contains(y) implies x < y by {
                assert(x < a && y > a);
            }
            assert(!keys_of(left).contains(a) && !keys_of(right).contains(a));
            if color == Color::Red {
                assert(color_of(left) == Color::Black && color_of(right) == Color::Black);
            }
        }
        let res = join(left, right);
        proof {
            assert(keys_of(res) =~= keys_of(Some(n)).remove(key));
            if color == Color::Red {
                assert(no_red_red(res) && bh(res) == bh(Some(n)));
            } else {
                assert(bh(res) + 1 == bh(Some(n)));
            }
        }
        res
    }
}

} // verus!
