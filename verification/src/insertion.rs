//! The insertion engine: a standard binary-search descent that attaches a
//! fresh Red node, followed by a rebalancing pass that repairs the one
//! possible Red-Red violation on the way back up.  At a Black grandparent
//! the pass inspects the uncle: a Red uncle is handled by recoloring (which
//! may push the violation upward), a Black uncle by a single rotation that
//! leaves a Black node on top with two Red children.

use vstd::prelude::*;

use crate::node::{Color, TreeNode};
use crate::model::{Link, all_gt, all_lt, balanced, bh, bst, color_of, keys_of, near_red_red,
    no_red_red, lemma_all_gt_equiv, lemma_all_lt_equiv, lemma_all_gt_widen, lemma_all_lt_widen};

verus! {

broadcast use vstd::set::group_set_axioms, vstd::seq::group_seq_axioms;

/// Whether a child slot holds a Red node; absent children count as Black.
pub(crate) fn is_red(t: &Link) -> (r: bool)
    ensures
        r == (color_of(*t) == Color::Red),
{
    match t {
        Some(n) => n.color == Color::Red,
        None => false,
    }
}

/// Whether `key` is stored in the subtree.
pub(crate) fn link_contains(t: &Link, key: u32) -> (r: bool)
    requires
        bst(*t),
    ensures
        r == keys_of(*t).contains(key),
    decreases *t,
{
    match t {
        None => false,
        Some(n) => {
            if key < n.key {
                proof {
                    lemma_all_gt_equiv(n.right, n.key);
                    assert(!keys_of(n.right).contains(key));
                }
                link_contains(&n.left, key)
            } else if key > n.key {
                proof {
                    lemma_all_lt_equiv(n.left, n.key);
                    assert(!keys_of(n.left).contains(key));
                }
                link_contains(&n.right, key)
            } else {
                proof {
                    assert(keys_of(*t).contains(key));
                }
                true
            }
        },
    }
}

/// Repair pass at a Black node whose left child `l` just absorbed an
/// insertion and may carry a Red root with one Red child; `r` is the
/// untouched right child (the uncle of the violating grandchild).
fn balance_left(l: Box<TreeNode>, key: u32, r: Link) -> (res: Box<TreeNode>)
    requires
        near_red_red(Some(l)),
        l.color == Color::Red ==> color_of(l.left) == Color::Black || color_of(l.right)
            == Color::Black,
        no_red_red(r),
        balanced(Some(l)),
        balanced(r),
        bh(Some(l)) == bh(r),
        bst(Some(l)),
        bst(r),
        all_lt(Some(l), key),
        all_gt(r, key),
    ensures
        keys_of(Some(res)) == keys_of(Some(l)).insert(key).union(keys_of(r)),
        bst(Some(res)),
        no_red_red(Some(res)),
        balanced(Some(res)),
        bh(Some(res)) == bh(r) + 1,
        res.color == Color::Red ==> color_of(res.left) == Color::Black && color_of(res.right)
            == Color::Black,
{
    let l_red = l.color == Color::Red;
    let ll_red = is_red(&l.left);
    let lr_red = is_red(&l.right);
    if l_red && (ll_red || lr_red) {
        if is_red(&r) {
            // Red uncle: recolor parent and uncle Black, hand a Red root up.
            let TreeNode { color: _, key: lk, left: ll, right: lr } = *l;
            let lb = Box::new(TreeNode { color: Color::Black, key: lk, left: ll, right: lr });
            let rn = r.unwrap();
            let TreeNode { color: _, key: rk, left: rl, right: rr } = *rn;
            let rb = Box::new(TreeNode { color: Color::Black, key: rk, left: rl, right: rr });
            let res = Box::new(
                TreeNode { color: Color::Red, key, left: Some(lb), right: Some(rb) },
            );
            proof {
                assert(keys_of(Some(lb)) =~= keys_of(Some(l)));
                assert(keys_of(Some(rb)) =~= keys_of(r));
                assert(keys_of(Some(res)) =~= keys_of(Some(l)).insert(key).union(keys_of(r)));
                assert(bst(Some(lb)) && bst(Some(rb)));
                assert(all_lt(Some(lb), key) && all_gt(Some(rb), key));
                assert(bst(Some(res)));
                assert(no_red_red(Some(lb)) && no_red_red(Some(rb)));
                assert(no_red_red(Some(res)));
                assert(bh(Some(lb)) == bh(Some(l)) + 1 && bh(Some(rb)) == bh(r) + 1);
                assert(balanced(Some(lb)) && balanced(Some(rb)));
                assert(balanced(Some(res)) && bh(Some(res)) == bh(r) + 1);
            }
            res
        } else if ll_red {
            // Black uncle, outer grandchild: single rotation, Black on top.
            let TreeNode { color: _, key: lk, left: ll, right: lr } = *l;
            let inner = Box::new(TreeNode { color: Color::Red, key, left: lr, right: r });
            let res = Box::new(
                TreeNode { color: Color::Black, key: lk, left: ll, right: Some(inner) },
            );
            proof {
                assert(keys_of(Some(inner)) =~= keys_of(lr).insert(key).union(keys_of(r)));
                assert(keys_of(Some(res)) =~= keys_of(Some(l)).insert(key).union(keys_of(r)));
                assert(all_lt(lr, key) && lk < key);
                assert(bst(Some(inner)));
                lemma_all_gt_equiv(r, key);
                lemma_all_gt_widen(r, key, lk);
                lemma_all_gt_equiv(Some(inner), lk) ;
                assert forall|k2: u32| keys_of(Some(inner)).contains(k2) implies k2 > lk by {
                    lemma_all_lt_equiv(lr, lk);
                    lemma_all_gt_equiv(lr, lk);
                    if keys_of(lr).contains(k2) {
                        assert(all_gt(lr, lk));
                    } else if keys_of(r).contains(k2) {
                        assert(k2 > lk);
                    }
                }
                assert(all_gt(Some(inner), lk));
                assert(bst(Some(res)));
                // colors: ll is the Red outer grandchild, lr and r are Black.
                assert(color_of(lr) == Color::Black);
                assert(no_red_red(Some(inner)));
                assert(no_red_red(Some(res)));
                assert(bh(Some(inner)) == bh(r));
                assert(bh(ll) == bh(lr));
                assert(balanced(Some(inner)));
                assert(balanced(Some(res)) && bh(Some(res)) == bh(r) + 1);
            }
            res
        } else {
            // Black uncle, inner grandchild: double rotation around it.
            let TreeNode { color: _, key: lk, left: ll, right: lr } = *l;
            let lrn = lr.unwrap();
            let TreeNode { color: _, key: mk, left: m1, right: m2 } = *lrn;
            let nl = Box::new(TreeNode { color: Color::Red, key: lk, left: ll, right: m1 });
            let nr = Box::new(TreeNode { color: Color::Red, key, left: m2, right: r });
            let res = Box::new(
                TreeNode { color: Color::Black, key: mk, left: Some(nl), right: Some(nr) },
            );
            proof {
                assert(lr == Some(lrn));
                assert(keys_of(lr) == keys_of(m1).insert(mk).union(keys_of(m2)));
                assert(balanced(Some(l)) && bh(ll) == bh(l.right) && balanced(l.right));
                assert(lrn.color == Color::Red);
                assert(lrn.left == m1 && lrn.right == m2);
                assert(bh(Some(lrn)) == bh(m1) + 0);
                assert(bh(m1) == bh(m2) && balanced(m1) && balanced(m2));
                assert(bh(lr) == bh(m1));
                assert(bst(Some(lrn)) && all_gt(Some(lrn), lk) && all_lt(Some(lrn), key));
                assert(keys_of(Some(nl)) =~= keys_of(ll).insert(lk).union(keys_of(m1)));
                assert(keys_of(Some(nr)) =~= keys_of(m2).insert(key).union(keys_of(r)));
                assert(keys_of(Some(res)) =~= keys_of(Some(l)).insert(key).union(keys_of(r)));
                // ordering around the three pivots lk < mk < key
                assert(all_lt(ll, lk) && all_gt(m1, lk) && all_lt(m1, mk));
                assert(all_gt(m2, mk) && all_lt(m2, key) && all_gt(r, key));
                assert(bst(Some(nl)) && bst(Some(nr)));
                lemma_all_lt_equiv(Some(nl), mk);
                assert forall|k2: u32| keys_of(Some(nl)).contains(k2) implies k2 < mk by {
                    lemma_all_lt_equiv(ll, lk);
                    lemma_all_lt_equiv(m1, mk);
                    if keys_of(ll).contains(k2) {
                        assert(k2 < lk);
                    }
                }
                assert(all_lt(Some(nl), mk));
                lemma_all_gt_equiv(Some(nr), mk);
                assert forall|k2: u32| keys_of(Some(nr)).contains(k2) implies k2 > mk by {
                    lemma_all_gt_equiv(m2, mk);
                    lemma_all_gt_equiv(r, key);
                    if keys_of(r).contains(k2) {
                        assert(k2 > key);
                    }
                }
                assert(all_gt(Some(nr), mk));
                assert(bst(Some(res)));
                // colors: lr was the Red inner grandchild, ll and r are Black.
                assert(color_of(ll) == Color::Black);
                assert(color_of(m1) == Color::Black && color_of(m2) == Color::Black);
                assert(no_red_red(Some(nl)) && no_red_red(Some(nr)));
                assert(no_red_red(Some(res)));
                assert(bh(Some(nl)) == bh(ll) && bh(Some(nr)) == bh(r));
                assert(balanced(Some(nl)) && balanced(Some(nr)));
                assert(balanced(Some(res)) && bh(Some(res)) == bh(r) + 1);
            }
            res
        }
    } else {
        // No violation below: rebuild the Black node as it stood.
        let res = Box::new(TreeNode { color: Color::Black, key, left: Some(l), right: r });
        proof {
            assert(keys_of(Some(res)) =~= keys_of(Some(l)).insert(key).union(keys_of(r)));
            assert(bst(Some(res)));
            assert(no_red_red(Some(l)));
            assert(no_red_red(Some(res)));
            assert(balanced(Some(res)) && bh(Some(res)) == bh(r) + 1);
        }
        res
    }
}

/// Mirror image of [`balance_left`]: repair pass at a Black node whose
/// right child `r` just absorbed an insertion; `l` is the untouched left
/// child.
fn balance_right(l: Link, key: u32, r: Box<TreeNode>) -> (res: Box<TreeNode>)
    requires
        near_red_red(Some(r)),
        r.color == Color::Red ==> color_of(r.left) == Color::Black || color_of(r.right)
            == Color::Black,
        no_red_red(l),
        balanced(Some(r)),
        balanced(l),
        bh(l) == bh(Some(r)),
        bst(Some(r)),
        bst(l),
        all_gt(Some(r), key),
        all_lt(l, key),
    ensures
        keys_of(Some(res)) == keys_of(l).insert(key).union(keys_of(Some(r))),
        bst(Some(res)),
        no_red_red(Some(res)),
        balanced(Some(res)),
        bh(Some(res)) == bh(l) + 1,
        res.color == Color::Red ==> color_of(res.left) == Color::Black && color_of(res.right)
            == Color::Black,
{
    let r_red = r.color == Color::Red;
    let rl_red = is_red(&r.left);
    let rr_red = is_red(&r.right);
    if r_red && (rl_red || rr_red) {
        if is_red(&l) {
            // Red uncle: recolor parent and uncle Black, hand a Red root up.
            let TreeNode { color: _, key: rk, left: rl, right: rr } = *r;
            let rb = Box::new(TreeNode { color: Color::Black, key: rk, left: rl, right: rr });
            let ln = l.unwrap();
            let TreeNode { color: _, key: lk, left: ll, right: lr } = *ln;
            let lb = Box::new(TreeNode { color: Color::Black, key: lk, left: ll, right: lr });
            let res = Box::new(
                TreeNode { color: Color::Red, key, left: Some(lb), right: Some(rb) },
            );
            proof {
                assert(keys_of(Some(rb)) =~= keys_of(Some(r)));
                assert(keys_of(Some(lb)) =~= keys_of(l));
                assert(keys_of(Some(res)) =~= keys_of(l).insert(key).union(keys_of(Some(r))));
                assert(bst(Some(lb)) && bst(Some(rb)));
                assert(all_lt(Some(lb), key) && all_gt(Some(rb), key));
                assert(bst(Some(res)));
                assert(no_red_red(Some(lb)) && no_red_red(Some(rb)));
                assert(no_red_red(Some(res)));
                assert(bh(Some(rb)) == bh(Some(r)) + 1 && bh(Some(lb)) == bh(l) + 1);
                assert(balanced(Some(lb)) && balanced(Some(rb)));
                assert(balanced(Some(res)) && bh(Some(res)) == bh(l) + 1);
            }
            res
        } else if rr_red {
            // Black uncle, outer grandchild: single rotation, Black on top.
            let TreeNode { color: _, key: rk, left: rl, right: rr } = *r;
            let inner = Box::new(TreeNode { color: Color::Red, key, left: l, right: rl });
            let res = Box::new(
                TreeNode { color: Color::Black, key: rk, left: Some(inner), right: rr },
            );
            proof {
                assert(keys_of(Some(inner)) =~= keys_of(l).insert(key).union(keys_of(rl)));
                assert(keys_of(Some(res)) =~= keys_of(l).insert(key).union(keys_of(Some(r))));
                assert(all_gt(rl, key) && rk > key);
                assert(bst(Some(inner)));
                lemma_all_lt_equiv(l, key);
                lemma_all_lt_widen(l, key, rk);
                lemma_all_lt_equiv(Some(inner), rk);
                assert forall|k2: u32| keys_of(Some(inner)).contains(k2) implies k2 < rk by {
                    lemma_all_lt_equiv(rl, rk);
                    if keys_of(rl).contains(k2) {
                        assert(all_lt(rl, rk));
                    } else if keys_of(l).contains(k2) {
                        assert(k2 < rk);
                    }
                }
                assert(all_lt(Some(inner), rk));
                assert(bst(Some(res)));
                // colors: rr is the Red outer grandchild, rl and l are Black.
                assert(color_of(rl) == Color::Black);
                assert(no_red_red(Some(inner)));
                assert(no_red_red(Some(res)));
                assert(bh(Some(inner)) == bh(l));
                assert(bh(rl) == bh(rr));
                assert(balanced(Some(inner)));
                assert(balanced(Some(res)) && bh(Some(res)) == bh(l) + 1);
            }
            res
        } else {
            // Black uncle, inner grandchild: double rotation around it.
            let TreeNode { color: _, key: rk, left: rl, right: rr } = *r;
            let rln = rl.unwrap();
            let TreeNode { color: _, key: mk, left: m1, right: m2 } = *rln;
            let nl = Box::new(TreeNode { color: Color::Red, key, left: l, right: m1 });
            let nr = Box::new(TreeNode { color: Color::Red, key: rk, left: m2, right: rr });
            let res = Box::new(
                TreeNode { color: Color::Black, key: mk, left: Some(nl), right: Some(nr) },
            );
            proof {
                assert(rl == Some(rln));
                assert(keys_of(rl) == keys_of(m1).insert(mk).union(keys_of(m2)));
                assert(balanced(Some(r)) && bh(r.left) == bh(rr) && balanced(r.left));
                assert(rln.color == Color::Red);
                assert(rln.left == m1 && rln.right == m2);
                assert(bh(Some(rln)) == bh(m1) + 0);
                assert(bh(m1) == bh(m2) && balanced(m1) && balanced(m2));
                assert(bh(rl) == bh(m1));
                assert(bst(Some(rln)) && all_lt(Some(rln), rk) && all_gt(Some(rln), key));
                assert(keys_of(Some(nl)) =~= keys_of(l).insert(key).union(keys_of(m1)));
                assert(keys_of(Some(nr)) =~= keys_of(m2).insert(rk).union(keys_of(rr)));
                assert(keys_of(Some(res)) =~= keys_of(l).insert(key).union(keys_of(Some(r))));
                // ordering around the three pivots key < mk < rk
                assert(all_lt(l, key) && all_gt(m1, key) && all_lt(m1, mk));
                assert(all_gt(m2, mk) && all_lt(m2, rk) && all_gt(rr, rk));
                assert(bst(Some(nl)) && bst(Some(nr)));
                lemma_all_lt_equiv(Some(nl), mk);
                assert forall|k2: u32| keys_of(Some(nl)).contains(k2) implies k2 < mk by {
                    lemma_all_lt_equiv(m1, mk);
                    lemma_all_lt_equiv(l, key);
                    if keys_of(l).contains(k2) {
                        assert(k2 < key);
                    }
                }
                assert(all_lt(Some(nl), mk));
                lemma_all_gt_equiv(Some(nr), mk);
                assert forall|k2: u32| keys_of(Some(nr)).contains(k2) implies k2 > mk by {
                    lemma_all_gt_equiv(m2, mk);
                    lemma_all_gt_equiv(rr, rk);
                    if keys_of(rr).contains(k2) {
                        assert(k2 > rk);
                    }
                }
                assert(all_gt(Some(nr), mk));
                assert(bst(Some(res)));
                // colors: rl was the Red inner grandchild, rr and l are Black.
                assert(color_of(rr) == Color::Black);
                assert(color_of(m1) == Color::Black && color_of(m2) == Color::Black);
                assert(no_red_red(Some(nl)) && no_red_red(Some(nr)));
                assert(no_red_red(Some(res)));
                assert(bh(Some(nl)) == bh(l) && bh(Some(nr)) == bh(rr));
                assert(balanced(Some(nl)) && balanced(Some(nr)));
                assert(balanced(Some(res)) && bh(Some(res)) == bh(l) + 1);
            }
            res
        }
    } else {
        // No violation below: rebuild the Black node as it stood.
        let res = Box::new(TreeNode { color: Color::Black, key, left: l, right: Some(r) });
        proof {
            assert(keys_of(Some(res)) =~= keys_of(l).insert(key).union(keys_of(Some(r))));
            assert(bst(Some(res)));
            assert(no_red_red(Some(r)));
            assert(no_red_red(Some(res)));
            assert(balanced(Some(res)) && bh(Some(res)) == bh(l) + 1);
        }
        res
    }
}

/// Binary-search descent that attaches a fresh Red node for `key` and
/// rebalances on the way back up.  The result is a tree with the same
/// black-height holding exactly one key more; its root may be Red, and when
/// the subtree root was Red the one Red-Red edge still to resolve sits at
/// the root of the result.
pub(crate) fn ins(t: Link, key: u32) -> (res: Box<TreeNode>)
    requires
        bst(t),
        no_red_red(t),
        balanced(t),
        !keys_of(t).contains(key),
    ensures
        keys_of(Some(res)) == keys_of(t).insert(key),
        bst(Some(res)),
        balanced(Some(res)),
        bh(Some(res)) == bh(t),
        near_red_red(Some(res)),
        color_of(t) == Color::Black ==> no_red_red(Some(res)),
        res.color == Color::Red ==> color_of(res.left) == Color::Black || color_of(res.right)
            == Color::Black,
    decreases t,
{
    match t {
        None => {
            let res = Box::new(TreeNode { color: Color::Red, key, left: None, right: None });
            proof {
                assert(keys_of(Some(res)) =~= keys_of(t).insert(key));
                assert(bst(Some(res)) && no_red_red(Some(res)));
                assert(balanced(Some(res)) && bh(Some(res)) == 0);
            }
            res
        },
        Some(n) => {
            let TreeNode { color, key: k, left, right } = *n;
            if key < k {
                proof {
                    assert(keys_of(left).contains(key) ==> keys_of(t).contains(key));
                }
                let l2 = ins(left, key);
                proof {
                    lemma_all_lt_equiv(left, k);
                    lemma_all_lt_equiv(Some(l2), k);
                    assert forall|k2: u32| keys_of(Some(l2)).contains(k2) implies k2 < k by {
                        if keys_of(left).contains(k2) {
                        } else {
                            assert(k2 == key);
                        }
                    }
                    assert(all_lt(Some(l2), k));
                }
                if color == Color::Black {
                    let res = balance_left(l2, k, right);
                    proof {
                        assert(keys_of(Some(res)) =~= keys_of(t).insert(key));
                        assert(bh(Some(res)) == bh(t));
                    }
                    res
                } else {
                    let res = Box::new(
                        TreeNode { color: Color::Red, key: k, left: Some(l2), right },
                    );
                    proof {
                        assert(keys_of(Some(res)) =~= keys_of(t).insert(key));
                        assert(bst(Some(res)));
                        // the subtree root was Red, so both old children were
                        // Black and the recursion returned a clean subtree.
                        assert(color_of(left) == Color::Black);
                        assert(no_red_red(Some(l2)) && no_red_red(right));
                        assert(near_red_red(Some(res)));
                        assert(color_of(res.right) == Color::Black);
                        assert(balanced(Some(res)) && bh(Some(res)) == bh(t));
                    }
                    res
                }
            } else if key > k {
                proof {
                    assert(keys_of(right).contains(key) ==> keys_of(t).contains(key));
                }
                let r2 = ins(right, key);
                proof {
                    lemma_all_gt_equiv(right, k);
                    lemma_all_gt_equiv(Some(r2), k);
                    assert forall|k2: u32| keys_of(Some(r2)).contains(k2) implies k2 > k by {
                        if keys_of(right).contains(k2) {
                        } else {
                            assert(k2 == key);
                        }
                    }
                    assert(all_gt(Some(r2), k));
                }
                if color == Color::Black {
                    let res = balance_right(left, k, r2);
                    proof {
                        assert(keys_of(Some(res)) =~= keys_of(t).insert(key));
                        assert(bh(Some(res)) == bh(t));
                    }
                    res
                } else {
                    let res = Box::new(
                        TreeNode { color: Color::Red, key: k, left, right: Some(r2) },
                    );
                    proof {
                        assert(keys_of(Some(res)) =~= keys_of(t).insert(key));
                        assert(bst(Some(res)));
                        assert(color_of(right) == Color::Black);
                        assert(no_red_red(Some(r2)) && no_red_red(left));
                        assert(near_red_red(Some(res)));
                        assert(color_of(res.left) == Color::Black);
                        assert(balanced(Some(res)) && bh(Some(res)) == bh(t));
                    }
                    res
                }
            } else {
                proof {
                    assert(keys_of(t).contains(k));
                    assert(false);
                }
                vstd::pervasive::unreached()
            }
        },
    }
}

impl TreeNode {
    /// The insertion engine on a subtree: a no-op if `new_key` is already
    /// stored, otherwise a binary-search insert of a fresh Red node followed
    /// by the rebalancing pass.  Forcing the final root Black is the tree
    /// container's job.
    pub fn insert(self: Box<TreeNode>, new_key: u32) -> (res: Box<TreeNode>)
        requires
            bst(Some(self)),
            no_red_red(Some(self)),
            balanced(Some(self)),
        ensures
            keys_of(Some(res)) == keys_of(Some(self)).insert(new_key),
            bst(Some(res)),
            balanced(Some(res)),
            bh(Some(res)) == bh(Some(self)),
            near_red_red(Some(res)),
            self.color == Color::Black ==> no_red_red(Some(res)),
            keys_of(Some(self)).contains(new_key) ==> res == self,
    {
        let t = Some(self);
        if link_contains(&t, new_key) {
            let res = t.unwrap();
            proof {
                assert(keys_of(Some(res)).insert(new_key) =~= keys_of(Some(res)));
            }
            res
        } else {
            ins(t, new_key)
        }
    }
}

} // verus!
