//! Search and traversal beyond plain lookup: the extreme keys of the tree
//! and the in-order neighbours of an arbitrary key.  All of them follow the
//! binary-search ordering downward; none mutates.

use vstd::prelude::*;

use crate::model::{Link, bst, keys_of, lemma_all_gt_equiv, lemma_all_lt_equiv};
use crate::rbtree::RBTree;

verus! {

broadcast use vstd::set::group_set_axioms, vstd::seq::group_seq_axioms;

/// The smallest key of a non-empty subtree: the leftmost node.
fn link_min(t: &Link) -> (m: u32)
    requires
        bst(*t),
        *t is Some,
    ensures
        keys_of(*t).contains(m),
        forall|k: u32| keys_of(*t).contains(k) ==> m <= k,
    decreases *t,
{
    match t {
        None => vstd::pervasive::unreached(),
        Some(n) => {
            match &n.left {
                None => {
                    proof {
                        lemma_all_gt_equiv(n.right, n.key);
                        assert(keys_of(*t).contains(n.key));
                        assert forall|k: u32| keys_of(*t).contains(k) implies n.key <= k by {
                            if keys_of(n.right).contains(k) {
                                assert(k > n.key);
                            } else if !keys_of(n.left).contains(k) {
                                assert(k == n.key);
                            }
                        }
                    }
                    n.key
                },
                Some(_) => {
                    let m = link_min(&n.left);
                    proof {
                        lemma_all_lt_equiv(n.left, n.key);
                        lemma_all_gt_equiv(n.right, n.key);
                        assert(m < n.key);
                        assert(keys_of(*t).contains(m));
                        assert forall|k: u32| keys_of(*t).contains(k) implies m <= k by {
                            if keys_of(n.right).contains(k) {
                                assert(k > n.key);
                            }
                        }
                    }
                    m
                },
            }
        },
    }
}

/// The largest key of a non-empty subtree: the rightmost node.
fn link_max(t: &Link) -> (m: u32)
    requires
        bst(*t),
        *t is Some,
    ensures
        keys_of(*t).contains(m),
        forall|k: u32| keys_of(*t).contains(k) ==> m >= k,
    decreases *t,
{
    match t {
        None => vstd::pervasive::unreached(),
        Some(n) => {
            match &n.right {
                None => {
                    proof {
                        lemma_all_lt_equiv(n.left, n.key);
                        assert(keys_of(*t).contains(n.key));
                        assert forall|k: u32| keys_of(*t).contains(k) implies n.key >= k by {
                            if keys_of(n.left).contains(k) {
                                assert(k < n.key);
                            } else if !keys_of(n.right).contains(k) {
                                assert(k == n.key);
                            }
                        }
                    }
                    n.key
                },
                Some(_) => {
                    let m = link_max(&n.right);
                    proof {
                        lemma_all_gt_equiv(n.right, n.key);
                        lemma_all_lt_equiv(n.left, n.key);
                        assert(m > n.key);
                        assert(keys_of(*t).contains(m));
                        assert forall|k: u32| keys_of(*t).contains(k) implies m >= k by {
                            if keys_of(n.left).contains(k) {
                                assert(k < n.key);
                            }
                        }
                    }
                    m
                },
            }
        },
    }
}

/// The smallest stored key strictly above `key`, or `None` when `key` is at
/// or beyond the largest stored key.
fn link_succ(t: &Link, key: u32) -> (r: Option<u32>)
    requires
        bst(*t),
    ensures
        r is Some ==> keys_of(*t).contains(r.unwrap()) && r.unwrap() > key && (forall|k: u32|
            keys_of(*t).contains(k) && k > key ==> r.unwrap() <= k),
        r is None ==> forall|k: u32| keys_of(*t).contains(k) ==> k <= key,
    decreases *t,
{
    match t {
        None => None,
        Some(n) => {
            if key < n.key {
                let r = link_succ(&n.left, key);
                proof {
                    lemma_all_lt_equiv(n.left, n.key);
                    lemma_all_gt_equiv(n.right, n.key);
                }
                match r {
                    Some(s) => {
                        proof {
                            assert(keys_of(*t).contains(s));
                            assert forall|k: u32|
                                keys_of(*t).contains(k) && k > key implies s <= k by {
                                if keys_of(n.right).contains(k) {
                                    assert(k > n.key && s < n.key);
                                } else if !keys_of(n.left).contains(k) {
                                    assert(k == n.key && s < n.key);
                                }
                            }
                        }
                        Some(s)
                    },
                    None => {
                        proof {
                            assert(keys_of(*t).contains(n.key));
                            assert forall|k: u32|
                                keys_of(*t).contains(k) && k > key implies n.key <= k by {
                                if keys_of(n.left).contains(k) {
                                    assert(k <= key);
                                } else if keys_of(n.right).contains(k) {
                                    assert(k > n.key);
                                } else {
                                    assert(k == n.key);
                                }
                            }
                        }
                        Some(n.key)
                    },
                }
            } else {
                let r = link_succ(&n.right, key);
                proof {
                    lemma_all_lt_equiv(n.left, n.key);
                    lemma_all_gt_equiv(n.right, n.key);
                    if r is Some {
                        assert(keys_of(*t).contains(r.unwrap()));
                        assert forall|k: u32|
                            keys_of(*t).contains(k) && k > key implies r.unwrap() <= k by {
                            if keys_of(n.left).contains(k) {
                                assert(k < n.key && n.key <= key);
                            } else if !keys_of(n.right).contains(k) {
                                assert(k == n.key);
                            }
                        }
                    } else {
                        assert forall|k: u32| keys_of(*t).contains(k) implies k <= key by {
                            if keys_of(n.left).contains(k) {
                                assert(k < n.key);
                            } else if keys_of(n.right).contains(k) {
                            } else {
                                assert(k == n.key);
                            }
                        }
                    }
                }
                r
            }
        },
    }
}

/// The largest stored key strictly below `key`, or `None` when `key` is at
/// or below the smallest stored key.
fn link_pred(t: &Link, key: u32) -> (r: Option<u32>)
    requires
        bst(*t),
    ensures
        r is Some ==> keys_of(*t).contains(r.unwrap()) && r.unwrap() < key && (forall|k: u32|
            keys_of(*t).contains(k) && k < key ==> r.unwrap() >= k),
        r is None ==> forall|k: u32| keys_of(*t).contains(k) ==> k >= key,
    decreases *t,
{
    match t {
        None => None,
        Some(n) => {
            if key > n.key {
                let r = link_pred(&n.right, key);
                proof {
                    lemma_all_lt_equiv(n.left, n.key);
                    lemma_all_gt_equiv(n.right, n.key);
                }
                match r {
                    Some(s) => {
                        proof {
                            assert(keys_of(*t).contains(s));
                            assert forall|k: u32|
                                keys_of(*t).contains(k) && k < key implies s >= k by {
                                if keys_of(n.left).contains(k) {
                                    assert(k < n.key && s > n.key);
                                } else if !keys_of(n.right).contains(k) {
                                    assert(k == n.key && s > n.key);
                                }
                            }
                        }
                        Some(s)
                    },
                    None => {
                        proof {
                            assert(keys_of(*t).contains(n.key));
                            assert forall|k: u32|
                                keys_of(*t).contains(k) && k < key implies n.key >= k by {
                                if keys_of(n.right).contains(k) {
                                    assert(k >= key);
                                } else if keys_of(n.left).contains(k) {
                                    assert(k < n.key);
                                } else {
                                    assert(k == n.key);
                                }
                            }
                        }
                        Some(n.key)
                    },
                }
            } else {
                let r = link_pred(&n.left, key);
                proof {
                    lemma_all_lt_equiv(n.left, n.key);
                    lemma_all_gt_equiv(n.right, n.key);
                    if r is Some {
                        assert(keys_of(*t).contains(r.unwrap()));
                        assert forall|k: u32|
                            keys_of(*t).contains(k) && k < key implies r.unwrap() >= k by {
                            if keys_of(n.right).contains(k) {
                                assert(k > n.key && n.key >= key);
                            } else if !keys_of(n.left).contains(k) {
                                assert(k == n.key);
                            }
                        }
                    } else {
                        assert forall|k: u32| keys_of(*t).contains(k) implies k >= key by {
                            if keys_of(n.right).contains(k) {
                                assert(k > n.key);
                            } else if keys_of(n.left).contains(k) {
                            } else {
                                assert(k == n.key);
                            }
                        }
                    }
                }
                r
            }
        },
    }
}

impl RBTree {
    /// The smallest stored key, or `None` for an empty tree.
    pub fn minimum(&self) -> (r: Option<u32>)
        requires
            self.well_formed(),
        ensures
            r is Some ==> self@.contains(r.unwrap()) && (forall|k: u32|
                self@.contains(k) ==> r.unwrap() <= k),
            r is None <==> self@ == Set::<u32>::empty(),
    {
        match &self.root {
            None => {
                proof {
                    assert(self@ =~= Set::<u32>::empty());
                }
                None
            },
            Some(_) => {
                let m = link_min(&self.root);
                proof {
                    assert(self@.contains(m));
                    assert(self@ != Set::<u32>::empty());
                }
                Some(m)
            },
        }
    }

    /// The largest stored key, or `None` for an empty tree.
    pub fn maximum(&self) -> (r: Option<u32>)
        requires
            self.well_formed(),
        ensures
            r is Some ==> self@.contains(r.unwrap()) && (forall|k: u32|
                self@.contains(k) ==> r.unwrap() >= k),
            r is None <==> self@ == Set::<u32>::empty(),
    {
        match &self.root {
            None => {
                proof {
                    assert(self@ =~= Set::<u32>::empty());
                }
                None
            },
            Some(_) => {
                let m = link_max(&self.root);
                proof {
                    assert(self@.contains(m));
                    assert(self@ != Set::<u32>::empty());
                }
                Some(m)
            },
        }
    }

    /// The smallest stored key strictly greater than `key`, or `None` when
    /// there is none.
    pub fn successor(&self, key: u32) -> (r: Option<u32>)
        requires
            self.well_formed(),
        ensures
            r is Some ==> self@.contains(r.unwrap()) && r.unwrap() > key && (forall|k: u32|
                self@.contains(k) && k > key ==> r.unwrap() <= k),
            r is None ==> forall|k: u32| self@.contains(k) ==> k <= key,
    {
        link_succ(&self.root, key)
    }

    /// The largest stored key strictly smaller than `key`, or `None` when
    /// there is none.
    pub fn predecessor(&self, key: u32) -> (r: Option<u32>)
        requires
            self.well_formed(),
        ensures
            r is Some ==> self@.contains(r.unwrap()) && r.unwrap() < key && (forall|k: u32|
                self@.contains(k) && k < key ==> r.unwrap() >= k),
            r is None ==> forall|k: u32| self@.contains(k) ==> k >= key,
    {
        link_pred(&self.root, key)
    }
}

} // verus!
