//! An unbalanced binary search tree of `i64` values.
//!
//! The root node may be empty (no value at all); every other node holds a
//! value, with smaller values to the left and larger ones to the right.
//! On removal of a node with two children the smallest value of the right
//! subtree takes its place.

use vstd::prelude::*;

verus! {

/// A search tree node; the view is the set of values stored in it.
#[derive(Debug)]
pub struct BinarySearchTree {
    val: Option<i64>,
    left: Option<Box<BinarySearchTree>>,
    right: Option<Box<BinarySearchTree>>,
}

/// The set of values in an optional subtree.
pub closed spec fn sub_set(t: Option<Box<BinarySearchTree>>) -> Set<i64>
    decreases t,
{
    match t {
        None => Set::empty(),
        Some(n) => n.as_set(),
    }
}

/// Every node of an optional subtree holds a value and is ordered.
pub closed spec fn sub_wf(t: Option<Box<BinarySearchTree>>) -> bool
    decreases t,
{
    match t {
        None => true,
        Some(n) => n.val is Some && n.node_wf(),
    }
}

impl View for BinarySearchTree {
    type V = Set<i64>;

    closed spec fn view(&self) -> Set<i64> {
        self.as_set()
    }
}

impl BinarySearchTree {
    /// The set of values stored in this subtree.
    pub closed spec fn as_set(self) -> Set<i64>
        decreases self,
    {
        let own: Set<i64> = match self.val {
            None => Set::empty(),
            Some(v) => Set::empty().insert(v),
        };
        own.union(sub_set(self.left)).union(sub_set(self.right))
    }

    /// Subtrees hold values strictly around this node's value, and only an
    /// entirely empty node may go without a value.
    spec fn node_wf(self) -> bool
        decreases self,
    {
        &&& (self.val is None ==> self.left is None && self.right is None)
        &&& (forall|v: i64| sub_set(self.left).contains(v) ==> v < self.val->Some_0)
        &&& (forall|v: i64| sub_set(self.right).contains(v) ==> v > self.val->Some_0)
        &&& sub_wf(self.left)
        &&& sub_wf(self.right)
    }

    /// The structural invariant: constructors establish it and every
    /// method preserves it.
    pub closed spec fn well_formed(self) -> bool {
        self.node_wf()
    }

    /// Returns an empty tree.
    pub fn new() -> (t: Self)
        ensures
            t.well_formed(),
            t@ == Set::<i64>::empty(),
    {
        let t = BinarySearchTree { val: None, left: None, right: None };
        proof {
            assert(t@ =~= Set::<i64>::empty());
        }
        t
    }

    /// Inserts `val`; a value equal to one already stored is left alone.
    pub fn insert(&mut self, val: i64)
        requires
            old(self).well_formed(),
        ensures
            final(self).well_formed(),
            final(self)@ == old(self)@.insert(val),
        decreases *old(self),
    {
        match self.val {
            None => {
                self.val = Some(val);
                proof {
                    assert(self@ =~= old(self)@.insert(val));
                }
            },
            Some(own) => {
                proof {
                    assert(old(self).node_wf());
                }
                if own == val {
                    proof {
                        assert(self@.contains(val));
                        assert(self@ =~= old(self)@.insert(val));
                    }
                } else if val > own {
                    match self.right.take() {
                        None => {
                            self.right = Some(
                                Box::new(
                                    BinarySearchTree { val: Some(val), left: None, right: None },
                                ),
                            );
                            proof {
                                assert(sub_wf(self.right));
                            }
                        },
                        Some(mut r) => {
                            r.insert(val);
                            proof {
                                assert(r.val is Some) by {
                                    assert(r@.contains(val));
                                }
                            }
                            self.right = Some(r);
                            proof {
                                assert(r.node_wf());
                                assert(sub_wf(self.right));
                            }
                        },
                    }
                    proof {
                        assert(sub_set(self.right) =~= sub_set(old(self).right)
                            .insert(val));
                        assert forall|v: i64|
                            sub_set(self.right).contains(v) implies v > own by {
                            if v != val {
                                assert(sub_set(old(self).right).contains(v));
                            }
                        }
                        assert(self.node_wf());
                        assert(self@ =~= old(self)@.insert(val));
                    }
                } else {
                    match self.left.take() {
                        None => {
                            self.left = Some(
                                Box::new(
                                    BinarySearchTree { val: Some(val), left: None, right: None },
                                ),
                            );
                            proof {
                                assert(sub_wf(self.left));
                            }
                        },
                        Some(mut l) => {
                            l.insert(val);
                            proof {
                                assert(l.val is Some) by {
                                    assert(l@.contains(val));
                                }
                            }
                            self.left = Some(l);
                            proof {
                                assert(l.node_wf());
                                assert(sub_wf(self.left));
                            }
                        },
                    }
                    proof {
                        assert(sub_set(self.left) =~= sub_set(old(self).left)
                            .insert(val));
                        assert forall|v: i64|
                            sub_set(self.left).contains(v) implies v < own by {
                            if v != val {
                                assert(sub_set(old(self).left).contains(v));
                            }
                        }
                        assert(self.node_wf());
                        assert(self@ =~= old(self)@.insert(val));
                    }
                }
            },
        }
    }

    /// Looks `val` up in a non-empty tree.
    pub fn search(&self, val: i64) -> (found: bool)
        requires
            self.well_formed(),
            self@ != Set::<i64>::empty(),
        ensures
            found == self@.contains(val),
        decreases *self,
    {
        proof {
            assert(self.val is Some) by {
                if self.val is None {
                    assert(self@ =~= Set::<i64>::empty());
                }
            }
        }
        let own = self.val.unwrap();
        if own == val {
            true
        } else if own < val {
            proof {
                if sub_set(self.left).contains(val) {
                    assert(val < own);
                }
            }
            match &self.right {
                None => {
                    proof {
                        assert(!self@.contains(val));
                    }
                    false
                },
                Some(right) => {
                    proof {
                        assert(right@.contains(right.val->Some_0));
                    }
                    right.search(val)
                },
            }
        } else {
            proof {
                if sub_set(self.right).contains(val) {
                    assert(val > own);
                }
            }
            match &self.left {
                None => {
                    proof {
                        assert(!self@.contains(val));
                    }
                    false
                },
                Some(left) => {
                    proof {
                        assert(left@.contains(left.val->Some_0));
                    }
                    left.search(val)
                },
            }
        }
    }

    /// Removes `val` from a non-empty tree; reports whether it was found.
    pub fn remove(&mut self, val: i64) -> (removed: bool)
        requires
            old(self).well_formed(),
            old(self)@ != Set::<i64>::empty(),
        ensures
            final(self).well_formed(),
            final(self)@ == old(self)@.remove(val),
            removed == old(self)@.contains(val),
    {
        proof {
            assert(old(self).val is Some) by {
                if old(self).val is None {
                    assert(old(self)@ =~= Set::<i64>::empty());
                }
            }
        }
        let own = self.val.unwrap();
        proof {
            assert(old(self).node_wf());
        }
        if own == val {
            let l = self.left.take();
            let r = self.right.take();
            match (l, r) {
                (None, None) => {
                    self.val = None;
                    proof {
                        assert(self@ =~= old(self)@.remove(val));
                    }
                },
                (Some(l), None) => {
                    proof {
                        assert(sub_set(old(self).left) == l@);
                        if l@.contains(val) {
                            assert(val < val);
                        }
                    }
                    *self = *l;
                    proof {
                        assert(self@ =~= old(self)@.remove(val));
                    }
                },
                (None, Some(r)) => {
                    proof {
                        assert(sub_set(old(self).right) == r@);
                        if r@.contains(val) {
                            assert(val > val);
                        }
                    }
                    *self = *r;
                    proof {
                        assert(self@ =~= old(self)@.remove(val));
                    }
                },
                (Some(l), Some(r)) => {
                    proof {
                        assert(sub_set(old(self).left) == l@);
                        assert(sub_set(old(self).right) == r@);
                    }
                    let mut op: Option<Box<BinarySearchTree>> = Some(r);
                    let ghost rset = sub_set(op);
                    let m = take_min_value(&mut op);
                    proof {
                        assert(rset.contains(m));
                        assert(m > own);
                        assert(l@.contains(l.val->Some_0));
                        assert forall|v: i64| l@.contains(v) implies v < m by {
                            assert(v < own);
                        }
                        assert forall|v: i64| sub_set(op).contains(v) implies v
                            > m by {
                            assert(rset.contains(v));
                        }
                    }
                    self.val = Some(m);
                    self.left = Some(l);
                    self.right = op;
                    proof {
                        assert(self@ =~= old(self)@.remove(val));
                    }
                },
            }
            true
        } else if own < val {
            proof {
                if sub_set(old(self).left).contains(val) {
                    assert(val < own);
                }
            }
            let removed = remove_from(&mut self.right, val);
            proof {
                assert(self@ =~= old(self)@.remove(val));
            }
            removed
        } else {
            proof {
                if sub_set(old(self).right).contains(val) {
                    assert(val > own);
                }
            }
            let removed = remove_from(&mut self.left, val);
            proof {
                assert(self@ =~= old(self)@.remove(val));
            }
            removed
        }
    }
}

/// Removes `val` from an optional subtree; reports whether it was found.
fn remove_from(tree: &mut Option<Box<BinarySearchTree>>, val: i64) -> (removed: bool)
    requires
        sub_wf(*old(tree)),
    ensures
        sub_wf(*final(tree)),
        sub_set(*final(tree)) == sub_set(*old(tree)).remove(val),
        removed == sub_set(*old(tree)).contains(val),
    decreases *old(tree),
{
    match tree.take() {
        None => {
            proof {
                assert(sub_set(*old(tree)).remove(val) =~= sub_set(*old(tree)));
            }
            false
        },
        Some(mut node) => {
            let ghost n0 = *node;
            proof {
                assert(n0.val is Some && n0.node_wf());
                assert(sub_set(*old(tree)) == n0.as_set());
            }
            let own = node.val.unwrap();
            if own == val {
                let l = node.left.take();
                let r = node.right.take();
                match (l, r) {
                    (None, None) => {
                        *tree = None;
                    },
                    (Some(l), None) => {
                        proof {
                            assert(sub_set(n0.left) == l@);
                            if l@.contains(val) {
                                assert(val < val);
                            }
                        }
                        *tree = Some(l);
                    },
                    (None, Some(r)) => {
                        proof {
                            assert(sub_set(n0.right) == r@);
                            if r@.contains(val) {
                                assert(val > val);
                            }
                        }
                        *tree = Some(r);
                    },
                    (Some(l), Some(r)) => {
                        proof {
                            assert(sub_set(n0.left) == l@);
                            assert(sub_set(n0.right) == r@);
                        }
                        let mut op: Option<Box<BinarySearchTree>> = Some(r);
                        let ghost rset = sub_set(op);
                        let m = take_min_value(&mut op);
                        proof {
                            assert(rset.contains(m));
                            assert(m > own);
                            assert(l@.contains(l.val->Some_0));
                            assert forall|v: i64| l@.contains(v) implies v < m by {
                                assert(v < own);
                            }
                            assert forall|v: i64| sub_set(op).contains(v) implies v
                                > m by {
                                assert(rset.contains(v));
                            }
                        }
                        node.val = Some(m);
                        node.left = Some(l);
                        node.right = op;
                        *tree = Some(node);
                    },
                }
                proof {
                    assert(sub_set(*tree) =~= sub_set(*old(tree)).remove(val));
                }
                true
            } else if own < val {
                proof {
                    if sub_set(n0.left).contains(val) {
                        assert(val < own);
                    }
                }
                let removed = remove_from(&mut node.right, val);
                *tree = Some(node);
                proof {
                    assert(sub_set(*tree) =~= sub_set(*old(tree)).remove(val));
                }
                removed
            } else {
                proof {
                    if sub_set(n0.right).contains(val) {
                        assert(val > own);
                    }
                }
                let removed = remove_from(&mut node.left, val);
                *tree = Some(node);
                proof {
                    assert(sub_set(*tree) =~= sub_set(*old(tree)).remove(val));
                }
                removed
            }
        },
    }
}

/// Detaches the smallest value of a non-empty optional subtree.
fn take_min_value(tree: &mut Option<Box<BinarySearchTree>>) -> (m: i64)
    requires
        sub_wf(*old(tree)),
        *old(tree) is Some,
    ensures
        sub_wf(*final(tree)),
        sub_set(*old(tree)).contains(m),
        forall|v: i64| sub_set(*old(tree)).contains(v) ==> v == m || m < v,
        sub_set(*final(tree)) == sub_set(*old(tree)).remove(m),
    decreases *old(tree),
{
    let mut node = tree.take().unwrap();
    let ghost n0 = *node;
    proof {
        assert(n0.val is Some && n0.node_wf());
        assert(sub_set(*old(tree)) == n0.as_set());
    }
    if node.left.is_some() {
        let m = take_min_value(&mut node.left);
        *tree = Some(node);
        proof {
            assert(sub_set(n0.left).contains(m));
            assert(m < n0.val->Some_0);
            if sub_set(n0.right).contains(m) {
                assert(m > n0.val->Some_0);
            }
            assert(sub_set(*tree) =~= sub_set(*old(tree)).remove(m));
            assert forall|v: i64| sub_set(*old(tree)).contains(v) implies v == m || m
                < v by {
                if sub_set(n0.left).contains(v) {
                } else if v == n0.val->Some_0 {
                } else {
                    assert(sub_set(n0.right).contains(v));
                    assert(v > n0.val->Some_0);
                }
            }
        }
        m
    } else {
        let m = node.val.unwrap();
        *tree = node.right.take();
        proof {
            assert(sub_set(n0.left) =~= Set::<i64>::empty());
            assert(!sub_set(n0.right).contains(m));
            assert(sub_set(*tree) =~= sub_set(*old(tree)).remove(m));
            assert forall|v: i64| sub_set(*old(tree)).contains(v) implies v == m || m
                < v by {
                if v != m {
                    assert(sub_set(n0.right).contains(v));
                }
            }
        }
        m
    }
}

} // verus!
