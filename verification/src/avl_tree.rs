//! A self-balancing (AVL) binary search tree of `i64` values.
//!
//! Every node caches the height of its subtree; after each insertion or
//! removal the heights are recomputed and rotations restore the balance
//! bound on the path back to the root, so the height of the whole tree
//! stays logarithmic in the number of stored values.

use vstd::arithmetic::power2::{lemma2_to64, lemma_pow2_strictly_increases, pow2};
use vstd::prelude::*;

verus! {

/// Which child of a node a rotation or a lookup works on.
#[derive(Clone, Copy, Debug)]
pub enum Side {
    Left,
    Right,
}

impl Side {
    /// The other side.
    pub fn opposite(self) -> (r: Side)
        ensures
            r == self.spec_opposite(),
    {
        match self {
            Side::Left => Side::Right,
            Side::Right => Side::Left,
        }
    }

    /// The other side, as a specification-level function.
    pub open spec fn spec_opposite(self) -> Side {
        match self {
            Side::Left => Side::Right,
            Side::Right => Side::Left,
        }
    }
}

/// One node of the tree: a value, the two optional subtrees and the cached
/// height of the subtree rooted here (a leaf has height 1).
#[derive(Debug)]
pub struct AVLNode {
    val: i64,
    left: Option<Box<AVLNode>>,
    right: Option<Box<AVLNode>>,
    height: usize,
}

/// Height of an optional subtree: 0 when absent, recomputed (not cached)
/// when present.
pub closed spec fn opt_height(t: Option<Box<AVLNode>>) -> nat
    decreases t,
{
    match t {
        None => 0,
        Some(n) => n.spec_height(),
    }
}

/// The set of values stored in an optional subtree.
pub closed spec fn opt_set(t: Option<Box<AVLNode>>) -> Set<i64>
    decreases t,
{
    match t {
        None => Set::empty(),
        Some(n) => n.as_set(),
    }
}

/// The values of an optional subtree in symmetric (in-order) order.
pub closed spec fn opt_seq(t: Option<Box<AVLNode>>) -> Seq<i64>
    decreases t,
{
    match t {
        None => Seq::empty(),
        Some(n) => n.in_order(),
    }
}

/// Cached heights agree with the recomputed ones throughout the subtree.
pub closed spec fn opt_heights_ok(t: Option<Box<AVLNode>>) -> bool
    decreases t,
{
    match t {
        None => true,
        Some(n) => n.heights_ok(),
    }
}

/// Every node of the subtree satisfies the AVL balance bound.
pub closed spec fn opt_balanced(t: Option<Box<AVLNode>>) -> bool
    decreases t,
{
    match t {
        None => true,
        Some(n) => n.balanced(),
    }
}

/// Every node of the subtree orders its children strictly around its value.
pub closed spec fn opt_ordered(t: Option<Box<AVLNode>>) -> bool
    decreases t,
{
    match t {
        None => true,
        Some(n) => n.ordered(),
    }
}

/// A structurally sound AVL subtree: ordered, cached heights correct,
/// balance bound respected everywhere.
pub closed spec fn opt_wf(t: Option<Box<AVLNode>>) -> bool {
    opt_ordered(t) && opt_heights_ok(t) && opt_balanced(t)
}

/// The larger of two heights.
pub open spec fn nat_max(a: nat, b: nat) -> nat {
    if a >= b {
        a
    } else {
        b
    }
}

impl AVLNode {
    /// The value stored at this node.
    pub closed spec fn spec_value(self) -> i64 {
        self.val
    }

    /// The child on the given side.
    pub closed spec fn spec_child(self, side: Side) -> Option<Box<AVLNode>> {
        match side {
            Side::Left => self.left,
            Side::Right => self.right,
        }
    }

    /// The recomputed height of the subtree rooted at this node.
    pub closed spec fn spec_height(self) -> nat
        decreases self,
    {
        1 + nat_max(opt_height(self.left), opt_height(self.right))
    }

    /// The set of values stored in the subtree rooted at this node.
    pub closed spec fn as_set(self) -> Set<i64>
        decreases self,
    {
        opt_set(self.left).union(opt_set(self.right)).insert(self.val)
    }

    /// The values of this subtree in symmetric (in-order) order.
    pub closed spec fn in_order(self) -> Seq<i64>
        decreases self,
    {
        opt_seq(self.left) + seq![self.val] + opt_seq(self.right)
    }

    /// The cached height equals the recomputed one, here and below.
    pub closed spec fn heights_ok(self) -> bool
        decreases self,
    {
        &&& self.height == self.spec_height()
        &&& opt_heights_ok(self.left)
        &&& opt_heights_ok(self.right)
    }

    /// The two subtree heights differ by at most one, here and below.
    pub closed spec fn balanced(self) -> bool
        decreases self,
    {
        &&& -1 <= opt_height(self.right) - opt_height(self.left) <= 1
        &&& opt_balanced(self.left)
        &&& opt_balanced(self.right)
    }

    /// Left values are smaller and right values larger than this node's
    /// value, here and below.
    pub closed spec fn ordered(self) -> bool
        decreases self,
    {
        &&& (forall|v: i64| opt_set(self.left).contains(v) ==> v < self.val)
        &&& (forall|v: i64| opt_set(self.right).contains(v) ==> v > self.val)
        &&& opt_ordered(self.left)
        &&& opt_ordered(self.right)
    }

    /// A structurally sound AVL subtree rooted at this node.
    pub closed spec fn wf(self) -> bool {
        self.ordered() && self.heights_ok() && self.balanced()
    }

    /// The value stored at this node.
    pub fn value(&self) -> (v: i64)
        ensures
            v == self.spec_value(),
    {
        self.val
    }

    /// Borrows the child on the given side.
    pub fn child(&self, side: Side) -> (c: &Option<Box<AVLNode>>)
        ensures
            *c == self.spec_child(side),
    {
        match side {
            Side::Left => &self.left,
            Side::Right => &self.right,
        }
    }

    /// The cached height of the child on the given side, 0 when absent.
    fn height(&self, side: Side) -> (h: usize)
        requires
            opt_heights_ok(self.spec_child(side)),
        ensures
            h == opt_height(self.spec_child(side)),
    {
        match self.child(side) {
            None => 0,
            Some(n) => n.height,
        }
    }

    /// Stores `1 + max(height(left), height(right))` in the cached height.
    fn update_height(&mut self)
        requires
            opt_heights_ok(old(self).left),
            opt_heights_ok(old(self).right),
            opt_height(old(self).left) < usize::MAX,
            opt_height(old(self).right) < usize::MAX,
        ensures
            final(self).val == old(self).val,
            final(self).left == old(self).left,
            final(self).right == old(self).right,
            final(self).heights_ok(),
            final(self).height == final(self).spec_height(),
    {
        let l = self.height(Side::Left);
        let r = self.height(Side::Right);
        self.height = 1 + if l >= r {
            l
        } else {
            r
        };
    }

    /// Signed balance factor: height of the right subtree minus height of
    /// the left one.
    fn balance_factor(&self) -> (bf: i8)
        requires
            opt_heights_ok(self.left),
            opt_heights_ok(self.right),
            -2 <= opt_height(self.right) - opt_height(self.left) <= 2,
        ensures
            bf as int == opt_height(self.right) - opt_height(self.left),
    {
        let left = self.height(Side::Left);
        let right = self.height(Side::Right);
        if left < right {
            (right - left) as i8
        } else {
            -((left - right) as i8)
        }
    }

    /// Recomputes this node's cached height, then, when the subtree heights
    /// differ by two, restores the balance bound with a single rotation, or
    /// with two when the heavy child leans the opposite way.
    #[verifier::rlimit(60)]
    fn rebalance(&mut self)
        requires
            opt_wf(old(self).left),
            opt_wf(old(self).right),
            forall|v: i64| opt_set(old(self).left).contains(v) ==> v < old(self).val,
            forall|v: i64| opt_set(old(self).right).contains(v) ==> v > old(self).val,
            -2 <= opt_height(old(self).right) - opt_height(old(self).left) <= 2,
            opt_height(old(self).left) <= usize::MAX - 2,
            opt_height(old(self).right) <= usize::MAX - 2,
        ensures
            final(self).wf(),
            final(self).as_set() == old(self).as_set(),
            nat_max(opt_height(old(self).left), opt_height(old(self).right))
                <= final(self).spec_height(),
            final(self).spec_height()
                <= 1 + nat_max(opt_height(old(self).left), opt_height(old(self).right)),
            (-1 <= opt_height(old(self).right) - opt_height(old(self).left) <= 1)
                ==> final(self).spec_height()
                    == 1 + nat_max(opt_height(old(self).left), opt_height(old(self).right)),
            (-1 <= opt_height(old(self).right) - opt_height(old(self).left) <= 1)
                ==> final(self).val == old(self).val && final(self).left == old(
                self,
            ).left && final(self).right == old(self).right,
            opt_height(old(self).left) == opt_height(old(self).right) + 2 ==> ({
                let l = old(self).left->Some_0;
                if opt_height(l.right) <= opt_height(l.left) {
                    // a straight imbalance: one single rotation
                    &&& final(self).val == l.val
                    &&& final(self).left == l.left
                    &&& final(self).right matches Some(d) && d.val == old(self).val
                        && d.left == l.right && d.right == old(self).right
                } else {
                    // a zig-zag imbalance: a double rotation
                    let b = l.right->Some_0;
                    &&& final(self).val == b.val
                    &&& final(self).left matches Some(p) && p.val == l.val && p.left
                        == l.left && p.right == b.left
                    &&& final(self).right matches Some(d) && d.val == old(self).val
                        && d.left == b.right && d.right == old(self).right
                }
            }),
            opt_height(old(self).right) == opt_height(old(self).left) + 2 ==> ({
                let l = old(self).right->Some_0;
                if opt_height(l.left) <= opt_height(l.right) {
                    // a straight imbalance: one single rotation
                    &&& final(self).val == l.val
                    &&& final(self).right == l.right
                    &&& final(self).left matches Some(d) && d.val == old(self).val
                        && d.right == l.left && d.left == old(self).left
                } else {
                    // a zig-zag imbalance: a double rotation
                    let b = l.left->Some_0;
                    &&& final(self).val == b.val
                    &&& final(self).right matches Some(p) && p.val == l.val && p.right
                        == l.right && p.left == b.right
                    &&& final(self).left matches Some(d) && d.val == old(self).val
                        && d.right == b.left && d.left == old(self).left
                }
            }),
            *final(self) == spec_rebalance(*old(self)),
    {
        let ghost hl = opt_height(old(self).left);
        let ghost hr = opt_height(old(self).right);
        self.update_height();
        let bf = self.balance_factor();
        let side: Side;
        if bf == -2 {
            side = Side::Left;
        } else if bf == 2 {
            side = Side::Right;
        } else {
            proof {
                assert(old(self).ordered());
                assert(self.ordered());
                assert(self.balanced());
                assert(self.as_set() =~= old(self).as_set());
                assert(*self == spec_rebalance(*old(self)));
            }
            return ;
        }
        match side {
            Side::Left => {
                // the left subtree is two levels taller: hl == hr + 2
                let mut subtree: Box<AVLNode> = self.left.take().unwrap();
                let ghost sub0 = *subtree;
                let ghost ha = opt_height(sub0.left);
                let ghost hb = opt_height(sub0.right);
                let ghost b = if sub0.right is Some {
                    *sub0.right->Some_0
                } else {
                    sub0
                };
                let ghost hb1 = opt_height(b.left);
                let ghost hb2 = opt_height(b.right);
                proof {
                    assert(sub0.balanced() && sub0.ordered() && sub0.heights_ok());
                    assert(hl == 1 + nat_max(ha, hb));
                }
                if subtree.balance_factor() == 1 {
                    // left child leans right: rotate it left first
                    proof {
                        assert(subtree.right is Some) by {
                            if subtree.right is None {
                                assert(opt_height(sub0.right) == 0);
                            }
                        }
                        assert(hb == 1 + nat_max(hb1, hb2));
                        assert(b.balanced());
                        assert(nat_max(hb1, hb2) == ha);
                    }
                    subtree.rotate(Side::Left);
                    proof {
                        assert(subtree.left is Some);
                        let inner = *subtree.left->Some_0;
                        assert(inner.val == sub0.val && inner.left == sub0.left
                            && inner.right == b.left);
                        assert(opt_height(subtree.left) == 1 + nat_max(ha, hb1));
                        assert(opt_height(subtree.left) == ha + 1);
                        assert(inner.balanced());
                        assert(subtree.right == b.right);
                        assert(subtree.spec_height() == 1 + nat_max(ha + 1, hb2));
                        assert(subtree.spec_height() == sub0.spec_height());
                        assert(subtree.as_set() =~= sub0.as_set());
                    }
                }
                let ghost sf = *subtree;
                proof {
                    assert(subtree.ordered() && subtree.heights_ok());
                    assert(sf.spec_height() == hl);
                }
                self.left = Some(subtree);
                proof {
                    assert(old(self).ordered());
                    assert(opt_set(self.left) == sf.as_set());
                    assert(sf.as_set() == sub0.as_set());
                    assert(opt_set(old(self).left) == sub0.as_set());
                    assert(self.ordered());
                    assert(self.as_set() =~= old(self).as_set());
                }
                let ghost mid = *self;
                self.rotate(Side::Right);
                proof {
                    assert(self.right is Some);
                    let d = *self.right->Some_0;
                    assert(d.val == old(self).val && d.left == sf.right && d.right
                        == old(self).right);
                    assert(self.left == sf.left);
                    assert(opt_height(self.right) == 1 + nat_max(
                        opt_height(sf.right),
                        hr,
                    ));
                    if hb == ha + 1 {
                        // the double-rotation case: both halves end at equal height
                        assert(sf.right == b.right);
                        assert(opt_height(sf.left) == ha + 1);
                        assert(-1 <= hb2 - hb1 <= 1);
                        assert(nat_max(hb1, hb2) == ha);
                        assert(d.balanced());
                        assert(self.balanced());
                    } else {
                        // the single-rotation case: the outer subtree was as
                        // tall as or taller than the inner one
                        assert(sf == sub0);
                        assert(ha == hr + 1);
                        assert(d.balanced());
                        assert(self.balanced());
                    }
                    assert(self.as_set() =~= old(self).as_set());
                    // the whole pass equals its functional description
                    let m0 = AVLNode {
                        height: (1 + nat_max(hl, hr)) as usize,
                        ..*old(self)
                    };
                    if hb == ha + 1 {
                        assert(sf == spec_rotate(sub0, Side::Left));
                        assert(mid == AVLNode {
                            left: Some(Box::new(spec_rotate(sub0, Side::Left))),
                            ..m0
                        });
                    } else {
                        assert(mid == m0);
                    }
                    assert(*self == spec_rebalance(*old(self)));
                }
            },
            Side::Right => {
                // the right subtree is two levels taller: hr == hl + 2
                let mut subtree: Box<AVLNode> = self.right.take().unwrap();
                let ghost sub0 = *subtree;
                let ghost ha = opt_height(sub0.right);
                let ghost hb = opt_height(sub0.left);
                let ghost b = if sub0.left is Some {
                    *sub0.left->Some_0
                } else {
                    sub0
                };
                let ghost hb1 = opt_height(b.right);
                let ghost hb2 = opt_height(b.left);
                proof {
                    assert(sub0.balanced() && sub0.ordered() && sub0.heights_ok());
                    assert(hr == 1 + nat_max(ha, hb));
                }
                if subtree.balance_factor() == -1 {
                    // right child leans left: rotate it right first
                    proof {
                        assert(subtree.left is Some) by {
                            if subtree.left is None {
                                assert(opt_height(sub0.left) == 0);
                            }
                        }
                        assert(hb == 1 + nat_max(hb1, hb2));
                        assert(b.balanced());
                        assert(nat_max(hb1, hb2) == ha);
                    }
                    subtree.rotate(Side::Right);
                    proof {
                        assert(subtree.right is Some);
                        let inner = *subtree.right->Some_0;
                        assert(inner.val == sub0.val && inner.right == sub0.right
                            && inner.left == b.right);
                        assert(opt_height(subtree.right) == 1 + nat_max(ha, hb1));
                        assert(opt_height(subtree.right) == ha + 1);
                        assert(inner.balanced());
                        assert(subtree.left == b.left);
                        assert(subtree.spec_height() == 1 + nat_max(ha + 1, hb2));
                        assert(subtree.spec_height() == sub0.spec_height());
                        assert(subtree.as_set() =~= sub0.as_set());
                    }
                }
                let ghost sf = *subtree;
                proof {
                    assert(subtree.ordered() && subtree.heights_ok());
                    assert(sf.spec_height() == hr);
                }
                self.right = Some(subtree);
                proof {
                    assert(old(self).ordered());
                    assert(opt_set(self.right) == sf.as_set());
                    assert(sf.as_set() == sub0.as_set());
                    assert(opt_set(old(self).right) == sub0.as_set());
                    assert(self.ordered());
                    assert(self.as_set() =~= old(self).as_set());
                }
                let ghost mid = *self;
                self.rotate(Side::Left);
                proof {
                    assert(self.left is Some);
                    let d = *self.left->Some_0;
                    assert(d.val == old(self).val && d.right == sf.left && d.left
                        == old(self).left);
                    assert(self.right == sf.right);
                    assert(opt_height(self.left) == 1 + nat_max(
                        opt_height(sf.left),
                        hl,
                    ));
                    if hb == ha + 1 {
                        // the double-rotation case: both halves end at equal height
                        assert(sf.left == b.left);
                        assert(opt_height(sf.right) == ha + 1);
                        assert(-1 <= hb2 - hb1 <= 1);
                        assert(nat_max(hb1, hb2) == ha);
                        assert(d.balanced());
                        assert(self.balanced());
                    } else {
                        // the single-rotation case: the outer subtree was as
                        // tall as or taller than the inner one
                        assert(sf == sub0);
                        assert(ha == hl + 1);
                        assert(d.balanced());
                        assert(self.balanced());
                    }
                    assert(self.as_set() =~= old(self).as_set());
                    // the whole pass equals its functional description
                    let m0 = AVLNode {
                        height: (1 + nat_max(hl, hr)) as usize,
                        ..*old(self)
                    };
                    if hb == ha + 1 {
                        assert(sf == spec_rotate(sub0, Side::Right));
                        assert(mid == AVLNode {
                            right: Some(Box::new(spec_rotate(sub0, Side::Right))),
                            ..m0
                        });
                    } else {
                        assert(mid == m0);
                    }
                    assert(*self == spec_rebalance(*old(self)));
                }
            },
        }
    }

    /// Re-roots this subtree at the child opposite `side`; that child's
    /// subtree on `side` moves over to the demoted node. In-order order of
    /// the values is preserved while the subtree that held the imbalance
    /// moves one level up or down.
    #[verifier::rlimit(60)]
    fn rotate(&mut self, side: Side)
        requires
            old(self).spec_child(side.spec_opposite()) is Some,
            opt_heights_ok(old(self).left),
            opt_heights_ok(old(self).right),
            old(self).ordered(),
            old(self).spec_height() < usize::MAX,
        ensures
            final(self).ordered(),
            final(self).heights_ok(),
            final(self).as_set() == old(self).as_set(),
            side is Right ==> ({
                let promoted = old(self).left->Some_0;
                &&& final(self).val == promoted.val
                &&& final(self).left == promoted.left
                &&& final(self).right matches Some(demoted)
                    && demoted.val == old(self).val
                    && demoted.left == promoted.right
                    && demoted.right == old(self).right
            }),
            side is Left ==> ({
                let promoted = old(self).right->Some_0;
                &&& final(self).val == promoted.val
                &&& final(self).right == promoted.right
                &&& final(self).left matches Some(demoted)
                    && demoted.val == old(self).val
                    && demoted.right == promoted.left
                    && demoted.left == old(self).left
            }),
            *final(self) == spec_rotate(*old(self), side),
    {
        match side {
            Side::Right => {
                let mut subtree: Box<AVLNode> = self.left.take().unwrap();
                self.left = subtree.right.take();
                self.update_height();
                core::mem::swap(self, &mut *subtree);
                self.right = Some(subtree);
                self.update_height();
                proof {
                    let n0 = *old(self);
                    let p0 = *n0.left->Some_0;
                    let d = *self.right->Some_0;
                    assert(n0.ordered());
                    assert(opt_ordered(n0.left));
                    assert(p0.ordered());
                    assert(opt_set(n0.left) == p0.as_set());
                    assert(p0.as_set().contains(p0.val));
                    assert(d.val == n0.val);
                    assert(d.left == p0.right);
                    assert(d.right == n0.right);
                    assert(opt_set(self.right) == d.as_set());
                    assert(d.as_set() =~= opt_set(p0.right).union(opt_set(n0.right))
                        .insert(n0.val));
                    assert(self.as_set() =~= n0.as_set());
                    assert forall|v: i64| opt_set(d.left).contains(v) implies v
                        < d.val by {
                        assert(p0.as_set().contains(v));
                    }
                    assert forall|v: i64| opt_set(d.right).contains(v) implies v
                        > d.val by {
                        assert(opt_set(n0.right).contains(v));
                    }
                    assert(d.ordered());
                    assert forall|v: i64|
                        opt_set(self.right).contains(v) implies v > self.val by {
                        if opt_set(p0.right).contains(v) {
                            assert(p0.as_set().contains(v));
                        } else if opt_set(n0.right).contains(v) {
                            assert(p0.val < n0.val);
                        } else {
                            assert(v == n0.val);
                            assert(p0.val < n0.val);
                        }
                    }
                    assert(self.ordered());
                    assert(d == *spec_rotate(n0, side).right->Some_0);
                    assert(*self == spec_rotate(n0, side));
                }
            },
            Side::Left => {
                let mut subtree: Box<AVLNode> = self.right.take().unwrap();
                self.right = subtree.left.take();
                self.update_height();
                core::mem::swap(self, &mut *subtree);
                self.left = Some(subtree);
                self.update_height();
                proof {
                    let n0 = *old(self);
                    let p0 = *n0.right->Some_0;
                    let d = *self.left->Some_0;
                    assert(n0.ordered());
                    assert(opt_ordered(n0.right));
                    assert(p0.ordered());
                    assert(opt_set(n0.right) == p0.as_set());
                    assert(p0.as_set().contains(p0.val));
                    assert(d.val == n0.val);
                    assert(d.right == p0.left);
                    assert(d.left == n0.left);
                    assert(opt_set(self.left) == d.as_set());
                    assert(d.as_set() =~= opt_set(n0.left).union(opt_set(p0.left))
                        .insert(n0.val));
                    assert(self.as_set() =~= n0.as_set());
                    assert forall|v: i64| opt_set(d.right).contains(v) implies v
                        > d.val by {
                        assert(p0.as_set().contains(v));
                    }
                    assert forall|v: i64| opt_set(d.left).contains(v) implies v
                        < d.val by {
                        assert(opt_set(n0.left).contains(v));
                    }
                    assert(d.ordered());
                    assert forall|v: i64|
                        opt_set(self.left).contains(v) implies v < self.val by {
                        if opt_set(p0.left).contains(v) {
                            assert(p0.as_set().contains(v));
                        } else if opt_set(n0.left).contains(v) {
                            assert(p0.val > n0.val);
                        } else {
                            assert(v == n0.val);
                            assert(p0.val > n0.val);
                        }
                    }
                    assert(self.ordered());
                    assert(d == *spec_rotate(n0, side).left->Some_0);
                    assert(*self == spec_rotate(n0, side));
                }
            },
        }
    }
}

/// Inserts `val` into the subtree unless it is already present; reports
/// whether a node was added. The subtree stays a well-formed AVL tree and
/// grows in height by at most one; when the value was present already the
/// subtree is left exactly as it was.
#[verifier::rlimit(100)]
#[verifier::spinoff_prover]
fn insert(tree: &mut Option<Box<AVLNode>>, val: i64) -> (inserted: bool)
    requires
        opt_wf(*old(tree)),
        opt_height(*old(tree)) <= usize::MAX - 2,
    ensures
        opt_wf(*final(tree)),
        opt_set(*final(tree)) == opt_set(*old(tree)).insert(val),
        inserted == !opt_set(*old(tree)).contains(val),
        opt_height(*old(tree)) <= opt_height(*final(tree)),
        opt_height(*final(tree)) <= opt_height(*old(tree)) + 1,
        !inserted ==> *final(tree) == *old(tree),
        *final(tree) == spec_insert(*old(tree), val),
    decreases *old(tree),
{
    match tree.take() {
        None => {
            *tree = Some(
                Box::new(AVLNode { val, left: None, right: None, height: 1 }),
            );
            proof {
                assert(opt_set(*tree) =~= opt_set(*old(tree)).insert(val));
                assert(*tree == spec_insert(*old(tree), val));
            }
            true
        },
        Some(mut node) => {
            let ghost n0 = *node;
            proof {
                assert(opt_set(*old(tree)) == n0.as_set());
                assert(n0.ordered() && n0.heights_ok() && n0.balanced());
                assert(opt_height(*old(tree)) == n0.spec_height());
            }
            let inserted: bool;
            if val == node.val {
                inserted = false;
                proof {
                    assert(n0.as_set().contains(val));
                }
            } else if val < node.val {
                inserted = insert(&mut node.left, val);
                proof {
                    if opt_set(n0.right).contains(val) {
                        assert(val > n0.val);
                    }
                    assert(n0.as_set().contains(val) == opt_set(n0.left).contains(
                        val,
                    ));
                }
            } else {
                inserted = insert(&mut node.right, val);
                proof {
                    if opt_set(n0.left).contains(val) {
                        assert(val < n0.val);
                    }
                    assert(n0.as_set().contains(val) == opt_set(n0.right).contains(
                        val,
                    ));
                }
            }
            let ghost pre = *node;
            if inserted {
                node.rebalance();
            }
            proof {
                assert(node.as_set() =~= opt_set(*old(tree)).insert(val));
            }
            *tree = Some(node);
            proof {
                if inserted {
                    if val < n0.val {
                        assert(pre == AVLNode { left: spec_insert(n0.left, val), ..n0 });
                    } else {
                        assert(pre == AVLNode {
                            right: spec_insert(n0.right, val),
                            ..n0
                        });
                    }
                    assert(*node == spec_rebalance(pre));
                } else {
                    assert(*tree == *old(tree));
                }
                assert(*tree == spec_insert(*old(tree), val));
            }
            inserted
        },
    }
}

/// Removes `val` from the subtree when present; reports whether a node was
/// deleted. The subtree stays a well-formed AVL tree and shrinks in height
/// by at most one; when the value was absent the subtree is left exactly
/// as it was.
#[verifier::rlimit(60)]
fn remove(tree: &mut Option<Box<AVLNode>>, val: i64) -> (removed: bool)
    requires
        opt_wf(*old(tree)),
        opt_height(*old(tree)) <= usize::MAX - 2,
    ensures
        opt_wf(*final(tree)),
        opt_set(*final(tree)) == opt_set(*old(tree)).remove(val),
        removed == opt_set(*old(tree)).contains(val),
        opt_height(*final(tree)) <= opt_height(*old(tree)),
        opt_height(*old(tree)) <= opt_height(*final(tree)) + 1,
        !removed ==> *final(tree) == *old(tree),
    decreases *old(tree),
{
    match tree.take() {
        None => {
            proof {
                assert(opt_set(*old(tree)).remove(val) =~= opt_set(*old(tree)));
            }
            false
        },
        Some(mut node) => {
            let ghost n0 = *node;
            proof {
                assert(opt_set(*old(tree)) == n0.as_set());
                assert(n0.ordered() && n0.heights_ok() && n0.balanced());
                assert(opt_height(*old(tree)) == n0.spec_height());
                assert(n0.as_set().contains(n0.val));
            }
            if val < node.val {
                let removed = remove(&mut node.left, val);
                if removed {
                    node.rebalance();
                }
                proof {
                    if opt_set(n0.right).contains(val) {
                        assert(val > n0.val);
                    }
                    assert(n0.as_set().contains(val) == opt_set(n0.left).contains(
                        val,
                    ));
                    assert(node.as_set() =~= opt_set(*old(tree)).remove(val));
                }
                *tree = Some(node);
                removed
            } else if val > node.val {
                let removed = remove(&mut node.right, val);
                if removed {
                    node.rebalance();
                }
                proof {
                    if opt_set(n0.left).contains(val) {
                        assert(val < n0.val);
                    }
                    assert(n0.as_set().contains(val) == opt_set(n0.right).contains(
                        val,
                    ));
                    assert(node.as_set() =~= opt_set(*old(tree)).remove(val));
                }
                *tree = Some(node);
                removed
            } else {
                let l = node.left.take();
                let r = node.right.take();
                proof {
                    assert(opt_set(l) == opt_set(n0.left));
                    assert(opt_set(r) == opt_set(n0.right));
                }
                match (l, r) {
                    (None, None) => {
                        *tree = None;
                    },
                    (Some(left), None) => {
                        *tree = Some(left);
                    },
                    (None, Some(right)) => {
                        *tree = Some(right);
                    },
                    (Some(left), Some(right)) => {
                        proof {
                            assert(opt_wf(n0.left) && opt_wf(n0.right));
                            assert(left.wf() && right.wf());
                            assert(left.spec_height() == opt_height(n0.left));
                            assert(right.spec_height() == opt_height(n0.right));
                            assert forall|a: i64, b: i64|
                                left.as_set().contains(a) && right.as_set().contains(
                                    b,
                                ) implies a < b by {
                                assert(a < n0.val);
                                assert(b > n0.val);
                            }
                        }
                        *tree = Some(merge(left, right));
                    },
                }
                proof {
                    assert(!opt_set(n0.left).contains(n0.val));
                    assert(!opt_set(n0.right).contains(n0.val));
                    assert(opt_set(*tree) =~= opt_set(*old(tree)).remove(val));
                }
                true
            }
        },
    }
}

/// Joins two AVL subtrees whose heights differ by at most one and whose
/// value ranges do not overlap: the smallest value of the right subtree
/// becomes the new root, with the left subtree and the remainder of the
/// right subtree as its children. When detaching the minimum leaves the
/// left side two levels taller, the closing rebalance promotes a left
/// value over it.
#[verifier::rlimit(60)]
fn merge(left: Box<AVLNode>, right: Box<AVLNode>) -> (merged: Box<AVLNode>)
    requires
        left.wf(),
        right.wf(),
        forall|a: i64, b: i64|
            left.as_set().contains(a) && right.as_set().contains(b) ==> a < b,
        -1 <= right.spec_height() - left.spec_height() <= 1,
        left.spec_height() <= usize::MAX - 2,
        right.spec_height() <= usize::MAX - 2,
    ensures
        merged.wf(),
        merged.as_set() == left.as_set().union(right.as_set()),
        nat_max(left.spec_height(), right.spec_height()) <= merged.spec_height(),
        merged.spec_height() <= 1 + nat_max(left.spec_height(), right.spec_height()),
        (right.as_set().contains(merged.spec_value()) && (forall|v: i64|
            right.as_set().contains(v) ==> merged.spec_value() <= v))
            || left.as_set().contains(merged.spec_value()),
        left.spec_height() <= right.spec_height() ==> (right.as_set().contains(
            merged.spec_value(),
        ) && (forall|v: i64|
            right.as_set().contains(v) ==> merged.spec_value() <= v)),
{
    let mut op_right: Option<Box<AVLNode>> = Some(right);
    proof {
        assert(opt_set(op_right) == right.as_set());
        assert(opt_height(op_right) == right.spec_height());
    }
    let min = take_min(&mut op_right);
    let ghost rrest = op_right;
    let mut root: AVLNode = *min.unwrap();
    let ghost m = root;
    proof {
        assert(right.as_set().contains(m.val));
    }
    root.left = Some(left);
    root.right = op_right;
    proof {
        assert(opt_set(root.left) == left.as_set());
        assert(opt_set(root.right) == right.as_set().remove(m.val));
        assert(opt_wf(root.left) && opt_wf(root.right));
        assert forall|v: i64| opt_set(root.left).contains(v) implies v < root.val by {
            assert(right.as_set().contains(m.val));
        }
        assert forall|v: i64| opt_set(root.right).contains(v) implies v
            > root.val by {
            assert(right.as_set().contains(v));
        }
        assert(opt_height(root.left) == left.spec_height());
    }
    let ghost pre = root;
    root.rebalance();
    proof {
        assert(root.as_set() =~= left.as_set().union(right.as_set()));
        // which value ends at the root: the detached minimum stays there
        // unless the left subtree was two levels taller after the
        // detachment, in which case a rotation promotes a left value
        let hl = left.spec_height();
        let hrest = opt_height(pre.right);
        assert(hrest + 1 >= right.spec_height());
        if -1 <= hrest - hl <= 1 {
            assert(root.val == m.val);
        } else {
            assert(hl == hrest + 2);
            let l = pre.left->Some_0;
            assert(l == left);
            if opt_height(l.right) <= opt_height(l.left) {
                assert(root.val == l.val);
                assert(left.as_set().contains(root.val));
            } else {
                let b = l.right->Some_0;
                assert(root.val == b.val);
                assert(b.as_set().contains(b.val));
                assert(opt_set(l.right).contains(b.val));
                assert(left.as_set().contains(root.val));
            }
        }
        if hl <= right.spec_height() {
            assert(-1 <= hrest - hl <= 1);
            assert(root.val == m.val);
        }
    }
    Box::new(root)
}

/// Detaches and returns the node with the smallest value of the subtree;
/// the returned node comes back with both children absent. Returns `None`
/// exactly when the subtree is empty.
#[verifier::rlimit(60)]
fn take_min(tree: &mut Option<Box<AVLNode>>) -> (min: Option<Box<AVLNode>>)
    requires
        opt_wf(*old(tree)),
        opt_height(*old(tree)) <= usize::MAX - 2,
    ensures
        min is Some <==> *old(tree) is Some,
        opt_wf(*final(tree)),
        min matches Some(m) ==> ({
            &&& m.left is None
            &&& m.right is None
            &&& opt_set(*old(tree)).contains(m.val)
            &&& forall|v: i64| opt_set(*old(tree)).contains(v) ==> v == m.val || m.val < v
            &&& opt_set(*final(tree)) == opt_set(*old(tree)).remove(m.val)
            &&& opt_height(*final(tree)) <= opt_height(*old(tree))
            &&& opt_height(*old(tree)) <= opt_height(*final(tree)) + 1
        }),
        min is None ==> *final(tree) == *old(tree),
    decreases *old(tree),
{
    match tree.take() {
        None => None,
        Some(mut node) => {
            let ghost n0 = *node;
            proof {
                assert(opt_set(*old(tree)) == n0.as_set());
                assert(n0.ordered() && n0.heights_ok() && n0.balanced());
                assert(opt_height(*old(tree)) == n0.spec_height());
            }
            let small = take_min(&mut node.left);
            match small {
                Some(small_node) => {
                    node.rebalance();
                    proof {
                        assert(opt_set(n0.left).contains(small_node.val));
                        assert(small_node.val < n0.val);
                        if opt_set(n0.right).contains(small_node.val) {
                            assert(small_node.val > n0.val);
                        }
                        assert(node.as_set() =~= opt_set(*old(tree)).remove(
                            small_node.val,
                        ));
                        assert forall|v: i64|
                            opt_set(*old(tree)).contains(v) implies v
                            == small_node.val || small_node.val < v by {
                            if opt_set(n0.left).contains(v) {
                            } else if v == n0.val {
                            } else {
                                assert(opt_set(n0.right).contains(v));
                                assert(v > n0.val);
                            }
                        }
                    }
                    *tree = Some(node);
                    Some(small_node)
                },
                None => {
                    // the left subtree is empty, so this node is the minimum
                    proof {
                        assert(n0.left is None);
                        assert(opt_set(n0.left) == Set::<i64>::empty());
                    }
                    *tree = node.right.take();
                    proof {
                        assert(opt_set(*tree) == opt_set(n0.right));
                        assert(!opt_set(n0.right).contains(n0.val));
                        assert(opt_set(*tree) =~= opt_set(*old(tree)).remove(node.val));
                        assert forall|v: i64|
                            opt_set(*old(tree)).contains(v) implies v == n0.val
                            || n0.val < v by {
                            if v != n0.val {
                                assert(opt_set(n0.right).contains(v));
                            }
                        }
                        assert(opt_height(*old(tree)) == 1 + opt_height(n0.right));
                    }
                    Some(node)
                },
            }
        },
    }
}

/// An ordered subtree lists exactly its value set in symmetric order,
/// strictly ascending; in particular the sequence is as long as the set.
proof fn lemma_in_order_props(t: Option<Box<AVLNode>>)
    requires
        opt_ordered(t),
    ensures
        opt_seq(t).to_set() == opt_set(t),
        opt_set(t).finite(),
        opt_seq(t).len() == opt_set(t).len(),
        forall|i: int, j: int|
            0 <= i < j < opt_seq(t).len() ==> opt_seq(t)[i] < opt_seq(t)[j],
    decreases t,
{
    match t {
        None => {
            assert(opt_seq(t).to_set() =~= opt_set(t));
        },
        Some(n) => {
            lemma_in_order_props(n.left);
            lemma_in_order_props(n.right);
            let ls = opt_seq(n.left);
            let rs = opt_seq(n.right);
            let s = n.in_order();
            let m = ls.len() as int;
            assert(s == ls + seq![n.val] + rs);
            assert forall|x: i64| s.to_set().contains(x) implies n.as_set().contains(
                x,
            ) by {
                let i = choose|i: int| 0 <= i < s.len() && s[i] == x;
                if i < m {
                    assert(ls.to_set().contains(ls[i]));
                } else if i > m {
                    assert(rs.to_set().contains(rs[i - m - 1]));
                }
            }
            assert forall|x: i64| n.as_set().contains(x) implies s.to_set().contains(
                x,
            ) by {
                if opt_set(n.left).contains(x) {
                    let i = choose|i: int| 0 <= i < ls.len() && ls[i] == x;
                    assert(s[i] == x);
                } else if opt_set(n.right).contains(x) {
                    let i = choose|i: int| 0 <= i < rs.len() && rs[i] == x;
                    assert(s[m + 1 + i] == x);
                } else {
                    assert(s[m] == x);
                }
                assert(s.contains(x));
            }
            assert(s.to_set() =~= n.as_set());
            assert forall|i: int, j: int| 0 <= i < j < s.len() implies s[i] < s[j] by {
                if i < m {
                    assert(ls.to_set().contains(ls[i]));
                }
                if j > m {
                    assert(rs.to_set().contains(rs[j - m - 1]));
                }
            }
            assert(s.no_duplicates()) by {
                assert forall|i: int, j: int|
                    0 <= i < s.len() && 0 <= j < s.len() && i != j implies s[i]
                    != s[j] by {
                    if i < j {
                        assert(s[i] < s[j]);
                    } else {
                        assert(s[j] < s[i]);
                    }
                }
            }
            s.unique_seq_to_set();
        },
    }
}

/// A balanced subtree of height `h` holds at least `2^((h + 1) / 2) - 1`
/// values, so bounded storage forces logarithmic height.
proof fn lemma_balanced_height_card(t: Option<Box<AVLNode>>)
    requires
        opt_ordered(t),
        opt_balanced(t),
    ensures
        opt_set(t).finite(),
        opt_set(t).len() + 1 >= pow2((opt_height(t) + 1) / 2),
    decreases t,
{
    lemma_in_order_props(t);
    match t {
        None => {
            lemma2_to64();
        },
        Some(n) => {
            lemma_balanced_height_card(n.left);
            lemma_balanced_height_card(n.right);
            lemma_in_order_props(n.left);
            lemma_in_order_props(n.right);
            let hl = opt_height(n.left);
            let hr = opt_height(n.right);
            let cl = opt_set(n.left).len();
            let cr = opt_set(n.right).len();
            let h = opt_height(t);
            assert(h == 1 + nat_max(hl, hr));
            assert(opt_seq(t).len() == opt_seq(n.left).len() + 1 + opt_seq(n.right).len());
            assert(opt_set(t).len() == cl + 1 + cr);
            let big = nat_max(hl, hr);
            let small = if hl >= hr {
                hr
            } else {
                hl
            };
            // the shorter side is at most one level shorter
            assert(small + 1 >= big);
            assert((small + 1) / 2 >= big / 2);
            if (small + 1) / 2 > big / 2 {
                lemma_pow2_strictly_increases(big / 2, (small + 1) / 2);
            }
            assert(pow2((small + 1) / 2) >= pow2(big / 2));
            // split on the parity of the taller side's height
            if big % 2 == 0 {
                vstd::arithmetic::power2::lemma_pow2_adds(big / 2, 1);
                lemma2_to64();
                assert(pow2(big / 2 + 1) == pow2(big / 2) * 2);
                assert((big + 1) / 2 == big / 2);
                assert((h + 1) / 2 == big / 2 + 1);
            } else {
                assert((big + 1) / 2 == (h + 1) / 2);
            }
            assert(cl + 1 + cr + 1 >= pow2((big + 1) / 2) + pow2(big / 2));
            assert(opt_set(t).len() + 1 >= pow2((h + 1) / 2));
        },
    }
}

/// A well-formed AVL tree that fits in memory is shallow: with at most
/// `usize::MAX` stored values its height cannot exceed 128.
proof fn lemma_height_bounded(t: Option<Box<AVLNode>>)
    requires
        opt_ordered(t),
        opt_balanced(t),
        opt_set(t).len() <= usize::MAX,
    ensures
        opt_height(t) <= 128,
{
    if opt_height(t) > 128 {
        lemma_balanced_height_card(t);
        lemma2_to64();
        lemma_pow2_strictly_increases(64, (opt_height(t) + 1) / 2);
        assert(false);
    }
}

/// The balanced search tree: an optional root node and the stored element
/// count. The view of a tree is the set of values it holds.
#[derive(Debug)]
pub struct AVLTree {
    root: Option<Box<AVLNode>>,
    length: usize,
}

impl View for AVLTree {
    type V = Set<i64>;

    closed spec fn view(&self) -> Set<i64> {
        opt_set(self.root)
    }
}

impl AVLTree {
    /// Every reachable tree is a well-formed AVL tree whose stored count
    /// equals the number of values in it.
    #[verifier::type_invariant]
    spec fn inv(self) -> bool {
        &&& opt_wf(self.root)
        &&& opt_set(self.root).finite()
        &&& self.length == opt_set(self.root).len()
    }

    /// The root subtree, as a specification-level value.
    pub closed spec fn spec_root(self) -> Option<Box<AVLNode>> {
        self.root
    }

    /// The stored values in ascending order.
    pub closed spec fn in_order(self) -> Seq<i64> {
        opt_seq(self.root)
    }

    /// Returns an empty tree.
    pub fn new() -> (t: Self)
        ensures
            t@ == Set::<i64>::empty(),
            t@.len() == 0,
            t.spec_root() is None,
    {
        AVLTree { root: None, length: 0 }
    }

    /// Inserts `val` unless an equal value is already present; reports
    /// whether the tree changed. A second insertion of the same value
    /// returns `false` and leaves the tree exactly as it was.
    pub fn insert(&mut self, val: i64) -> (inserted: bool)
        requires
            old(self)@.len() < usize::MAX,
        ensures
            inserted == !old(self)@.contains(val),
            final(self)@ == old(self)@.insert(val),
            final(self)@.len() == old(self)@.len() + if inserted {
                1int
            } else {
                0int
            },
            !inserted ==> *final(self) == *old(self),
            final(self).spec_root() == spec_insert(old(self).spec_root(), val),
            opt_balanced(final(self).spec_root()),
            opt_heights_ok(final(self).spec_root()),
            opt_ordered(final(self).spec_root()),
    {
        proof {
            use_type_invariant(&*self);
        }
        let mut tree = AVLTree { root: None, length: 0 };
        core::mem::swap(self, &mut tree);
        let AVLTree { root: mut root, length } = tree;
        proof {
            lemma_height_bounded(root);
        }
        let inserted = insert(&mut root, val);
        let new_length = if inserted {
            length + 1
        } else {
            length
        };
        *self = AVLTree { root, length: new_length };
        inserted
    }

    /// Removes `val` when present; reports whether the tree changed.
    /// Removing an absent value (in particular, removing from an empty
    /// tree) returns `false` and leaves the tree exactly as it was.
    pub fn remove(&mut self, val: i64) -> (removed: bool)
        ensures
            removed == old(self)@.contains(val),
            final(self)@ == old(self)@.remove(val),
            final(self)@.len() == old(self)@.len() - if removed {
                1int
            } else {
                0int
            },
            !removed ==> *final(self) == *old(self),
            opt_balanced(final(self).spec_root()),
            opt_heights_ok(final(self).spec_root()),
            opt_ordered(final(self).spec_root()),
    {
        proof {
            use_type_invariant(&*self);
        }
        let mut tree = AVLTree { root: None, length: 0 };
        core::mem::swap(self, &mut tree);
        let AVLTree { root: mut root, length } = tree;
        proof {
            lemma_height_bounded(root);
        }
        let removed = remove(&mut root, val);
        let new_length = if removed {
            length - 1
        } else {
            length
        };
        *self = AVLTree { root, length: new_length };
        removed
    }

    /// True exactly when the tree holds no value.
    pub fn is_empty(&self) -> (r: bool)
        ensures
            r == (self@.len() == 0),
            r == (self.spec_root() is None),
    {
        proof {
            use_type_invariant(&*self);
            lemma_in_order_props(self.root);
        }
        self.length == 0
    }

    /// The number of stored values, equal to the number of nodes reachable
    /// from the root.
    pub fn size(&self) -> (n: usize)
        ensures
            n == self@.len(),
    {
        proof {
            use_type_invariant(&*self);
        }
        self.length
    }

    /// Borrows the root subtree for read-only inspection; a non-empty
    /// tree's root value is one of the stored values.
    pub fn root(&self) -> (r: &Option<Box<AVLNode>>)
        ensures
            *r == self.spec_root(),
            self.spec_root() matches Some(n) ==> self@.contains(n.spec_value()),
    {
        proof {
            use_type_invariant(&*self);
            if self.root is Some {
                let n = self.root->Some_0;
                assert(n.as_set().contains(n.val));
            }
        }
        &self.root
    }

    /// Returns an in-order traversal handle positioned before the smallest
    /// value; it yields the stored values in ascending order.
    pub fn iter(&self) -> (it: Iter)
        ensures
            it@ == self.in_order(),
            forall|i: int, j: int| 0 <= i < j < it@.len() ==> it@[i] < it@[j],
            it@.to_set() == self@,
            it@.len() == self@.len(),
    {
        proof {
            use_type_invariant(&*self);
            lemma_in_order_props(self.root);
        }
        let cap = match &self.root {
            None => 0,
            Some(n) => n.height,
        };
        let mut node_stack: Vec<&AVLNode> = Vec::with_capacity(cap);
        let mut child: &Option<Box<AVLNode>> = &self.root;
        proof {
            assert(opt_seq(*child) + stack_seq(node_stack@) =~= opt_seq(self.root));
        }
        while child.is_some()
            invariant
                opt_seq(*child) + stack_seq(node_stack@) == opt_seq(self.root),
            decreases *child,
        {
            let node: &Box<AVLNode> = child.as_ref().unwrap();
            let ghost prev_stack = node_stack@;
            node_stack.push(&**node);
            child = &node.left;
            proof {
                assert(node_stack@.drop_last() == prev_stack);
                assert(opt_seq(*child) + stack_seq(node_stack@) =~= opt_seq(
                    self.root,
                ));
            }
        }
        proof {
            assert(stack_seq(node_stack@) =~= opt_seq(self.root));
        }
        Iter { node_stack }
    }
}

/// The values still to be yielded by a stack of pending nodes: for each
/// entry, from the top of the stack down, its own value and then its right
/// subtree in symmetric order.
spec fn stack_seq(s: Seq<&AVLNode>) -> Seq<i64>
    decreases s.len(),
{
    if s.len() == 0 {
        Seq::empty()
    } else {
        seq![s.last().val] + opt_seq(s.last().right) + stack_seq(s.drop_last())
    }
}

/// A one-shot in-order traversal handle over a tree: a stack of the nodes
/// whose value has not been yielded yet, top first. The view is the
/// sequence of values still to come.
pub struct Iter<'a> {
    node_stack: Vec<&'a AVLNode>,
}

impl<'a> View for Iter<'a> {
    type V = Seq<i64>;

    closed spec fn view(&self) -> Seq<i64> {
        stack_seq(self.node_stack@)
    }
}

impl<'a> Iter<'a> {
    /// Yields the next value in ascending order, `None` when the traversal
    /// is exhausted.
    pub fn next(&mut self) -> (r: Option<&'a i64>)
        ensures
            old(self)@.len() == 0 ==> r is None && final(self)@ == old(self)@,
            old(self)@.len() > 0 ==> (r matches Some(v) && *v == old(self)@[0])
                && final(self)@ == old(self)@.drop_first(),
    {
        match self.node_stack.pop() {
            None => None,
            Some(node) => {
                let ghost base = stack_seq(self.node_stack@);
                proof {
                    assert(old(self)@ == seq![node.val] + opt_seq(node.right) + base);
                }
                let mut child: &Option<Box<AVLNode>> = &node.right;
                proof {
                    assert(opt_seq(*child) + stack_seq(self.node_stack@) =~= opt_seq(
                        node.right,
                    ) + base);
                }
                while child.is_some()
                    invariant
                        opt_seq(*child) + stack_seq(self.node_stack@) == opt_seq(
                            node.right,
                        ) + base,
                    decreases *child,
                {
                    let sub: &Box<AVLNode> = child.as_ref().unwrap();
                    let ghost prev_stack = self.node_stack@;
                    self.node_stack.push(&**sub);
                    child = &sub.left;
                    proof {
                        assert(self.node_stack@.drop_last() == prev_stack);
                        assert(opt_seq(*child) + stack_seq(self.node_stack@)
                            =~= opt_seq(node.right) + base);
                    }
                }
                proof {
                    assert(stack_seq(self.node_stack@) =~= opt_seq(node.right) + base);
                    assert(stack_seq(self.node_stack@) =~= old(self)@.drop_first());
                }
                Some(&node.val)
            },
        }
    }
}

/// The view reached by inserting the values of `vals` in order, leftmost
/// first, exactly as repeated calls of `insert` build it.
pub open spec fn insert_all(s: Set<i64>, vals: Seq<i64>) -> Set<i64>
    decreases vals.len(),
{
    if vals.len() == 0 {
        s
    } else {
        insert_all(s.insert(vals[0]), vals.drop_first())
    }
}

/// The view reached by removing the values of `vals` in order, leftmost
/// first, exactly as repeated calls of `remove` shrink it.
pub open spec fn remove_all(s: Set<i64>, vals: Seq<i64>) -> Set<i64>
    decreases vals.len(),
{
    if vals.len() == 0 {
        s
    } else {
        remove_all(s.remove(vals[0]), vals.drop_first())
    }
}

/// The set of values of a non-empty sequence: its first one and the rest.
proof fn lemma_to_set_drop_first(vals: Seq<i64>)
    requires
        vals.len() > 0,
    ensures
        vals.to_set() == vals.drop_first().to_set().insert(vals[0]),
{
    let rest = vals.drop_first();
    assert forall|x: i64| vals.to_set().contains(x) implies rest.to_set().insert(
        vals[0],
    ).contains(x) by {
        let i = choose|i: int| 0 <= i < vals.len() && vals[i] == x;
        if i > 0 {
            assert(rest[i - 1] == x);
            assert(rest.contains(x));
        }
    }
    assert forall|x: i64| rest.to_set().contains(x) implies vals.to_set().contains(
        x,
    ) by {
        let i = choose|i: int| 0 <= i < rest.len() && rest[i] == x;
        assert(vals[i + 1] == x);
        assert(vals.contains(x));
    }
    assert(vals.contains(vals[0]));
    assert(vals.to_set() =~= rest.to_set().insert(vals[0]));
}

/// Folded insertion adds exactly the values of the sequence.
proof fn lemma_insert_all(s: Set<i64>, vals: Seq<i64>)
    ensures
        insert_all(s, vals) == s.union(vals.to_set()),
    decreases vals.len(),
{
    if vals.len() == 0 {
        assert(vals.to_set() =~= Set::<i64>::empty());
        assert(insert_all(s, vals) =~= s.union(vals.to_set()));
    } else {
        lemma_insert_all(s.insert(vals[0]), vals.drop_first());
        lemma_to_set_drop_first(vals);
        assert(insert_all(s, vals) =~= s.union(vals.to_set()));
    }
}

/// Folded removal takes away exactly the values of the sequence.
proof fn lemma_remove_all(s: Set<i64>, vals: Seq<i64>)
    ensures
        remove_all(s, vals) == s.difference(vals.to_set()),
    decreases vals.len(),
{
    if vals.len() == 0 {
        assert(vals.to_set() =~= Set::<i64>::empty());
        assert(remove_all(s, vals) =~= s.difference(vals.to_set()));
    } else {
        lemma_remove_all(s.remove(vals[0]), vals.drop_first());
        lemma_to_set_drop_first(vals);
        assert(remove_all(s, vals) =~= s.difference(vals.to_set()));
    }
}

/// Round-trip law: inserting any sequence of values into an empty tree and
/// then removing each of them, in any order and however often repeated,
/// leaves the empty value set — the composition of the `insert` and
/// `remove` contracts, whose view changes are exactly `Set::insert` and
/// `Set::remove`.
pub proof fn lemma_round_trip(vals: Seq<i64>)
    ensures
        remove_all(insert_all(Set::<i64>::empty(), vals), vals) == Set::<i64>::empty(),
{
    lemma_insert_all(Set::<i64>::empty(), vals);
    lemma_remove_all(insert_all(Set::<i64>::empty(), vals), vals);
    assert(remove_all(insert_all(Set::<i64>::empty(), vals), vals)
        =~= Set::<i64>::empty());
}

/// Idempotence law: inserting a value a second time leaves the view as the
/// first insertion made it; together with `insert`'s contract (the second
/// call returns `false` and keeps the tree identical) the tree changes only
/// once.
pub proof fn lemma_insert_idempotent(s: Set<i64>, val: i64)
    ensures
        s.insert(val).insert(val) == s.insert(val),
{
    assert(s.insert(val).insert(val) =~= s.insert(val));
}

/// The node re-rooted at the child opposite `side`, all touched cached
/// heights recomputed: what `rotate` computes, as a function.
pub closed spec fn spec_rotate(n: AVLNode, side: Side) -> AVLNode {
    match side {
        Side::Right => {
            let l = n.left->Some_0;
            let d = AVLNode {
                val: n.val,
                left: l.right,
                right: n.right,
                height: (1 + nat_max(opt_height(l.right), opt_height(n.right))) as usize,
            };
            AVLNode {
                val: l.val,
                left: l.left,
                right: Some(Box::new(d)),
                height: (1 + nat_max(opt_height(l.left), d.spec_height())) as usize,
            }
        },
        Side::Left => {
            let l = n.right->Some_0;
            let d = AVLNode {
                val: n.val,
                right: l.left,
                left: n.left,
                height: (1 + nat_max(opt_height(l.left), opt_height(n.left))) as usize,
            };
            AVLNode {
                val: l.val,
                right: l.right,
                left: Some(Box::new(d)),
                height: (1 + nat_max(opt_height(l.right), d.spec_height())) as usize,
            }
        },
    }
}

/// The node with its cached height recomputed and the balance bound
/// restored by zero, one or two rotations: what `rebalance` computes, as
/// a function.
pub closed spec fn spec_rebalance(n: AVLNode) -> AVLNode {
    let hl = opt_height(n.left);
    let hr = opt_height(n.right);
    let m = AVLNode { height: (1 + nat_max(hl, hr)) as usize, ..n };
    if hl == hr + 2 {
        let l = n.left->Some_0;
        if opt_height(l.right) > opt_height(l.left) {
            spec_rotate(
                AVLNode { left: Some(Box::new(spec_rotate(*l, Side::Left))), ..m },
                Side::Right,
            )
        } else {
            spec_rotate(m, Side::Right)
        }
    } else if hr == hl + 2 {
        let l = n.right->Some_0;
        if opt_height(l.left) > opt_height(l.right) {
            spec_rotate(
                AVLNode { right: Some(Box::new(spec_rotate(*l, Side::Right))), ..m },
                Side::Left,
            )
        } else {
            spec_rotate(m, Side::Left)
        }
    } else {
        m
    }
}

/// The tree after `val` is inserted and the path rebalanced bottom-up:
/// what the insertion pass computes, as a function.
pub closed spec fn spec_insert(t: Option<Box<AVLNode>>, val: i64) -> Option<
    Box<AVLNode>,
>
    decreases t,
{
    match t {
        None => Some(Box::new(AVLNode { val, left: None, right: None, height: 1 })),
        Some(n) => {
            if val == n.val {
                t
            } else if val < n.val {
                if opt_set(n.left).contains(val) {
                    t
                } else {
                    Some(
                        Box::new(
                            spec_rebalance(
                                AVLNode { left: spec_insert(n.left, val), ..*n },
                            ),
                        ),
                    )
                }
            } else {
                if opt_set(n.right).contains(val) {
                    t
                } else {
                    Some(
                        Box::new(
                            spec_rebalance(
                                AVLNode { right: spec_insert(n.right, val), ..*n },
                            ),
                        ),
                    )
                }
            }
        },
    }
}

} // verus!
