//! A binary heap of `i64` values, rooted at the smallest (min-heap) or
//! largest (max-heap) value as chosen at construction.
//!
//! The elements sit in an array; the entry at `i` is the parent of the
//! entries at `2 i + 1` and `2 i + 2` and fits before both of them. The
//! view is the multiset of stored values.

use vstd::prelude::*;
use vstd::multiset::Multiset;
use vstd::seq_lib::lemma_multiset_commutative;

verus! {

/// Whether the heap keeps its smallest or its largest value at the root.
#[derive(Clone, Copy, Debug)]
pub enum HeapType {
    Min,
    Max,
}

/// `a` may sit above `b` in a heap of type `t`.
pub open spec fn fits(t: HeapType, a: i64, b: i64) -> bool {
    match t {
        HeapType::Min => a <= b,
        HeapType::Max => a >= b,
    }
}

/// Every entry other than the root fits below its parent entry.
pub closed spec fn heap_ordered(t: HeapType, s: Seq<i64>) -> bool {
    forall|c: int| 1 <= c < s.len() ==> fits(t, s[(c - 1) / 2], #[trigger] s[c])
}

/// Exchanging two entries of a sequence permutes it.
proof fn lemma_swap_multiset(s: Seq<i64>, i: int, j: int)
    requires
        0 <= i < j < s.len(),
    ensures
        s.update(i, s[j]).update(j, s[i]).to_multiset() == s.to_multiset(),
{
    let swapped = s.update(i, s[j]).update(j, s[i]);
    let a = s.subrange(0, i);
    let b = s.subrange(i + 1, j);
    let c = s.subrange(j + 1, s.len() as int);
    assert(s =~= a + seq![s[i]] + b + seq![s[j]] + c);
    assert(swapped =~= a + seq![s[j]] + b + seq![s[i]] + c);
    lemma_multiset_commutative(a + seq![s[i]] + b + seq![s[j]], c);
    lemma_multiset_commutative(a + seq![s[i]] + b, seq![s[j]]);
    lemma_multiset_commutative(a + seq![s[i]], b);
    lemma_multiset_commutative(a, seq![s[i]]);
    lemma_multiset_commutative(a + seq![s[j]] + b + seq![s[i]], c);
    lemma_multiset_commutative(a + seq![s[j]] + b, seq![s[i]]);
    lemma_multiset_commutative(a + seq![s[j]], b);
    lemma_multiset_commutative(a, seq![s[j]]);
    assert(swapped.to_multiset() =~= s.to_multiset());
}

/// In a heap-ordered sequence the root fits before every entry.
proof fn lemma_root_extremal(t: HeapType, s: Seq<i64>, i: int)
    requires
        heap_ordered(t, s),
        0 <= i < s.len(),
    ensures
        fits(t, s[0], s[i]),
    decreases i,
{
    if i > 0 {
        lemma_root_extremal(t, s, (i - 1) / 2);
    }
}

/// The heap: a growable array of values and the chosen orientation.
#[derive(Debug)]
pub struct Heap {
    data: Vec<i64>,
    heap_type: HeapType,
}

impl View for Heap {
    type V = Multiset<i64>;

    closed spec fn view(&self) -> Multiset<i64> {
        self.data@.to_multiset()
    }
}

impl Heap {
    /// The orientation the heap was created with.
    pub closed spec fn spec_type(self) -> HeapType {
        self.heap_type
    }

    /// Every entry fits below its parent entry.
    pub closed spec fn well_formed(self) -> bool {
        heap_ordered(self.heap_type, self.data@)
    }

    /// Returns an empty heap of the given orientation.
    pub fn new(heap_type: HeapType) -> (h: Self)
        ensures
            h.well_formed(),
            h.spec_type() == heap_type,
            h@ == Multiset::<i64>::empty(),
    {
        let h = Heap { data: Vec::new(), heap_type };
        proof {
            h.data@.to_multiset_ensures();
            assert(h@ =~= Multiset::<i64>::empty());
        }
        h
    }

    /// `a` belongs strictly before `b`: `a < b` in a min-heap, `a > b` in
    /// a max-heap.
    fn comes_before(&self, a: i64, b: i64) -> (r: bool)
        ensures
            r == !fits(self.spec_type(), b, a),
    {
        match self.heap_type {
            HeapType::Min => a < b,
            HeapType::Max => a > b,
        }
    }

    /// Adds `val` to the heap.
    pub fn push(&mut self, val: i64)
        requires
            old(self).well_formed(),
            old(self)@.len() < usize::MAX,
        ensures
            final(self).well_formed(),
            final(self).spec_type() == old(self).spec_type(),
            final(self)@ == old(self)@.insert(val),
    {
        proof {
            self.data@.to_multiset_ensures();
        }
        self.data.push(val);
        let idx = self.data.len() - 1;
        proof {
            old(self).data@.to_multiset_ensures();
            assert forall|c: int|
                1 <= c < self.data@.len() && c != idx implies fits(
                self.spec_type(),
                self.data@[(c - 1) / 2],
                #[trigger] self.data@[c],
            ) by {
                assert(self.data@[c] == old(self).data@[c]);
                assert(self.data@[(c - 1) / 2] == old(self).data@[(c - 1) / 2]);
            }
        }
        self.sift_up(idx);
    }

    /// Removes and returns the root value: the smallest stored value in a
    /// min-heap, the largest in a max-heap. `None` on an empty heap.
    pub fn pop(&mut self) -> (r: Option<i64>)
        requires
            old(self).well_formed(),
        ensures
            final(self).well_formed(),
            final(self).spec_type() == old(self).spec_type(),
            old(self)@.len() == 0 ==> r is None && final(self)@ == old(self)@,
            old(self)@.len() > 0 ==> (r matches Some(m) && old(self)@.count(m) > 0
                && final(self)@ == old(self)@.remove(m)
                && (forall|x: i64| old(self)@.count(x) > 0 ==> fits(
                old(self).spec_type(),
                m,
                x,
            ))),
    {
        proof {
            self.data@.to_multiset_ensures();
        }
        if self.data.is_empty() {
            return None;
        }
        let ghost t = self.heap_type;
        let ghost s0 = self.data@;
        let val = self.data.swap_remove(0);
        proof {
            s0.to_multiset_ensures();
            self.data@.to_multiset_ensures();
            assert(val == s0[0]);
            if s0.len() == 1 {
                assert(s0 =~= Seq::<i64>::empty().push(s0[0]));
                Seq::<i64>::empty().to_multiset_ensures();
                assert(self.data@ =~= Seq::<i64>::empty());
                assert(self.data@.to_multiset() =~= s0.to_multiset().remove(s0[0]));
            } else {
                let m = s0.update(0, s0.last());
                let sw = m.update(s0.len() - 1, s0[0]);
                lemma_swap_multiset(s0, 0, s0.len() - 1);
                assert(self.data@ =~= m.drop_last());
                assert(sw =~= self.data@.push(s0[0]));
                self.data@.to_multiset_ensures();
                assert(sw.to_multiset() =~= self.data@.to_multiset().insert(s0[0]));
                assert(self.data@.to_multiset() =~= s0.to_multiset().remove(s0[0]));
            }
            assert forall|x: i64| s0.to_multiset().count(x) > 0 implies fits(
                t,
                s0[0],
                x,
            ) by {
                assert(s0.contains(x));
                let k = choose|k: int| 0 <= k < s0.len() && s0[k] == x;
                lemma_root_extremal(t, s0, k);
            }
            assert forall|c: int|
                1 <= c < self.data@.len() && (c - 1) / 2 != 0 implies fits(
                t,
                self.data@[(c - 1) / 2],
                #[trigger] self.data@[c],
            ) by {
                assert(self.data@[c] == s0[c]);
                assert(self.data@[(c - 1) / 2] == s0[(c - 1) / 2]);
            }
        }
        self.sift_down(0);
        Some(val)
    }

    /// Borrows the root value without removing it; `None` on an empty
    /// heap.
    pub fn peek(&self) -> (r: Option<&i64>)
        requires
            self.well_formed(),
        ensures
            self@.len() == 0 ==> r is None,
            self@.len() > 0 ==> (r matches Some(m) && self@.count(*m) > 0 && (
            forall|x: i64| self@.count(x) > 0 ==> fits(self.spec_type(), *m, x))),
    {
        proof {
            self.data@.to_multiset_ensures();
        }
        if self.data.is_empty() {
            return None;
        }
        proof {
            assert forall|x: i64| self@.count(x) > 0 implies fits(
                self.spec_type(),
                self.data@[0],
                x,
            ) by {
                assert(self.data@.contains(x));
                let k = choose|k: int| 0 <= k < self.data@.len() && self.data@[k] == x;
                lemma_root_extremal(self.heap_type, self.data@, k);
            }
        }
        Some(&self.data[0])
    }

    /// True exactly when the heap holds no value.
    pub fn is_empty(&self) -> (r: bool)
        ensures
            r == (self@.len() == 0),
    {
        proof {
            self.data@.to_multiset_ensures();
        }
        self.data.is_empty()
    }

    /// The number of stored values.
    pub fn size(&self) -> (n: usize)
        ensures
            n == self@.len(),
    {
        proof {
            self.data@.to_multiset_ensures();
        }
        self.data.len()
    }

    /// Bubbles the entry at `i` up toward the root until it fits below
    /// its parent. On entry every other parent-child pair fits, and `i`'s
    /// children fit below `i`'s parent as well.
    fn sift_up(&mut self, i: usize)
        requires
            i < old(self).data@.len(),
            forall|c: int|
                1 <= c < old(self).data@.len() && c != i ==> fits(
                    old(self).spec_type(),
                    old(self).data@[(c - 1) / 2],
                    #[trigger] old(self).data@[c],
                ),
            i > 0 ==> forall|c: int|
                1 <= c < old(self).data@.len() && (c - 1) / 2 == i ==> fits(
                    old(self).spec_type(),
                    old(self).data@[(i - 1) as int / 2],
                    #[trigger] old(self).data@[c],
                ),
        ensures
            final(self).well_formed(),
            final(self).spec_type() == old(self).spec_type(),
            final(self)@ == old(self)@,
            final(self).data@.len() == old(self).data@.len(),
    {
        let mut i = i;
        let ghost t = self.heap_type;
        let ghost m0 = self.data@.to_multiset();
        let ghost n0 = self.data@.len();
        while i > 0
            invariant
                i < self.data@.len(),
                self.heap_type == t,
                self.data@.to_multiset() == m0,
                self.data@.len() == n0,
                forall|c: int|
                    1 <= c < self.data@.len() && c != i ==> fits(
                        t,
                        self.data@[(c - 1) / 2],
                        #[trigger] self.data@[c],
                    ),
                i > 0 ==> forall|c: int|
                    1 <= c < self.data@.len() && (c - 1) / 2 == i ==> fits(
                        t,
                        self.data@[(i - 1) as int / 2],
                        #[trigger] self.data@[c],
                    ),
            ensures
                self.heap_type == t,
                self.data@.to_multiset() == m0,
                self.data@.len() == n0,
                heap_ordered(t, self.data@),
            decreases i,
        {
            let parent = (i - 1) / 2;
            let a = self.data[i];
            let b = self.data[parent];
            if self.comes_before(a, b) {
                let ghost s0 = self.data@;
                self.data.set(i, b);
                self.data.set(parent, a);
                proof {
                    lemma_swap_multiset(s0, parent as int, i as int);
                    assert(self.data@ =~= s0.update(parent as int, s0[i as int])
                        .update(i as int, s0[parent as int]));
                }
                i = parent;
            } else {
                proof {
                    assert(heap_ordered(t, self.data@));
                }
                break ;
            }
        }
    }

    /// Sinks the entry at `i` down until it fits above both children. On
    /// entry every parent-child pair not parented at `i` fits, and `i`'s
    /// children fit below `i`'s parent.
    fn sift_down(&mut self, i: usize)
        requires
            forall|c: int|
                1 <= c < old(self).data@.len() && (c - 1) / 2 != i ==> fits(
                    old(self).spec_type(),
                    old(self).data@[(c - 1) / 2],
                    #[trigger] old(self).data@[c],
                ),
            0 < i ==> (i < old(self).data@.len() && forall|c: int|
                1 <= c < old(self).data@.len() && (c - 1) / 2 == i ==> fits(
                    old(self).spec_type(),
                    old(self).data@[(i - 1) as int / 2],
                    #[trigger] old(self).data@[c],
                )),
        ensures
            final(self).well_formed(),
            final(self).spec_type() == old(self).spec_type(),
            final(self)@ == old(self)@,
            final(self).data@.len() == old(self).data@.len(),
    {
        let mut i = i;
        let ghost t = self.heap_type;
        let ghost m0 = self.data@.to_multiset();
        let ghost n0 = self.data@.len();
        loop
            invariant
                self.heap_type == t,
                self.data@.to_multiset() == m0,
                self.data@.len() == n0,
                forall|c: int|
                    1 <= c < self.data@.len() && (c - 1) / 2 != i ==> fits(
                        t,
                        self.data@[(c - 1) / 2],
                        #[trigger] self.data@[c],
                    ),
                0 < i && i < self.data@.len() ==> forall|c: int|
                    1 <= c < self.data@.len() && (c - 1) / 2 == i ==> fits(
                        t,
                        self.data@[(i - 1) as int / 2],
                        #[trigger] self.data@[c],
                    ),
            ensures
                self.heap_type == t,
                self.data@.to_multiset() == m0,
                self.data@.len() == n0,
                heap_ordered(t, self.data@),
            decreases self.data@.len() - i,
        {
            let half = self.data.len() / 2;
            if i >= half {
                // a leaf: no child index is in range
                proof {
                    assert(heap_ordered(t, self.data@));
                }
                break ;
            }
            let left = i * 2 + 1;
            let right = i * 2 + 2;
            let mut best = i;
            let a = self.data[left];
            let b = self.data[best];
            if self.comes_before(a, b) {
                best = left;
            }
            if right < self.data.len() {
                let a2 = self.data[right];
                let b2 = self.data[best];
                if self.comes_before(a2, b2) {
                    best = right;
                }
            }
            if best == i {
                proof {
                    assert(heap_ordered(t, self.data@));
                }
                break ;
            }
            let ghost s0 = self.data@;
            let a3 = self.data[i];
            let b3 = self.data[best];
            self.data.set(i, b3);
            self.data.set(best, a3);
            proof {
                lemma_swap_multiset(s0, i as int, best as int);
                assert(self.data@ =~= s0.update(i as int, s0[best as int]).update(
                    best as int,
                    s0[i as int],
                ));
            }
            i = best;
        }
    }
}

} // verus!
