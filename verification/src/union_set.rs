//! A disjoint-set (union-find) structure over the elements `0..n`, with
//! union by size and path compression.
//!
//! The mathematical model is a ghost map `rep` sending every element to
//! the representative of its class; `connected` compares representatives.
//! A second ghost map gives every element a level that strictly grows
//! along parent links, which is what makes the path-compressing `find`
//! terminate.

use vstd::prelude::*;
use vstd::set_lib::{lemma_int_range, lemma_len_subset, set_int_range};

verus! {

/// The elements of `0..n` whose representative is themselves.
pub closed spec fn class_roots(rep: Seq<usize>, n: int) -> Set<int> {
    Set::new(|j: int| 0 <= j < n && rep[j] == j)
}

/// Disjoint sets over `0..n`; `connected` tells whether two elements are
/// in the same class, `spec_count` how many classes there are.
pub struct UnionSet {
    parent: Vec<usize>,
    size: Vec<usize>,
    count: usize,
    rep: Ghost<Seq<usize>>,
    level: Ghost<Seq<nat>>,
    top: Ghost<nat>,
}

impl UnionSet {
    /// The number of elements the structure was created for.
    pub closed spec fn spec_len(self) -> int {
        self.parent@.len() as int
    }

    /// The representative of element `x`.
    pub closed spec fn spec_find(self, x: int) -> int {
        self.rep@[x] as int
    }

    /// Whether `x` and `y` lie in the same class.
    pub open spec fn connected(self, x: int, y: int) -> bool {
        self.spec_find(x) == self.spec_find(y)
    }

    /// The number of classes.
    pub closed spec fn spec_count(self) -> int {
        self.count as int
    }

    /// The stored weight of element `x`; for a representative this is the
    /// size its class had when it last absorbed another class.
    pub closed spec fn spec_size(self, x: int) -> int {
        self.size@[x] as int
    }

    /// The structural invariant: parent links stay inside `0..n`, agree
    /// with the ghost representatives, strictly climb in level, and the
    /// stored class count matches the number of representatives.
    pub closed spec fn well_formed(self) -> bool {
        let n = self.parent@.len() as int;
        &&& self.size@.len() == n
        &&& self.rep@.len() == n
        &&& self.level@.len() == n
        &&& (forall|i: int| 0 <= i < n ==> self.parent@[i] < n)
        &&& (forall|i: int| 0 <= i < n ==> self.rep@[i] < n)
        &&& (forall|i: int| #![trigger self.rep@[i]]
            0 <= i < n ==> self.rep@[self.rep@[i] as int] == self.rep@[i])
        &&& (forall|i: int| #![trigger self.parent@[i]]
            0 <= i < n ==> self.rep@[self.parent@[i] as int] == self.rep@[i])
        &&& (forall|i: int| #![trigger self.parent@[i]]
            0 <= i < n ==> ((self.parent@[i] == i) <==> (self.rep@[i] == i)))
        &&& (forall|i: int| #![trigger self.parent@[i]]
            0 <= i < n && self.parent@[i] != i ==> self.level@[self.parent@[i] as int]
                > self.level@[i])
        &&& (forall|i: int| 0 <= i < n ==> self.level@[i] <= self.top@)
        &&& self.count == class_roots(self.rep@, n).len()
    }

    /// Returns `n` singleton classes: every element is its own
    /// representative and the class count is `n`.
    pub fn new(n: usize) -> (u: Self)
        ensures
            u.well_formed(),
            u.spec_len() == n,
            u.spec_count() == n,
            forall|i: int| 0 <= i < n ==> u.spec_find(i) == i,
            forall|i: int| 0 <= i < n ==> u.spec_size(i) == 1,
            forall|x: int, y: int|
                0 <= x < n && 0 <= y < n ==> (u.connected(x, y) <==> x == y),
    {
        let mut parent: Vec<usize> = vec![0; n];
        let size: Vec<usize> = vec![1; n];
        let mut i: usize = 0;
        while i < n
            invariant
                parent@.len() == n,
                i <= n,
                forall|j: int| 0 <= j < i ==> parent@[j] == j,
            decreases n - i,
        {
            parent.set(i, i);
            i = i + 1;
        }
        let u = UnionSet {
            parent,
            size,
            count: n,
            rep: Ghost(Seq::new(n as nat, |j: int| j as usize)),
            level: Ghost(Seq::new(n as nat, |j: int| 0)),
            top: Ghost(0),
        };
        proof {
            assert(class_roots(u.rep@, n as int) =~= set_int_range(0, n as int));
            lemma_int_range(0, n as int);
        }
        u
    }

    /// Walks the parent links of `x` up to the representative of its
    /// class, pointing every visited element directly at it on the way.
    #[verifier::rlimit(100)]
    fn find_root(&mut self, x: usize) -> (root: usize)
        requires
            old(self).well_formed(),
            x < old(self).spec_len(),
        ensures
            final(self).well_formed(),
            root < final(self).spec_len(),
            root as int == old(self).spec_find(x as int),
            final(self).rep@ == old(self).rep@,
            final(self).level@ == old(self).level@,
            final(self).top@ == old(self).top@,
            final(self).size@ == old(self).size@,
            final(self).count == old(self).count,
            final(self).parent@.len() == old(self).parent@.len(),
            final(self).parent@[root as int] == root,
            old(self).level@[root as int] >= old(self).level@[x as int],
        decreases (old(self).top@ - old(self).level@[x as int]) as nat,
    {
        let p = self.parent[x];
        if p == x {
            x
        } else {
            let root = self.find_root(p);
            proof {
                assert(old(self).level@[p as int] > old(self).level@[x as int]);
                assert(old(self).level@[root as int] > old(self).level@[x as int]);
                assert(root as int != x as int);
            }
            let ghost par1 = self.parent@;
            let ghost mid = *self;
            self.parent.set(x, root);
            proof {
                let n = self.parent@.len() as int;
                assert(mid.well_formed());
                assert forall|i: int|
                    0 <= i < n && self.parent@[i] != i implies self.level@[self.parent@[i] as int]
                    > self.level@[i] by {
                    if i != x {
                        assert(self.parent@[i] == par1[i]);
                    } else {
                        assert(old(self).level@[root as int] > old(self).level@[x as int]);
                    }
                }
                assert(self.well_formed());
            }
            root
        }
    }

    /// The representative of `x`'s class; two elements are in the same
    /// class exactly when `find` leads them to the same representative.
    pub fn find(&mut self, x: usize) -> (root: usize)
        requires
            old(self).well_formed(),
            x < old(self).spec_len(),
        ensures
            final(self).well_formed(),
            root < final(self).spec_len(),
            root as int == old(self).spec_find(x as int),
            final(self).spec_find(root as int) == root,
            final(self).spec_len() == old(self).spec_len(),
            final(self).spec_count() == old(self).spec_count(),
            forall|a: int, b: int|
                0 <= a < old(self).spec_len() && 0 <= b < old(self).spec_len()
                    ==> (final(self).connected(a, b) <==> old(self).connected(a, b)),
    {
        let root = self.find_root(x);
        proof {
            assert(self.rep@[self.rep@[x as int] as int] == self.rep@[x as int]);
        }
        root
    }

    /// Joins the classes of `x` and `y`; the class count drops by one
    /// exactly when they were separate. Afterwards two elements are
    /// connected when they already were, or when one was connected to `x`
    /// and the other to `y`.
    #[verifier::rlimit(100)]
    pub fn union(&mut self, x: usize, y: usize)
        requires
            old(self).well_formed(),
            x < old(self).spec_len(),
            y < old(self).spec_len(),
        ensures
            final(self).well_formed(),
            final(self).spec_len() == old(self).spec_len(),
            final(self).spec_count() == old(self).spec_count() - (
            if old(self).connected(x as int, y as int) {
                0int
            } else {
                1int
            }),
            forall|a: int, b: int|
                0 <= a < old(self).spec_len() && 0 <= b < old(self).spec_len()
                    ==> (final(self).connected(a, b) <==> (old(self).connected(a, b)
                    || (old(self).connected(a, x as int) && old(self).connected(
                    b,
                    y as int,
                )) || (old(self).connected(a, y as int) && old(self).connected(
                    b,
                    x as int,
                )))),
            ({
                // union by size: the root of the smaller class is attached
                // under the root of the larger one, which keeps its place
                // as the representative and absorbs the other's weight
                let rx = old(self).spec_find(x as int);
                let ry = old(self).spec_find(y as int);
                let survivor = if old(self).spec_size(rx) < old(self).spec_size(ry) {
                    ry
                } else {
                    rx
                };
                &&& (rx != ry ==> final(self).spec_find(x as int) == survivor
                    && final(self).spec_find(y as int) == survivor)
                &&& (rx != ry && old(self).spec_size(rx) + old(self).spec_size(ry)
                    <= usize::MAX ==> final(self).spec_size(survivor) == old(
                    self,
                ).spec_size(rx) + old(self).spec_size(ry))
                &&& (forall|i: int|
                    0 <= i < old(self).spec_len() && (rx == ry || i != survivor)
                        ==> final(self).spec_size(i) == old(self).spec_size(i))
            }),
    {
        let root_x = self.find_root(x);
        let root_y = self.find_root(y);
        if root_x == root_y {
            return ;
        }
        let ghost n = self.parent@.len() as int;
        let ghost par1 = self.parent@;
        let ghost mid = *self;
        let sx = self.size[root_x];
        let sy = self.size[root_y];
        let from: usize;
        let into: usize;
        if sx < sy {
            // `root_x`'s class joins under `root_y`
            from = root_x;
            into = root_y;
            self.parent.set(root_x, root_y);
            // the size totals only steer future link choices; saturation
            // is unreachable for any population that fits in memory
            self.size.set(root_y, sy.saturating_add(sx));
        } else {
            from = root_y;
            into = root_x;
            self.parent.set(root_y, root_x);
            self.size.set(root_x, sx.saturating_add(sy));
        }
        let ghost old_rep = self.rep@;
        let ghost old_level = self.level@;
        self.rep = Ghost(
            Seq::new(
                n as nat,
                |i: int|
                    if old_rep[i] == from {
                        into
                    } else {
                        old_rep[i]
                    },
            ),
        );
        let ghost new_lvl: nat = if old_level[into as int] >= old_level[from as int]
            + 1 {
            old_level[into as int]
        } else {
            (old_level[from as int] + 1) as nat
        };
        self.level = Ghost(old_level.update(into as int, new_lvl));
        self.top = Ghost(
            if self.top@ >= new_lvl {
                self.top@
            } else {
                new_lvl
            },
        );
        proof {
            let roots0 = class_roots(old_rep, n);
            let roots1 = class_roots(self.rep@, n);
            lemma_int_range(0, n);
            lemma_len_subset(roots0, set_int_range(0, n));
            assert(old_rep[from as int] == from) by {
                assert(old(self).rep@[old(self).rep@[x as int] as int] == old(
                    self,
                ).rep@[x as int]);
                assert(old(self).rep@[old(self).rep@[y as int] as int] == old(
                    self,
                ).rep@[y as int]);
            }
            assert(old_rep[into as int] == into) by {
                assert(old(self).rep@[old(self).rep@[x as int] as int] == old(
                    self,
                ).rep@[x as int]);
                assert(old(self).rep@[old(self).rep@[y as int] as int] == old(
                    self,
                ).rep@[y as int]);
            }
            assert(roots0.contains(from as int));
            assert(roots1 =~= roots0.remove(from as int));
            assert(roots1.len() == roots0.len() - 1);
            assert(self.count >= 1);
        }
        self.count = self.count - 1;
        proof {
            let roots0 = class_roots(old_rep, n);
            let roots1 = class_roots(self.rep@, n);
            lemma_int_range(0, n);
            lemma_len_subset(roots0, set_int_range(0, n));
            assert(roots0.contains(from as int));
            assert(roots1 =~= roots0.remove(from as int));
            assert(roots1.len() == roots0.len() - 1);
            assert(mid.well_formed());
            assert forall|i: int|
                0 <= i < n && self.parent@[i] != i implies self.level@[self.parent@[i] as int]
                > self.level@[i] by {
                if i == from as int {
                    assert(self.level@[into as int] == new_lvl);
                } else {
                    assert(self.parent@[i] == par1[i]);
                    assert(mid.level@[par1[i] as int] > mid.level@[i]);
                }
            }
            assert(self.well_formed());
        }
    }

    /// Whether `x` and `y` lie in the same class.
    pub fn is_connected(&mut self, x: usize, y: usize) -> (r: bool)
        requires
            old(self).well_formed(),
            x < old(self).spec_len(),
            y < old(self).spec_len(),
        ensures
            final(self).well_formed(),
            final(self).spec_len() == old(self).spec_len(),
            final(self).spec_count() == old(self).spec_count(),
            r == old(self).connected(x as int, y as int),
            forall|a: int, b: int|
                0 <= a < old(self).spec_len() && 0 <= b < old(self).spec_len()
                    ==> (final(self).connected(a, b) <==> old(self).connected(a, b)),
    {
        let rx = self.find_root(x);
        let ry = self.find_root(y);
        rx == ry
    }

    /// The number of classes.
    pub fn count(&self) -> (c: usize)
        ensures
            c == self.spec_count(),
    {
        self.count
    }
}

} // verus!
