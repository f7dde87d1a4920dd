//! A versioned ("persistent") array together with a versioned union-find
//! built on top of it.
//!
//! Every mutation of the array (element replacement or append) yields a new,
//! independently readable version while all earlier versions stay intact.
//! Internally a single node of the version graph holds the real contents;
//! every other node records a one-element edit relative to its parent, and
//! reading a version first promotes it to the materialized root ("reroot").

pub mod arr;

use vstd::prelude::*;

use crate::arr::PerVecArena;
use crate::arr::PerVecError;
use crate::arr::PerVecRef;

verus! {

/// A versioned disjoint-set structure over element ids `0..count`, backed by
/// one version of a persistent parent-pointer array.
///
/// `add` and `merge` derive new versions and return new structures; `find`
/// may replace this structure's own array version by a path-compressed one,
/// which never changes the partition it represents, nor any other structure
/// holding an earlier version.
pub struct PerUnionFind {
    parent: PerVecRef,
    /// The representative of each element: the semantic partition.
    reps: Ghost<Seq<usize>>,
    /// Strictly decreases along parent chains, so every chain ends at a
    /// self-parenting root.
    dists: Ghost<Seq<nat>>,
}

impl PerUnionFind {
    /// How many elements this structure governs.
    pub closed spec fn count(&self) -> nat {
        self.reps@.len()
    }

    /// The representative of each element; two elements are in the same set
    /// exactly when their entries here are equal.
    pub closed spec fn repr(&self) -> Seq<usize> {
        self.reps@
    }

    /// Local consistency of one element of a parent table: the parent is in
    /// range, representatives are constant along edges and name self-rooted
    /// entries, and the distance measure decreases toward the root.
    spec fn elem_ok(p: Seq<usize>, reps: Seq<usize>, dists: Seq<nat>, x: int) -> bool {
        let n = p.len();
        &&& p[x] < n
        &&& (p[x] == x ==> reps[x] == x)
        &&& reps[p[x] as int] == reps[x]
        &&& reps[x] < n && p[reps[x] as int] == reps[x]
        &&& (p[x] != x ==> dists[p[x] as int] < dists[x])
    }

    /// The parent table of this structure inside the given arena.
    spec fn table(&self, a: PerVecArena<usize>) -> Seq<usize> {
        a@[self.parent@]
    }

    /// Well-formedness relative to the arena holding the parent array.
    pub closed spec fn wf(&self, a: PerVecArena<usize>) -> bool {
        let p = self.table(a);
        &&& 0 <= self.parent@ < a@.len()
        &&& p.len() == self.reps@.len()
        &&& self.dists@.len() == self.reps@.len()
        &&& forall|x: int|
            0 <= x < p.len() ==> #[trigger] Self::elem_ok(p, self.reps@, self.dists@, x)
    }

    /// An empty structure governing no elements, with a fresh parent array.
    pub fn new(a: &mut PerVecArena<usize>) -> (uf: Self)
        requires
            old(a).wf(),
        ensures
            final(a).wf(),
            old(a)@.is_prefix_of(final(a)@),
            uf.wf(*final(a)),
            uf.count() == 0,
            uf.repr() == Seq::<usize>::empty(),
    {
        let parent = PerVecRef::new(a, Vec::new());
        proof {
            crate::arr::lemma_prefix_push(old(a)@, Seq::empty());
        }
        PerUnionFind { parent, reps: Ghost(Seq::empty()), dists: Ghost(Seq::empty()) }
    }

    /// Append a fresh element that is its own set; returns its id and the
    /// extended structure.  This structure itself is left unchanged.
    pub fn add(&self, a: &mut PerVecArena<usize>) -> (r: (usize, Self))
        requires
            old(a).wf(),
            self.wf(*old(a)),
        ensures
            final(a).wf(),
            old(a)@.is_prefix_of(final(a)@),
            self.wf(*final(a)),
            r.0 == self.count(),
            r.1.wf(*final(a)),
            r.1.count() == self.count() + 1,
            r.1.repr() == self.repr().push(r.0),
    {
        let n = self.parent.len(a);
        let new_parent = self.parent.push(a, n);
        let uf = PerUnionFind {
            parent: new_parent,
            reps: Ghost(self.reps@.push(n)),
            dists: Ghost(self.dists@.push(0)),
        };
        proof {
            let p0 = self.table(*old(a));
            let p1 = uf.table(*a);
            assert(p1 =~= p0.push(n));
            assert forall|x: int| 0 <= x < p1.len() implies #[trigger] Self::elem_ok(
                p1,
                uf.reps@,
                uf.dists@,
                x,
            ) by {
                if x < n {
                    assert(Self::elem_ok(p0, self.reps@, self.dists@, x));
                }
            }
        }
        (n, uf)
    }

    /// Resolve `x`'s ancestor chain to its self-parenting root and rewrite
    /// this structure's parent array so `x` points straight at it.  The
    /// partition, the element count and the distance measure are unchanged;
    /// the arena only gains new versions.
    fn find_rec(&mut self, a: &mut PerVecArena<usize>, x: usize) -> (root: usize)
        requires
            old(a).wf(),
            old(self).wf(*old(a)),
            x < old(self).count(),
        ensures
            final(a).wf(),
            old(a)@.is_prefix_of(final(a)@),
            final(self).wf(*final(a)),
            final(self).reps@ == old(self).reps@,
            final(self).dists@ == old(self).dists@,
            root == old(self).reps@[x as int],
            final(self).dists@[root as int] <= final(self).dists@[x as int],
        decreases old(self).dists@[x as int],
    {
        proof {
            assert(Self::elem_ok(
                old(self).table(*old(a)),
                old(self).reps@,
                old(self).dists@,
                x as int,
            ));
        }
        let fx = match self.parent.get(a, x) {
            Ok(v) => v,
            Err(_) => vstd::pervasive::unreached(),
        };
        if fx == x {
            proof {
                crate::arr::lemma_prefix_refl(a@);
            }
            x
        } else {
            let root = self.find_rec(a, fx);
            let ghost a1 = *a;
            let ghost p1 = self.table(*a);
            let new_parent = match self.parent.set(a, x, root) {
                Ok(h) => h,
                Err(_) => vstd::pervasive::unreached(),
            };
            self.parent = new_parent;
            proof {
                let p2 = self.table(*a);
                let reps = self.reps@;
                let dists = self.dists@;
                assert(p2 =~= p1.update(x as int, root));
                assert forall|z: int| 0 <= z < p2.len() implies #[trigger] Self::elem_ok(
                    p2,
                    reps,
                    dists,
                    z,
                ) by {
                    assert(Self::elem_ok(p1, reps, dists, z));
                    assert(Self::elem_ok(p1, reps, dists, reps[z] as int));
                    if z == x as int {
                        assert(Self::elem_ok(p1, reps, dists, root as int));
                    }
                }
                crate::arr::lemma_prefix_trans(old(a)@, a1@, a@);
            }
            root
        }
    }

    /// The representative of `x`, or the out-of-range error naming `x` and
    /// the element count.  May path-compress this structure's parent array;
    /// the partition it represents is unchanged, and so is every other
    /// structure backed by the same arena.
    pub fn find(&mut self, a: &mut PerVecArena<usize>, x: usize) -> (r: Result<
        usize,
        PerVecError,
    >)
        requires
            old(a).wf(),
            old(self).wf(*old(a)),
        ensures
            final(a).wf(),
            old(a)@.is_prefix_of(final(a)@),
            final(self).wf(*final(a)),
            final(self).count() == old(self).count(),
            final(self).repr() == old(self).repr(),
            (match r {
                Ok(root) => x < old(self).count() && root == old(self).repr()[x as int],
                Err(e) => x >= old(self).count() && final(a)@ == old(a)@ && e
                    == (PerVecError::IndexOutOfRange {
                    index: x,
                    len: old(self).count() as usize,
                }),
            }),
    {
        let n = self.parent.len(a);
        if x >= n {
            proof {
                crate::arr::lemma_prefix_refl(a@);
            }
            Err(PerVecError::IndexOutOfRange { index: x, len: n })
        } else {
            Ok(self.find_rec(a, x))
        }
    }

    /// A new structure whose partition is this one's with `x`'s set joined
    /// into `y`'s, or the out-of-range error for the first offending id.
    /// This structure's own partition is unchanged, whether or not the merge
    /// succeeds (its parent array may be path-compressed on the way).
    pub fn merge(&mut self, a: &mut PerVecArena<usize>, x: usize, y: usize) -> (r: Result<
        Self,
        PerVecError,
    >)
        requires
            old(a).wf(),
            old(self).wf(*old(a)),
        ensures
            final(a).wf(),
            old(a)@.is_prefix_of(final(a)@),
            final(self).wf(*final(a)),
            final(self).count() == old(self).count(),
            final(self).repr() == old(self).repr(),
            (match r {
                Ok(uf2) => {
                    &&& x < old(self).count()
                    &&& y < old(self).count()
                    &&& uf2.wf(*final(a))
                    &&& uf2.count() == old(self).count()
                    &&& uf2.repr() == Seq::new(
                        old(self).count(),
                        |z: int|
                            if old(self).repr()[z] == old(self).repr()[x as int] {
                                old(self).repr()[y as int]
                            } else {
                                old(self).repr()[z]
                            },
                    )
                    &&& uf2.repr()[x as int] == uf2.repr()[y as int]
                },
                Err(e) => {
                    ||| (x >= old(self).count() && e == (PerVecError::IndexOutOfRange {
                        index: x,
                        len: old(self).count() as usize,
                    }))
                    ||| (x < old(self).count() && y >= old(self).count() && e
                        == (PerVecError::IndexOutOfRange {
                        index: y,
                        len: old(self).count() as usize,
                    }))
                },
            }),
    {
        let fx = match self.find(a, x) {
            Ok(v) => v,
            Err(e) => {
                return Err(e);
            },
        };
        let ghost amid = *a;
        let fy = match self.find(a, y) {
            Ok(v) => v,
            Err(e) => {
                proof {
                    crate::arr::lemma_prefix_trans(old(a)@, amid@, a@);
                }
                return Err(e);
            },
        };
        proof {
            crate::arr::lemma_prefix_trans(old(a)@, amid@, a@);
        }
        proof {
            assert(Self::elem_ok(self.table(*a), self.reps@, self.dists@, x as int));
            assert(Self::elem_ok(self.table(*a), self.reps@, self.dists@, fx as int));
            assert(Self::elem_ok(self.table(*a), self.reps@, self.dists@, y as int));
            assert(Self::elem_ok(self.table(*a), self.reps@, self.dists@, fy as int));
        }
        let ghost a1 = *a;
        let ghost p1 = self.table(*a);
        let new_parent = match self.parent.set(a, fx, fy) {
            Ok(h) => h,
            Err(_) => vstd::pervasive::unreached(),
        };
        let uf2 = PerUnionFind {
            parent: new_parent,
            reps: Ghost(
                Seq::new(
                    self.reps@.len(),
                    |z: int| if self.reps@[z] == fx { fy } else { self.reps@[z] },
                ),
            ),
            dists: Ghost(
                Seq::new(
                    self.dists@.len(),
                    |z: int|
                        if self.reps@[z] == fx {
                            self.dists@[z] + self.dists@[fy as int] + 1
                        } else {
                            self.dists@[z]
                        },
                ),
            ),
        };
        proof {
            let p2 = uf2.table(*a);
            let reps = self.reps@;
            let dists = self.dists@;
            assert(p2 =~= p1.update(fx as int, fy));
            assert forall|z: int| 0 <= z < p2.len() implies #[trigger] Self::elem_ok(
                p2,
                uf2.reps@,
                uf2.dists@,
                z,
            ) by {
                assert(Self::elem_ok(p1, reps, dists, z));
                assert(Self::elem_ok(p1, reps, dists, reps[z] as int));
                assert(Self::elem_ok(p1, reps, dists, fx as int));
                assert(Self::elem_ok(p1, reps, dists, fy as int));
            }
            crate::arr::lemma_prefix_trans(old(a)@, a1@, a@);
            assert(uf2.reps@ =~= Seq::new(
                old(self).count(),
                |z: int|
                    if old(self).repr()[z] == old(self).repr()[x as int] {
                        old(self).repr()[y as int]
                    } else {
                        old(self).repr()[z]
                    },
            ));
        }
        Ok(uf2)
    }
}

} // verus!
