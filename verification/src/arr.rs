//! The persistent array: a version graph held in an arena, with a reroot
//! engine that keeps exactly one node of each derivation tree materialized.

use vstd::prelude::*;

verus! {

/// Recoverable failure of an array or union-find operation: the offending
/// index together with the length of the version it was asked of.
#[derive(Clone, Copy, Debug, PartialEq, Eq, Structural)]
pub enum PerVecError {
    IndexOutOfRange { index: usize, len: usize },
}

/// One node of the version graph.
///
/// `Arr` holds real, directly indexable contents.  The other variants record
/// a one-element edit relative to a parent node, named by its arena index:
/// `Diff` differs at one position, `Push` has one extra trailing element,
/// `Pop` lacks the parent's trailing element.  The stored value is a scratch
/// slot: it holds either the value to install or the value to restore,
/// depending on which end of the edge is currently materialized.
enum PerVec<T> {
    Arr(Vec<T>),
    Diff(usize, T, usize),
    Push(T, usize),
    Pop(usize),
}

/// Arena holding the nodes of the version graph.
///
/// Its view is the logical sequence denoted by each node, in order of node
/// creation; a `PerVecRef` is an index into that view.  All operations keep
/// every existing entry of the view unchanged, so a version, once created,
/// always reads the same.
pub struct PerVecArena<T> {
    nodes: Vec<PerVec<T>>,
    /// The logical contents denoted by each node; fixed at node creation.
    contents: Ghost<Seq<Seq<T>>>,
    /// Strictly decreases along parent edges, so every edit chain ends at a
    /// materialized node and the parent graph stays acyclic.
    rank: Ghost<Seq<nat>>,
}

/// A cheap, copyable handle naming one version held in an arena.
#[derive(Clone, Copy, Debug)]
pub struct PerVecRef {
    id: usize,
}

impl View for PerVecRef {
    type V = int;

    /// The index of this version in the arena's view.
    closed spec fn view(&self) -> int {
        self.id as int
    }
}

impl<T> View for PerVecArena<T> {
    type V = Seq<Seq<T>>;

    closed spec fn view(&self) -> Seq<Seq<T>> {
        self.contents@
    }
}

impl<T> PerVecArena<T> {
    /// Local consistency of one node: an edit node names a live parent of
    /// smaller rank, and composing its edit with the parent's contents yields
    /// exactly the contents this node denotes.
    spec fn node_ok(&self, i: int) -> bool {
        match self.nodes@[i] {
            PerVec::Arr(a) => a@ == self.contents@[i],
            PerVec::Diff(idx, v, p) => {
                &&& p < self.nodes@.len()
                &&& self.rank@[p as int] < self.rank@[i]
                &&& idx < self.contents@[p as int].len()
                &&& self.contents@[i] == self.contents@[p as int].update(idx as int, v)
            },
            PerVec::Push(v, p) => {
                &&& p < self.nodes@.len()
                &&& self.rank@[p as int] < self.rank@[i]
                &&& self.contents@[i] == self.contents@[p as int].push(v)
            },
            PerVec::Pop(p) => {
                &&& p < self.nodes@.len()
                &&& self.rank@[p as int] < self.rank@[i]
                &&& self.contents@[p as int].len() > 0
                &&& self.contents@[i] == self.contents@[p as int].drop_last()
            },
        }
    }

    /// Well-formedness of the whole graph.
    pub closed spec fn wf(&self) -> bool {
        &&& self.contents@.len() == self.nodes@.len()
        &&& self.rank@.len() == self.nodes@.len()
        &&& forall|i: int| 0 <= i < self.nodes@.len() ==> self.node_ok(i)
    }

    /// A fresh arena holding no versions yet.
    pub fn new() -> (a: Self)
        ensures
            a.wf(),
            a@ == Seq::<Seq<T>>::empty(),
    {
        PerVecArena {
            nodes: Vec::new(),
            contents: Ghost(Seq::empty()),
            rank: Ghost(Seq::empty()),
        }
    }
}

impl<T> PerVecArena<T> {
    /// Promote node `h` to be the materialized root of its tree.
    ///
    /// Walks up the parent chain until it finds the materialized node, then
    /// applies the inverse of `h`'s own edit to it, exchanging the two roles:
    /// the former root becomes an edit record pointing at `h`, and `h` holds
    /// the real contents.  The logical contents of every node are unchanged;
    /// only the orientation of the graph moves.  Nodes of larger rank than
    /// `h` (in particular every node off `h`'s chain to the root) are not
    /// touched.
    ///
    /// A node found in an unexpected variant here would mean the promotion
    /// protocol itself were broken — an unrecoverable fault, never mapped to
    /// an ordinary error.  Verification rules it out, so those arms are
    /// provably unreachable.
    fn reroot(&mut self, h: usize)
        requires
            old(self).wf(),
            h < old(self)@.len(),
        ensures
            final(self).wf(),
            final(self)@ == old(self)@,
            final(self).nodes@.len() == old(self).nodes@.len(),
            final(self).nodes@[h as int] is Arr,
            forall|i: int|
                0 <= i < old(self).nodes@.len() && old(self).rank@[h as int] < old(self).rank@[i]
                    ==> final(self).nodes@[i] == old(self).nodes@[i],
        decreases old(self).rank@[h as int],
    {
        proof {
            assert(self.node_ok(h as int));
        }
        let p: usize;
        match &self.nodes[h] {
            PerVec::Arr(_) => {
                return;
            },
            PerVec::Diff(_, _, q) => {
                p = *q;
            },
            PerVec::Push(_, q) => {
                p = *q;
            },
            PerVec::Pop(q) => {
                p = *q;
            },
        }
        self.reroot(p);
        proof {
            assert(self.node_ok(h as int));
            assert(self.node_ok(p as int));
        }
        let ghost mid = *self;
        // Take both nodes out of the arena so their contents can be
        // recombined; the slots briefly hold placeholders.
        let mut node_h = PerVec::Pop(h);
        core::mem::swap(&mut self.nodes[h], &mut node_h);
        let mut node_p = PerVec::Pop(h);
        core::mem::swap(&mut self.nodes[p], &mut node_p);
        proof {
            // Re-rank: h becomes minimal, p sits just above it, everything
            // else is shifted up so that all old orderings survive.
            self.rank@ =
            Seq::new(
                mid.rank@.len(),
                |i: int|
                    if i == h as int {
                        0nat
                    } else if i == p as int {
                        1nat
                    } else {
                        mid.rank@[i] + 2
                    },
            );
        }
        match (node_h, node_p) {
            (PerVec::Diff(idx, v, _), PerVec::Arr(mut arr)) => {
                // Exchange the scratch value with the element it replaces.
                let mut slot = v;
                core::mem::swap(&mut arr[idx], &mut slot);
                self.nodes[h] = PerVec::Arr(arr);
                self.nodes[p] = PerVec::Diff(idx, slot, h);
                proof {
                    let c = self.contents@;
                    assert(c[h as int] == c[p as int].update(idx as int, v));
                    assert(c[p as int] =~= c[h as int].update(idx as int, slot));
                    assert forall|i: int| 0 <= i < c.len() implies self.node_ok(i) by {
                        assert(mid.node_ok(i));
                    }
                }
            },
            (PerVec::Push(v, _), PerVec::Arr(mut arr)) => {
                // Apply the appended value; the parent turns into Pop.
                arr.push(v);
                self.nodes[h] = PerVec::Arr(arr);
                self.nodes[p] = PerVec::Pop(h);
                proof {
                    let c = self.contents@;
                    assert(c[h as int] == c[p as int].push(v));
                    assert(c[p as int] =~= c[h as int].drop_last());
                    assert forall|i: int| 0 <= i < c.len() implies self.node_ok(i) by {
                        assert(mid.node_ok(i));
                    }
                }
            },
            (PerVec::Pop(_), PerVec::Arr(mut arr)) => {
                // Remove the trailing element; the parent keeps it as Push.
                let last = match arr.pop() {
                    Some(x) => x,
                    None => vstd::pervasive::unreached(),
                };
                self.nodes[h] = PerVec::Arr(arr);
                self.nodes[p] = PerVec::Push(last, h);
                proof {
                    let c = self.contents@;
                    assert(c[h as int] == c[p as int].drop_last());
                    assert(c[p as int] =~= c[h as int].push(last));
                    assert forall|i: int| 0 <= i < c.len() implies self.node_ok(i) by {
                        assert(mid.node_ok(i));
                    }
                }
            },
            _ => {
                vstd::pervasive::unreached()
            },
        }
    }
}

impl PerVecRef {
    /// A new version holding the given initial contents, materialized at
    /// once; it starts its own derivation tree inside the arena.
    pub fn new<T>(arena: &mut PerVecArena<T>, t: Vec<T>) -> (h: Self)
        requires
            old(arena).wf(),
        ensures
            final(arena).wf(),
            final(arena)@ == old(arena)@.push(t@),
            h@ == old(arena)@.len(),
    {
        let ghost tv = t@;
        let id = arena.nodes.len();
        arena.nodes.push(PerVec::Arr(t));
        proof {
            arena.contents@ = arena.contents@.push(tv);
            arena.rank@ = arena.rank@.push(0);
            assert forall|i: int| 0 <= i < arena.nodes@.len() implies arena.node_ok(i) by {
                if i < id {
                    assert(old(arena).node_ok(i));
                }
            }
        }
        PerVecRef { id }
    }

    /// The element at index `i` of this version, or the out-of-range error
    /// naming `i` and the version's length.  No version's contents change.
    pub fn get<T: Copy>(&self, arena: &mut PerVecArena<T>, i: usize) -> (r: Result<
        T,
        PerVecError,
    >)
        requires
            old(arena).wf(),
            self@ < old(arena)@.len(),
        ensures
            final(arena).wf(),
            final(arena)@ == old(arena)@,
            (match r {
                Ok(v) => i < old(arena)@[self@].len() && v == old(arena)@[self@][i as int],
                Err(e) => i >= old(arena)@[self@].len() && e == (PerVecError::IndexOutOfRange {
                    index: i,
                    len: old(arena)@[self@].len() as usize,
                }),
            }),
    {
        arena.reroot(self.id);
        proof {
            assert(arena.node_ok(self.id as int));
        }
        match &arena.nodes[self.id] {
            PerVec::Arr(arr) => {
                if i < arr.len() {
                    Ok(arr[i])
                } else {
                    Err(PerVecError::IndexOutOfRange { index: i, len: arr.len() })
                }
            },
            _ => vstd::pervasive::unreached(),
        }
    }

    /// The length of this version.  No version's contents change.
    pub fn len<T>(&self, arena: &mut PerVecArena<T>) -> (n: usize)
        requires
            old(arena).wf(),
            self@ < old(arena)@.len(),
        ensures
            final(arena).wf(),
            final(arena)@ == old(arena)@,
            n == old(arena)@[self@].len(),
    {
        arena.reroot(self.id);
        proof {
            assert(arena.node_ok(self.id as int));
        }
        match &arena.nodes[self.id] {
            PerVec::Arr(arr) => arr.len(),
            _ => vstd::pervasive::unreached(),
        }
    }

    /// Whether this version holds no elements.  No version's contents change.
    pub fn is_empty<T>(&self, arena: &mut PerVecArena<T>) -> (b: bool)
        requires
            old(arena).wf(),
            self@ < old(arena)@.len(),
        ensures
            final(arena).wf(),
            final(arena)@ == old(arena)@,
            b == (old(arena)@[self@].len() == 0),
    {
        self.len(arena) == 0
    }

    /// A new version equal to this one except that index `i` holds `v`, or
    /// the out-of-range error.  Every existing version keeps its contents.
    pub fn set<T>(&self, arena: &mut PerVecArena<T>, i: usize, v: T) -> (r: Result<
        Self,
        PerVecError,
    >)
        requires
            old(arena).wf(),
            self@ < old(arena)@.len(),
        ensures
            final(arena).wf(),
            old(arena)@.is_prefix_of(final(arena)@),
            (match r {
                Ok(h) => {
                    &&& i < old(arena)@[self@].len()
                    &&& h@ == old(arena)@.len()
                    &&& final(arena)@ == old(arena)@.push(
                        old(arena)@[self@].update(i as int, v),
                    )
                },
                Err(e) => {
                    &&& i >= old(arena)@[self@].len()
                    &&& final(arena)@ == old(arena)@
                    &&& e == (PerVecError::IndexOutOfRange {
                        index: i,
                        len: old(arena)@[self@].len() as usize,
                    })
                },
            }),
    {
        let n = self.len(arena);
        if i >= n {
            proof {
                lemma_prefix_refl(arena@);
            }
            return Err(PerVecError::IndexOutOfRange { index: i, len: n });
        }
        let ghost vv = v;
        let ghost pre = *arena;
        let id = arena.nodes.len();
        arena.nodes.push(PerVec::Diff(i, v, self.id));
        proof {
            arena.contents@ = arena.contents@.push(arena.contents@[self@].update(i as int, vv));
            arena.rank@ = arena.rank@.push(arena.rank@[self@] + 1);
            assert forall|j: int| 0 <= j < arena.nodes@.len() implies arena.node_ok(j) by {
                if j < id {
                    assert(pre.node_ok(j));
                }
            }
            lemma_prefix_push(old(arena)@, arena@[id as int]);
        }
        // Keep the freshest version materialized, as reads of it come next.
        arena.reroot(id);
        Ok(PerVecRef { id })
    }

    /// A new version equal to this one with `v` appended.  Every existing
    /// version keeps its contents.
    pub fn push<T>(&self, arena: &mut PerVecArena<T>, v: T) -> (h: Self)
        requires
            old(arena).wf(),
            self@ < old(arena)@.len(),
        ensures
            final(arena).wf(),
            old(arena)@.is_prefix_of(final(arena)@),
            final(arena)@ == old(arena)@.push(old(arena)@[self@].push(v)),
            h@ == old(arena)@.len(),
    {
        let ghost vv = v;
        let id = arena.nodes.len();
        arena.nodes.push(PerVec::Push(v, self.id));
        proof {
            arena.contents@ = arena.contents@.push(arena.contents@[self@].push(vv));
            arena.rank@ = arena.rank@.push(arena.rank@[self@] + 1);
            assert forall|j: int| 0 <= j < arena.nodes@.len() implies arena.node_ok(j) by {
                if j < id {
                    assert(old(arena).node_ok(j));
                }
            }
            lemma_prefix_push(old(arena)@, arena@[id as int]);
        }
        arena.reroot(id);
        PerVecRef { id }
    }
}

/// A sequence is a prefix of itself.
pub proof fn lemma_prefix_refl<A>(s: Seq<A>)
    ensures
        s.is_prefix_of(s),
{
    assert(s =~= s.subrange(0, s.len() as int));
}

/// A sequence is a prefix of itself with one element appended.
pub proof fn lemma_prefix_push<A>(s: Seq<A>, x: A)
    ensures
        s.is_prefix_of(s.push(x)),
{
    assert(s =~= s.push(x).subrange(0, s.len() as int));
}

/// Non-interference: once a version exists, operations that only extend the
/// arena's view never change anything observable through it.  Combined with
/// each operation's own contract — reads leave the view equal, `set` and
/// `push` append to it — every value readable via an older handle stays as
/// it was, however many versions are created, read, or rerooted afterwards.
pub proof fn lemma_non_interference<T>(pre: Seq<Seq<T>>, post: Seq<Seq<T>>, h: int)
    requires
        pre.is_prefix_of(post),
        0 <= h < pre.len(),
    ensures
        post[h] == pre[h],
{
}

/// Push duality: the version derived by appending `x` reads back `x` at the
/// old length, and is exactly one element longer.  Together with the
/// contracts of `push` and `get`, this pins both reads on the new version.
pub proof fn lemma_push_duality<T>(s: Seq<T>, x: T)
    ensures
        s.push(x).len() == s.len() + 1,
        s.push(x)[s.len() as int] == x,
{
}

/// Read stability for `set`: the derived version reads the installed value
/// at the written index and the parent's value everywhere else, so a read
/// returns the value last installed along the version's own derivation
/// chain.
pub proof fn lemma_set_reads<T>(s: Seq<T>, i: int, v: T, j: int)
    requires
        0 <= i < s.len(),
        0 <= j < s.len(),
    ensures
        s.update(i, v)[j] == (if j == i {
            v
        } else {
            s[j]
        }),
{
}

/// The prefix order is transitive.
pub proof fn lemma_prefix_trans<A>(a: Seq<A>, b: Seq<A>, c: Seq<A>)
    requires
        a.is_prefix_of(b),
        b.is_prefix_of(c),
    ensures
        a.is_prefix_of(c),
{
    assert(a =~= c.subrange(0, a.len() as int));
}

} // verus!

