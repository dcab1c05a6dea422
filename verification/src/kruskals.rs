//! Union-find and the edge-selection scan of Kruskal's algorithm.

use vstd::prelude::*;
use vstd::set_lib::lemma_int_range;
use crate::MstError;
use crate::graph::Edge;
use crate::graph::edges_ok;
use vstd::set_lib::lemma_len_subset;
use vstd::set_lib::set_int_range;

verus! {

/// One node of the union-find forest: the index of its parent (itself for a
/// root) and its rank, an upper bound on the height of its subtree that is
/// consulted only when two roots are merged.
///
/// A successor link for enumerating the members of a set is not kept: no
/// consumer enumerates them, only representatives matter.
#[derive(Clone, Copy)]
pub struct UnionFindTree {
    pub parent: u32,
    pub rank: u32,
}

/// Union-find over the vertex set `{0, .., size-1}`, with path compression
/// in `find` and union by rank in `union`.
///
/// Callers may rely on which set each element belongs to (its
/// representative), never on the parent pointers themselves: `find`
/// rewrites pointers as an optimization.
pub struct UnionFind {
    trees: Vec<UnionFindTree>,
}

impl UnionFind {
    /// Number of elements.
    pub closed spec fn len(self) -> int {
        self.trees@.len() as int
    }

    /// Rank of element `i`, exposed so that contracts can pin down which
    /// root survives a union.
    pub closed spec fn rank_of(self, i: int) -> int {
        self.trees@[i].rank as int
    }

    /// Parent pointers stay in range, and ranks grow strictly along them,
    /// so every parent chain ends in a root.
    spec fn nodes_ok(s: Seq<UnionFindTree>) -> bool {
        forall|i: int|
            0 <= i < s.len() ==> (#[trigger] s[i]).parent < s.len() && (s[i].parent != i
                ==> s[s[i].parent as int].rank > s[i].rank)
    }

    /// The elements that are roots of their trees.
    spec fn roots(s: Seq<UnionFindTree>) -> Set<int> {
        Set::new(|i: int| 0 <= i < s.len() && s[i].parent == i)
    }

    /// Any rank plus the number of remaining roots stays within the element
    /// count; this is what keeps rank increments from overflowing.
    #[verifier::opaque]
    spec fn ranks_ok(s: Seq<UnionFindTree>) -> bool {
        forall|i: int| 0 <= i < s.len() ==> (#[trigger] s[i]).rank + Self::roots(s).len() <= s.len()
    }

    /// Internal invariant of the forest.
    pub closed spec fn wf(self) -> bool {
        &&& Self::nodes_ok(self.trees@)
        &&& Self::ranks_ok(self.trees@)
        &&& self.trees@.len() <= u32::MAX
    }

    /// The root reached from `i` by following parent pointers.
    spec fn root_from(s: Seq<UnionFindTree>, i: int) -> int
        decreases 0x1_0000_0000 - s[i].rank
            when Self::nodes_ok(s) && 0 <= i < s.len()
    {
        if s[i].parent == i {
            i
        } else {
            Self::root_from(s, s[i].parent as int)
        }
    }

    /// The representative of `i`'s set.
    pub closed spec fn rep(self, i: int) -> int {
        Self::root_from(self.trees@, i)
    }

    /// `a` and `b` lie in the same set.
    pub open spec fn same_set(self, a: int, b: int) -> bool {
        self.rep(a) == self.rep(b)
    }

    /// Number of distinct sets, that is of distinct representatives.
    pub closed spec fn num_sets(self) -> int {
        Self::roots(self.trees@).len() as int
    }

    /// Following parents from `i` ends at a root of no smaller rank.
    proof fn lemma_root(s: Seq<UnionFindTree>, i: int)
        requires
            Self::nodes_ok(s),
            0 <= i < s.len(),
        ensures
            ({
                let r = Self::root_from(s, i);
                &&& 0 <= r < s.len()
                &&& s[r].parent == r
                &&& Self::roots(s).contains(r)
                &&& s[r].rank >= s[i].rank
                &&& (s[i].parent != i ==> s[r].rank > s[i].rank)
            }),
        decreases 0x1_0000_0000 - s[i].rank,
    {
        if s[i].parent != i {
            Self::lemma_root(s, s[i].parent as int);
        }
    }

    proof fn lemma_roots_finite(s: Seq<UnionFindTree>)
        ensures
            Self::roots(s).finite(),
            Self::roots(s).len() <= s.len(),
    {
        lemma_int_range(0, s.len() as int);
        lemma_len_subset::<int>(Self::roots(s), set_int_range(0, s.len() as int));
    }

    /// The representative of a representative is itself: `find` is
    /// idempotent on its result.
    pub proof fn lemma_rep_idempotent(self, i: int)
        requires
            self.wf(),
            0 <= i < self.len(),
        ensures
            self.rep(self.rep(i)) == self.rep(i),
            0 <= self.rep(i) < self.len(),
    {
        Self::lemma_root(self.trees@, i);
    }

    /// A nonempty structure has between 1 and `len` sets.
    pub proof fn lemma_num_sets_bounds(self)
        requires
            self.wf(),
            self.len() >= 1,
        ensures
            1 <= self.num_sets() <= self.len(),
    {
        let s = self.trees@;
        Self::lemma_roots_finite(s);
        Self::lemma_root(s, 0);
        let r = Self::root_from(s, 0);
        assert(Self::roots(s).remove(r).len() == Self::roots(s).len() - 1);
    }

    /// A finite set with two distinct elements has at least two elements.
    proof fn lemma_pair_in_set(t: Set<int>, x: int, y: int)
        requires
            t.finite(),
            t.contains(x),
            t.contains(y),
            x != y,
        ensures
            t.len() >= 2,
    {
        assert(t.remove(x).contains(y));
        assert(t.remove(x).len() == t.len() - 1);
        assert(t.remove(x).remove(y).len() == t.len() - 2);
    }

    /// Two elements of different sets witness at least two sets.
    #[verifier::rlimit(100)]
    pub proof fn lemma_two_sets(self, a: int, b: int)
        requires
            self.wf(),
            0 <= a < self.len(),
            0 <= b < self.len(),
            !self.same_set(a, b),
        ensures
            self.num_sets() >= 2,
    {
        let s = self.trees@;
        Self::lemma_roots_finite(s);
        Self::lemma_root(s, a);
        Self::lemma_root(s, b);
        Self::lemma_pair_in_set(
            Self::roots(s),
            Self::root_from(s, a),
            Self::root_from(s, b),
        );
    }

    /// When one set is left, every two elements share their representative.
    #[verifier::rlimit(100)]
    pub proof fn lemma_single_set(self, a: int, b: int)
        requires
            self.wf(),
            self.num_sets() == 1,
            0 <= a < self.len(),
            0 <= b < self.len(),
        ensures
            self.same_set(a, b),
    {
        let s = self.trees@;
        Self::lemma_roots_finite(s);
        Self::lemma_root(s, a);
        Self::lemma_root(s, b);
        let ra = Self::root_from(s, a);
        let rb = Self::root_from(s, b);
        if ra != rb {
            let rest = Self::roots(s).remove(ra);
            assert(rest.contains(rb));
            assert(rest.len() == Self::roots(s).len() - 1);
            assert(rest.remove(rb).len() == rest.len() - 1);
        }
    }

    /// `size` singleton sets, each element its own representative, rank 0.
    pub fn new(size: u32) -> (r: UnionFind)
        ensures
            r.wf(),
            r.len() == size as int,
            forall|i: int| 0 <= i < size as int ==> r.rep(i) == i,
            forall|i: int| 0 <= i < size as int ==> r.rank_of(i) == 0,
            r.num_sets() == size as int,
    {
        let mut trees: Vec<UnionFindTree> = Vec::new();
        let mut index: u32 = 0;
        while index < size
            invariant
                index <= size,
                trees@.len() == index as int,
                forall|i: int|
                    0 <= i < index as int ==> (#[trigger] trees@[i]).parent == i && trees@[i].rank
                        == 0,
            decreases size - index,
        {
            trees.push(UnionFindTree { parent: index, rank: 0 });
            index = index + 1;
        }
        let uf = UnionFind { trees };
        proof {
            let s = uf.trees@;
            reveal(UnionFind::ranks_ok);
            assert(Self::nodes_ok(s));
            assert(Self::roots(s) =~= set_int_range(0, s.len() as int));
            lemma_int_range(0, s.len() as int);
            assert forall|i: int| 0 <= i < size as int implies uf.rep(i) == i by {
                assert(s[i].parent == i);
            }
        }
        uf
    }

    /// Returns the representative of `index`'s set, compressing the path:
    /// every node visited is rewritten to point directly at the root.  Which
    /// set each element belongs to never changes.
    #[verifier::rlimit(100)]
    pub fn find(&mut self, index: u32) -> (r: u32)
        requires
            old(self).wf(),
            index < old(self).len(),
        ensures
            final(self).wf(),
            final(self).len() == old(self).len(),
            r == old(self).rep(index as int),
            r < old(self).len(),
            forall|k: int| 0 <= k < old(self).len() ==> final(self).rep(k) == old(self).rep(k),
            forall|k: int|
                0 <= k < old(self).len() ==> final(self).rank_of(k) == old(self).rank_of(k),
            final(self).num_sets() == old(self).num_sets(),
        decreases 0x1_0000_0000 - old(self).rank_of(index as int),
    {
        proof {
            Self::lemma_root(self.trees@, index as int);
        }
        let p = self.trees[index as usize].parent;
        if p == index {
            index
        } else {
            proof {
                assert(old(self).rep(index as int) == old(self).rep(p as int));
            }
            let root = self.find(p);
            let rank = self.trees[index as usize].rank;
            let ghost mid = self.trees@;
            proof {
                assert(self.rep(index as int) == old(self).rep(index as int));
                assert(Self::root_from(mid, index as int) == root as int);
            }
            self.trees.set(index as usize, UnionFindTree { parent: root, rank });
            proof {
                assert(self.trees@ == mid.update(
                    index as int,
                    UnionFindTree { parent: Self::root_from(mid, index as int) as u32, rank: mid[index as int].rank },
                ));
                Self::lemma_redirect(mid, self.trees@, index as int);
                assert(Self::roots(self.trees@) == Self::roots(mid));
                assert forall|k: int| 0 <= k < old(self).len() implies self.rank_of(k)
                    == old(self).rank_of(k) by {
                    assert(self.trees@[k].rank == mid[k].rank);
                }
            }
            root
        }
    }

    /// Merges the sets containing `first` and `second`; nothing changes when
    /// they already share a set, so callers that count merges test that
    /// themselves with `find` beforehand.  The root of lower rank is
    /// attached under the root of higher rank; on equal ranks the root of
    /// `second`'s set survives and its rank grows by one.
    #[verifier::rlimit(100)]
    pub fn union(&mut self, first: u32, second: u32)
        requires
            old(self).wf(),
            first < old(self).len(),
            second < old(self).len(),
        ensures
            final(self).wf(),
            final(self).len() == old(self).len(),
            old(self).same_set(first as int, second as int) ==> forall|k: int|
                0 <= k < old(self).len() ==> final(self).rep(k) == old(self).rep(k),
            old(self).same_set(first as int, second as int) ==> forall|k: int|
                0 <= k < old(self).len() ==> final(self).rank_of(k) == old(self).rank_of(k),
            !old(self).same_set(first as int, second as int) ==> ({
                let ra = old(self).rep(first as int);
                let rb = old(self).rep(second as int);
                let rt = if old(self).rank_of(ra) > old(self).rank_of(rb) {
                    ra
                } else {
                    rb
                };
                forall|k: int|
                    0 <= k < old(self).len() ==> final(self).rank_of(k) == (if k == rt && old(
                        self,
                    ).rank_of(ra) == old(self).rank_of(rb) {
                        old(self).rank_of(k) + 1
                    } else {
                        old(self).rank_of(k)
                    })
            }),
            !old(self).same_set(first as int, second as int) ==> ({
                let ra = old(self).rep(first as int);
                let rb = old(self).rep(second as int);
                let rt = if old(self).rank_of(ra) > old(self).rank_of(rb) {
                    ra
                } else {
                    rb
                };
                forall|k: int|
                    0 <= k < old(self).len() ==> final(self).rep(k) == (if old(self).rep(k) == ra
                        || old(self).rep(k) == rb {
                        rt
                    } else {
                        old(self).rep(k)
                    })
            }),
            final(self).num_sets() == (if old(self).same_set(first as int, second as int) {
                old(self).num_sets()
            } else {
                old(self).num_sets() - 1
            }),
            forall|a: int, b: int|
                0 <= a < old(self).len() && 0 <= b < old(self).len()
                    ==> ((#[trigger] final(self).same_set(a, b)) <==> (
                        old(self).same_set(a, b)
                        || (old(self).same_set(a, first as int) && old(self).same_set(b, second as int))
                        || (old(self).same_set(a, second as int) && old(self).same_set(b, first as int)))),
    {
        let i = self.find(first);
        let j = self.find(second);
        if i == j {
            return ;
        }
        let ghost pre = *self;
        proof {
            Self::lemma_root(pre.trees@, first as int);
            Self::lemma_root(pre.trees@, second as int);
            pre.lemma_two_sets(first as int, second as int);
            Self::lemma_roots_finite(pre.trees@);
        }
        let i_rank = self.trees[i as usize].rank;
        let j_rank = self.trees[j as usize].rank;
        if i_rank < j_rank {
            self.trees.set(i as usize, UnionFindTree { parent: j, rank: i_rank });
            proof {
                Self::lemma_union_step(pre.trees@, self.trees@, i as int, j as int);
                assert forall|k: int| 0 <= k < old(self).len() implies #[trigger] self.rank_of(k)
                    == old(self).rank_of(k) by {
                    assert(pre.rank_of(k) == old(self).rank_of(k));
                }
            }
        } else if j_rank < i_rank {
            self.trees.set(j as usize, UnionFindTree { parent: i, rank: j_rank });
            proof {
                Self::lemma_union_step(pre.trees@, self.trees@, j as int, i as int);
                assert forall|k: int| 0 <= k < old(self).len() implies #[trigger] self.rank_of(k)
                    == old(self).rank_of(k) by {
                    assert(pre.rank_of(k) == old(self).rank_of(k));
                }
            }
        } else {
            proof {
                reveal(UnionFind::ranks_ok);
                assert(pre.trees@[j as int].rank + Self::roots(pre.trees@).len()
                    <= pre.trees@.len());
            }
            self.trees.set(i as usize, UnionFindTree { parent: j, rank: i_rank });
            self.trees.set(j as usize, UnionFindTree { parent: j, rank: j_rank + 1 });
            proof {
                Self::lemma_union_step(pre.trees@, self.trees@, i as int, j as int);
                assert forall|k: int| 0 <= k < old(self).len() implies #[trigger] self.rank_of(k)
                    == (if k == j as int {
                    old(self).rank_of(k) + 1
                } else {
                    old(self).rank_of(k)
                }) by {
                    assert(pre.rank_of(k) == old(self).rank_of(k));
                }
            }
        }
    }

    /// Attaching the root `ri` under the distinct root `rj` merges exactly
    /// their two sets and retires the root `ri`.
    #[verifier::rlimit(100)]
    proof fn lemma_union_step(s: Seq<UnionFindTree>, s2: Seq<UnionFindTree>, ri: int, rj: int)
        requires
            Self::nodes_ok(s),
            Self::ranks_ok(s),
            s.len() <= u32::MAX,
            0 <= ri < s.len(),
            0 <= rj < s.len(),
            ri != rj,
            s[ri].parent == ri,
            s[rj].parent == rj,
            s2.len() == s.len(),
            s2[ri].parent == rj,
            s2[ri].rank == s[ri].rank,
            s2[rj].parent == rj,
            (s[ri].rank < s[rj].rank && s2[rj].rank == s[rj].rank) || (s[ri].rank == s[rj].rank
                && s2[rj].rank == s[rj].rank + 1),
            forall|t: int| 0 <= t < s.len() && t != ri && t != rj ==> s2[t] == s[t],
        ensures
            Self::nodes_ok(s2),
            Self::ranks_ok(s2),
            forall|k: int|
                0 <= k < s.len() ==> #[trigger] Self::root_from(s2, k) == (if Self::root_from(
                    s,
                    k,
                ) == ri {
                    rj
                } else {
                    Self::root_from(s, k)
                }),
            Self::roots(s2) =~= Self::roots(s).remove(ri),
            Self::roots(s2).len() == Self::roots(s).len() - 1,
    {
        Self::lemma_roots_finite(s);
        assert(Self::nodes_ok(s2)) by {
            assert forall|t: int|
                0 <= t < s2.len() implies (#[trigger] s2[t]).parent < s2.len() && (s2[t].parent != t
                ==> s2[s2[t].parent as int].rank > s2[t].rank) by {
                if t != ri && t != rj {
                    assert(s2[t] == s[t]);
                    let p = s[t].parent as int;
                    if p != t {
                        if p == ri {
                            assert(s2[ri].rank == s[ri].rank);
                        } else if p == rj {
                            assert(s2[rj].rank >= s[rj].rank);
                        } else {
                            assert(s2[p] == s[p]);
                        }
                    }
                }
            }
        }
        assert forall|k: int| 0 <= k < s.len() implies #[trigger] Self::root_from(s2, k) == (
        if Self::root_from(s, k) == ri {
            rj
        } else {
            Self::root_from(s, k)
        }) by {
            Self::lemma_attach_one(s, s2, ri, rj, k);
        }
        assert(Self::roots(s2) =~= Self::roots(s).remove(ri));
        assert(Self::roots(s2) == Self::roots(s).remove(ri));
        assert(Self::roots(s2).len() == Self::roots(s).len() - 1);
        assert(Self::ranks_ok(s2)) by {
            reveal(UnionFind::ranks_ok);
            assert forall|t: int|
                0 <= t < s2.len() implies (#[trigger] s2[t]).rank + Self::roots(s2).len()
                <= s2.len() by {
                assert(s[t].rank + Self::roots(s).len() <= s.len());
                if t != rj {
                    assert(s2[t].rank == s[t].rank);
                } else {
                    assert(s[rj].rank + Self::roots(s).len() <= s.len());
                }
            }
        }
    }

    proof fn lemma_attach_one(s: Seq<UnionFindTree>, s2: Seq<UnionFindTree>, ri: int, rj: int, k: int)
        requires
            Self::nodes_ok(s),
            Self::nodes_ok(s2),
            s.len() <= u32::MAX,
            0 <= ri < s.len(),
            0 <= rj < s.len(),
            0 <= k < s.len(),
            ri != rj,
            s[ri].parent == ri,
            s[rj].parent == rj,
            s2.len() == s.len(),
            s2[ri].parent == rj,
            s2[rj].parent == rj,
            forall|t: int| 0 <= t < s.len() && t != ri && t != rj ==> (#[trigger] s2[t]).parent
                == s[t].parent,
        ensures
            Self::root_from(s2, k) == (if Self::root_from(s, k) == ri {
                rj
            } else {
                Self::root_from(s, k)
            }),
        decreases 0x1_0000_0000 - s2[k].rank,
    {
        if s2[k].parent == k {
            assert(k != ri);
            assert(s[k].parent == k);
        } else if k == ri {
            assert(Self::root_from(s2, ri) == Self::root_from(s2, rj));
            assert(Self::root_from(s2, rj) == rj);
            assert(Self::root_from(s, ri) == ri);
        } else {
            assert(k != ri);
            let p = s2[k].parent as int;
            assert(p == s[k].parent as int);
            Self::lemma_attach_one(s, s2, ri, rj, p);
        }
    }

    /// Redirecting one node straight at its root preserves well-formedness,
    /// every representative, and the set of roots.
    proof fn lemma_redirect(s: Seq<UnionFindTree>, s2: Seq<UnionFindTree>, i: int)
        requires
            Self::nodes_ok(s),
            s.len() <= u32::MAX,
            0 <= i < s.len(),
            s2 == s.update(
                i,
                UnionFindTree { parent: Self::root_from(s, i) as u32, rank: s[i].rank },
            ),
        ensures
            Self::nodes_ok(s2),
            forall|k: int|
                0 <= k < s.len() ==> #[trigger] Self::root_from(s2, k) == Self::root_from(s, k),
            Self::roots(s2) =~= Self::roots(s),
            Self::ranks_ok(s) ==> Self::ranks_ok(s2),
    {
        Self::lemma_root(s, i);
        assert(Self::nodes_ok(s2));
        assert forall|k: int| 0 <= k < s.len() implies #[trigger] Self::root_from(s2, k)
            == Self::root_from(s, k) by {
            Self::lemma_redirect_one(s, s2, i, k);
        }
        assert(Self::roots(s2) =~= Self::roots(s));
        if Self::ranks_ok(s) {
            reveal(UnionFind::ranks_ok);
            assert(Self::roots(s2) == Self::roots(s));
            assert forall|k: int| 0 <= k < s2.len() implies (#[trigger] s2[k]).rank + Self::roots(
                s2,
            ).len() <= s2.len() by {
                assert(s2[k].rank == s[k].rank);
                assert(s[k].rank + Self::roots(s).len() <= s.len());
            }
        }
    }

    proof fn lemma_redirect_one(s: Seq<UnionFindTree>, s2: Seq<UnionFindTree>, i: int, k: int)
        requires
            Self::nodes_ok(s),
            Self::nodes_ok(s2),
            s.len() <= u32::MAX,
            0 <= i < s.len(),
            0 <= k < s.len(),
            s2 == s.update(
                i,
                UnionFindTree { parent: Self::root_from(s, i) as u32, rank: s[i].rank },
            ),
        ensures
            Self::root_from(s2, k) == Self::root_from(s, k),
        decreases 0x1_0000_0000 - s[k].rank,
    {
        Self::lemma_root(s, i);
        let r = Self::root_from(s, i);
        if k == i {
            if s[i].parent == i {
                assert(s2[i].parent == i);
            } else {
                assert(r != i);
                assert(s2[i].parent == r);
                assert(s2[r] == s[r]);
                assert(s2[r].parent == r);
                assert(Self::root_from(s2, i) == Self::root_from(s2, r));
                assert(Self::root_from(s2, r) == r);
            }
        } else {
            assert(s2[k] == s[k]);
            if s[k].parent == k {
            } else {
                Self::lemma_redirect_one(s, s2, i, s[k].parent as int);
            }
        }
    }
}

// ----------------------------------------------------------------------
// The edge-selection scan of Kruskal's algorithm.
//
// A partition of the vertices is modelled as a map from each vertex to the
// representative of its set; the scan walks the weight-ordered edge list
// and accepts every edge whose endpoints still lie in different sets.
// ----------------------------------------------------------------------

/// The partition of `{0, .., n-1}` into singleton sets.
pub open spec fn singleton_partition(n: int) -> Map<int, int> {
    Map::new(|i: int| 0 <= i < n, |i: int| i)
}

/// A representative map on `{0, .., n-1}`: total, in range and idempotent,
/// so two vertices share a set exactly when they share their image.
pub open spec fn partition_ok(m: Map<int, int>, n: int) -> bool {
    &&& (forall|i: int| #[trigger] m.dom().contains(i) <==> 0 <= i < n)
    &&& (forall|i: int| 0 <= i < n ==> 0 <= #[trigger] m[i] < n && m[m[i]] == m[i])
}

/// Merging the sets of `a` and `b`: everything in `a`'s set now answers to
/// `b`'s representative.
pub open spec fn merge_sets(m: Map<int, int>, a: int, b: int) -> Map<int, int> {
    Map::new(|i: int| m.dom().contains(i), |i: int| if m[i] == m[a] { m[b] } else { m[i] })
}

/// The partition after the scan has looked at the first `k` edges.
pub open spec fn scan_partition(n: int, es: Seq<Edge>, k: int) -> Map<int, int>
    decreases k,
{
    if k <= 0 {
        singleton_partition(n)
    } else {
        let m = scan_partition(n, es, k - 1);
        let e = es[k - 1];
        if m[e.u as int] != m[e.v as int] {
            merge_sets(m, e.u as int, e.v as int)
        } else {
            m
        }
    }
}

/// The scan accepts edge `i` exactly when its endpoints still lie in
/// different sets once the edges before `i` have been processed.
pub open spec fn accepts(n: int, es: Seq<Edge>, i: int) -> bool {
    scan_partition(n, es, i)[es[i].u as int] != scan_partition(n, es, i)[es[i].v as int]
}

/// The indices, in order, of the edges among the first `k` that the scan
/// accepts.
pub open spec fn accepted_upto(n: int, es: Seq<Edge>, k: int) -> Seq<int>
    decreases k,
{
    if k <= 0 {
        Seq::empty()
    } else {
        accepted_upto(n, es, k - 1) + (if accepts(n, es, k - 1) {
            seq![k - 1]
        } else {
            Seq::empty()
        })
    }
}

/// The edge indices of the minimum spanning tree that a full scan of the
/// weight-ordered list `es` on `n` vertices selects.
pub open spec fn mst_edges(n: int, es: Seq<Edge>) -> Seq<int> {
    accepted_upto(n, es, es.len() as int)
}

/// The representatives (one per set) of a partition map.
pub open spec fn partition_reps(m: Map<int, int>, n: int) -> Set<int> {
    Set::new(|i: int| 0 <= i < n && m[i] == i)
}

/// Number of sets of a partition map.
pub open spec fn partition_sets(m: Map<int, int>, n: int) -> int {
    partition_reps(m, n).len() as int
}

proof fn lemma_partition_reps_finite(m: Map<int, int>, n: int)
    requires
        n >= 0,
    ensures
        partition_reps(m, n).finite(),
        partition_reps(m, n).len() <= n,
{
    lemma_int_range(0, n);
    lemma_len_subset::<int>(partition_reps(m, n), set_int_range(0, n));
}

/// Merging two distinct sets keeps the map a partition, relates the new
/// set relation to the old one, and retires exactly one representative.
#[verifier::rlimit(50)]
proof fn lemma_merge_sets(m: Map<int, int>, n: int, a: int, b: int)
    requires
        partition_ok(m, n),
        0 <= a < n,
        0 <= b < n,
        m[a] != m[b],
    ensures
        partition_ok(merge_sets(m, a, b), n),
        forall|x: int, y: int|
            #![trigger merge_sets(m, a, b)[x], merge_sets(m, a, b)[y]]
            0 <= x < n && 0 <= y < n ==> (merge_sets(m, a, b)[x] == merge_sets(m, a, b)[y] <==> (
            m[x] == m[y] || (m[x] == m[a] && m[y] == m[b]) || (m[x] == m[b] && m[y] == m[a]))),
        partition_reps(merge_sets(m, a, b), n) =~= partition_reps(m, n).remove(m[a]),
        partition_sets(merge_sets(m, a, b), n) == partition_sets(m, n) - 1,
{
    let m2 = merge_sets(m, a, b);
    assert forall|x: int, y: int|
        #![trigger m2[x], m2[y]]
        0 <= x < n && 0 <= y < n implies (m2[x] == m2[y] <==> (m[x] == m[y] || (m[x] == m[a]
        && m[y] == m[b]) || (m[x] == m[b] && m[y] == m[a]))) by {
        assert(m[m[x]] == m[x]);
        assert(m[m[y]] == m[y]);
    }
    assert(partition_reps(m2, n) =~= partition_reps(m, n).remove(m[a]));
    lemma_partition_reps_finite(m, n);
    assert(partition_reps(m, n).contains(m[a]));
    assert(partition_reps(m2, n) == partition_reps(m, n).remove(m[a]));
}

/// A scan keeps the partition well-formed.
pub proof fn lemma_scan_partition_ok(n: int, es: Seq<Edge>, k: int)
    requires
        n >= 1,
        edges_ok(es, n),
        0 <= k <= es.len(),
    ensures
        partition_ok(scan_partition(n, es, k), n),
    decreases k,
{
    if k > 0 {
        lemma_scan_partition_ok(n, es, k - 1);
        let m = scan_partition(n, es, k - 1);
        let e = es[k - 1];
        if m[e.u as int] != m[e.v as int] {
            lemma_merge_sets(m, n, e.u as int, e.v as int);
        }
    }
}

/// After any `k` scanned edges, exactly `n` minus the number of accepted
/// (set-reducing) edges sets remain, and at least one: accepting an edge
/// always merges two sets into one.
pub proof fn lemma_sets_after_scan(n: int, es: Seq<Edge>, k: int)
    requires
        n >= 1,
        edges_ok(es, n),
        0 <= k <= es.len(),
    ensures
        partition_sets(scan_partition(n, es, k), n) == n - accepted_upto(n, es, k).len(),
        1 <= partition_sets(scan_partition(n, es, k), n) <= n,
        accepted_upto(n, es, k).len() <= n - 1,
    decreases k,
{
    lemma_scan_partition_ok(n, es, k);
    let m = scan_partition(n, es, k);
    lemma_partition_reps_finite(m, n);
    assert(partition_reps(m, n).contains(m[0]));
    assert(partition_reps(m, n).remove(m[0]).len() == partition_reps(m, n).len() - 1);
    if k == 0 {
        assert(partition_reps(singleton_partition(n), n) =~= set_int_range(0, n));
        lemma_int_range(0, n);
    } else {
        lemma_sets_after_scan(n, es, k - 1);
        lemma_scan_partition_ok(n, es, k - 1);
        let prev = scan_partition(n, es, k - 1);
        let e = es[k - 1];
        if prev[e.u as int] != prev[e.v as int] {
            lemma_merge_sets(prev, n, e.u as int, e.v as int);
        }
    }
}

/// Once the scan has accepted `n - 1` edges the partition is a single set,
/// so no later edge is accepted: stopping early selects exactly the edges
/// that a scan of the whole list would select.
pub proof fn lemma_early_exit(n: int, es: Seq<Edge>, k: int, j: int)
    requires
        n >= 1,
        edges_ok(es, n),
        0 <= k <= j <= es.len(),
        accepted_upto(n, es, k).len() == n - 1,
    ensures
        accepted_upto(n, es, j) == accepted_upto(n, es, k),
    decreases j - k,
{
    if j > k {
        lemma_early_exit(n, es, k, j - 1);
        lemma_scan_partition_ok(n, es, j - 1);
        lemma_sets_after_scan(n, es, j - 1);
        let m = scan_partition(n, es, j - 1);
        let e = es[j - 1];
        lemma_partition_reps_finite(m, n);
        assert(partition_reps(m, n).contains(m[e.u as int]));
        assert(partition_reps(m, n).contains(m[e.v as int]));
        if m[e.u as int] != m[e.v as int] {
            assert(partition_reps(m, n).remove(m[e.u as int]).contains(m[e.v as int]));
            assert(partition_reps(m, n).remove(m[e.u as int]).len() == partition_reps(m, n).len()
                - 1);
            assert(partition_reps(m, n).remove(m[e.u as int]).remove(m[e.v as int]).len()
                == partition_reps(m, n).len() - 2);
            assert(false);
        }
        assert(accepted_upto(n, es, j) =~= accepted_upto(n, es, j - 1));
    }
}

/// Vertices `a` and `b` are transitively unioned by the first `k` edges:
/// equal, or linked through some already linked pair among them.
pub open spec fn linked_upto(n: int, es: Seq<Edge>, k: int, a: int, b: int) -> bool
    decreases k,
{
    if k <= 0 {
        a == b
    } else {
        let u = es[k - 1].u as int;
        let v = es[k - 1].v as int;
        ||| linked_upto(n, es, k - 1, a, b)
        ||| (linked_upto(n, es, k - 1, a, u) && linked_upto(n, es, k - 1, v, b))
        ||| (linked_upto(n, es, k - 1, a, v) && linked_upto(n, es, k - 1, u, b))
    }
}

/// After any sequence of unions two vertices share a representative exactly
/// when they were transitively unioned.
pub proof fn lemma_linked_iff_same_rep(n: int, es: Seq<Edge>, k: int, a: int, b: int)
    requires
        n >= 1,
        edges_ok(es, n),
        0 <= k <= es.len(),
        0 <= a < n,
        0 <= b < n,
    ensures
        scan_partition(n, es, k)[a] == scan_partition(n, es, k)[b] <==> linked_upto(n, es, k, a, b),
    decreases k,
{
    if k > 0 {
        lemma_scan_partition_ok(n, es, k - 1);
        let m = scan_partition(n, es, k - 1);
        let u = es[k - 1].u as int;
        let v = es[k - 1].v as int;
        lemma_linked_iff_same_rep(n, es, k - 1, a, b);
        lemma_linked_iff_same_rep(n, es, k - 1, a, u);
        lemma_linked_iff_same_rep(n, es, k - 1, v, b);
        lemma_linked_iff_same_rep(n, es, k - 1, a, v);
        lemma_linked_iff_same_rep(n, es, k - 1, u, b);
        if m[u] != m[v] {
            lemma_merge_sets(m, n, u, v);
        } else {
            assert(m[m[a]] == m[a]);
        }
    }
}

/// The edge-selection scan of Kruskal's algorithm.
///
/// `edges` must be ordered by weight (the caller owns the weights); the
/// scan returns the positions of the edges a minimum spanning tree uses,
/// in scan order, stopping as soon as `n - 1` edges are accepted.  With
/// fewer than 2 vertices no spanning tree exists; when the whole list
/// joins fewer than `n - 1` pairs of sets the graph is disconnected, and
/// no partial answer is returned.
#[verifier::rlimit(100)]
pub fn mst_select(n: u32, edges: &Vec<Edge>) -> (r: Result<Vec<usize>, MstError>)
    requires
        edges_ok(edges@, n as int),
    ensures
        n < 2 ==> r == Result::<Vec<usize>, MstError>::Err(MstError::InvalidArgument),
        n >= 2 && mst_edges(n as int, edges@).len() == n as int - 1 ==> (r matches Ok(picked)
            && picked@.map_values(|x: usize| x as int) == mst_edges(n as int, edges@)),
        n >= 2 && mst_edges(n as int, edges@).len() != n as int - 1 ==> r == Result::<
            Vec<usize>,
            MstError,
        >::Err(MstError::Disconnected),
{
    if n < 2 {
        return Err(MstError::InvalidArgument);
    }
    let ghost es = edges@;
    let ghost gn = n as int;
    let mut uf = UnionFind::new(n);
    let mut needed: u32 = n - 1;
    let mut picked: Vec<usize> = Vec::new();
    let mut at: usize = 0;
    proof {
        assert(picked@.map_values(|x: usize| x as int) =~= accepted_upto(gn, es, 0));
        assert forall|a: int, b: int| 0 <= a < gn && 0 <= b < gn implies ((#[trigger] uf.same_set(
            a,
            b,
        )) <==> scan_partition(gn, es, 0)[a] == scan_partition(gn, es, 0)[b]) by {
            assert(uf.rep(a) == a);
            assert(uf.rep(b) == b);
        }
    }
    while at < edges.len()
        invariant_except_break
            uf.wf(),
            uf.len() == gn,
            n >= 2,
            gn == n as int,
            es == edges@,
            at <= edges.len(),
            edges_ok(es, gn),
            partition_ok(scan_partition(gn, es, at as int), gn),
            needed as int == gn - 1 - accepted_upto(gn, es, at as int).len(),
            needed >= 1,
            picked@.map_values(|x: usize| x as int) == accepted_upto(gn, es, at as int),
            forall|a: int, b: int|
                0 <= a < gn && 0 <= b < gn ==> ((#[trigger] uf.same_set(a, b)) <==> scan_partition(
                    gn,
                    es,
                    at as int,
                )[a] == scan_partition(gn, es, at as int)[b]),
        ensures
            es == edges@,
            at <= edges.len(),
            picked@.map_values(|x: usize| x as int) == accepted_upto(gn, es, at as int),
            needed as int == gn - 1 - accepted_upto(gn, es, at as int).len(),
            needed == 0 || at == edges.len(),
        decreases edges.len() - at,
    {
        let e = edges[at];
        let ghost top = *(&uf);
        let ghost m = scan_partition(gn, es, at as int);
        let ru = uf.find(e.u);
        let rv = uf.find(e.v);
        let ghost pre = *(&uf);
        proof {
            assert(ru == top.rep(e.u as int));
            assert(rv == top.rep(e.v as int));
            assert(top.same_set(e.u as int, e.v as int) <==> m[e.u as int] == m[e.v as int]);
            assert forall|k: int| 0 <= k < gn implies #[trigger] pre.rep(k) == top.rep(k) by {}
        }
        if ru != rv {
            proof {
                lemma_merge_sets(m, gn, e.u as int, e.v as int);
            }
            uf.union(e.u, e.v);
            picked.push(at);
            needed = needed - 1;
            proof {
                let m2 = scan_partition(gn, es, at as int + 1);
                assert(accepts(gn, es, at as int));
                assert(m2 == merge_sets(m, e.u as int, e.v as int));
                assert(accepted_upto(gn, es, at as int + 1) =~= accepted_upto(gn, es, at as int)
                    + seq![at as int]);
                assert(picked@.map_values(|x: usize| x as int) =~= accepted_upto(
                    gn,
                    es,
                    at as int + 1,
                ));
                assert forall|a: int, b: int| 0 <= a < gn && 0 <= b < gn implies ((
                #[trigger] uf.same_set(a, b)) <==> m2[a] == m2[b]) by {
                    assert(pre.rep(a) == top.rep(a));
                    assert(pre.rep(b) == top.rep(b));
                    assert(pre.rep(e.u as int) == top.rep(e.u as int));
                    assert(pre.rep(e.v as int) == top.rep(e.v as int));
                    assert(top.same_set(a, b) <==> m[a] == m[b]);
                    assert(top.same_set(a, e.u as int) <==> m[a] == m[e.u as int]);
                    assert(top.same_set(b, e.v as int) <==> m[b] == m[e.v as int]);
                    assert(top.same_set(a, e.v as int) <==> m[a] == m[e.v as int]);
                    assert(top.same_set(b, e.u as int) <==> m[b] == m[e.u as int]);
                    assert(uf.same_set(a, b) <==> (pre.same_set(a, b) || (pre.same_set(
                        a,
                        e.u as int,
                    ) && pre.same_set(b, e.v as int)) || (pre.same_set(a, e.v as int)
                        && pre.same_set(b, e.u as int))));
                }
            }
        } else {
            proof {
                let m2 = scan_partition(gn, es, at as int + 1);
                assert(m[e.u as int] == m[e.v as int]);
                assert(!accepts(gn, es, at as int));
                assert(m2 == m);
                assert(accepted_upto(gn, es, at as int + 1) =~= accepted_upto(gn, es, at as int));
                assert forall|a: int, b: int| 0 <= a < gn && 0 <= b < gn implies ((
                #[trigger] uf.same_set(a, b)) <==> m2[a] == m2[b]) by {
                    assert(pre.rep(a) == top.rep(a));
                    assert(pre.rep(b) == top.rep(b));
                    assert(top.same_set(a, b) <==> m[a] == m[b]);
                }
            }
        }
        at = at + 1;
        if needed == 0 {
            break ;
        }
    }
    if needed == 0 {
        proof {
            lemma_early_exit(gn, es, at as int, es.len() as int);
        }
        Ok(picked)
    } else {
        proof {
            lemma_sets_after_scan(gn, es, es.len() as int);
        }
        Err(MstError::Disconnected)
    }
}

} // verus!
