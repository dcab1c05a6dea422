//! Acceptance state of the zero-dimensional MST estimator.
//!
//! The zero-dimensional estimator never materializes a graph: it draws
//! candidate edges with uniformly random endpoints, one after the other, in
//! what amounts to increasing weight order, and accepts each one that joins
//! two components until a spanning tree is complete.  The weights — the
//! exponentially distributed gaps between candidate arrivals — are
//! floating-point values the caller accumulates itself; this module decides,
//! verifiably, which candidates are accepted and when the tree is done.

use rand::Rng;
use vstd::prelude::*;

use crate::MstError;
use crate::kruskals::UnionFind;

verus! {

/// Relies on `rand::Rng::gen_range` over `0..n` on the thread-local
/// generator of `rand::thread_rng`: a uniformly distributed draw from
/// `[0, n)`.  Nothing more is assumed of the value; every call may differ.
#[verifier::external_body]
fn sample_vertex(n: u32) -> (r: u32)
    requires
        n >= 1,
    ensures
        r < n,
{
    rand::thread_rng().gen_range(0..n)
}

/// The growing spanning tree of one zero-dimensional trial: a union-find
/// over the vertices and the count of edges still needed.
pub struct ZeroDimScan {
    uf: UnionFind,
    size: u32,
    needed: u32,
}

impl ZeroDimScan {
    /// Internal invariant: the needed count always equals the number of
    /// remaining sets minus one, so reaching zero means a spanning tree.
    pub closed spec fn wf(self) -> bool {
        &&& self.uf.wf()
        &&& self.uf.len() == self.size as int
        &&& self.size >= 2
        &&& self.needed as int == self.uf.num_sets() - 1
    }

    /// Number of vertices of the trial.
    pub closed spec fn vertices(self) -> int {
        self.size as int
    }

    /// Number of connected components built so far.
    pub closed spec fn sets_left(self) -> int {
        self.uf.num_sets()
    }

    /// Vertices `a` and `b` are already connected by accepted edges.
    pub closed spec fn same_set(self, a: int, b: int) -> bool {
        self.uf.same_set(a, b)
    }

    /// Starts a trial over `size` vertices: every vertex its own component,
    /// `size - 1` accepted edges needed.  Fewer than 2 vertices cannot span
    /// a tree and are rejected.
    pub fn new(size: u32) -> (r: Result<ZeroDimScan, MstError>)
        ensures
            size < 2 ==> r == Result::<ZeroDimScan, MstError>::Err(MstError::InvalidArgument),
            size >= 2 ==> (r matches Ok(z) && z.wf() && z.vertices() == size as int && z.sets_left()
                == size as int && (forall|a: int, b: int|
                0 <= a < size as int && 0 <= b < size as int ==> ((#[trigger] z.same_set(a, b))
                    <==> a == b))),
    {
        if size < 2 {
            return Err(MstError::InvalidArgument);
        }
        let uf = UnionFind::new(size);
        let z = ZeroDimScan { uf, size, needed: size - 1 };
        proof {
            assert forall|a: int, b: int|
                0 <= a < size as int && 0 <= b < size as int implies ((#[trigger] z.same_set(a, b))
                <==> a == b) by {
                assert(z.uf.rep(a) == a);
                assert(z.uf.rep(b) == b);
            }
        }
        Ok(z)
    }

    /// True once the spanning tree is complete: a single component is left
    /// and every two vertices are connected.
    pub fn complete(&self) -> (r: bool)
        requires
            self.wf(),
        ensures
            r <==> self.sets_left() == 1,
            r ==> forall|a: int, b: int|
                0 <= a < self.vertices() && 0 <= b < self.vertices() ==> self.same_set(a, b),
    {
        proof {
            if self.needed == 0 {
                assert forall|a: int, b: int|
                    0 <= a < self.vertices() && 0 <= b < self.vertices() implies self.same_set(
                    a,
                    b,
                ) by {
                    self.uf.lemma_single_set(a, b);
                }
            }
        }
        self.needed == 0
    }

    /// Offers the candidate edge `(u, v)`: it is accepted, and the two
    /// components merged into one, exactly when its endpoints are not yet
    /// connected.  Self-pairs and already connected pairs change nothing.
    pub fn offer(&mut self, u: u32, v: u32) -> (accepted: bool)
        requires
            old(self).wf(),
            u < old(self).vertices(),
            v < old(self).vertices(),
        ensures
            final(self).wf(),
            final(self).vertices() == old(self).vertices(),
            accepted <==> !old(self).same_set(u as int, v as int),
            final(self).sets_left() == (if accepted {
                old(self).sets_left() - 1
            } else {
                old(self).sets_left()
            }),
            forall|a: int, b: int|
                0 <= a < old(self).vertices() && 0 <= b < old(self).vertices() ==> ((
                #[trigger] final(self).same_set(a, b)) <==> (old(self).same_set(a, b) || (old(
                    self,
                ).same_set(a, u as int) && old(self).same_set(b, v as int)) || (old(self).same_set(
                    a,
                    v as int,
                ) && old(self).same_set(b, u as int)))),
    {
        let ru = self.uf.find(u);
        let rv = self.uf.find(v);
        if ru != rv {
            proof {
                self.uf.lemma_two_sets(u as int, v as int);
            }
            self.uf.union(u, v);
            self.needed = self.needed - 1;
            true
        } else {
            false
        }
    }

    /// Offers one candidate edge of the arrival process, drawing both
    /// endpoints uniformly at random.  Whatever pair was drawn, components
    /// only ever merge: an accepted candidate joins two of them, a rejected
    /// one (a self-pair or an already connected pair) changes nothing.
    pub fn offer_random(&mut self) -> (accepted: bool)
        requires
            old(self).wf(),
        ensures
            final(self).wf(),
            final(self).vertices() == old(self).vertices(),
            final(self).sets_left() == (if accepted {
                old(self).sets_left() - 1
            } else {
                old(self).sets_left()
            }),
            accepted ==> old(self).sets_left() >= 2,
            forall|a: int, b: int|
                0 <= a < old(self).vertices() && 0 <= b < old(self).vertices() && old(
                    self,
                ).same_set(a, b) ==> #[trigger] final(self).same_set(a, b),
            !accepted ==> (forall|a: int, b: int|
                0 <= a < old(self).vertices() && 0 <= b < old(self).vertices() ==> ((
                #[trigger] final(self).same_set(a, b)) <==> old(self).same_set(a, b))),
    {
        let u = sample_vertex(self.size);
        let v = sample_vertex(self.size);
        let accepted = self.offer(u, v);
        proof {
            if accepted {
                old(self).uf.lemma_two_sets(u as int, v as int);
            }
        }
        accepted
    }
}

} // verus!
