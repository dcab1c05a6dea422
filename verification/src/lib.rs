//! Monte-Carlo estimation substrate for minimum-spanning-tree weights.
//!
//! The crate provides the deterministic core of an MST-weight estimator:
//! a union-find structure with path compression and union by rank, the
//! edge-selection scan of Kruskal's algorithm over a weight-ordered edge
//! list, and the acceptance state of the zero-dimensional sampling
//! estimator.  Edge weights are floating-point values owned by the caller;
//! the core works on vertex indices and on the weight order alone, so every
//! decision it makes is verified.

use vstd::prelude::*;

pub mod fast_zero_dim;
pub mod graph;
pub mod kruskals;

verus! {

/// Failures of one MST computation.  Both are local to a single trial.
/// Numeric anomalies (a NaN or negative weight) cannot arise here: weights
/// never enter the core, and the callers that own them reject such a
/// weight loudly before handing the edge order over.
#[derive(Clone, Copy, Debug, PartialEq, Eq, Structural)]
pub enum MstError {
    /// The vertex count is too small for a spanning tree (fewer than 2).
    InvalidArgument,
    /// The edge list does not connect all vertices: no spanning tree exists.
    Disconnected,
}

} // verus!
