//! The edge data handed to the MST scan.

use vstd::prelude::*;

verus! {

/// One candidate edge: a pair of vertex indices.
///
/// The random generators draw a floating-point weight for every candidate
/// pair; those weights never enter the verified core.  A caller sorts its
/// candidate list by weight, hands the endpoint pairs over in that order,
/// and keeps the weights to sum up afterwards, so an `Edge` carries the
/// endpoints alone and the weight order is the order of the list.
#[derive(Clone, Copy)]
pub struct Edge {
    pub u: u32,
    pub v: u32,
}

/// Both endpoints of `e` name vertices of a graph on `n` vertices.
pub open spec fn edge_ok(e: Edge, n: int) -> bool {
    e.u < n && e.v < n
}

/// Every edge of `es` names vertices of a graph on `n` vertices.
pub open spec fn edges_ok(es: Seq<Edge>, n: int) -> bool {
    forall|i: int| 0 <= i < es.len() ==> edge_ok(#[trigger] es[i], n)
}

} // verus!
