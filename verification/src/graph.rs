//! The graph capability contracts: the shapes a caller's vertex and edge
//! types must satisfy.
//!
//! Vertices live in an arena owned by the engine and are identified by
//! their dense, zero-based position in it; an edge names its destination by
//! that index. A vertex exposes a finite sequence of outgoing edges; an
//! edge exposes its destination index and its weight.

use vstd::prelude::*;

use crate::weight::Weight;

verus! {

/// A directed arc of the graph: a destination index and a weight.
pub trait Edge<W: Weight>: Sized {
    /// The index of the destination vertex.
    spec fn s_to(self) -> usize;

    /// The weight of the arc.
    spec fn s_weight(self) -> W;

    /// Returns the index of the destination vertex.
    fn get_to(&self) -> (r: usize)
        ensures
            r == self.s_to(),
    ;

    /// Returns the weight of the arc.
    fn get_weight(&self) -> (r: &W)
        ensures
            *r == self.s_weight(),
    ;
}

/// A node of the graph: a finite, restartable enumeration of outgoing
/// edges.
pub trait Vertex<E, W>: Sized where E: Edge<W>, W: Weight {
    /// The outgoing edges of this vertex.
    spec fn s_edges(self) -> Seq<E>;

    /// Returns the outgoing edges of this vertex.
    fn edges(&self) -> (r: &Vec<E>)
        ensures
            r@ == self.s_edges(),
    ;
}

} // verus!
