//! Ready-made vertex, edge and weight types for graphs measured in
//! machine-word weights.
//!
//! `SimpleWeight` is a saturating unsigned weight with an explicit infinity
//! flag; `SimpleEdge` and `SimpleVertex` form an adjacency-list graph over
//! it. They implement the capability contracts, so a caller with no custom
//! representation can use them directly.

use vstd::prelude::*;

use crate::graph::{Edge, Vertex};
use crate::weight::Weight;

verus! {

/// An unsigned weight with an explicit infinity flag.
///
/// Finite weights add by saturating unsigned addition; a sum is infinite
/// exactly when one of its operands is. Every value with the flag set is
/// infinite, whatever its numeric part, so the order is a total preorder.
#[derive(Clone, Copy, Debug, PartialEq, Eq)]
pub struct SimpleWeight {
    /// The numeric part; meaningful only while `is_infinity` is false.
    pub weight: usize,
    /// Whether this value is the unreachable sentinel.
    pub is_infinity: bool,
}

impl Weight for SimpleWeight {
    open spec fn sle(self, other: Self) -> bool {
        if self.is_infinity {
            other.is_infinity
        } else {
            other.is_infinity || self.weight <= other.weight
        }
    }

    open spec fn s_add(self, other: Self) -> Self {
        SimpleWeight {
            weight: if self.weight + other.weight > usize::MAX {
                usize::MAX
            } else {
                (self.weight + other.weight) as usize
            },
            is_infinity: self.is_infinity || other.is_infinity,
        }
    }

    open spec fn s_zero() -> Self {
        SimpleWeight { weight: 0, is_infinity: false }
    }

    open spec fn s_inf() -> Self {
        SimpleWeight { weight: 0, is_infinity: true }
    }

    open spec fn s_is_inf(self) -> bool {
        self.is_infinity
    }

    proof fn law_refl(a: Self) {
    }

    proof fn law_trans(a: Self, b: Self, c: Self) {
    }

    proof fn law_total(a: Self, b: Self) {
    }

    proof fn law_add_le_left(a: Self, b: Self) {
    }

    proof fn law_add_le_right(a: Self, b: Self) {
    }

    proof fn law_add_mono(a: Self, b: Self, c: Self) {
    }

    proof fn law_zero_identity(a: Self) {
    }

    proof fn law_zero_min(a: Self) {
    }

    proof fn law_inf_max(a: Self, b: Self) {
    }

    proof fn law_inf_strict(a: Self, b: Self) {
    }

    proof fn law_zero_finite() {
    }

    proof fn law_inf_is_inf() {
    }

    fn add(&self, other: &Self) -> (r: Self) {
        let w = if self.weight > usize::MAX - other.weight {
            usize::MAX
        } else {
            self.weight + other.weight
        };
        SimpleWeight { weight: w, is_infinity: self.is_infinity || other.is_infinity }
    }

    fn zero() -> (r: Self) {
        SimpleWeight { weight: 0, is_infinity: false }
    }

    fn infinity() -> (r: Self) {
        SimpleWeight { weight: 0, is_infinity: true }
    }

    fn is_infinity(&self) -> (r: bool) {
        self.is_infinity
    }

    fn le(&self, other: &Self) -> (r: bool) {
        if self.is_infinity {
            other.is_infinity
        } else if other.is_infinity {
            true
        } else {
            self.weight <= other.weight
        }
    }

    fn dup(&self) -> (r: Self) {
        SimpleWeight { weight: self.weight, is_infinity: self.is_infinity }
    }
}

/// A directed arc to the vertex at index `to`, measured by `weight`.
#[derive(Clone, Copy, Debug)]
pub struct SimpleEdge {
    /// The dense index of the destination vertex.
    pub to: usize,
    /// The weight of the arc.
    pub weight: SimpleWeight,
}

impl Edge<SimpleWeight> for SimpleEdge {
    open spec fn s_to(self) -> usize {
        self.to
    }

    open spec fn s_weight(self) -> SimpleWeight {
        self.weight
    }

    fn get_to(&self) -> (r: usize) {
        self.to
    }

    fn get_weight(&self) -> (r: &SimpleWeight) {
        &self.weight
    }
}

/// An adjacency-list vertex: the outgoing arcs, in insertion order.
#[derive(Debug)]
pub struct SimpleVertex {
    /// The outgoing arcs of this vertex.
    pub edges: Vec<SimpleEdge>,
}

impl Vertex<SimpleEdge, SimpleWeight> for SimpleVertex {
    open spec fn s_edges(self) -> Seq<SimpleEdge> {
        self.edges@
    }

    fn edges(&self) -> (r: &Vec<SimpleEdge>) {
        &self.edges
    }
}

impl SimpleVertex {
    /// Creates a vertex with no outgoing arcs.
    pub fn new() -> (v: Self)
        ensures
            v.s_edges() == Seq::<SimpleEdge>::empty(),
    {
        SimpleVertex { edges: Vec::new() }
    }

    /// Appends an arc to the vertex at index `to`, with the given finite
    /// weight.
    pub fn add_edge(&mut self, to: usize, weight: usize)
        ensures
            final(self).s_edges() == old(self).s_edges().push(
                SimpleEdge { to, weight: SimpleWeight { weight, is_infinity: false } },
            ),
    {
        self.edges.push(SimpleEdge { to, weight: SimpleWeight { weight, is_infinity: false } });
    }
}

} // verus!
