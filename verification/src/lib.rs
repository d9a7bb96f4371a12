//! Shortest paths over caller-defined graphs.
//!
//! The library generalizes Dijkstra's algorithm to an abstract weight
//! algebra (an ordered, summable quantity with a `zero` and an absorbing
//! `infinity`), to caller-defined vertex and edge representations described
//! by capability traits, and to multi-source / multi-sink queries: the
//! engine finds a minimum-weight path from any vertex of a start set to any
//! vertex of an end set.

pub mod dijkstra;
pub mod graph;
pub mod simple;
pub mod weight;
