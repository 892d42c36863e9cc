//! Best conversion rates between assets held at venues.
//!
//! The crate holds a hash-indexed weighted graph, an all-pairs best-path
//! engine that is generic in how weights combine and compare, and the
//! algorithm that builds a graph from rate quotes and answers rate queries.

pub mod ordered_set;
pub mod sequences;
pub mod text;
pub mod graph;
pub mod floyd_warshall;
pub mod response;
pub mod request;
pub mod algorithm;
pub mod exchange_rate;
