//! Centrality and shortest-path analysis of undirected networks.
//!
//! A network is built from a list of node pairs and held as an adjacency
//! map. Every numeric result is exact: a quotient is returned as a numerator
//! and a denominator, and where an exact result does not fit its machine
//! type there is no result at all.

pub mod betweenness;
pub mod census;
pub mod centrality;
pub mod counting;
pub mod error;
pub mod graph;
pub mod numbers;
pub mod parse;
pub mod paths;
pub mod ratio;
pub mod renaming;
pub mod stats;
pub mod star;
pub mod sums;
