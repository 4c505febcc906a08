//! Offline analysis of directed graphs given as edge lists.
//!
//! The loader parses an edge-list text into a [`graph::Graph`]: a directed
//! multigraph over dense internal indices, with external integer identifiers
//! resolved through an insertion-order identity map. The analyzers compute
//! degree sums, breadth-first shortest-path distances, and clustering
//! pair counts over the finished graph; all of them are read-only.

pub mod graph;
pub mod graph_loader;
pub mod graph_analysis;
