//! An in-memory labeled multigraph with traversal and shortest-path queries,
//! plus a textual persistence format.
//!
//! Vertices are identified by strings; each directed arc carries a free-form
//! relationship label and a non-negative integer weight.  The graph may be
//! directed or undirected; an undirected graph stores every added edge
//! together with its mirror image.

pub mod graph;
pub mod algorithms;
pub mod codec;
