//! Reconstruction of the planar faces implied by a wire-frame of oriented
//! three dimensional segments.
//!
//! The crate holds the combinatorial engine: the undirected graph of points
//! and its leaf pruning, the oriented graph of segments, the decomposition
//! into connected components, the policy-guided walk that closes cycles, and
//! the selection that drops faces dominated by smaller ones.  Coordinates,
//! scores and areas are signed integers that preserve the order of the
//! quantities they stand for.
pub mod collections;
pub mod graph;
pub mod pipeline;
pub mod point;
pub mod polygon;
pub mod traversal;
