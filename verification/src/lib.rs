//! Succinct directed graphs backed by a wavelet tree.
//!
//! The core type, [`digraph::WTDigraph`], stores the adjacency of a directed
//! graph in two succinct structures: a rank/select bit vector marking where
//! each vertex's neighbour block starts, and a wavelet tree holding the flat
//! sequence of neighbour symbols.  Mutations are buffered in an overlay of
//! per-vertex edits; queries come in a fast committed flavour and a slower
//! `_updated` flavour that replays the overlay.  `commit_edits` rebuilds the
//! succinct layer from the updated view, `discard_edits` drops the overlay,
//! and `shrink` additionally renumbers the surviving vertices.
//!
//! Thin adapters layer weights ([`weighted::WeightedWTDigraph`]) and labels
//! ([`labeled::LabeledWTDigraph`], [`labeled::LabeledWTUGraph`]) over the
//! core, and [`graph`] offers the plain mutable graphs the succinct ones are
//! built from.

use vstd::prelude::*;

pub mod adjacency;
pub mod bitrank;
pub mod digraph;
pub mod encoding;
pub mod graph;
pub mod labeled;
pub mod laws;
pub mod overlay;
pub mod seqs;
pub mod traits;
pub mod wavelet;
pub mod weighted;

verus! {

/// One buffered change to a collection of values of type `T`.
#[derive(Clone, Copy, Debug, PartialEq)]
pub enum Edit<T> {
    Add(T),
    Delete(T),
}

/// The recoverable failures of the graph operations.
#[derive(Clone, Copy, Debug, PartialEq, Eq, Structural)]
pub enum GraphError {
    /// An operation referenced a vertex index outside the relevant view.
    VertexNotFound,
    /// `add_vertex` referenced an index that is already present.
    VertexExists,
    /// `delete_edge` or a weight query referenced a pair that is not connected.
    EdgeNotFound,
    /// `add_edge` referenced a pair that is already connected.
    EdgeExists,
    /// A label-keyed operation referenced a label no vertex carries.
    LabelNotFound,
    /// An operation would give two vertices the same label.
    LabelExists,
    /// An adjacency list disagreed with its declared vertex or edge count,
    /// held an out-of-range neighbour, or repeated a neighbour.
    InvalidAdjacency,
}

} // verus!
