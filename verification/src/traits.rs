//! The interfaces the graph family is organised around, one trait per
//! concern: basic queries, deletion, direction, weights, labels, and the
//! commit protocol of the wavelet-tree flavours.
//!
//! The concrete graphs implement these shapes through inherent methods with
//! full contracts; the traits state the common vocabulary for callers that
//! want to write against an interface.

use crate::GraphError;
use vstd::prelude::*;

verus! {

/// Queries and mutations every graph offers, vertices addressed by `L`.
pub trait Graph<L> {
    fn add_edge(&mut self, from: L, to: L) -> Result<(), GraphError>;

    fn add_vertex(&mut self, vertex: L) -> Result<usize, GraphError>;

    fn e_count(&self) -> usize;

    fn v_count(&self) -> usize;

    fn vertex_exists(&self, vertex: &L) -> bool;

    fn edge_exists(&self, from: &L, to: &L) -> bool;
}

/// Deletion on the plain graphs, applied eagerly.
pub trait Delete<L> {
    fn delete_edge(&mut self, from: L, to: L) -> Result<(), GraphError>;

    fn delete_vertex(&mut self, vertex: L) -> Result<(), GraphError>;
}

/// Deletion on the wavelet-tree graphs, buffered in the overlay.
pub trait WTDelete<L> {
    fn delete_edge(&mut self, from: L, to: L) -> Result<(), GraphError>;

    fn delete_vertex(&mut self, vertex: L) -> Result<(), GraphError>;

    fn vertex_deleted(&self, vertex: &L) -> bool;
}

/// Undirected graphs: one neighbourhood per vertex.
pub trait Undirected<L> {
    fn edges(&self, vertex: &L) -> Result<Vec<L>, GraphError>;

    fn delete_edges_from(&mut self, vertex: L) -> Result<(), GraphError>;
}

/// Directed graphs: outgoing and incoming neighbourhoods.
pub trait Directed<L> {
    fn outgoing_edges(&self, vertex: &L) -> Result<Vec<L>, GraphError>;

    fn incoming_edges(&self, vertex: &L) -> Result<Vec<L>, GraphError>;

    fn delete_outgoing_edges(&mut self, vertex: L) -> Result<(), GraphError>;

    fn delete_incoming_edges(&mut self, vertex: L) -> Result<(), GraphError>;
}

/// Weighted graphs: a value of type `W` per edge.
pub trait Weighted<L, W> {
    fn weight(&self, from: L, to: L) -> Result<W, GraphError>;

    fn edit_weight(&mut self, from: L, to: L, weight: W) -> Result<(), GraphError>;
}

/// The commit protocol of the wavelet-tree graphs.
pub trait WT<L> {
    fn commit_edits(&mut self);

    fn discard_edits(&mut self);

    fn vertex_exists_updated(&self, vertex: &L) -> bool;

    fn edge_exists_updated(&self, from: &L, to: &L) -> bool;

    fn v_count_updated(&self) -> usize;

    fn e_count_updated(&self) -> usize;
}

/// The updated neighbourhood query of undirected wavelet-tree graphs.
pub trait WTUndirected<L> {
    fn edges_updated(&self, vertex: &L) -> Result<Vec<L>, GraphError>;
}

/// The updated neighbourhood queries of directed wavelet-tree graphs.
pub trait WTDirected<L> {
    fn outgoing_edges_updated(&self, vertex: &L) -> Result<Vec<L>, GraphError>;

    fn incoming_edges_updated(&self, vertex: &L) -> Result<Vec<L>, GraphError>;
}

/// The search strategies a traversal layer above the engine may offer.
pub enum ShortestPathAlgorithm {
    Dijkstra,
    BFS,
    BellmanFord,
    AStar,
}

/// Traversal algorithms over a graph; a layer above this engine.
pub trait GraphSearch {
    fn shortest_path(&self, from: usize, to: usize, mode: ShortestPathAlgorithm) -> Vec<usize>;

    fn shortest_paths(&self, mode: ShortestPathAlgorithm) -> Vec<Vec<usize>>;

    fn connected_components(&self) -> Vec<Vec<usize>>;

    fn connected(&self, from: usize, to: usize) -> bool;
}

} // verus!
