// Scenario tests for the wavelet-tree digraph core: the empty graph, a
// small triangle, overlay edits, vertex deletion, and the commit, discard
// and shrink protocol.

use wt_graphs::digraph::{Edge, WTDigraph};
use wt_graphs::GraphError;

fn triangle() -> WTDigraph {
    // vertices 0, 1, 2 with edges 0->1, 0->2, 1->2, 2->0
    WTDigraph::from_adjacency_list(3, 4, vec![vec![1, 2], vec![2], vec![0]]).unwrap()
}

#[test]
fn empty_graph() {
    let mut g = WTDigraph::new();
    assert_eq!(g.v_count(), 0);
    assert_eq!(g.e_count(), 0);
    assert_eq!(g.outgoing_edges(0), Err(GraphError::VertexNotFound));
    assert_eq!(g.append_vertex(), Ok(0));
    assert_eq!(g.v_count_updated(), 1);
    g.commit_edits();
    assert_eq!(g.v_count(), 1);
}

#[test]
fn triangle_queries() {
    let g = triangle();
    assert_eq!(g.v_count(), 3);
    assert_eq!(g.e_count(), 4);
    assert_eq!(g.outgoing_edges(0).unwrap(), vec![1, 2]);
    assert_eq!(g.outgoing_edges(1).unwrap(), vec![2]);
    assert_eq!(g.outgoing_edges(2).unwrap(), vec![0]);
    assert_eq!(g.incoming_edges(2).unwrap(), vec![0, 1]);
    assert_eq!(g.incoming_edges(0).unwrap(), vec![2]);
    assert!(g.edge_exists(2, 0));
    assert!(!g.edge_exists(0, 0));
}

#[test]
fn overlay_add_delete() {
    let mut g = triangle();
    g.delete_edge(0, 1).unwrap();
    g.add_edge(1, 0).unwrap();
    assert_eq!(g.e_count_updated(), 4);
    assert_eq!(g.incoming_edges_updated(0).unwrap(), vec![1, 2]);
    g.commit_edits();
    assert_eq!(g.incoming_edges(0).unwrap(), vec![1, 2]);
    assert_eq!(g.e_count(), 4);
}

#[test]
fn vertex_deletion_preserves_indices() {
    let mut g = triangle();
    g.delete_vertex(1).unwrap();
    assert!(!g.vertex_exists_updated(1));
    assert_eq!(g.outgoing_edges_updated(0).unwrap(), vec![2]);
    g.commit_edits();
    assert_eq!(g.v_count(), 2);
    // the absent index is still addressable
    assert!(!g.vertex_exists(1));
    assert!(g.vertex_exists(2));
    let map = g.shrink();
    assert_eq!(map, vec![Some(0), None, Some(1)]);
    assert_eq!(g.v_count(), 2);
    assert_eq!(g.outgoing_edges(1).unwrap(), vec![0]);
    assert_eq!(g.outgoing_edges(0).unwrap(), vec![1]);
    assert_eq!(g.e_count(), 2);
}

#[test]
fn discard_restores_committed_state() {
    let mut g = triangle();
    g.delete_edge(0, 1).unwrap();
    g.add_edge(1, 0).unwrap();
    g.delete_vertex(2).unwrap();
    g.discard_edits();
    assert_eq!(g.v_count_updated(), 3);
    assert_eq!(g.e_count_updated(), 4);
    assert_eq!(g.outgoing_edges_updated(0).unwrap(), vec![1, 2]);
    assert_eq!(g.incoming_edges_updated(2).unwrap(), vec![0, 1]);
    assert!(g.edge_exists_updated(0, 1));
}

#[test]
fn commit_twice_equals_commit_once() {
    let mut g = triangle();
    g.delete_edge(0, 2).unwrap();
    g.commit_edits();
    let v1 = g.v_count();
    let e1 = g.e_count();
    let out0 = g.outgoing_edges(0).unwrap();
    let inc2 = g.incoming_edges(2).unwrap();
    g.commit_edits();
    assert_eq!(g.v_count(), v1);
    assert_eq!(g.e_count(), e1);
    assert_eq!(g.outgoing_edges(0).unwrap(), out0);
    assert_eq!(g.incoming_edges(2).unwrap(), inc2);
}

#[test]
fn commit_matches_updated_view() {
    let mut g = triangle();
    g.append_vertex().unwrap();
    g.add_edge(3, 0).unwrap();
    g.delete_edge(1, 2).unwrap();
    let v_u = g.v_count_updated();
    let e_u = g.e_count_updated();
    let out0 = g.outgoing_edges_updated(0).unwrap();
    let inc0 = g.incoming_edges_updated(0).unwrap();
    g.commit_edits();
    assert_eq!(g.v_count(), v_u);
    assert_eq!(g.e_count(), e_u);
    assert_eq!(g.outgoing_edges(0).unwrap(), out0);
    assert_eq!(g.incoming_edges(0).unwrap(), inc0);
}

#[test]
fn outgoing_incoming_duality() {
    let g = triangle();
    for u in 0..3usize {
        for v in 0..3usize {
            let out = g.outgoing_edges(u).unwrap();
            let inc = g.incoming_edges(v).unwrap();
            assert_eq!(out.contains(&v), inc.contains(&u));
        }
    }
}

#[test]
fn error_cases() {
    let mut g = triangle();
    assert_eq!(g.add_edge(0, 5), Err(GraphError::VertexNotFound));
    assert_eq!(g.add_edge(0, 1), Err(GraphError::EdgeExists));
    assert_eq!(g.delete_edge(1, 0), Err(GraphError::EdgeNotFound));
    assert_eq!(g.delete_edge(5, 0), Err(GraphError::VertexNotFound));
    assert_eq!(g.delete_vertex(7), Err(GraphError::VertexNotFound));
    assert_eq!(g.add_vertex(1), Err(GraphError::VertexExists));
    assert_eq!(g.incoming_edges(9), Err(GraphError::VertexNotFound));
}

#[test]
fn invalid_adjacency_rejected() {
    // declared vertex count disagrees with the list
    assert!(matches!(
        WTDigraph::from_adjacency_list(2, 1, vec![vec![1]]),
        Err(GraphError::InvalidAdjacency)
    ));
    // declared edge count disagrees with the list
    assert!(matches!(
        WTDigraph::from_adjacency_list(2, 3, vec![vec![1], vec![]]),
        Err(GraphError::InvalidAdjacency)
    ));
    // a neighbour out of range
    assert!(matches!(
        WTDigraph::from_adjacency_list(2, 1, vec![vec![2], vec![]]),
        Err(GraphError::InvalidAdjacency)
    ));
    // a repeated neighbour
    assert!(matches!(
        WTDigraph::from_adjacency_list(2, 2, vec![vec![1, 1], vec![]]),
        Err(GraphError::InvalidAdjacency)
    ));
}

#[test]
fn add_vertex_beyond_end_grows_view() {
    let mut g = WTDigraph::new();
    assert_eq!(g.add_vertex(2), Ok(2));
    // the indices in between are addressable but absent
    assert!(!g.vertex_exists_updated(0));
    assert!(!g.vertex_exists_updated(1));
    assert!(g.vertex_exists_updated(2));
    assert_eq!(g.v_count_updated(), 1);
    g.commit_edits();
    assert_eq!(g.v_count(), 1);
    assert!(!g.vertex_exists(0));
    assert!(g.vertex_exists(2));
}

#[test]
fn readd_restores_hidden_edges() {
    let mut g = triangle();
    g.delete_vertex(1).unwrap();
    assert_eq!(g.e_count_updated(), 2);
    g.add_vertex(1).unwrap();
    assert_eq!(g.e_count_updated(), 4);
    assert_eq!(g.outgoing_edges_updated(0).unwrap(), vec![1, 2]);
}

#[test]
fn delete_outgoing_and_incoming() {
    let mut g = triangle();
    g.delete_outgoing_edges(0).unwrap();
    assert_eq!(g.outgoing_edges_updated(0).unwrap(), Vec::<usize>::new());
    assert_eq!(g.e_count_updated(), 2);
    let mut h = triangle();
    h.delete_incoming_edges(2).unwrap();
    assert_eq!(h.incoming_edges_updated(2).unwrap(), Vec::<usize>::new());
    assert_eq!(h.e_count_updated(), 2);
}

#[test]
fn selfloop_counted_once() {
    let mut g = WTDigraph::from_adjacency_list(2, 2, vec![vec![0, 1], vec![]]).unwrap();
    assert_eq!(g.e_count(), 2);
    g.delete_vertex(0).unwrap();
    // the self-loop and the edge to 1 leave together
    assert_eq!(g.e_count_updated(), 0);
}

#[test]
fn edge_struct_carries_its_ends() {
    let e = Edge::new(3, 7);
    assert_eq!(e.from, 3);
    assert_eq!(e.to, 7);
}

#[test]
fn larger_graph_round_trip() {
    // a denser graph so that rank and select run over several blocks
    let mut adj: Vec<Vec<usize>> = Vec::new();
    let n = 40usize;
    let mut e = 0usize;
    for u in 0..n {
        let mut row = Vec::new();
        for k in 1..4usize {
            let v = (u + k * 7) % n;
            if v != u && !row.contains(&v) {
                row.push(v);
                e += 1;
            }
        }
        adj.push(row);
    }
    let g = WTDigraph::from_adjacency_list(n, e, adj.clone()).unwrap();
    for u in 0..n {
        assert_eq!(g.outgoing_edges(u).unwrap(), adj[u]);
        let inc = g.incoming_edges(u).unwrap();
        let mut expected: Vec<usize> = (0..n).filter(|x| adj[*x].contains(&u)).collect();
        expected.sort();
        assert_eq!(inc, expected);
    }
}

#[test]
fn from_bits_and_sequence() {
    // the triangle's encoding: a set bit starts each vertex, a clear bit
    // follows for each of its neighbours
    let bits = vec![true, false, false, true, false, true, false];
    let seq = vec![1usize, 2, 2, 0];
    let g = WTDigraph::from(seq, bits).unwrap();
    assert_eq!(g.v_count(), 3);
    assert_eq!(g.e_count(), 4);
    assert_eq!(g.outgoing_edges(0).unwrap(), vec![1, 2]);
    assert_eq!(g.incoming_edges(2).unwrap(), vec![0, 1]);
}

#[test]
fn from_rejects_bad_encodings() {
    // a clear bit before any vertex
    assert!(matches!(
        WTDigraph::from(vec![0], vec![false, true]),
        Err(GraphError::InvalidAdjacency)
    ));
    // fewer symbols than clear bits
    assert!(matches!(
        WTDigraph::from(vec![], vec![true, false]),
        Err(GraphError::InvalidAdjacency)
    ));
    // more symbols than clear bits
    assert!(matches!(
        WTDigraph::from(vec![0, 0], vec![true, false]),
        Err(GraphError::InvalidAdjacency)
    ));
    // an out-of-range symbol
    assert!(matches!(
        WTDigraph::from(vec![5], vec![true, false]),
        Err(GraphError::InvalidAdjacency)
    ));
}

#[test]
fn iter_walks_existing_rows() {
    let mut g = triangle();
    g.delete_vertex(1).unwrap();
    g.commit_edits();
    // slot 1 is absent, so its row is skipped
    let rows = g.iter();
    assert_eq!(rows, vec![vec![2usize], vec![0usize]]);
    let es = g.iter_edges();
    assert_eq!(es.len(), 2);
    assert_eq!((es[0].from, es[0].to), (0, 2));
    assert_eq!((es[1].from, es[1].to), (2, 0));
}
