// Tests of the plain directed graph: eager mutation, stable indices, and
// ascending incoming lists.

use wt_graphs::graph::Digraph;
use wt_graphs::GraphError;

#[test]
fn plain_build_and_query() {
    let g = Digraph::from_adjacency_list(3, 3, vec![vec![1], vec![2], vec![0]]).unwrap();
    assert_eq!(g.v_count(), 3);
    assert_eq!(g.e_count(), 3);
    assert_eq!(g.outgoing_edges(0).unwrap(), vec![1]);
    assert_eq!(g.incoming_edges(0).unwrap(), vec![2]);
    assert!(g.edge_exists(1, 2));
    assert!(!g.edge_exists(2, 1));
}

#[test]
fn plain_mutation() {
    let mut g = Digraph::new();
    assert_eq!(g.append_vertex(), 0);
    assert_eq!(g.append_vertex(), 1);
    g.add_edge(0, 1).unwrap();
    assert_eq!(g.e_count(), 1);
    assert_eq!(g.add_edge(0, 1), Err(GraphError::EdgeExists));
    g.delete_edge(0, 1).unwrap();
    assert_eq!(g.e_count(), 0);
    assert_eq!(g.delete_edge(0, 1), Err(GraphError::EdgeNotFound));
}

#[test]
fn plain_delete_vertex_is_eager() {
    let mut g = Digraph::from_adjacency_list(3, 4, vec![vec![1, 2], vec![2], vec![1]]).unwrap();
    g.delete_vertex(1).unwrap();
    assert_eq!(g.v_count(), 2);
    assert_eq!(g.e_count(), 1);
    assert_eq!(g.outgoing_edges(0).unwrap(), vec![2]);
    assert!(!g.vertex_exists(1));
    assert!(g.vertex_deleted(1));
    // the slot can be refilled, still without edges
    assert_eq!(g.add_vertex(1), Ok(1));
    assert!(g.vertex_exists(1));
    assert_eq!(g.outgoing_edges(1).unwrap(), Vec::<usize>::new());
}

#[test]
fn plain_incoming_ascending() {
    let g = Digraph::from_adjacency_list(
        4,
        5,
        vec![vec![3], vec![3], vec![3, 0], vec![0]],
    )
    .unwrap();
    assert_eq!(g.incoming_edges(3).unwrap(), vec![0, 1, 2]);
    assert_eq!(g.incoming_edges(0).unwrap(), vec![2, 3]);
}
