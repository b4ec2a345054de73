// Scenario tests for the weighted flavours: the weight round trip through
// the overlay and a commit, and the plain weighted digraph.

use wt_graphs::weighted::{WeightTable, WeightedDigraph, WeightedWTDigraph};
use wt_graphs::GraphError;

#[test]
fn weighted_round_trip() {
    let mut g: WeightedWTDigraph<u64> = WeightedWTDigraph::new();
    g.dg.add_vertex(0).unwrap();
    g.dg.add_vertex(1).unwrap();
    g.add_edge(0, 1, 7).unwrap();
    assert_eq!(g.weight_updated(0, 1), Ok(7));
    g.edit_weight(0, 1, 9).unwrap();
    assert_eq!(g.weight_updated(0, 1), Ok(9));
    g.commit_edits();
    assert_eq!(g.weight(0, 1), Ok(9));
    g.delete_edge(0, 1).unwrap();
    g.commit_edits();
    assert_eq!(g.weight(0, 1), Err(GraphError::EdgeNotFound));
}

#[test]
fn weight_survives_unrelated_edits() {
    let mut g: WeightedWTDigraph<i32> = WeightedWTDigraph::new();
    for _ in 0..3 {
        g.dg.append_vertex().unwrap();
    }
    g.add_edge(0, 1, -5).unwrap();
    g.add_edge(1, 2, 11).unwrap();
    g.commit_edits();
    assert_eq!(g.weight(0, 1), Ok(-5));
    g.delete_edge(1, 2).unwrap();
    g.commit_edits();
    assert_eq!(g.weight(0, 1), Ok(-5));
    assert_eq!(g.weight(1, 2), Err(GraphError::EdgeNotFound));
}

#[test]
fn weighted_discard_neutral() {
    let mut g: WeightedWTDigraph<u64> = WeightedWTDigraph::new();
    g.dg.append_vertex().unwrap();
    g.dg.append_vertex().unwrap();
    g.add_edge(0, 1, 3).unwrap();
    g.commit_edits();
    g.edit_weight(0, 1, 4).unwrap();
    g.discard_edits();
    assert_eq!(g.weight(0, 1), Ok(3));
    assert_eq!(g.weight_updated(0, 1), Ok(3));
}

#[test]
fn from_weighted_digraph_keeps_weights() {
    let adj: Vec<Vec<(usize, u64)>> = vec![vec![(1, 10), (2, 20)], vec![(2, 30)], vec![]];
    let plain = WeightedDigraph::from_adjacency_list(3, 3, adj).unwrap();
    let g = WeightedWTDigraph::from_weighted_digraph(plain);
    assert_eq!(g.weight(0, 1), Ok(10));
    assert_eq!(g.weight(0, 2), Ok(20));
    assert_eq!(g.weight(1, 2), Ok(30));
    assert_eq!(g.e_count(), 3);
    assert_eq!(g.v_count(), 3);
}

#[test]
fn plain_weighted_digraph_ops() {
    let adj: Vec<Vec<(usize, u64)>> = vec![vec![(1, 5)], vec![(0, 6)]];
    let mut g = WeightedDigraph::from_adjacency_list(2, 2, adj).unwrap();
    assert_eq!(g.get_weight(0, 1), Ok(5));
    assert_eq!(g.get_weight(1, 0), Ok(6));
    g.edit_weight(0, 1, 50).unwrap();
    assert_eq!(g.get_weight(0, 1), Ok(50));
    g.delete_edge(0, 1).unwrap();
    assert_eq!(g.get_weight(0, 1), Err(GraphError::EdgeNotFound));
    assert_eq!(g.e_count(), 1);
    let idx = g.append_vertex();
    assert_eq!(idx, 2);
    g.add_edge(2, 0, 9).unwrap();
    assert_eq!(g.get_weight(2, 0), Ok(9));
    g.delete_vertex(0).unwrap();
    assert_eq!(g.get_weight(2, 0), Err(GraphError::EdgeNotFound));
    assert_eq!(g.get_weight(1, 0), Err(GraphError::EdgeNotFound));
    assert_eq!(g.v_count(), 2);
}

#[test]
fn plain_weighted_rejects_bad_lists() {
    let adj: Vec<Vec<(usize, u64)>> = vec![vec![(1, 5), (1, 6)], vec![]];
    assert!(WeightedDigraph::from_adjacency_list(2, 2, adj).is_err());
    let adj2: Vec<Vec<(usize, u64)>> = vec![vec![(7, 5)], vec![]];
    assert!(WeightedDigraph::from_adjacency_list(2, 1, adj2).is_err());
}

#[test]
fn weighted_bulk_edge_deletion() {
    let mut g: WeightedWTDigraph<u64> = WeightedWTDigraph::new();
    for _ in 0..3 {
        g.dg.append_vertex().unwrap();
    }
    g.add_edge(0, 1, 1).unwrap();
    g.add_edge(0, 2, 2).unwrap();
    g.add_edge(1, 0, 3).unwrap();
    g.delete_outgoing_edges(0).unwrap();
    assert_eq!(g.e_count_updated(), 1);
    assert!(!g.edge_exists_updated(0, 1));
    assert!(g.edge_exists_updated(1, 0));
    g.delete_incoming_edges(0).unwrap();
    assert_eq!(g.e_count_updated(), 0);
    g.commit_edits();
    assert_eq!(g.weight(1, 0), Err(GraphError::EdgeNotFound));
}

#[test]
fn weighted_shrink_rekeys_weights() {
    let mut g: WeightedWTDigraph<u64> = WeightedWTDigraph::new();
    for _ in 0..3 {
        g.dg.append_vertex().unwrap();
    }
    g.add_edge(0, 2, 7).unwrap();
    g.add_edge(2, 0, 8).unwrap();
    g.commit_edits();
    g.dg.delete_vertex(1).unwrap();
    let map = g.shrink();
    assert_eq!(map, vec![Some(0), None, Some(1)]);
    // old vertex 2 is now 1; the weights follow the renumbering
    assert_eq!(g.weight(0, 1), Ok(7));
    assert_eq!(g.weight(1, 0), Ok(8));
    assert_eq!(g.e_count(), 2);
    assert_eq!(g.v_count(), 2);
}

#[test]
fn weighted_from_bits_sequence_and_table() {
    // triangle encoding with a weight per edge
    let bits = vec![true, false, false, true, false, true, false];
    let seq = vec![1usize, 2, 2, 0];
    let mut table: WeightTable<u64> = WeightTable::new();
    table.set(0, 1, 10);
    table.set(0, 2, 20);
    table.set(1, 2, 30);
    table.set(2, 0, 40);
    let g = WeightedWTDigraph::from(seq.clone(), bits.clone(), table).unwrap();
    assert_eq!(g.weight(0, 2), Ok(20));
    assert_eq!(g.weight(2, 0), Ok(40));
    assert_eq!(g.e_count(), 4);
    // a table missing an edge's weight is rejected
    let mut short: WeightTable<u64> = WeightTable::new();
    short.set(0, 1, 10);
    assert!(WeightedWTDigraph::from(seq.clone(), bits.clone(), short).is_err());
    // a table keyed by a pair that is no edge is rejected
    let mut extra: WeightTable<u64> = WeightTable::new();
    extra.set(0, 1, 10);
    extra.set(0, 2, 20);
    extra.set(1, 2, 30);
    extra.set(2, 0, 40);
    extra.set(1, 0, 99);
    assert!(WeightedWTDigraph::from(seq, bits, extra).is_err());
}
