// Scenario tests for the labelled flavours: label round trips, renaming,
// and the undirected neighbourhood queries.

use wt_graphs::labeled::{LabeledDigraph, LabeledUGraph, LabeledWTDigraph, LabeledWTUGraph};
use wt_graphs::GraphError;

fn s(x: &str) -> String {
    x.to_string()
}

#[test]
fn labeled_lookup() {
    let mut g = LabeledWTDigraph::new();
    g.add_vertex(s("a")).unwrap();
    g.add_vertex(s("b")).unwrap();
    g.add_edge(s("a"), s("b")).unwrap();
    g.commit_edits();
    assert_eq!(g.label(0), Some(s("a")));
    assert_eq!(g.index(&s("b")), Some(1));
    g.edit_label(s("a"), s("c")).unwrap();
    assert_eq!(g.index(&s("c")), Some(0));
    assert_eq!(g.index(&s("a")), None);
}

#[test]
fn labeled_duplicate_rejected() {
    let mut g = LabeledWTDigraph::new();
    g.add_vertex(s("a")).unwrap();
    assert_eq!(g.add_vertex(s("a")), Err(GraphError::LabelExists));
    g.add_vertex(s("b")).unwrap();
    assert_eq!(g.edit_label(s("a"), s("b")), Err(GraphError::LabelExists));
    assert_eq!(g.edit_label(s("x"), s("y")), Err(GraphError::LabelNotFound));
}

#[test]
fn labeled_edges_follow_labels() {
    let mut g = LabeledWTDigraph::new();
    g.add_vertex(s("a")).unwrap();
    g.add_vertex(s("b")).unwrap();
    g.add_vertex(s("c")).unwrap();
    g.add_edge(s("a"), s("b")).unwrap();
    g.add_edge(s("b"), s("c")).unwrap();
    assert!(g.edge_exists_updated(&s("a"), &s("b")));
    assert!(!g.edge_exists_updated(&s("b"), &s("a")));
    g.delete_edge(s("a"), s("b")).unwrap();
    assert!(!g.edge_exists_updated(&s("a"), &s("b")));
    assert_eq!(g.e_count_updated(), 1);
}

#[test]
fn labeled_delete_vertex_keeps_committed_label() {
    let mut g = LabeledWTDigraph::new();
    g.add_vertex(s("a")).unwrap();
    g.add_vertex(s("b")).unwrap();
    g.commit_edits();
    g.delete_vertex(s("b")).unwrap();
    assert_eq!(g.label_updated(1), None);
    assert_eq!(g.label(1), Some(s("b")));
    assert_eq!(g.v_count_updated(), 1);
}

#[test]
fn plain_labeled_digraph() {
    let g = LabeledDigraph::from_adjacency_list(
        2,
        1,
        vec![vec![1], vec![]],
        vec![s("x"), s("y")],
    )
    .unwrap();
    assert_eq!(g.index(&s("y")), Some(1));
    assert_eq!(g.label(0), Some(s("x")));
    assert!(g.edge_exists(&s("x"), &s("y")));
    assert!(!g.edge_exists(&s("y"), &s("x")));
}

#[test]
fn plain_labeled_rejects_duplicate_labels() {
    assert!(LabeledDigraph::from_adjacency_list(
        2,
        0,
        vec![vec![], vec![]],
        vec![s("x"), s("x")],
    )
    .is_err());
}

#[test]
fn undirected_edges_merge_both_sides() {
    // canonical storage: 0-1, 0-2, 1-2, each from the smaller index
    let mut g = LabeledUGraph::new();
    g.add_vertex(s("a")).unwrap();
    g.add_vertex(s("b")).unwrap();
    g.add_vertex(s("c")).unwrap();
    g.add_edge(s("b"), s("a")).unwrap();
    g.add_edge(s("a"), s("c")).unwrap();
    g.add_edge(s("b"), s("c")).unwrap();
    assert!(g.edge_exists(&s("a"), &s("b")));
    assert!(g.edge_exists(&s("b"), &s("a")));
    assert_eq!(g.e_count(), 3);
    // the neighbours of b: first a, whose lower index stores the edge, then
    // c from b's own row
    let eb = g.edges(&s("b")).unwrap();
    assert_eq!(eb, vec![s("a"), s("c")]);
    let ea = g.edges(&s("a")).unwrap();
    assert_eq!(ea, vec![s("b"), s("c")]);
    let ec = g.edges(&s("c")).unwrap();
    assert_eq!(ec, vec![s("a"), s("b")]);
}

#[test]
fn undirected_delete_edges_from() {
    let mut g = LabeledUGraph::new();
    g.add_vertex(s("a")).unwrap();
    g.add_vertex(s("b")).unwrap();
    g.add_vertex(s("c")).unwrap();
    g.add_edge(s("a"), s("b")).unwrap();
    g.add_edge(s("b"), s("c")).unwrap();
    g.add_edge(s("a"), s("c")).unwrap();
    g.delete_edges_from(s("b")).unwrap();
    assert!(!g.edge_exists(&s("a"), &s("b")));
    assert!(!g.edge_exists(&s("b"), &s("c")));
    assert!(g.edge_exists(&s("a"), &s("c")));
    assert_eq!(g.e_count(), 1);
    // the vertex itself stays
    assert!(g.vertex_exists(&s("b")));
}

#[test]
fn wt_undirected_round_trip() {
    let plain = LabeledDigraph::from_adjacency_list(
        3,
        2,
        vec![vec![1], vec![2], vec![]],
        vec![s("a"), s("b"), s("c")],
    )
    .unwrap();
    let mut g = LabeledWTUGraph::from_digraph(plain);
    assert_eq!(g.v_count(), 3);
    assert_eq!(g.e_count(), 2);
    assert_eq!(g.get_label(0), Some(s("a")));
    assert_eq!(g.get_index(&s("c")), Some(2));
    assert!(g.edge_exists(&s("b"), &s("a")));
    let eb = g.edges(&s("b")).unwrap();
    assert_eq!(eb, vec![s("a"), s("c")]);
    g.add_vertex(s("d")).unwrap();
    g.add_edge(s("d"), s("a")).unwrap();
    assert!(g.edge_exists_updated(&s("a"), &s("d")));
    g.commit_edits();
    assert!(g.edge_exists(&s("d"), &s("a")));
    assert_eq!(g.get_label(3), Some(s("d")));
    let ea = g.edges(&s("a")).unwrap();
    assert_eq!(ea, vec![s("b"), s("d")]);
}

#[test]
fn wt_undirected_from_plain_undirected() {
    let mut plain = LabeledUGraph::new();
    plain.add_vertex(s("p")).unwrap();
    plain.add_vertex(s("q")).unwrap();
    plain.add_edge(s("q"), s("p")).unwrap();
    let g = LabeledWTUGraph::from(plain);
    assert!(g.edge_exists(&s("p"), &s("q")));
    assert_eq!(g.v_count(), 2);
    assert_eq!(g.e_count(), 1);
}

#[test]
fn wt_undirected_discard_and_delete() {
    let mut g = LabeledWTUGraph::new();
    g.add_vertex(s("a")).unwrap();
    g.add_vertex(s("b")).unwrap();
    g.add_edge(s("a"), s("b")).unwrap();
    g.commit_edits();
    g.delete_edge(s("b"), s("a")).unwrap();
    assert!(!g.edge_exists_updated(&s("a"), &s("b")));
    g.discard_edits();
    assert!(g.edge_exists_updated(&s("a"), &s("b")));
    g.delete_vertex(s("b")).unwrap();
    assert!(!g.vertex_exists_updated(&s("b")));
    assert_eq!(g.v_count_updated(), 1);
}

#[test]
fn labeled_shrink_compacts_labels() {
    let mut g = LabeledWTDigraph::new();
    g.add_vertex(s("a")).unwrap();
    g.add_vertex(s("b")).unwrap();
    g.add_vertex(s("c")).unwrap();
    g.add_edge(s("c"), s("a")).unwrap();
    g.commit_edits();
    g.delete_vertex(s("b")).unwrap();
    let map = g.shrink();
    assert_eq!(map, vec![Some(0), None, Some(1)]);
    assert_eq!(g.label(0), Some(s("a")));
    assert_eq!(g.label(1), Some(s("c")));
    assert_eq!(g.index(&s("b")), None);
    assert!(g.edge_exists(&s("c"), &s("a")));
}

#[test]
fn wt_undirected_shrink() {
    let mut g = LabeledWTUGraph::new();
    g.add_vertex(s("x")).unwrap();
    g.add_vertex(s("y")).unwrap();
    g.commit_edits();
    g.delete_vertex(s("x")).unwrap();
    let map = g.shrink();
    assert_eq!(map, vec![None, Some(0)]);
    assert_eq!(g.get_label(0), Some(s("y")));
    assert_eq!(g.v_count(), 1);
}

#[test]
fn undirected_rejects_non_canonical_lists() {
    // the undirected engine stores each edge from the smaller index, so a
    // list holding the reverse direction is rejected
    assert!(LabeledUGraph::from_adjacency_list(
        2,
        1,
        vec![vec![], vec![0]],
        vec![s("x"), s("y")],
    )
    .is_err());
    assert!(LabeledUGraph::from_adjacency_list(
        2,
        1,
        vec![vec![1], vec![]],
        vec![s("x"), s("y")],
    )
    .is_ok());
}
