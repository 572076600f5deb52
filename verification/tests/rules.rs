use digraph_rs::generator::{
    count_edge, has_back_link, rejects, ring_neighbours, ring_targets, ErLimits,
};
use digraph_rs::visualizer::{group_numbers, idx_to_color, DotGraphVisualizer, Shade};
use digraph_rs::{DiGraph, EmptyPayload};
use std::collections::HashMap;

fn graph_of(nodes: &[usize], edges: &[(usize, usize)]) -> DiGraph<EmptyPayload, EmptyPayload> {
    let mut graph = DiGraph::empty();
    for id in nodes {
        graph.add_bare_node(*id);
    }
    for (from, to) in edges {
        graph.add_bare_edge(*from, *to);
    }
    graph
}

#[test]
fn a_back_link_is_the_edge_the_other_way() {
    let graph = graph_of(&[1, 2, 3], &[(1, 2), (2, 3)]);
    assert!(has_back_link(&graph, &2, &1));
    assert!(!has_back_link(&graph, &1, &2));
    assert!(!has_back_link(&graph, &1, &3));
}

#[test]
fn limits_hold_back_edges() {
    let limits = ErLimits { self_conn: false, back_strict: true, max_from: 2, max_to: 1 };
    let mut counters: HashMap<usize, (usize, usize)> = HashMap::new();
    counters.insert(1, (0, 0));
    counters.insert(2, (0, 0));
    assert!(!limits.max_bounds(&counters, &1, &2));
    count_edge(&mut counters, &1, &2);
    assert_eq!(counters[&1], (1, 0));
    assert_eq!(counters[&2], (0, 1));
    assert!(limits.max_bounds(&counters, &1, &2));
    assert!(!limits.max_bounds(&counters, &2, &1));
    count_edge(&mut counters, &1, &1);
    assert_eq!(counters[&1], (2, 1));
    assert!(limits.max_bounds(&counters, &1, &3));
    count_edge(&mut counters, &7, &8);
    assert_eq!(counters.len(), 2);

    assert!(!limits.draws(&1, &1));
    assert!(limits.draws(&1, &2));
    let graph = graph_of(&[1, 2], &[(2, 1)]);
    assert!(!limits.accepts(&graph, &1, &2));
    assert!(limits.accepts(&graph, &2, &1));

    let free = ErLimits { self_conn: true, back_strict: false, max_from: 0, max_to: 0 };
    assert!(!free.max_bounds(&counters, &1, &2));
    assert!(free.draws(&1, &1));
    assert!(free.accepts(&graph, &1, &2));
}

#[test]
fn neighbours_on_a_ring() {
    assert_eq!(ring_neighbours(5, 2, 20), (3, 7));
    assert_eq!(ring_neighbours(0, 1, 20), (19, 1));
    assert_eq!(ring_neighbours(1, 2, 20), (18, 3));
    assert_eq!(ring_neighbours(19, 2, 20), (17, 2));
    assert_eq!(ring_neighbours(19, 1, 20), (18, 20));
}

#[test]
fn groups_are_coloured_by_their_number() {
    assert_eq!(idx_to_color(0), Shade::Aqua);
    assert_eq!(idx_to_color(1), Shade::Red);
    assert_eq!(idx_to_color(9), Shade::Bisque);
    assert_eq!(idx_to_color(10), Shade::Yellowgreen);
    assert_eq!(idx_to_color(11), Shade::Red);
    assert_eq!(idx_to_color(20), Shade::Aqua);
    assert_eq!(idx_to_color(37), Shade::Purple);
}

#[test]
fn nodes_are_numbered_by_their_group() {
    let numbers = group_numbers(&vec![vec![7], vec![3, 2, 1], vec![], vec![7, 9]]);
    assert_eq!(numbers.len(), 5);
    assert_eq!(numbers[&7], 3);
    assert_eq!(numbers[&9], 3);
    assert_eq!(numbers[&3], 1);
    assert_eq!(numbers[&2], 1);
    assert_eq!(numbers[&1], 1);
    let graph = graph_of(&[1, 2, 3], &[(1, 2), (2, 1), (2, 3)]);
    let numbers = group_numbers(&graph.scc());
    assert_eq!(numbers[&3], 0);
    assert_eq!(numbers[&1], numbers[&2]);
}

#[test]
fn the_visualizer_holds_the_graph() {
    let graph = graph_of(&[1, 2], &[(1, 2)]);
    let visualizer = graph.visualize();
    assert_eq!(visualizer.graph.node_ids(), vec![1, 2]);
    assert!(DotGraphVisualizer::new(&graph).graph.edge(&1, &2).is_some());
}

#[test]
fn breadth_first_goes_by_the_number_of_edges() {
    let graph = graph_of(
        &[0, 1, 2, 3, 4, 5, 6],
        &[(0, 5), (0, 2), (5, 1), (2, 1), (2, 6), (1, 3), (6, 3), (3, 4), (4, 0)],
    );
    assert_eq!(graph.iter_bf().collect_ids(), vec![0, 2, 5, 1, 6, 3, 4]);
    let hops = [0, 2, 1, 3, 4, 1, 2];
    let order = graph.iter_bf().collect_ids();
    for pair in order.windows(2) {
        assert!(hops[pair[0]] <= hops[pair[1]]);
    }
}

#[test]
fn an_edge_in_post_order_leads_back_or_to_a_node_that_reaches_its_source() {
    let graph = graph_of(&[1, 2, 3, 4, 5], &[(1, 2), (2, 3), (3, 1), (2, 4), (1, 4), (4, 5)]);
    let order = graph.iter_df_post().collect_ids();
    assert_eq!(order, vec![5, 4, 3, 2, 1]);
    let place = |id: usize| order.iter().position(|x| *x == id).unwrap();
    for (from, to) in [(1, 2), (2, 3), (2, 4), (1, 4), (4, 5)] {
        assert!(place(to) < place(from));
    }
    // the one edge that leads forward in the order closes a cycle
    assert!(place(1) > place(3));
}

#[test]
fn every_node_but_the_entry_node_has_a_dominator_when_all_are_in_the_graph() {
    let graph = graph_of(
        &[0, 1, 2, 3, 4, 5],
        &[(0, 1), (0, 2), (1, 3), (2, 3), (3, 4), (4, 5), (5, 3), (5, 0)],
    );
    let doms = graph.dominators();
    assert!(doms.is_stable());
    assert_eq!(doms.idom(&0), None);
    assert_eq!(doms.idom(&1), Some(&0));
    assert_eq!(doms.idom(&2), Some(&0));
    assert_eq!(doms.idom(&3), Some(&0));
    assert_eq!(doms.idom(&4), Some(&3));
    assert_eq!(doms.idom(&5), Some(&4));
}

#[test]
fn ring_targets_take_the_left_neighbour_and_then_the_right() {
    let ids = vec![10, 11, 12, 13, 14];
    assert_eq!(
        ring_targets(&ids, 2),
        vec![
            vec![14, 11, 13, 12],
            vec![10, 12, 13, 13],
            vec![11, 13, 10, 14],
            vec![12, 14, 11],
            vec![13, 12, 12],
        ]
    );
    assert_eq!(
        ring_targets(&ids, 1),
        vec![vec![14, 11], vec![10, 12], vec![11, 13], vec![12, 14], vec![13]]
    );
    let none: Vec<Vec<usize>> = vec![Vec::new(); 5];
    assert_eq!(ring_targets(&ids, 0), none);
}

#[test]
fn a_drawn_node_is_rejected_if_it_is_the_source_or_on_its_ring() {
    let ring = vec![14, 11, 13];
    assert!(rejects(10, &ring, 10));
    assert!(rejects(10, &ring, 14));
    assert!(rejects(10, &ring, 13));
    assert!(!rejects(10, &ring, 12));
    assert!(rejects(10, &Vec::new(), 10));
    assert!(!rejects(10, &Vec::new(), 11));
}
