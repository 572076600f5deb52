use digraph_rs::{DiGraph, EmptyPayload};
use std::collections::BTreeMap;

fn diamond() -> DiGraph<EmptyPayload, EmptyPayload> {
    let mut graph = DiGraph::empty();
    for id in [1, 2, 3, 4] {
        graph.add_bare_node(id);
    }
    graph.add_bare_edge(1, 2);
    graph.add_bare_edge(1, 3);
    graph.add_bare_edge(2, 4);
    graph.add_bare_edge(3, 4);
    graph
}

#[test]
fn simple_creation_graph() {
    let mut graph: DiGraph<EmptyPayload, EmptyPayload> = DiGraph::empty();
    graph.add_bare_node(1);
    graph.add_bare_node(2);
    graph.add_bare_node(3);
    graph.add_bare_node(4);

    graph.add_bare_edge(1, 2);
    graph.add_bare_edge(2, 3);
    graph.add_bare_edge(3, 4);
    graph.add_bare_edge(4, 1);
    assert_eq!(graph.start(), &Some(1));
    assert_eq!(
        graph.successors(&1),
        Some(&BTreeMap::from_iter(vec![(2usize, EmptyPayload)].into_iter()))
    );
}

#[test]
fn empty_graph_has_no_entry_node() {
    let graph: DiGraph<u8, u8> = DiGraph::new();
    assert_eq!(graph.start(), &None);
    assert_eq!(graph.node_ids(), Vec::<usize>::new());
    assert!(graph.successors(&0).is_none());
    assert!(graph.edges().is_empty());
    assert_eq!(graph.node_count(), 0);
}

#[test]
fn first_node_becomes_the_entry_node_and_stays() {
    let mut graph: DiGraph<&str, u8> = DiGraph::new();
    assert_eq!(graph.add_node(7, "seven"), Some(7));
    assert_eq!(graph.add_node(3, "three"), Some(3));
    assert_eq!(graph.start(), &Some(7));
    assert_eq!(graph.remove_node(&7), Some("seven"));
    assert_eq!(graph.remove_node(&7), None);
    assert_eq!(graph.start(), &Some(7));
    assert!(!graph.has_node(&7));
    assert!(graph.has_node(&3));
}

#[test]
fn adding_a_node_again_replaces_its_payload_and_keeps_its_edges() {
    let mut graph: DiGraph<u32, u32> = DiGraph::new();
    graph.add_node(1, 10);
    graph.add_node(2, 20);
    graph.add_edge(1, 2, 12);
    graph.add_node(1, 11);
    assert_eq!(graph.node_by_id(&1), Some((1, &11)));
    assert_eq!(graph.edge(&1, &2), Some(&12));
    assert_eq!(graph.node_count(), 2);
}

#[test]
fn adding_an_edge_again_returns_the_payload_it_had() {
    let mut graph: DiGraph<u32, u32> = DiGraph::new();
    assert_eq!(graph.add_edge(1, 2, 5), None);
    assert_eq!(graph.add_edge(1, 2, 6), Some(5));
    assert_eq!(graph.edge(&1, &2), Some(&6));
    assert_eq!(graph.edge(&2, &1), None);
    assert_eq!(graph.edge(&1, &3), None);
}

#[test]
fn removing_the_last_edge_of_a_node_leaves_it_without_successors() {
    let mut graph: DiGraph<u32, u32> = DiGraph::new();
    graph.add_edge(1, 2, 5);
    graph.add_edge(1, 3, 6);
    assert_eq!(graph.remove_edge(&1, &2), Some(5));
    assert_eq!(graph.successors(&1), Some(&BTreeMap::from_iter(vec![(3usize, 6u32)])));
    assert_eq!(graph.remove_edge(&1, &3), Some(6));
    assert_eq!(graph.remove_edge(&1, &3), None);
    assert_eq!(graph.successors(&1), None);
    assert_eq!(graph.remove_edge(&9, &2), None);
    assert_eq!(graph.successors(&9), None);
    assert_eq!(graph.successor_ids(&1), Vec::<usize>::new());
    assert_eq!(graph.edge(&1, &3), None);
}

#[test]
fn removing_an_edge_twice() {
    let mut graph: DiGraph<EmptyPayload, EmptyPayload> = DiGraph::empty();
    graph.add_bare_node(1);
    graph.add_bare_node(2);
    graph.add_bare_edge(1, 2);
    assert_eq!(graph.remove_edge(&1, &2), Some(EmptyPayload));
    assert_eq!(graph.remove_edge(&1, &2), None);
    assert_eq!(graph.edge(&1, &2), None);
    assert_eq!(graph.successors(&1), None);
    assert_eq!(graph.start(), &Some(1));
    assert!(graph.has_node(&1) && graph.has_node(&2));
}

#[test]
fn removing_a_node_leaves_its_edges() {
    let mut graph = diamond();
    assert_eq!(graph.remove_node(&2), Some(EmptyPayload));
    assert!(graph.edge(&1, &2).is_some());
    assert!(graph.edge(&2, &4).is_some());
    assert_eq!(graph.node_ids(), vec![1, 3, 4]);
}

#[test]
fn successors_are_listed_in_increasing_order() {
    let mut graph: DiGraph<u8, u8> = DiGraph::new();
    graph.add_edge(5, 9, 0);
    graph.add_edge(5, 1, 0);
    graph.add_edge(5, 4, 0);
    assert_eq!(graph.successor_ids(&5), vec![1, 4, 9]);
    assert_eq!(graph.successor_ids(&1), Vec::<usize>::new());
}

#[test]
fn edges_are_listed_by_source_and_target() {
    let mut graph: DiGraph<u8, u32> = DiGraph::new();
    graph.add_node(2, 0);
    graph.add_node(1, 0);
    graph.add_edge(2, 1, 21);
    graph.add_edge(1, 3, 13);
    graph.add_edge(1, 2, 12);
    graph.add_edge(7, 1, 71);
    let edges = graph.edges();
    let triples: Vec<(usize, usize, u32)> =
        edges.iter().map(|e| (e.src, e.trg, *e.payload)).collect();
    assert_eq!(triples, vec![(1, 2, 12), (1, 3, 13), (2, 1, 21)]);
}

#[test]
fn plain_iteration_goes_by_identifier() {
    let mut graph: DiGraph<&str, u8> = DiGraph::new();
    graph.add_node(3, "c");
    graph.add_node(1, "a");
    graph.add_node(2, "b");
    let mut it = graph.iter();
    assert_eq!(it.next(), Some((1, &"a")));
    assert_eq!(it.next(), Some((2, &"b")));
    assert_eq!(it.next(), Some((3, &"c")));
    assert_eq!(it.next(), None);
    assert_eq!(it.next(), None);
}

#[test]
fn empty_payload_has_empty_text() {
    assert_eq!(EmptyPayload.to_string(), "");
    assert_eq!(EmptyPayload, EmptyPayload::default());
}

#[test]
fn analyzer_sees_the_graph() {
    let graph = diamond();
    let analyzer = graph.analyze();
    assert!(analyzer.graph.edge(&1, &2).is_some());
    assert!(analyzer.graph.edge(&1, &4).is_none());
}
