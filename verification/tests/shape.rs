use digraph_rs::analyzer::isomorphism::{same_elements, IsomorphismAnalyzer};
use digraph_rs::order::{insert_descending, sort_descending};
use digraph_rs::{DiGraph, EmptyPayload};

fn graph_of(nodes: &[usize], edges: &[(usize, usize)]) -> DiGraph<EmptyPayload, EmptyPayload> {
    let mut graph = DiGraph::empty();
    for id in nodes {
        graph.add_bare_node(*id);
    }
    for (from, to) in edges {
        graph.add_bare_edge(*from, *to);
    }
    graph
}

#[test]
fn smoke() {
    // the nodes "A", "B", "C", "D" are numbered 10, 11, 12, 13
    let lhs = graph_of(
        &[10, 11, 12, 13],
        &[(10, 11), (10, 12), (10, 13), (11, 12), (11, 13), (12, 13)],
    );
    let rhs = graph_of(&[1, 2, 3, 4], &[(1, 4), (1, 2), (1, 3), (2, 3), (2, 4), (3, 4)]);
    assert!(IsomorphismAnalyzer::new(&lhs, &rhs).could_be_iso());

    let rhs = graph_of(&[1, 2, 3, 4], &[(1, 4), (1, 2), (2, 3), (2, 4), (3, 4)]);
    assert!(!IsomorphismAnalyzer::new(&lhs, &rhs).could_be_iso());
}

#[test]
fn graphs_with_different_node_counts_cannot_be_isomorphic() {
    let lhs = graph_of(&[1, 2], &[(1, 2)]);
    let rhs = graph_of(&[1, 2, 3], &[(1, 2)]);
    assert!(!IsomorphismAnalyzer::new(&lhs, &rhs).could_be_iso());
    assert!(IsomorphismAnalyzer::new(&lhs, &lhs).could_be_iso());
}

#[test]
fn no_graphs_are_found_isomorphic() {
    let lhs = graph_of(&[1, 2], &[(1, 2)]);
    assert!(!IsomorphismAnalyzer::new(&lhs, &lhs).test());
    assert!(!lhs.analyze().is_isomorphic(&lhs));
}

#[test]
fn out_degrees_count_the_nodes_with_an_entry_among_the_edges() {
    let mut graph = graph_of(&[1, 2, 3], &[(3, 1), (3, 2), (1, 2)]);
    assert_eq!(graph.out_degrees(), vec![1, 2]);
    graph.remove_edge(&1, &2);
    assert_eq!(graph.out_degrees(), vec![2]);
}

#[test]
fn sorting_goes_from_the_greatest_down() {
    assert_eq!(sort_descending(&vec![1, 3, 2, 3, 0]), vec![3, 3, 2, 1, 0]);
    assert_eq!(sort_descending(&vec![]), Vec::<usize>::new());
    let mut v = vec![9, 5, 2];
    insert_descending(&mut v, 7);
    insert_descending(&mut v, 1);
    insert_descending(&mut v, 11);
    assert_eq!(v, vec![11, 9, 7, 5, 2, 1]);
}

#[test]
fn vectors_are_compared_element_by_element() {
    assert!(same_elements(&vec![1, 2], &vec![1, 2]));
    assert!(!same_elements(&vec![1, 2], &vec![2, 1]));
    assert!(!same_elements(&vec![1, 2], &vec![1, 2, 3]));
}

#[test]
fn simple_smoke_test() {
    // the nodes "A" to "E" are numbered 1 to 5
    let mut graph: DiGraph<EmptyPayload, usize> = DiGraph::new();
    for id in 1..=5 {
        graph.add_bare_node(id);
    }
    graph.add_edge(1, 2, 2);
    graph.add_edge(1, 3, 4);
    graph.add_edge(2, 3, 1);
    graph.add_edge(2, 4, 7);
    graph.add_edge(3, 4, 3);
    graph.add_edge(3, 5, 5);
    graph.add_edge(4, 5, 6);
    let mut d = digraph_rs::analyzer::mst::MinimumSpanningArborescence::new(&graph);
    let edges = d.find();
    let found: Vec<(usize, usize, usize)> =
        edges.iter().map(|e| (e.src, e.trg, *e.payload)).collect();
    assert_eq!(found, vec![(2, 3, 1), (1, 2, 2), (3, 4, 3), (3, 5, 5)]);
}

#[test]
fn edges_of_equal_payload_are_taken_by_source_and_target() {
    let mut graph: DiGraph<EmptyPayload, u8> = DiGraph::new();
    for id in 1..=3 {
        graph.add_bare_node(id);
    }
    graph.add_edge(3, 1, 1);
    graph.add_edge(1, 2, 1);
    graph.add_edge(2, 3, 1);
    graph.add_edge(1, 9, 0);
    graph.add_edge(8, 1, 0);
    let mut search = graph.analyze().min_spanning_arborescence();
    let found: Vec<(usize, usize, u8)> =
        search.find().iter().map(|e| (e.src, e.trg, *e.payload)).collect();
    assert_eq!(found, vec![(1, 2, 1), (2, 3, 1)]);
    let again: Vec<(usize, usize, u8)> =
        search.find().iter().map(|e| (e.src, e.trg, *e.payload)).collect();
    assert_eq!(again, found);
}

#[test]
fn payloads_are_sorted_with_equal_ones_in_their_order() {
    let payloads = [3u8, 1, 2, 1, 3];
    let edges: Vec<digraph_rs::Edge<u8>> = payloads
        .iter()
        .enumerate()
        .map(|(i, p)| digraph_rs::Edge::new(i, i + 10, p))
        .collect();
    let sorted: Vec<(usize, u8)> = digraph_rs::analyzer::mst::sort_by_payload(edges)
        .iter()
        .map(|e| (e.src, *e.payload))
        .collect();
    assert_eq!(sorted, vec![(1, 1), (3, 1), (2, 2), (0, 3), (4, 3)]);
}

#[test]
fn analyzer_finds_nodes_by_payload() {
    let mut graph: DiGraph<&str, u8> = DiGraph::new();
    graph.add_node(2, "b");
    graph.add_node(1, "a");
    graph.add_node(3, "b");
    let analyzer = graph.analyze();
    assert_eq!(analyzer.first_node_by_payload(&"b"), Some(&"b"));
    assert_eq!(analyzer.first_node_by_payload(&"c"), None);
    assert_eq!(analyzer.node(&1, &"a"), Some(&"a"));
    assert_eq!(analyzer.node(&1, &"b"), None);
    assert_eq!(analyzer.node(&4, &"a"), None);
}
