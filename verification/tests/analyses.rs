use digraph_rs::analyzer::dom::{
    intersect, mend, solve, to_post_order_indexes, Dominators, UNDEFINED,
};
use digraph_rs::analyzer::dominance::reaches_avoiding;
use digraph_rs::analyzer::predecessors::Predecessors;
use digraph_rs::analyzer::scc::TarjanSCC;
use digraph_rs::analyzer::visit::{Visited, VisitedSet};
use digraph_rs::{DiGraph, EmptyPayload};
use std::collections::HashSet;

fn graph_of(nodes: &[usize], edges: &[(usize, usize)]) -> DiGraph<EmptyPayload, EmptyPayload> {
    let mut graph = DiGraph::empty();
    for id in nodes {
        graph.add_bare_node(*id);
    }
    for (from, to) in edges {
        graph.add_bare_edge(*from, *to);
    }
    graph
}

fn component_of(sccs: &Vec<Vec<usize>>, id: usize) -> usize {
    let found: Vec<usize> =
        (0..sccs.len()).filter(|i| sccs[*i].contains(&id)).collect();
    assert_eq!(found.len(), 1);
    found[0]
}

#[test]
fn predecessors_smoke_test() {
    let graph = graph_of(&[0, 1, 2, 3, 4], &[(0, 1), (1, 2), (1, 3), (2, 4), (3, 4), (4, 1)]);

    let predecessors = graph.predecessors();

    assert_eq!(
        predecessors.by_node(&1).unwrap(),
        &HashSet::from_iter(vec![4, 0])
    );
    assert_eq!(
        predecessors.by_node(&2).unwrap(),
        &HashSet::from_iter(vec![1])
    );
    assert_eq!(
        predecessors.by_node(&3).unwrap(),
        &HashSet::from_iter(vec![1])
    );
    assert_eq!(
        predecessors.by_node(&4).unwrap(),
        &HashSet::from_iter(vec![2, 3])
    );
    assert_eq!(predecessors.by_node(&0), None);
}

#[test]
fn predecessors_leave_out_what_the_entry_node_does_not_reach() {
    let graph = graph_of(&[0, 1, 2, 3], &[(0, 1), (2, 1), (2, 3), (3, 0)]);
    let predecessors = Predecessors::new(&graph);
    assert_eq!(predecessors.post_order_line(), vec![1, 0]);
    assert_eq!(predecessors.by_node(&1).unwrap(), &HashSet::from_iter(vec![0]));
    assert_eq!(predecessors.by_node(&0), None);
    assert_eq!(predecessors.by_node(&3), None);
    assert_eq!(predecessors.predecessors().len(), 1);
}

#[test]
fn dom_smoke_test() {
    let graph = graph_of(&[0, 1, 2, 3, 4], &[(0, 1), (1, 2), (1, 3), (2, 4), (3, 4)]);

    let doms = graph.dominators();

    assert_eq!(doms.idom(&1), Some(&0));
    assert_eq!(doms.idom(&2), Some(&1));
    assert_eq!(doms.idom(&3), Some(&1));
    assert_eq!(doms.idom(&0), None);
    assert_eq!(doms.idom(&4), Some(&1));
    assert!(doms.is_stable());
}

#[test]
fn smoke_to_post_order_indexes_test() {
    let graph = graph_of(&[0, 1, 2, 3, 4], &[(0, 1), (1, 2), (1, 3), (2, 4), (3, 4)]);

    let predecessors = graph.predecessors();
    let post_order_line = &predecessors.post_order_line();
    let predecessors = &predecessors.predecessors();
    let post_order_indexes = to_post_order_indexes(post_order_line, predecessors);

    assert_eq!(post_order_line.len(), 5);
    assert_eq!(post_order_line[0], 4);
    assert!(vec![2, 3].contains(&post_order_line[1]));
    assert!(vec![2, 3].contains(&post_order_line[2]));
    assert_eq!(post_order_line[3], 1);
    assert_eq!(post_order_line[4], 0);

    assert_eq!(predecessors.len(), 4);
    assert_eq!(predecessors[&1], HashSet::from_iter(vec![0]));
    assert_eq!(predecessors[&3], HashSet::from_iter(vec![1]));
    assert_eq!(predecessors[&2], HashSet::from_iter(vec![1]));
    assert_eq!(predecessors[&4], HashSet::from_iter(vec![2, 3]));

    assert_eq!(post_order_indexes.len(), 5);
    assert_eq!(post_order_indexes[4], vec![]);
    assert_eq!(post_order_indexes[3], vec![4]);
    assert_eq!(post_order_indexes[2], vec![3]);
    assert_eq!(post_order_indexes[1], vec![3]);
    assert!(post_order_indexes[0] == vec![1, 2] || post_order_indexes[0] == vec![2, 1]);
}

#[test]
fn predecessor_places_come_highest_first() {
    let graph = graph_of(&[0, 1, 2, 3, 4], &[(0, 1), (1, 2), (1, 3), (2, 4), (3, 4)]);
    let predecessors = graph.predecessors();
    let places = to_post_order_indexes(
        &predecessors.post_order_line(),
        &predecessors.predecessors(),
    );
    assert_eq!(predecessors.post_order_line(), vec![4, 3, 2, 1, 0]);
    assert_eq!(places, vec![vec![2, 1], vec![3], vec![3], vec![4], vec![]]);
}

#[test]
fn dominators_of_a_single_node() {
    let graph = graph_of(&[5], &[]);
    let doms = Dominators::simple_fast(&graph);
    assert_eq!(doms.idom(&5), None);
    assert_eq!(doms.idom(&6), None);
    assert!(doms.is_stable());
}

#[test]
fn dominators_of_an_empty_graph() {
    let graph = graph_of(&[], &[]);
    let doms = graph.dominators();
    assert_eq!(doms.idom(&0), None);
    assert!(doms.is_stable());
}

#[test]
fn dominators_with_a_loop() {
    let graph = graph_of(
        &[0, 1, 2, 3, 4, 5],
        &[(0, 1), (1, 2), (2, 3), (3, 1), (1, 4), (3, 4), (4, 5), (5, 2)],
    );
    let doms = graph.dominators();
    assert!(doms.is_stable());
    assert_eq!(doms.idom(&0), None);
    assert_eq!(doms.idom(&1), Some(&0));
    assert_eq!(doms.idom(&2), Some(&1));
    assert_eq!(doms.idom(&3), Some(&2));
    assert_eq!(doms.idom(&4), Some(&1));
    assert_eq!(doms.idom(&5), Some(&4));
}

#[test]
fn dominators_leave_out_what_the_entry_node_does_not_reach() {
    let graph = graph_of(&[0, 1, 2], &[(0, 1), (2, 1)]);
    let doms = graph.dominators();
    assert_eq!(doms.idom(&1), Some(&0));
    assert_eq!(doms.idom(&2), None);
    assert_eq!(doms.idom(&0), None);
}

#[test]
fn dominators_are_the_same_when_found_again() {
    let graph = graph_of(&[0, 1, 2, 3, 4], &[(0, 1), (0, 2), (1, 3), (2, 3), (3, 4), (4, 1)]);
    let first = graph.dominators();
    let second = graph.dominators();
    for id in 0..6 {
        assert_eq!(first.idom(&id), second.idom(&id));
    }
    assert_eq!(first.idom(&3), Some(&0));
    assert_eq!(first.idom(&1), Some(&0));
    assert_eq!(first.idom(&4), Some(&3));
}

#[test]
fn intersect_walks_up_to_the_shared_place() {
    let dominators = vec![3, 3, 4, 4, 4];
    assert_eq!(intersect(&dominators, 0, 1), 3);
    assert_eq!(intersect(&dominators, 0, 2), 4);
    assert_eq!(intersect(&dominators, 2, 2), 2);
    assert_eq!(intersect(&dominators, 4, 1), 4);
}

#[test]
fn solve_finds_the_dominators_by_place() {
    let places = vec![vec![2, 1], vec![3], vec![3], vec![4], vec![]];
    let (dominators, stable) = solve(&places);
    assert_eq!(dominators, vec![3, 3, 3, 4, 4]);
    assert!(stable);
    let (none, stable) = solve(&Vec::new());
    assert!(none.is_empty());
    assert!(stable);
}

#[test]
fn solve_leaves_a_place_without_a_higher_predecessor_undefined() {
    let places = vec![vec![], vec![0], vec![]];
    let (dominators, stable) = solve(&places);
    assert_eq!(dominators, vec![UNDEFINED, UNDEFINED, 2]);
    assert!(stable);
}

#[test]
fn scc_simple_test() {
    let graph = graph_of(
        &[1, 2, 3, 4, 5, 6, 7, 8],
        &[(1, 2), (2, 3), (3, 1), (3, 4), (4, 5), (4, 6), (5, 7), (5, 8), (6, 4), (6, 7)],
    );
    let sccs = graph.scc();

    assert_eq!(sccs.len(), 5);
    let mut sorted: Vec<Vec<usize>> = sccs
        .iter()
        .map(|c| {
            let mut c = c.clone();
            c.sort();
            c
        })
        .collect();
    sorted.sort();
    assert_eq!(sorted, vec![vec![1, 2, 3], vec![4, 6], vec![5], vec![7], vec![8]]);
    for (from, to) in [
        (1, 2), (2, 3), (3, 1), (3, 4), (4, 5), (4, 6), (5, 7), (5, 8), (6, 4), (6, 7),
    ] {
        assert!(component_of(&sccs, to) <= component_of(&sccs, from));
    }
}

#[test]
fn scc_order_is_exact() {
    let graph = graph_of(
        &[1, 2, 3, 4, 5, 6, 7, 8],
        &[(1, 2), (2, 3), (3, 1), (3, 4), (4, 5), (4, 6), (5, 7), (5, 8), (6, 4), (6, 7)],
    );
    assert_eq!(
        graph.scc(),
        vec![vec![7], vec![8], vec![5], vec![6, 4], vec![3, 2, 1]]
    );
}

#[test]
fn scc_of_a_single_node() {
    let graph = graph_of(&[3], &[]);
    assert_eq!(graph.scc(), vec![vec![3]]);
}

#[test]
fn scc_of_an_empty_graph() {
    let graph = graph_of(&[], &[]);
    assert_eq!(graph.scc(), Vec::<Vec<usize>>::new());
}

#[test]
fn scc_covers_nodes_that_the_entry_node_does_not_reach() {
    let graph = graph_of(&[1, 2, 3], &[(2, 3), (3, 2), (3, 9)]);
    assert_eq!(graph.scc(), vec![vec![1], vec![9], vec![3, 2]]);
}

#[test]
fn scc_of_a_node_with_an_edge_to_itself() {
    let graph = graph_of(&[1, 2], &[(1, 1), (1, 2)]);
    assert_eq!(graph.scc(), vec![vec![2], vec![1]]);
}

#[test]
fn scc_is_the_same_when_found_again() {
    let graph = graph_of(&[1, 2, 3, 4], &[(1, 2), (2, 1), (3, 4), (4, 3), (2, 3)]);
    let mut search = TarjanSCC::new(&graph);
    let first = search.process_graph();
    let second = search.process_graph();
    assert_eq!(first, second);
    assert_eq!(first, graph.scc());
    assert_eq!(first, vec![vec![4, 3], vec![2, 1]]);
}

#[test]
fn visited_set_tells_the_first_visit() {
    let mut visited = VisitedSet::default();
    assert!(!visited.is_visited(&3));
    assert!(visited.visit(&3));
    assert!(!visited.visit(&3));
    assert!(visited.is_visited(&3));
    assert!(!visited.is_visited(&4));
}

#[test]
fn a_long_path_is_searched_without_deep_calls() {
    let mut graph: DiGraph<EmptyPayload, EmptyPayload> = DiGraph::empty();
    let n = 50_000;
    for id in 0..n {
        graph.add_bare_node(id);
    }
    for id in 0..n - 1 {
        graph.add_bare_edge(id, id + 1);
    }
    graph.add_bare_edge(n - 1, n - 3);
    let sccs = graph.scc();
    assert_eq!(sccs.len(), n - 2);
    assert_eq!(sccs[0], vec![n - 1, n - 2, n - 3]);
    assert_eq!(sccs[n - 3], vec![0]);
    let order = graph.iter_df_post().collect_ids();
    assert_eq!(order.len(), n);
    assert_eq!(order[0], n - 1);
    assert_eq!(order[n - 1], 0);
    let doms = graph.dominators();
    assert!(doms.is_stable());
    assert_eq!(doms.idom(&(n - 1)), Some(&(n - 2)));
    assert_eq!(doms.idom(&1), Some(&0));
}

#[test]
fn a_path_that_avoids_a_node_is_found() {
    let graph = graph_of(&[1, 2, 3, 4], &[(1, 2), (1, 3), (2, 4), (3, 4)]);
    assert!(reaches_avoiding(&graph, 4, 2));
    assert!(reaches_avoiding(&graph, 4, 3));
    assert!(!reaches_avoiding(&graph, 4, 1));
    assert!(!reaches_avoiding(&graph, 4, 4));
    assert!(reaches_avoiding(&graph, 1, 4));
    assert!(!reaches_avoiding(&graph, 9, 4));
    let chain = graph_of(&[1, 2, 3], &[(1, 2), (2, 3)]);
    assert!(!reaches_avoiding(&chain, 3, 2));
    assert!(reaches_avoiding(&chain, 2, 3));
    let empty = graph_of(&[], &[]);
    assert!(!reaches_avoiding(&empty, 1, 2));
}

#[test]
fn mending_moves_a_dominator_up_to_the_first_node_on_every_path() {
    let graph = graph_of(&[1, 2, 3, 4], &[(1, 2), (1, 3), (2, 4), (3, 4)]);
    let line = graph.predecessors().post_order_line();
    assert_eq!(line.len(), 4);
    let place = |id: usize| line.iter().position(|n| *n == id).unwrap();
    assert_eq!(place(1), 3);
    assert_eq!(place(4), 0);
    // the node 4 is left with the node 2, which one of its paths avoids
    let mut left = vec![0usize; 4];
    left[place(1)] = place(1);
    left[place(2)] = place(1);
    left[place(3)] = place(1);
    left[place(4)] = place(2);
    let mut mended = left.clone();
    mended[place(4)] = place(1);
    assert_eq!(mend(&graph, &line, &left), mended);
    assert_eq!(mend(&graph, &line, &mended), mended);
}

#[test]
fn mending_keeps_the_dominators_that_are_on_every_path() {
    let chain = graph_of(&[1, 2, 3], &[(1, 2), (2, 3)]);
    let line = chain.predecessors().post_order_line();
    assert_eq!(line, vec![3, 2, 1]);
    assert_eq!(mend(&chain, &line, &vec![1, 2, 2]), vec![1, 2, 2]);
    assert_eq!(mend(&chain, &line, &vec![UNDEFINED, 2, 2]), vec![UNDEFINED, 2, 2]);
    assert_eq!(mend(&chain, &line, &vec![2, 2, 2]), vec![2, 2, 2]);
    let none: Vec<usize> = Vec::new();
    assert!(mend(&graph_of(&[], &[]), &none, &none).is_empty());
}

#[test]
fn every_dominator_found_is_the_closest_node_on_every_path() {
    let graphs = vec![
        graph_of(&[1, 2, 3, 4], &[(1, 2), (1, 3), (2, 4), (3, 4)]),
        graph_of(&[1, 2, 3, 4, 5], &[(1, 2), (2, 3), (3, 2), (3, 4), (2, 5), (5, 4)]),
        graph_of(
            &[6, 5, 4, 3, 2, 1],
            &[(6, 5), (6, 4), (5, 1), (4, 2), (4, 3), (1, 2), (2, 1), (2, 3), (3, 2)],
        ),
        graph_of(&[1, 2, 3, 4, 5, 6], &[(1, 2), (2, 3), (3, 4), (4, 2), (4, 5), (1, 6), (6, 5)]),
    ];
    for graph in graphs.iter() {
        let start = graph.start().unwrap();
        let doms = graph.dominators();
        let ids = graph.node_ids();
        for v in ids.iter() {
            if *v == start {
                continue;
            }
            let m = *doms.idom(v).unwrap();
            assert_ne!(m, *v);
            assert!(!reaches_avoiding(graph, *v, m));
            for w in ids.iter() {
                if *w != *v && !reaches_avoiding(graph, *v, *w) {
                    assert!(!reaches_avoiding(graph, m, *w));
                }
            }
        }
    }
}
