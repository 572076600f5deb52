use digraph_rs::iterator::{NodeIteratorBF, NodeIteratorDF, NodeIteratorDFPostOrder};
use digraph_rs::{DiGraph, EmptyPayload};

fn graph_of(nodes: &[usize], edges: &[(usize, usize)]) -> DiGraph<EmptyPayload, EmptyPayload> {
    let mut graph = DiGraph::empty();
    for id in nodes {
        graph.add_bare_node(*id);
    }
    for (from, to) in edges {
        graph.add_bare_edge(*from, *to);
    }
    graph
}

#[test]
fn iterator_simple_test() {
    let graph = graph_of(&[1, 2, 3, 4], &[(1, 2), (1, 3), (2, 4), (3, 4)]);

    let _iter_d = NodeIteratorDF::new(&graph);
    let _iter_b = NodeIteratorBF::new(&graph);

    let mut res_iter: Vec<usize> = Vec::new();
    let mut plain = graph.iter();
    while let Some((id, _)) = plain.next() {
        res_iter.push(id);
    }
    let mut res_iter_df: Vec<usize> = Vec::new();
    let mut df = graph.iter_df();
    while let Some((id, _)) = df.next() {
        res_iter_df.push(id);
    }
    let mut res_iter_bf: Vec<usize> = Vec::new();
    let mut bf = graph.iter_bf();
    while let Some((id, _)) = bf.next() {
        res_iter_bf.push(id);
    }

    res_iter.sort();
    assert_eq!(res_iter, vec![1, 2, 3, 4]);

    assert!(res_iter_bf
        .get(2)
        .filter(|s| vec![2, 3].contains(s.clone()))
        .is_some());

    assert_eq!(res_iter_df.get(2), Some(&4));

    assert_ne!(res_iter_bf, res_iter_df);
    res_iter_bf.sort();
    res_iter_df.sort();

    assert_eq!(res_iter_df, res_iter_bf);
}

#[test]
fn post_order_dfs_test() {
    let graph = graph_of(&[1, 2, 3, 4], &[(1, 2), (1, 3), (2, 4), (3, 4), (4, 1)]);

    let mut res: Vec<usize> = Vec::new();
    let mut it = graph.iter_df_post();
    while let Some((id, _)) = it.next() {
        res.push(id);
    }

    assert_eq!(res[0], 4);
    assert!(vec![2usize, 3].contains(&res[1]));
    assert!(vec![2usize, 3].contains(&res[2]));
    assert_eq!(res[3], 1);
}

#[test]
fn depth_first_order_is_exact() {
    let graph = graph_of(&[1, 2, 3, 4], &[(1, 2), (1, 3), (2, 4), (3, 4)]);
    assert_eq!(graph.iter_df().collect_ids(), vec![1, 3, 4, 2]);
}

#[test]
fn breadth_first_order_is_exact() {
    let graph = graph_of(&[1, 2, 3, 4, 5], &[(1, 3), (1, 2), (2, 5), (3, 4), (4, 5), (5, 1)]);
    assert_eq!(graph.iter_bf().collect_ids(), vec![1, 2, 3, 5, 4]);
}

#[test]
fn post_order_is_exact() {
    let graph = graph_of(&[1, 2, 3, 4], &[(1, 2), (1, 3), (2, 4), (3, 4), (4, 1)]);
    assert_eq!(graph.iter_df_post().collect_ids(), vec![4, 3, 2, 1]);
    assert_eq!(NodeIteratorDFPostOrder::new(&graph).collect_ids(), vec![4, 3, 2, 1]);
}

#[test]
fn traversals_visit_each_reachable_node_once() {
    let graph = graph_of(
        &[0, 1, 2, 3, 4, 5, 6],
        &[(0, 1), (0, 2), (1, 2), (2, 0), (2, 3), (3, 3), (5, 6), (6, 0)],
    );
    for mut order in [
        graph.iter_df().collect_ids(),
        graph.iter_bf().collect_ids(),
        graph.iter_df_post().collect_ids(),
    ] {
        assert_eq!(order.len(), 4);
        order.sort();
        assert_eq!(order, vec![0, 1, 2, 3]);
    }
}

#[test]
fn post_order_emits_the_entry_node_last() {
    let graph = graph_of(&[3, 1, 2], &[(3, 1), (1, 2), (2, 3), (1, 3)]);
    let order = graph.iter_df_post().collect_ids();
    assert_eq!(order, vec![2, 1, 3]);
    assert_eq!(order.last(), Some(&3));
}

#[test]
fn traversals_of_a_graph_without_nodes_are_empty() {
    let mut graph: DiGraph<EmptyPayload, EmptyPayload> = DiGraph::new();
    graph.add_bare_edge(1, 2);
    assert_eq!(graph.iter_df().collect_ids(), Vec::<usize>::new());
    assert_eq!(graph.iter_bf().collect_ids(), Vec::<usize>::new());
    assert_eq!(graph.iter_df_post().collect_ids(), Vec::<usize>::new());
    assert!(graph.iter_df().next().is_none());
    assert!(graph.iter_bf().next().is_none());
    assert!(graph.iter_df_post().next().is_none());
}

#[test]
fn traversals_stop_at_an_entry_node_that_was_removed() {
    let mut graph = graph_of(&[1, 2], &[(1, 2)]);
    graph.remove_node(&1);
    assert_eq!(graph.iter_df().collect_ids(), Vec::<usize>::new());
    assert_eq!(graph.iter_bf().collect_ids(), Vec::<usize>::new());
    assert_eq!(graph.iter_df_post().collect_ids(), vec![2]);
    assert_eq!(graph.dominators().idom(&2), None);
}

#[test]
fn a_traversal_stops_at_a_node_that_is_not_in_the_graph() {
    let graph = graph_of(&[1, 2], &[(1, 2), (1, 9), (2, 1)]);
    assert_eq!(graph.iter_df().collect_ids(), vec![1]);
    assert_eq!(graph.iter_bf().collect_ids(), vec![1, 2]);
    assert_eq!(graph.iter_df_post().collect_ids(), Vec::<usize>::new());
    let mut df = graph.iter_df();
    assert_eq!(df.next(), Some((1, &EmptyPayload)));
    assert_eq!(df.next(), None);
    assert_eq!(df.next(), Some((2, &EmptyPayload)));
    assert_eq!(df.next(), None);
}

#[test]
fn a_single_node_is_its_own_traversal() {
    let graph = graph_of(&[4], &[]);
    assert_eq!(graph.iter_df().collect_ids(), vec![4]);
    assert_eq!(graph.iter_bf().collect_ids(), vec![4]);
    assert_eq!(graph.iter_df_post().collect_ids(), vec![4]);
}

#[test]
fn a_cycle_through_the_entry_node_emits_it_once() {
    let graph = graph_of(&[1, 2], &[(1, 2), (2, 1), (1, 1)]);
    assert_eq!(graph.iter_df().collect_ids(), vec![1, 2]);
    assert_eq!(graph.iter_bf().collect_ids(), vec![1, 2]);
    assert_eq!(graph.iter_df_post().collect_ids(), vec![2, 1]);
}

#[test]
fn traversals_give_the_same_order_when_run_again() {
    let graph = graph_of(&[1, 2, 3, 4, 5], &[(1, 5), (1, 2), (5, 3), (2, 3), (3, 4), (4, 1)]);
    assert_eq!(graph.iter_df().collect_ids(), graph.iter_df().collect_ids());
    assert_eq!(graph.iter_bf().collect_ids(), graph.iter_bf().collect_ids());
    assert_eq!(graph.iter_df_post().collect_ids(), graph.iter_df_post().collect_ids());
}
