use digraph_rs::analyzer::bipartite::{Bipartite, Color};
use digraph_rs::analyzer::disjoint::{DisjointSet, Entity, EntityPtr};
use digraph_rs::{DiGraph, EmptyPayload};

fn graph_of(nodes: &[usize], edges: &[(usize, usize)]) -> DiGraph<EmptyPayload, EmptyPayload> {
    let mut graph = DiGraph::empty();
    for id in nodes {
        graph.add_bare_node(*id);
    }
    for (from, to) in edges {
        graph.add_bare_edge(*from, *to);
    }
    graph
}

#[test]
fn find_work() {
    let mut set = DisjointSet {
        entities: vec![
            Entity {
                data: 0,
                rank: 0,
                parent: 0,
            },
            Entity {
                data: 0,
                rank: 0,
                parent: 0,
            },
            Entity {
                data: 0,
                rank: 0,
                parent: 1,
            },
            Entity {
                data: 0,
                rank: 0,
                parent: 2,
            },
            Entity {
                data: 0,
                rank: 0,
                parent: 3,
            },
            Entity {
                data: 0,
                rank: 0,
                parent: 4,
            },
        ],
    };

    let res = set.find(EntityPtr { ptr: 5 });
    assert_eq!(res.ptr, 0);
    let res: Vec<_> = set.entities.iter().map(|e| e.parent).collect();
    assert_eq!(res, [0, 0, 1, 1, 3, 3]);

    let res = set.find(EntityPtr { ptr: 5 });
    assert_eq!(res.ptr, 0);
    let res: Vec<_> = set.entities.iter().map(|e| e.parent).collect();
    assert_eq!(res, [0, 0, 1, 1, 3, 1]);
}

#[test]
fn union_work() {
    let mut set: DisjointSet<usize> = DisjointSet::new();
    let first = set.make_set(1);
    let second = set.make_set(2);
    let third = set.make_set(3);
    let fourth = set.make_set(4);
    let fifth = set.make_set(5);

    for e in set.entities.iter() {
        assert_eq!(e.rank, 0);
        assert_eq!(e.data, e.parent + 1)
    }
    set.union(first, second);

    let res: Vec<_> = set.entities.iter().map(|e| e.parent).collect();
    assert_eq!(res, [1, 1, 2, 3, 4]);

    set.union(third, fourth);
    set.union(fourth, fifth);
    set.union(second, fifth);

    let res: Vec<_> = set.entities.iter().map(|e| e.parent).collect();
    assert_eq!(res, [1, 3, 3, 3, 3]);

    let res: Vec<_> = set.entities.iter().map(|e| e.rank).collect();
    assert_eq!(res, [0, 1, 0, 2, 0]);
}

#[test]
fn make_set_always_adds_an_entity_and_points_to_the_first_with_the_data() {
    let mut set: DisjointSet<&str> = DisjointSet::new();
    let a = set.make_set("a");
    let b = set.make_set("b");
    let again = set.make_set("a");
    assert_eq!((a.ptr, b.ptr, again.ptr), (0, 1, 0));
    assert_eq!(set.entities.len(), 3);
    assert_eq!(set.data(b), &"b");
    assert_eq!(set.data(EntityPtr { ptr: 2 }), &"a");
    assert_eq!(set.find(EntityPtr { ptr: 2 }).ptr, 2);
}

#[test]
fn union_of_one_set_with_itself_changes_nothing() {
    let mut set: DisjointSet<u8> = DisjointSet::new();
    let a = set.make_set(1);
    let b = set.make_set(2);
    set.union(a, b);
    set.union(b, a);
    set.union(a, a);
    assert_eq!(set.find(a).ptr, set.find(b).ptr);
    let ranks: Vec<_> = set.entities.iter().map(|e| e.rank).collect();
    assert_eq!(ranks, [0, 1]);
    let e = Entity::new(7u8, 1, 2);
    assert_eq!((e.data, e.rank, e.parent), (7, 1, 2));
}

#[test]
fn bipartite_smoke_test() {
    // the nodes "A", "B", "C", "D", "E" are numbered 1 to 5
    let graph = graph_of(&[1, 2, 3, 4], &[(1, 2), (2, 3), (3, 4), (4, 1)]);

    let mut c = Bipartite::new(&graph);
    assert!(c.bipartite());

    let graph = graph_of(&[1, 2, 3, 4, 5], &[(1, 2), (2, 3), (3, 4), (4, 5), (5, 1)]);

    let mut c = Bipartite::new(&graph);
    assert!(c.no_bipartite());
}

#[test]
fn a_node_with_an_edge_to_itself_cannot_be_painted() {
    let graph = graph_of(&[1], &[(1, 1)]);
    assert!(!Bipartite::new(&graph).bipartite());
    let graph = graph_of(&[], &[]);
    assert!(Bipartite::new(&graph).bipartite());
    assert!(!Bipartite::new(&graph).no_bipartite());
}

#[test]
fn the_colours_given_first_decide() {
    // 1 - 2 - 4 - 3 is a path, but 3 is painted black before 4 is reached
    let graph = graph_of(&[1, 2, 3, 4], &[(1, 2), (4, 2), (4, 3)]);
    assert!(!Bipartite::new(&graph).bipartite());
    let graph = graph_of(&[1, 2, 3, 4], &[(1, 2), (3, 2), (3, 4)]);
    assert!(Bipartite::new(&graph).bipartite());
}

#[test]
fn colours_switch() {
    assert_eq!(Color::NoColor.switch(), Color::Black);
    assert_eq!(Color::White.switch(), Color::Black);
    assert_eq!(Color::Black.switch(), Color::White);
    assert!(Color::Black.is_opposite(&Color::White));
    assert!(Color::White.is_opposite(&Color::Black));
    assert!(!Color::Black.is_opposite(&Color::Black));
    assert!(!Color::NoColor.is_opposite(&Color::Black));
}
