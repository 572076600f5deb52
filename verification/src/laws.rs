//! What holds of the analyses when they are run again.
use crate::analyzer::dom::dominators_of;
use crate::analyzer::predecessors::predecessor_map;
use crate::analyzer::scc::{is_scc_list, member};
use crate::graph::GraphView;
use crate::postorder::post_order;
use crate::traversal::{breadth_first_order, depth_first_order};
use vstd::prelude::*;

verus! {

/// The traversals, the predecessors and the dominators of a graph are determined by what
/// the graph holds: an analysis that is run again on a graph that holds the same gives the
/// same orders and the same maps.
pub proof fn lemma_same_graph_same_results<NL, EL>(first: GraphView<NL, EL>, second: GraphView<NL, EL>)
    requires
        first == second,
    ensures
        depth_first_order(first) == depth_first_order(second),
        breadth_first_order(first) == breadth_first_order(second),
        post_order(first) == post_order(second),
        predecessor_map(first, post_order(first)) == predecessor_map(second, post_order(second)),
        dominators_of(first) == dominators_of(second),
{
}

/// The nodes `u` and `v` are in the same of the components `comps`.
pub open spec fn same_component(comps: Seq<Seq<usize>>, u: usize, v: usize) -> bool {
    exists|i: int, a: int, b: int|
        0 <= i < comps.len() && 0 <= a < comps[i].len() && 0 <= b < comps[i].len()
            && #[trigger] comps[i][a] == u && #[trigger] comps[i][b] == v
}

/// Two lists of the strongly connected components of one graph hold the same nodes and
/// put the same nodes together, whatever the order of the components and of the nodes in
/// them.
pub proof fn lemma_scc_membership_unique<NL, EL>(
    g: GraphView<NL, EL>,
    first: Seq<Seq<usize>>,
    second: Seq<Seq<usize>>,
)
    requires
        is_scc_list(g, first),
        is_scc_list(g, second),
    ensures
        forall|v: usize| member(first, v) <==> member(second, v),
        forall|u: usize, v: usize| same_component(first, u, v) <==> same_component(second, u, v),
{
    assert forall|v: usize| member(first, v) <==> member(second, v) by {
        assert(member(first, v) <==> g.in_scope(v));
        assert(member(second, v) <==> g.in_scope(v));
    }
    assert forall|u: usize, v: usize| same_component(first, u, v) implies same_component(
        second,
        u,
        v,
    ) by {
        lemma_together(g, first, second, u, v);
    }
    assert forall|u: usize, v: usize| same_component(second, u, v) implies same_component(
        first,
        u,
        v,
    ) by {
        lemma_together(g, second, first, u, v);
    }
}

proof fn lemma_together<NL, EL>(
    g: GraphView<NL, EL>,
    first: Seq<Seq<usize>>,
    second: Seq<Seq<usize>>,
    u: usize,
    v: usize,
)
    requires
        is_scc_list(g, first),
        is_scc_list(g, second),
        same_component(first, u, v),
    ensures
        same_component(second, u, v),
{
    let (i, a, b) = choose|i: int, a: int, b: int|
        0 <= i < first.len() && 0 <= a < first[i].len() && 0 <= b < first[i].len()
            && #[trigger] first[i][a] == u && #[trigger] first[i][b] == v;
    assert(g.reachable(first[i][a], first[i][b]) && g.reachable(first[i][b], first[i][a]));
    assert(member(first, u)) by {
        assert(first[i][a] == u);
    }
    assert(member(first, v)) by {
        assert(first[i][b] == v);
    }
    assert(member(first, u) <==> g.in_scope(u));
    assert(member(first, v) <==> g.in_scope(v));
    assert(member(second, u) <==> g.in_scope(u));
    assert(member(second, v) <==> g.in_scope(v));
    let (j, x) = choose|j: int, x: int|
        0 <= j < second.len() && j < second.len() && 0 <= x < second[j].len()
            && #[trigger] second[j][x] == u;
    let (k, y) = choose|k: int, y: int|
        0 <= k < second.len() && k < second.len() && 0 <= y < second[k].len()
            && #[trigger] second[k][y] == v;
    assert(j == k <==> g.reachable(second[j][x], second[k][y]) && g.reachable(
        second[k][y],
        second[j][x],
    ));
    assert(second[j][x] == u && second[j][y] == v);
}

} // verus!
