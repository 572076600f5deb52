//! The predecessors of the nodes that the entry node reaches, and the post-order of the
//! traversal that finds them.
use crate::graph::{DiGraph, GraphView};
use crate::postorder::{lemma_post_order, lemma_walk_next_emits, post_order, walk_rest};
use crate::traversal::{lemma_unvisited_insert, unvisited};
use std::collections::{HashMap, HashSet};
use vstd::prelude::*;

verus! {

broadcast use vstd::std_specs::hash::group_hash_axioms;

/// For each node that has an edge from a node of `po`: the nodes of `po` with an edge to it.
pub open spec fn predecessor_map<NL, EL>(g: GraphView<NL, EL>, po: Seq<usize>) -> Map<
    usize,
    Set<usize>,
> {
    Map::new(
        |v: usize| exists|u: usize| po.contains(u) && #[trigger] g.has_edge(u, v),
        |v: usize| Set::new(|u: usize| po.contains(u) && g.has_edge(u, v)),
    )
}

/// What a map of sets holds.
pub open spec fn sets_view(m: HashMap<usize, HashSet<usize>>) -> Map<usize, Set<usize>> {
    Map::new(|k: usize| m@.contains_key(k), |k: usize| m@[k]@)
}

/// `preds` after `from` was recorded as a predecessor of each of `targets`.
pub open spec fn with_predecessor(
    preds: Map<usize, Set<usize>>,
    from: usize,
    targets: Set<usize>,
) -> Map<usize, Set<usize>> {
    Map::new(
        |v: usize| preds.contains_key(v) || targets.contains(v),
        |v: usize|
            {
                let old = if preds.contains_key(v) {
                    preds[v]
                } else {
                    Set::empty()
                };
                if targets.contains(v) {
                    old.insert(from)
                } else {
                    old
                }
            },
    )
}

/// Recording the successors of one more node of the post-order extends the map of
/// predecessors by that node.
proof fn lemma_predecessor_map_push<NL, EL>(g: GraphView<NL, EL>, po: Seq<usize>, from: usize)
    ensures
        predecessor_map(g, po.push(from)) == with_predecessor(
            predecessor_map(g, po),
            from,
            g.successors(from),
        ),
{
    let a = predecessor_map(g, po.push(from));
    let b = with_predecessor(predecessor_map(g, po), from, g.successors(from));
    assert forall|u: usize| #[trigger] po.push(from).contains(u) <==> po.contains(u) || u == from by {
        if po.push(from).contains(u) {
            let i = choose|i: int| 0 <= i < po.push(from).len() && po.push(from)[i] == u;
            if i < po.len() {
                assert(po[i] == u);
            }
        }
        if po.contains(u) {
            let i = choose|i: int| 0 <= i < po.len() && po[i] == u;
            assert(po.push(from)[i] == u);
        }
        assert(po.push(from)[po.len() as int] == from);
    }
    assert forall|v: usize| a.contains_key(v) <==> b.contains_key(v) by {
        if a.contains_key(v) {
            let u = choose|u: usize| po.push(from).contains(u) && #[trigger] g.has_edge(u, v);
            if u != from {
                assert(po.contains(u) && g.has_edge(u, v));
            }
        }
        if predecessor_map(g, po).contains_key(v) {
            let u = choose|u: usize| po.contains(u) && #[trigger] g.has_edge(u, v);
            assert(po.push(from).contains(u) && g.has_edge(u, v));
        }
        if g.successors(from).contains(v) {
            assert(po.push(from).contains(from));
            assert(g.has_edge(from, v));
        }
    }
    assert forall|v: usize| a.contains_key(v) implies a[v] == b[v] by {
        assert forall|u: usize| a[v].contains(u) <==> b[v].contains(u) by {
            assert(po.push(from).contains(u) <==> po.contains(u) || u == from);
            if predecessor_map(g, po).contains_key(v) {
            } else {
                if po.contains(u) && g.has_edge(u, v) {
                    assert(false);
                }
            }
        }
        assert(a[v] =~= b[v]);
    }
    assert(a =~= b);
}

/// The predecessors of the nodes that the entry node of a graph reaches, and the post-order
/// of the depth-first traversal from it.
pub struct Predecessors {
    predecessors: HashMap<usize, HashSet<usize>>,
    post_order: Vec<usize>,
}

impl View for Predecessors {
    type V = Map<usize, Set<usize>>;

    /// The predecessors by node. A node without a recorded predecessor has no entry.
    closed spec fn view(&self) -> Map<usize, Set<usize>> {
        sets_view(self.predecessors)
    }
}

impl Predecessors {
    /// The post-order in which the nodes were found.
    pub closed spec fn line(&self) -> Seq<usize> {
        self.post_order@
    }

    /// Walks `graph` in post-order from its entry node and records each node that is
    /// emitted as a predecessor of its successors.
    pub fn new<NL, EL>(graph: &DiGraph<NL, EL>) -> (p: Self)
        ensures
            p.line() == post_order(graph@),
            p@ == predecessor_map(graph@, post_order(graph@)),
    {
        let mut predecessors: HashMap<usize, HashSet<usize>> = HashMap::new();
        let mut post_order: Vec<usize> = Vec::new();
        let mut it = graph.iter_df_post();
        proof {
            assert(sets_view(predecessors) =~= predecessor_map(graph@, post_order@));
        }
        loop
            invariant_except_break
                it.graph() == graph@,
                post_order@ + walk_rest(graph@, it@) == crate::postorder::post_order(graph@),
                sets_view(predecessors) == predecessor_map(graph@, post_order@),
            ensures
                post_order@ == crate::postorder::post_order(graph@),
                sets_view(predecessors) == predecessor_map(graph@, post_order@),
            decreases unvisited(it@.processed).len(),
        {
            let ghost before = it@;
            let ghost line = post_order@;
            proof {
                lemma_walk_next_emits(graph@, before);
            }
            match it.next() {
                Some((from, _)) => {
                    proof {
                        lemma_unvisited_insert(before.processed, from);
                        assert(line.push(from) + walk_rest(graph@, it@) =~= line + walk_rest(
                            graph@,
                            before,
                        ));
                    }
                    post_order.push(from);
                    let succs = graph.successor_ids(&from);
                    let ghost base = sets_view(predecessors);
                    let mut j: usize = 0;
                    proof {
                        assert(succs@.take(0).to_set() =~= Set::empty());
                        assert(sets_view(predecessors) =~= with_predecessor(
                            base,
                            from,
                            succs@.take(0).to_set(),
                        ));
                    }
                    while j < succs.len()
                        invariant
                            j <= succs.len(),
                            sets_view(predecessors) == with_predecessor(
                                base,
                                from,
                                succs@.take(j as int).to_set(),
                            ),
                        decreases succs.len() - j,
                    {
                        let to = succs[j];
                        let ghost prior = sets_view(predecessors);
                        let ghost m0 = predecessors@;
                        let mut set = match predecessors.remove(&to) {
                            Some(s) => s,
                            None => HashSet::new(),
                        };
                        let ghost before_set = set@;
                        assert(predecessors@ == m0.remove(to));
                        assert(before_set == if m0.contains_key(to) {
                            m0[to]@
                        } else {
                            Set::<usize>::empty()
                        });
                        set.insert(from);
                        assert(set@ == before_set.insert(from));
                        predecessors.insert(to, set);
                        assert(predecessors@ == m0.remove(to).insert(to, set));
                        proof {
                            assert(succs@.take(j + 1) =~= succs@.take(j as int).push(to));
                            crate::traversal::lemma_push_to_set(succs@.take(j as int), to);
                            let now = sets_view(predecessors);
                            let goal = with_predecessor(base, from, succs@.take(j + 1).to_set());
                            assert forall|v: usize| now.contains_key(v) <==> goal.contains_key(
                                v,
                            ) by {
                                assert(prior.contains_key(v) <==> m0.contains_key(v));
                            }
                            assert forall|v: usize| now.contains_key(v) implies now[v]
                                == goal[v] by {
                                if v == to {
                                    assert(now[v] == before_set.insert(from));
                                    if m0.contains_key(to) {
                                        assert(prior.contains_key(to));
                                        assert(prior[to] == m0[to]@);
                                    } else {
                                        assert(!prior.contains_key(to));
                                    }
                                    assert(now[v] =~= goal[v]);
                                } else {
                                    assert(m0.contains_key(v));
                                    assert(now[v] == m0[v]@);
                                    assert(prior.contains_key(v));
                                    assert(prior[v] == m0[v]@);
                                    assert(now[v] =~= goal[v]);
                                }
                            }
                            assert(now =~= goal);
                        }
                        j += 1;
                    }
                    proof {
                        crate::order::lemma_ascending(graph@.successors(from));
                        assert(succs@.take(succs.len() as int) =~= succs@);
                        lemma_predecessor_map_push(graph@, line, from);
                    }
                },
                None => {
                    assert(post_order@ + Seq::<usize>::empty() =~= post_order@);
                    break ;
                },
            }
        }
        Self { predecessors, post_order }
    }

    /// The post-order of the traversal.
    pub fn post_order_line(&self) -> (r: Vec<usize>)
        ensures
            r@ == self.line(),
    {
        let r = self.post_order.clone();
        assert(r@ =~= self.post_order@);
        r
    }

    /// The predecessors by node.
    pub fn predecessors(&self) -> (r: HashMap<usize, HashSet<usize>>)
        ensures
            sets_view(r) == self@,
    {
        self.predecessors.clone()
    }

    /// The predecessors of `id`; `None` where none was recorded: for the entry node unless an
    /// edge leads back to it, and for a node that the entry node does not reach.
    pub fn by_node(&self, id: &usize) -> (r: Option<&HashSet<usize>>)
        ensures
            match r {
                Some(s) => self@.contains_key(*id) && s@ == self@[*id],
                None => !self@.contains_key(*id),
            },
    {
        self.predecessors.get(id)
    }
}

impl<NL, EL> DiGraph<NL, EL> {
    /// The predecessors of the nodes that the entry node reaches.
    pub fn predecessors(&self) -> (p: Predecessors)
        ensures
            p.line() == post_order(self@),
            p@ == predecessor_map(self@, post_order(self@)),
    {
        Predecessors::new(self)
    }
}

/// Where every node that the entry node reaches is in the graph, a node has recorded
/// predecessors if an edge leads to it from a node that the entry node reaches, and they
/// are the sources of all such edges.
pub proof fn lemma_predecessors_of_reachable<NL, EL>(g: GraphView<NL, EL>)
    requires
        g.entry_closed(),
    ensures
        forall|v: usize| #[trigger]
            predecessor_map(g, post_order(g)).contains_key(v) <==> exists|u: usize|
                g.reachable_set().contains(u) && #[trigger] g.has_edge(u, v),
        forall|v: usize, u: usize|
            predecessor_map(g, post_order(g)).contains_key(v) ==> (#[trigger] predecessor_map(
                g,
                post_order(g),
            )[v].contains(u) <==> g.reachable_set().contains(u) && g.has_edge(u, v)),
{
    lemma_post_order(g);
    let po = post_order(g);
    assert forall|u: usize| po.contains(u) <==> g.reachable_set().contains(u) by {
        assert(po.to_set().contains(u) <==> po.contains(u));
    }
    assert forall|v: usize| #[trigger]
        predecessor_map(g, po).contains_key(v) <==> exists|u: usize|
            g.reachable_set().contains(u) && #[trigger] g.has_edge(u, v) by {
        if predecessor_map(g, po).contains_key(v) {
            let u = choose|u: usize| po.contains(u) && #[trigger] g.has_edge(u, v);
            assert(g.reachable_set().contains(u) && g.has_edge(u, v));
        }
        if exists|u: usize| g.reachable_set().contains(u) && #[trigger] g.has_edge(u, v) {
            let u = choose|u: usize| g.reachable_set().contains(u) && #[trigger] g.has_edge(u, v);
            assert(po.contains(u) && g.has_edge(u, v));
        }
    }
}

} // verus!
