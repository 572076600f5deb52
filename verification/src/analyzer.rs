//! Analyses over a graph.
use crate::analyzer::isomorphism::IsomorphismAnalyzer;
use crate::analyzer::mst::MinimumSpanningArborescence;
use crate::graph::{DiGraph, GraphView};
use vstd::prelude::*;
use vstd::std_specs::cmp::PartialEqSpec;

pub mod bipartite;
pub mod disjoint;
pub mod dom;
pub mod dominance;
pub mod isomorphism;
pub mod mst;
pub mod predecessors;
pub mod scc;
pub mod visit;

verus! {

/// Queries over the nodes of one graph.
#[derive(Debug)]
pub struct GraphAnalyzer<'a, NL, EL> {
    pub graph: &'a DiGraph<NL, EL>,
}

/// The place in the order of the nodes of the first node whose payload equals `payload`; the
/// number of nodes if there is none.
pub open spec fn first_place_with<NL: PartialEq, EL>(
    g: GraphView<NL, EL>,
    payload: NL,
    from: nat,
) -> nat
    decreases g.node_seq().len() - from,
{
    if from >= g.node_seq().len() {
        g.node_seq().len()
    } else if g.nodes[g.node_seq()[from as int]].eq_spec(&payload) {
        from
    } else {
        first_place_with(g, payload, from + 1)
    }
}

impl<'a, NL: PartialEq, EL> GraphAnalyzer<'a, NL, EL> {
    /// The payload of the first node, in increasing order of identifier, whose payload
    /// equals `payload`.
    pub fn first_node_by_payload(&self, payload: &NL) -> (r: Option<&NL>)
        ensures
            NL::obeys_eq_spec() ==> ({
                let g = self.graph@;
                let at = first_place_with(g, *payload, 0);
                match r {
                    Some(p) => at < g.node_seq().len() && *p == g.nodes[g.node_seq()[at as int]],
                    None => at == g.node_seq().len(),
                }
            }),
    {
        let ids = self.graph.node_ids();
        let mut i: usize = 0;
        proof {
            crate::order::lemma_ascending(self.graph@.nodes.dom());
        }
        while i < ids.len()
            invariant
                i <= ids.len(),
                ids@ == self.graph@.node_seq(),
                forall|k: int| 0 <= k < ids@.len() ==> self.graph@.nodes.contains_key(#[trigger] ids@[k]),
                NL::obeys_eq_spec() ==> first_place_with(self.graph@, *payload, i as nat)
                    == first_place_with(self.graph@, *payload, 0),
            decreases ids.len() - i,
        {
            match self.graph.node_by_id(&ids[i]) {
                Some((_, found)) => {
                    if *found == *payload {
                        return Some(found);
                    }
                },
                None => {
                    proof {
                        assert(ids@.contains(ids@[i as int]));
                        assert(false);
                    }
                },
            }
            i += 1;
        }
        None
    }

    /// The payload of the node `id` if it equals `payload`.
    pub fn node(&self, id: &usize, payload: &NL) -> (r: Option<&NL>)
        ensures
            NL::obeys_eq_spec() ==> (match r {
                Some(p) => self.graph@.nodes.contains_key(*id) && *p == self.graph@.nodes[*id]
                    && self.graph@.nodes[*id].eq_spec(payload),
                None => !self.graph@.nodes.contains_key(*id) || !self.graph@.nodes[*id].eq_spec(
                    payload,
                ),
            }),
    {
        match self.graph.node_by_id(id) {
            Some((_, found)) => {
                if *found == *payload {
                    Some(found)
                } else {
                    None
                }
            },
            None => None,
        }
    }
}

impl<'a, NL, EL> GraphAnalyzer<'a, NL, EL> {
    /// A search for a spanning forest of light edges of this graph.
    pub fn min_spanning_arborescence(&self) -> (r: MinimumSpanningArborescence<'a, NL, EL>)
        ensures
            r.graph() == self.graph@,
            r.forest() == Seq::<Seq<usize>>::empty(),
    {
        MinimumSpanningArborescence::new(self.graph)
    }

    /// Whether this graph and `another` are isomorphic. No graphs are found to be so.
    pub fn is_isomorphic(&self, another: &'a DiGraph<NL, EL>) -> (r: bool)
        ensures
            !r,
    {
        IsomorphismAnalyzer::new(self.graph, another).test()
    }
}

} // verus!
