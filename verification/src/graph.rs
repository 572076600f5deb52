//! The graph store: nodes and edges with payloads, and the entry node.
use crate::analyzer::GraphAnalyzer;
use crate::order::{ascending, increasing, lemma_ascending_of};
use std::collections::BTreeMap;
use vstd::prelude::*;
use vstd::std_specs::cmp::OrdSpec;
use vstd::std_specs::iter::IteratorSpec;

verus! {

broadcast use {vstd::std_specs::btree::group_btree_axioms, vstd::laws_cmp::group_laws_cmp};

/// A payload that carries no information.
#[derive(Copy, Clone, PartialEq, Eq, Structural, Debug, Default)]
pub struct EmptyPayload;

impl EmptyPayload {
    /// The text of an empty payload: the empty string.
    pub fn to_string(&self) -> (s: String)
        ensures
            s@ == Seq::<char>::empty(),
    {
        String::new()
    }
}

/// One edge of a graph: its two ends and a reference to its payload.
#[derive(PartialEq, Eq)]
pub struct Edge<'a, EL> {
    pub src: usize,
    pub trg: usize,
    pub payload: &'a EL,
}

impl<'a, EL> Edge<'a, EL> {
    pub fn new(src: usize, trg: usize, payload: &'a EL) -> (e: Self)
        ensures
            e.src == src,
            e.trg == trg,
            *e.payload == *payload,
    {
        Self { src, trg, payload }
    }
}

/// The ends and the payload of each edge of `edges`, in the same order.
pub open spec fn edge_triples<EL>(edges: Seq<Edge<'_, EL>>) -> Seq<(usize, usize, EL)> {
    edges.map_values(|e: Edge<'_, EL>| (e.src, e.trg, *e.payload))
}

/// What a graph holds: payloads by node, payloads by source and target of each edge, and the
/// entry node.
pub struct GraphView<NL, EL> {
    pub nodes: Map<usize, NL>,
    pub edges: Map<usize, Map<usize, EL>>,
    pub start: Option<usize>,
}

impl<NL, EL> GraphView<NL, EL> {
    /// The graph without nodes and edges.
    pub open spec fn empty() -> Self {
        GraphView { nodes: Map::empty(), edges: Map::empty(), start: None }
    }

    /// The targets recorded for `u`: empty where `u` has no entry among the edges.
    pub open spec fn targets(self, u: usize) -> Map<usize, EL> {
        if self.edges.contains_key(u) {
            self.edges[u]
        } else {
            Map::empty()
        }
    }

    /// The nodes that an edge from `u` leads to.
    pub open spec fn successors(self, u: usize) -> Set<usize> {
        self.targets(u).dom()
    }

    /// There is an edge from `u` to `v`.
    pub open spec fn has_edge(self, u: usize, v: usize) -> bool {
        self.successors(u).contains(v)
    }

    /// The successors of `u` in increasing order: the order in which every analysis
    /// enumerates them.
    pub open spec fn successor_seq(self, u: usize) -> Seq<usize> {
        ascending(self.successors(u))
    }

    /// The nodes in increasing order of identifier.
    pub open spec fn node_seq(self) -> Seq<usize> {
        ascending(self.nodes.dom())
    }

    /// The nodes that have an entry among the edges, in increasing order.
    pub open spec fn sources(self) -> Seq<usize> {
        ascending(self.edges.dom())
    }

    /// The number of successors of each node that has an entry among the edges, in
    /// increasing order of node.
    pub open spec fn out_degrees(self) -> Seq<usize> {
        Seq::new(
            self.sources().len(),
            |i: int| self.edges[self.sources()[i]].dom().len() as usize,
        )
    }

    /// The nodes can be counted in a `usize`, as those of every graph in memory can.
    pub open spec fn fits(self) -> bool {
        self.nodes.dom().finite() && self.nodes.dom().len() <= usize::MAX
    }

    /// The graph after `id` was added with `payload`: the first node added becomes the
    /// entry node.
    pub open spec fn with_node(self, id: usize, payload: NL) -> Self {
        GraphView {
            nodes: self.nodes.insert(id, payload),
            edges: self.edges,
            start: if self.start is None {
                Some(id)
            } else {
                self.start
            },
        }
    }

    /// The graph after the edge from `from` to `to` was set to `payload`.
    pub open spec fn with_edge(self, from: usize, to: usize, payload: EL) -> Self {
        GraphView {
            nodes: self.nodes,
            edges: self.edges.insert(from, self.targets(from).insert(to, payload)),
            start: self.start,
        }
    }

    /// The graph after the edge from `from` to `to` was taken out. A node that is left
    /// without an edge has no entry among the edges.
    pub open spec fn without_edge(self, from: usize, to: usize) -> Self {
        let left = self.targets(from).remove(to);
        GraphView {
            nodes: self.nodes,
            edges: if !self.edges.contains_key(from) {
                self.edges
            } else if left.dom() == Set::<usize>::empty() {
                self.edges.remove(from)
            } else {
                self.edges.insert(from, left)
            },
            start: self.start,
        }
    }

    /// Every node that has an entry among the edges has an edge.
    pub open spec fn tidy(self) -> bool {
        forall|u: usize| #[trigger]
            self.edges.contains_key(u) ==> self.edges[u].dom() != Set::<usize>::empty()
    }

    /// The edges that leave `src` for the first `n` of its successors, in increasing order of
    /// target.
    pub open spec fn edges_from(self, src: usize, n: nat) -> Seq<(usize, usize, EL)>
        decreases n,
    {
        if n == 0 || n > self.successor_seq(src).len() {
            Seq::empty()
        } else {
            let trg = self.successor_seq(src)[n - 1];
            self.edges_from(src, (n - 1) as nat).push((src, trg, self.targets(src)[trg]))
        }
    }

    /// The edges that leave the first `n` nodes, by source and then by target.
    pub open spec fn edges_upto(self, n: nat) -> Seq<(usize, usize, EL)>
        decreases n,
    {
        if n == 0 || n > self.node_seq().len() {
            Seq::empty()
        } else {
            let src = self.node_seq()[n - 1];
            self.edges_upto((n - 1) as nat) + self.edges_from(
                src,
                self.successor_seq(src).len(),
            )
        }
    }

    /// Every edge whose source is a node, by source and then by target.
    pub open spec fn edge_seq(self) -> Seq<(usize, usize, EL)> {
        self.edges_upto(self.node_seq().len())
    }
}

/// The keys of `m` in increasing order.
pub fn sorted_keys<V>(m: &BTreeMap<usize, V>) -> (r: Vec<usize>)
    ensures
        r@ == ascending(m@.dom()),
{
    let mut out: Vec<usize> = Vec::new();
    let entries = m.iter();
    let ghost all = entries.remaining();
    let ghost ks = all.map_values(|kv: (&usize, &V)| *kv.0);
    assert forall|i: int, j: int| 0 <= i < j < ks.len() implies ks[i] < ks[j] by {
        assert(ks[i].cmp_spec(&ks[j]) is Less);
    }
    for kv in it: entries
        invariant
            out@.len() == it.index(),
            it.seq() == all,
            forall|i: int| 0 <= i < out@.len() ==> out@[i] == *it.seq()[i].0,
    {
        out.push(*kv.0);
    }
    proof {
        assert(out@ =~= ks);
        assert forall|k: usize| m@.dom().contains(k) implies out@.to_set().contains(k) by {
            let p = (&k, &m@[k]);
            assert(all.contains(p));
            let i = choose|i: int| 0 <= i < all.len() && all[i] == p;
            assert(out@[i] == k);
        }
        assert(out@.to_set() =~= m@.dom());
        assert(increasing(out@));
        lemma_ascending_of(out@);
    }
    out
}

/// A directed graph. Nodes are identified by `usize` and carry a payload of type `NL`; an
/// edge is an ordered pair of identifiers and carries a payload of type `EL`. The entry
/// node is the first node that was added.
#[derive(Debug)]
pub struct DiGraph<NL, EL> {
    nodes: BTreeMap<usize, NL>,
    edges: BTreeMap<usize, BTreeMap<usize, EL>>,
    start: Option<usize>,
}

impl<NL, EL> DiGraph<NL, EL> {
    /// No node is kept among the edges without an edge.
    #[verifier::type_invariant]
    spec fn no_empty_entry(self) -> bool {
        forall|u: usize| #[trigger]
            self.edges@.contains_key(u) ==> self.edges@[u]@.dom() != Set::<usize>::empty()
    }
}

impl<NL, EL> View for DiGraph<NL, EL> {
    type V = GraphView<NL, EL>;

    closed spec fn view(&self) -> GraphView<NL, EL> {
        GraphView {
            nodes: self.nodes@,
            edges: Map::new(|u: usize| self.edges@.contains_key(u), |u: usize| self.edges@[u]@),
            start: self.start,
        }
    }
}

impl DiGraph<EmptyPayload, EmptyPayload> {
    /// An empty graph without payloads.
    pub fn empty() -> (g: Self)
        ensures
            g@ == GraphView::<EmptyPayload, EmptyPayload>::empty(),
    {
        Self::new()
    }
}

impl<NL, EL> DiGraph<NL, EL> {
    fn insert_new_node(&mut self, payload: NL, id: usize) -> (r: usize)
        ensures
            r == id,
            final(self)@ == old(self)@.with_node(id, payload),
            final(self)@.tidy(),
    {
        proof {
            use_type_invariant(&*self);
        }
        // the map is changed outside the graph, which keeps its invariant wherever a call
        // might unwind
        let mut nodes = BTreeMap::new();
        core::mem::swap(&mut self.nodes, &mut nodes);
        nodes.insert(id, payload);
        core::mem::swap(&mut self.nodes, &mut nodes);
        if self.start.is_none() {
            self.start = Some(id);
        }
        assert(self@.edges =~= old(self)@.edges);
        proof {
            use_type_invariant(&*self);
        }
        id
    }

    /// An empty graph.
    pub fn new() -> (g: Self)
        ensures
            g@ == GraphView::<NL, EL>::empty(),
    {
        let g = Self { nodes: BTreeMap::new(), edges: BTreeMap::new(), start: None };
        assert(g@.edges =~= Map::empty());
        g
    }

    /// Adds a node, or replaces the payload of the node `id`; the edges stay. The first node
    /// added becomes the entry node. Returns the identifier.
    pub fn add_node(&mut self, id: usize, payload: NL) -> (r: Option<usize>)
        ensures
            r == Some(id),
            final(self)@ == old(self)@.with_node(id, payload),
            final(self)@.tidy(),
    {
        Some(self.insert_new_node(payload, id))
    }

    /// Removes a node and returns its payload, if it was there. Its edges stay, and so does
    /// the entry node.
    pub fn remove_node(&mut self, id: &usize) -> (r: Option<NL>)
        ensures
            final(self)@.nodes == old(self)@.nodes.remove(*id),
            final(self)@.edges == old(self)@.edges,
            final(self)@.start == old(self)@.start,
            final(self)@.tidy(),
            r == (if old(self)@.nodes.contains_key(*id) {
                Some(old(self)@.nodes[*id])
            } else {
                None
            }),
    {
        proof {
            use_type_invariant(&*self);
        }
        let mut nodes = BTreeMap::new();
        core::mem::swap(&mut self.nodes, &mut nodes);
        let r = nodes.remove(id);
        core::mem::swap(&mut self.nodes, &mut nodes);
        assert(self@.edges =~= old(self)@.edges);
        proof {
            use_type_invariant(&*self);
        }
        r
    }

    /// Sets the payload of the edge from `from` to `to` and returns the one it had before.
    pub fn add_edge(&mut self, from: usize, to: usize, payload: EL) -> (prev: Option<EL>)
        ensures
            final(self)@ == old(self)@.with_edge(from, to, payload),
            final(self)@.tidy(),
            prev == (if old(self)@.has_edge(from, to) {
                Some(old(self)@.edges[from][to])
            } else {
                None
            }),
    {
        proof {
            use_type_invariant(&*self);
        }
        let mut edges = BTreeMap::new();
        core::mem::swap(&mut self.edges, &mut edges);
        let mut inner = match edges.remove(&from) {
            Some(m) => m,
            None => BTreeMap::new(),
        };
        let prev = inner.insert(to, payload);
        assert(inner@.dom() != Set::<usize>::empty()) by {
            assert(inner@.dom().contains(to));
        }
        edges.insert(from, inner);
        core::mem::swap(&mut self.edges, &mut edges);
        assert(self@.edges =~= old(self)@.with_edge(from, to, payload).edges);
        proof {
            use_type_invariant(&*self);
        }
        prev
    }

    /// Takes out the edge from `from` to `to` and returns its payload, if it was there. A
    /// node that is left without an edge has no entry among the edges any more.
    pub fn remove_edge(&mut self, from: &usize, to: &usize) -> (prev: Option<EL>)
        ensures
            final(self)@ == old(self)@.without_edge(*from, *to),
            final(self)@.tidy(),
            prev == (if old(self)@.has_edge(*from, *to) {
                Some(old(self)@.edges[*from][*to])
            } else {
                None
            }),
    {
        let ghost goal = old(self)@.without_edge(*from, *to);
        proof {
            use_type_invariant(&*self);
        }
        let mut edges = BTreeMap::new();
        core::mem::swap(&mut self.edges, &mut edges);
        let prev = match edges.remove(from) {
            Some(inner) => {
                let mut inner = inner;
                let prev = inner.remove(to);
                if !inner.is_empty() {
                    assert(inner@.dom() != Set::<usize>::empty()) by {
                        if inner@.dom() == Set::<usize>::empty() {
                            assert(inner@.dom() =~= Set::<usize>::empty());
                        }
                    }
                    edges.insert(*from, inner);
                } else {
                    assert(inner@.dom() =~= Set::<usize>::empty());
                }
                prev
            },
            None => None,
        };
        core::mem::swap(&mut self.edges, &mut edges);
        assert(self@.edges =~= goal.edges);
        proof {
            use_type_invariant(&*self);
        }
        prev
    }

    /// The targets of the edges that leave `from`, with their payloads; `None` where no edge
    /// leaves `from`.
    pub fn successors(&self, from: &usize) -> (r: Option<&BTreeMap<usize, EL>>)
        ensures
            match r {
                Some(m) => self@.edges.contains_key(*from) && m@ == self@.edges[*from],
                None => !self@.edges.contains_key(*from),
            },
            r is None <==> self@.successors(*from) =~= Set::empty(),
            self@.tidy(),
    {
        proof {
            use_type_invariant(self);
        }
        self.edges.get(from)
    }

    /// The successors of `from`, in increasing order.
    pub fn successor_ids(&self, from: &usize) -> (r: Vec<usize>)
        ensures
            r@ == self@.successor_seq(*from),
    {
        match self.edges.get(from) {
            Some(m) => sorted_keys(m),
            None => {
                let r = Vec::new();
                proof {
                    assert(increasing(r@));
                    lemma_ascending_of(r@);
                    assert(r@.to_set() =~= Set::empty());
                    assert(self@.successors(*from) =~= Set::empty());
                }
                r
            },
        }
    }

    /// The nodes, in increasing order of identifier.
    pub fn node_ids(&self) -> (r: Vec<usize>)
        ensures
            r@ == self@.node_seq(),
    {
        sorted_keys(&self.nodes)
    }

    /// The entry node: the first node that was added, if any.
    pub fn start(&self) -> (r: &Option<usize>)
        ensures
            *r == self@.start,
    {
        &self.start
    }

    /// The analyzer of this graph.
    pub fn analyze(&self) -> (a: GraphAnalyzer<'_, NL, EL>)
        ensures
            a.graph@ == self@,
    {
        GraphAnalyzer { graph: self }
    }

    /// The payload of the edge from `from` to `to`, if there is one.
    pub fn edge(&self, from: &usize, to: &usize) -> (r: Option<&EL>)
        ensures
            match r {
                Some(e) => self@.has_edge(*from, *to) && *e == self@.edges[*from][*to],
                None => !self@.has_edge(*from, *to),
            },
    {
        match self.edges.get(from) {
            Some(tos) => tos.get(to),
            None => None,
        }
    }

    /// The node `id` with its payload, if it is in the graph.
    pub fn node_by_id(&self, id: &usize) -> (r: Option<(usize, &NL)>)
        ensures
            match r {
                Some((i, nl)) => i == *id && self@.nodes.contains_key(*id) && *nl
                    == self@.nodes[*id],
                None => !self@.nodes.contains_key(*id),
            },
    {
        match self.nodes.get(id) {
            Some(nl) => Some((*id, nl)),
            None => None,
        }
    }

    /// Every edge whose source is a node of the graph, by source and then by target.
    pub fn edges(&self) -> (r: Vec<Edge<'_, EL>>)
        ensures
            edge_triples(r@) == self@.edge_seq(),
    {
        let mut edges: Vec<Edge<'_, EL>> = Vec::new();
        let ids = sorted_keys(&self.nodes);
        let mut i: usize = 0;
        while i < ids.len()
            invariant
                i <= ids.len(),
                ids@ == self@.node_seq(),
                edge_triples(edges@) == self@.edges_upto(i as nat),
            decreases ids.len() - i,
        {
            let src = ids[i];
            let ghost before = edges@;
            match self.edges.get(&src) {
                Some(ss) => {
                    let targets = sorted_keys(ss);
                    let mut j: usize = 0;
                    while j < targets.len()
                        invariant
                            j <= targets.len(),
                            targets@ == self@.successor_seq(src),
                            self@.edges.contains_key(src),
                            ss@ == self@.edges[src],
                            edge_triples(edges@) == edge_triples(before) + self@.edges_from(
                                src,
                                j as nat,
                            ),
                        decreases targets.len() - j,
                    {
                        let trg = targets[j];
                        proof {
                            crate::order::lemma_ascending(self@.successors(src));
                            assert(targets@.contains(trg));
                        }
                        match ss.get(&trg) {
                            Some(el) => {
                                let ghost prior = edges@;
                                edges.push(Edge::new(src, trg, el));
                                assert(edge_triples(edges@) =~= edge_triples(prior).push(
                                    (src, trg, *el),
                                ));
                                assert(self@.edges_from(src, (j + 1) as nat)
                                    == self@.edges_from(src, j as nat).push((src, trg, *el)));
                                assert(edge_triples(edges@) =~= edge_triples(before)
                                    + self@.edges_from(src, (j + 1) as nat));
                            },
                            None => {
                                assert(false);
                            },
                        }
                        j += 1;
                    }
                },
                None => {
                    proof {
                        assert(self@.successors(src) =~= Set::empty());
                        lemma_ascending_of(Seq::<usize>::empty());
                        assert(Seq::<usize>::empty().to_set() =~= Set::empty());
                        assert(edge_triples(edges@) =~= edge_triples(before) + self@.edges_from(
                            src,
                            0,
                        ));
                    }
                },
            }
            i += 1;
        }
        edges
    }

    /// The number of successors of each node that has any, in increasing order of node.
    pub fn out_degrees(&self) -> (r: Vec<usize>)
        ensures
            r@ == self@.out_degrees(),
            self@.tidy(),
            forall|i: int| 0 <= i < r@.len() ==> r@[i] > 0,
    {
        let sources = sorted_keys(&self.edges);
        let mut out: Vec<usize> = Vec::new();
        let mut i: usize = 0;
        proof {
            use_type_invariant(self);
            assert(self@.edges.dom() =~= self.edges@.dom());
            crate::order::lemma_ascending(self@.edges.dom());
        }
        while i < sources.len()
            invariant
                i <= sources.len(),
                sources@ == self@.sources(),
                forall|k: int| 0 <= k < sources@.len() ==> self.edges@.contains_key(#[trigger] sources@[k]),
                out@.len() == i,
                forall|k: int| 0 <= k < i ==> out@[k] == self@.out_degrees()[k] && out@[k] > 0,
                self@.tidy(),
            decreases sources.len() - i,
        {
            let id = sources[i];
            match self.edges.get(&id) {
                Some(targets) => {
                    proof {
                        assert(self@.edges.contains_key(id));
                        assert(targets@.dom() != Set::<usize>::empty());
                        if targets@.dom().len() == 0 {
                            assert(targets@.dom() =~= Set::<usize>::empty());
                        }
                    }
                    out.push(targets.len());
                },
                None => {
                    assert(false);
                },
            }
            i += 1;
        }
        assert(out@ =~= self@.out_degrees());
        out
    }

    /// The nodes of a graph in memory can be counted in a `usize`.
    pub proof fn lemma_fits(&self)
        ensures
            self@.fits(),
    {
        assert(self.nodes.len() == self.nodes@.len());
    }

    /// The number of nodes.
    pub fn node_count(&self) -> (n: usize)
        ensures
            n == self@.nodes.dom().len(),
    {
        self.nodes.len()
    }

    /// `id` is a node of the graph.
    pub fn has_node(&self, id: &usize) -> (r: bool)
        ensures
            r == self@.nodes.contains_key(*id),
    {
        self.nodes.contains_key(id)
    }
}

impl<NL: Default, EL> DiGraph<NL, EL> {
    /// Adds the node `id` with the default payload.
    pub fn add_bare_node(&mut self, id: usize) -> (r: Option<usize>)
        ensures
            r == Some(id),
            final(self)@.nodes.dom() == old(self)@.nodes.dom().insert(id),
            forall|k: usize| k != id && old(self)@.nodes.contains_key(k) ==> final(self)@.nodes[k]
                == old(self)@.nodes[k],
            final(self)@ == old(self)@.with_node(id, final(self)@.nodes[id]),
            final(self)@.tidy(),
            call_ensures(NL::default, (), final(self)@.nodes[id]),
    {
        let r = self.add_node(id, NL::default());
        proof {
            assert(self@.nodes.dom() =~= old(self)@.nodes.dom().insert(id));
        }
        r
    }
}

impl<NL, EL: Default> DiGraph<NL, EL> {
    /// Sets the edge from `from` to `to` to the default payload and returns the payload it
    /// had before.
    pub fn add_bare_edge(&mut self, from: usize, to: usize) -> (prev: Option<EL>)
        ensures
            final(self)@.has_edge(from, to),
            final(self)@ == old(self)@.with_edge(from, to, final(self)@.edges[from][to]),
            final(self)@.tidy(),
            call_ensures(EL::default, (), final(self)@.edges[from][to]),
            prev == (if old(self)@.has_edge(from, to) {
                Some(old(self)@.edges[from][to])
            } else {
                None
            }),
    {
        self.add_edge(from, to, EL::default())
    }
}

} // verus!
