//! Paths and reachability in a graph.
use crate::graph::GraphView;
use vstd::prelude::*;

verus! {

impl<NL, EL> GraphView<NL, EL> {
    /// `p` is a path: a non-empty sequence of nodes, each joined to the next by an edge.
    pub open spec fn is_path(self, p: Seq<usize>) -> bool {
        &&& p.len() > 0
        &&& forall|i: int| 0 <= i < p.len() - 1 ==> self.has_edge(#[trigger] p[i], p[i + 1])
    }

    /// Some path leads from `from` to `to`. Every node reaches itself.
    pub open spec fn reachable(self, from: usize, to: usize) -> bool {
        exists|p: Seq<usize>| #[trigger] self.is_path(p) && p[0] == from && p.last() == to
    }

    /// The nodes that the entry node reaches: empty where there is no entry node.
    pub open spec fn reachable_set(self) -> Set<usize> {
        match self.start {
            Some(s) => Set::new(|v: usize| self.reachable(s, v)),
            None => Set::empty(),
        }
    }

    /// Every edge that leaves a node of `s` leads into `s`.
    pub open spec fn closed_under_edges(self, s: Set<usize>) -> bool {
        forall|u: usize, v: usize| s.contains(u) && #[trigger] self.has_edge(u, v) ==> s.contains(v)
    }

    /// Every node that the entry node reaches, the entry node included, is a node of the
    /// graph: no edge on the way dangles, and the entry node was not removed.
    pub open spec fn entry_closed(self) -> bool {
        forall|v: usize| #[trigger] self.reachable_set().contains(v) ==> self.nodes.contains_key(v)
    }

    /// Every node reaches itself.
    pub proof fn lemma_reachable_refl(self, u: usize)
        ensures
            self.reachable(u, u),
    {
        let p = seq![u];
        assert(self.is_path(p) && p[0] == u && p.last() == u);
    }

    /// A path extended by an edge is a path.
    pub proof fn lemma_reachable_step(self, a: usize, b: usize, c: usize)
        requires
            self.reachable(a, b),
            self.has_edge(b, c),
        ensures
            self.reachable(a, c),
    {
        let p = choose|p: Seq<usize>| #[trigger] self.is_path(p) && p[0] == a && p.last() == b;
        let q = p.push(c);
        assert forall|i: int| 0 <= i < q.len() - 1 implies self.has_edge(
            #[trigger] q[i],
            q[i + 1],
        ) by {
            if i < p.len() - 1 {
                assert(self.has_edge(p[i], p[i + 1]));
            }
        }
        assert(self.is_path(q) && q[0] == a && q.last() == c);
    }

    /// Reachability is transitive.
    pub proof fn lemma_reachable_trans(self, a: usize, b: usize, c: usize)
        requires
            self.reachable(a, b),
            self.reachable(b, c),
        ensures
            self.reachable(a, c),
    {
        let p = choose|p: Seq<usize>| #[trigger] self.is_path(p) && p[0] == a && p.last() == b;
        let q = choose|q: Seq<usize>| #[trigger] self.is_path(q) && q[0] == b && q.last() == c;
        let r = p + q.drop_first();
        assert forall|i: int| 0 <= i < r.len() - 1 implies self.has_edge(
            #[trigger] r[i],
            r[i + 1],
        ) by {
            if i < p.len() - 1 {
                assert(self.has_edge(p[i], p[i + 1]));
            } else if i == p.len() - 1 {
                assert(self.has_edge(q[0], q[1]));
            } else {
                let k = i - p.len() + 1;
                assert(self.has_edge(q[k], q[k + 1]));
            }
        }
        assert(self.is_path(r) && r[0] == a && r.last() == c);
    }

    /// A set that is closed under the edges holds whatever its members reach.
    pub proof fn lemma_closed_holds_reachable(self, s: Set<usize>, from: usize, to: usize)
        requires
            self.closed_under_edges(s),
            s.contains(from),
            self.reachable(from, to),
        ensures
            s.contains(to),
    {
        let p = choose|p: Seq<usize>| #[trigger] self.is_path(p) && p[0] == from && p.last() == to;
        self.lemma_path_stays_inside(s, p, p.len() - 1);
    }

    proof fn lemma_path_stays_inside(self, s: Set<usize>, p: Seq<usize>, k: int)
        requires
            self.closed_under_edges(s),
            self.is_path(p),
            s.contains(p[0]),
            0 <= k < p.len(),
        ensures
            s.contains(p[k]),
        decreases k,
    {
        if k > 0 {
            self.lemma_path_stays_inside(s, p, k - 1);
            assert(self.has_edge(p[k - 1], p[k - 1 + 1]));
        }
    }
}

} // verus!
