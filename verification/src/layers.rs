//! The breadth-first order goes by the number of edges that it takes to reach a node from
//! the entry node: a node that takes fewer comes before one that takes more.
use crate::graph::GraphView;
use crate::order::lemma_ascending;
use crate::traversal::{
    advance, breadth_first_order, first_frontier, frontier_inv, lemma_advance,
    lemma_advance_weight, lemma_first_frontier, lemma_remaining_order, pending, remaining_order,
    Frontier,
};
use vstd::prelude::*;

verus! {

impl<NL, EL> GraphView<NL, EL> {
    /// A walk along exactly `n` edges leads from `from` to `to`.
    pub open spec fn reach_in(self, from: usize, to: usize, n: nat) -> bool
        decreases n,
    {
        if n == 0 {
            from == to
        } else {
            exists|p: usize| self.reach_in(from, p, (n - 1) as nat) && #[trigger] self.has_edge(p, to)
        }
    }

    /// A walk along at most `n` edges leads from the entry node to `v`.
    pub open spec fn within(self, v: usize, n: int) -> bool {
        self.start is Some && exists|m: nat| m <= n && #[trigger] self.reach_in(self.start->0, v, m)
    }

    /// A node that is `n` edges from the entry node at most is `n + 1` edges from it at
    /// most.
    pub proof fn lemma_within_more(self, v: usize, n: int)
        requires
            self.within(v, n),
        ensures
            self.within(v, n + 1),
    {
        let m = choose|m: nat| m <= n && #[trigger] self.reach_in(self.start->0, v, m);
        assert(m <= n + 1 && self.reach_in(self.start->0, v, m));
    }

    /// An edge adds one to the number of edges from the entry node at most.
    pub proof fn lemma_within_step(self, u: usize, v: usize, n: int)
        requires
            self.within(u, n),
            self.has_edge(u, v),
        ensures
            self.within(v, n + 1),
    {
        let m = choose|m: nat| m <= n && #[trigger] self.reach_in(self.start->0, u, m);
        assert(self.reach_in(self.start->0, u, ((m + 1) - 1) as nat) && self.has_edge(u, v));
        assert(self.reach_in(self.start->0, v, m + 1));
        assert(m + 1 <= n + 1 && self.reach_in(self.start->0, v, m + 1));
    }

    /// A node that is exactly `n + 1` edges from the entry node has a predecessor that is
    /// `n` edges from it at most.
    pub proof fn lemma_within_last_edge(self, v: usize, n: int) -> (p: usize)
        requires
            self.within(v, n + 1),
            !self.within(v, n),
            n >= 0,
        ensures
            self.within(p, n),
            self.has_edge(p, v),
    {
        let m = choose|m: nat| m <= n + 1 && #[trigger] self.reach_in(self.start->0, v, m);
        if m <= n {
            assert(m <= n && self.reach_in(self.start->0, v, m));
        }
        assert(m == n + 1);
        let p = choose|p: usize|
            self.reach_in(self.start->0, p, (m - 1) as nat) && #[trigger] self.has_edge(p, v);
        assert((m - 1) as nat <= n && self.reach_in(self.start->0, p, (m - 1) as nat));
        p
    }
}

/// No node of `order` takes more edges from the entry node than a node that comes after it.
pub open spec fn layered<NL, EL>(g: GraphView<NL, EL>, order: Seq<usize>) -> bool {
    forall|i: int, j: int, n: int|
        0 <= i < j < order.len() && #[trigger] g.within(order[j], n) ==> #[trigger] g.within(
            order[i],
            n,
        )
}

/// What holds of the line of a breadth-first traversal whose first node is exactly `k`
/// edges from the entry node: the nodes of the line are `k` or `k + 1` edges from it, none
/// more than a node behind it; every node that is `k` edges from the entry node at most was
/// visited; and every node that was visited and has left the line is `k` edges from it at
/// most.
pub open spec fn line_inv<NL, EL>(g: GraphView<NL, EL>, st: Frontier, k: int) -> bool {
    &&& k >= 0
    &&& st.line.len() > 0
    &&& g.within(st.line[0], k)
    &&& forall|i: int|
        0 <= i < st.line.len() ==> g.within(#[trigger] st.line[i], k + 1) && !g.within(
            st.line[i],
            k - 1,
        )
    &&& forall|i: int, j: int|
        0 <= i < j < st.line.len() && g.within(#[trigger] st.line[j], k) ==> g.within(
            #[trigger] st.line[i],
            k,
        )
    &&& forall|v: usize| #[trigger] g.within(v, k) ==> st.visited.contains(v)
    &&& forall|v: usize|
        #[trigger] st.visited.contains(v) && !st.line.contains(v) ==> g.within(v, k)
}

/// The first node of the line takes no more edges from the entry node than any node that
/// is still to be emitted.
proof fn lemma_head_is_nearest<NL, EL>(g: GraphView<NL, EL>, st: Frontier, k: int, w: usize, n: int)
    requires
        line_inv(g, st, k),
        pending(g, st).contains(w),
        g.within(w, n),
    ensures
        g.within(st.line[0], n),
{
    let u = st.line[0];
    if n >= k {
        lemma_within_upto(g, u, k, n);
    } else {
        // `w` is fewer than `k` edges from the entry node: it was visited and has left the
        // line, or it is in the line
        lemma_within_upto(g, w, n, k - 1);
        assert(g.within(w, k - 1));
        g.lemma_within_more(w, k - 1);
        assert(st.visited.contains(w));
        if st.line.contains(w) {
            let i = choose|i: int| 0 <= i < st.line.len() && st.line[i] == w;
            assert(!g.within(st.line[i], k - 1));
        }
        assert(st.line.to_set().contains(w) || g.reachable_set().difference(st.visited).contains(w));
    }
}

/// A node that is `a` edges from the entry node at most is `b` edges from it at most, for
/// any greater `b`.
proof fn lemma_within_upto<NL, EL>(g: GraphView<NL, EL>, v: usize, a: int, b: int)
    requires
        g.within(v, a),
        a <= b,
    ensures
        g.within(v, b),
    decreases b - a,
{
    if a < b {
        g.lemma_within_more(v, a);
        lemma_within_upto(g, v, a + 1, b);
    }
}

/// A step of the breadth-first traversal keeps what holds of its line, with the number of
/// edges of the new first node.
proof fn lemma_line_step<NL, EL>(g: GraphView<NL, EL>, st: Frontier, k: int) -> (k2: int)
    requires
        frontier_inv(g, st),
        line_inv(g, st, k),
        advance(g, st, true).line.len() > 0,
    ensures
        line_inv(g, advance(g, st, true), k2),
{
    let u = st.line[0];
    let t = st.line.drop_first();
    let succs = g.successor_seq(u);
    let base = Frontier { visited: st.visited, line: t };
    let after = advance(g, st, true);
    lemma_ascending(g.successors(u));
    base.lemma_enqueue(succs, succs.len());
    assert(succs.take(succs.len() as int) =~= succs);
    lemma_advance(g, st, true);
    assert(st.line.first() == u);
    assert(after == base.enqueue(succs, succs.len()));
    assert forall|i: int| 0 <= i < t.len() implies after.line[i] == st.line[i + 1] by {
        assert(after.line[i] == t[i]);
    }
    // what is in the line after the step
    assert forall|i: int| 0 <= i < after.line.len() implies g.within(
        #[trigger] after.line[i],
        k + 1,
    ) && !g.within(after.line[i], k - 1) && (i >= t.len() ==> !g.within(after.line[i], k)) by {
        if i < t.len() {
            assert(after.line[i] == st.line[i + 1]);
        } else {
            let f = after.line[i];
            assert(!st.visited.contains(f));
            assert(succs.contains(f));
            assert(g.has_edge(u, f));
            g.lemma_within_step(u, f, k);
            if g.within(f, k - 1) {
                g.lemma_within_more(f, k - 1);
            }
        }
    }
    let head = after.line[0];
    let k2 = if g.within(head, k) {
        k
    } else {
        k + 1
    };
    assert forall|v: usize| #[trigger] after.visited.contains(v) && !after.line.contains(
        v,
    ) implies g.within(v, k) by {
        if st.visited.contains(v) {
            if st.line.contains(v) {
                let i = choose|i: int| 0 <= i < st.line.len() && st.line[i] == v;
                if i > 0 {
                    assert(t[i - 1] == v);
                    assert(after.line[i - 1] == v);
                }
            }
        } else {
            assert(succs.to_set().contains(v));
            assert(succs.contains(v));
            let j = choose|j: int| t.len() <= j < after.line.len() && #[trigger] after.line[j] == v;
            assert(after.line.contains(v));
        }
    }
    if g.within(head, k) {
        assert forall|i: int, j: int|
            0 <= i < j < after.line.len() && g.within(
                #[trigger] after.line[j],
                k,
            ) implies g.within(#[trigger] after.line[i], k) by {
            assert(j < t.len());
            assert(after.line[i] == st.line[i + 1] && after.line[j] == st.line[j + 1]);
        }
        assert(line_inv(g, after, k));
    } else {
        // no node of the line is `k` edges from the entry node at most
        assert forall|i: int| 0 <= i < after.line.len() implies !g.within(
            #[trigger] after.line[i],
            k,
        ) by {
            if 0 < i < t.len() {
                assert(after.line[i] == st.line[i + 1] && after.line[0] == st.line[1]);
            }
        }
        assert forall|v: usize| #[trigger] g.within(v, k + 1) implies after.visited.contains(
            v,
        ) by {
            if !g.within(v, k) {
                let p = g.lemma_within_last_edge(v, k);
                assert(st.visited.contains(p));
                if p == u {
                    assert(succs.contains(v));
                    assert(succs.to_set().contains(v));
                } else {
                    if st.line.contains(p) {
                        let i = choose|i: int| 0 <= i < st.line.len() && st.line[i] == p;
                        assert(after.line[i - 1] == st.line[i]);
                    }
                    assert(!st.line.contains(p));
                    assert(st.visited.contains(v));
                }
            }
        }
        assert forall|v: usize|
            #[trigger] after.visited.contains(v) && !after.line.contains(v) implies g.within(
            v,
            k + 1,
        ) by {
            g.lemma_within_more(v, k);
        }
        assert forall|i: int| 0 <= i < after.line.len() implies g.within(
            #[trigger] after.line[i],
            k + 2,
        ) by {
            g.lemma_within_more(after.line[i], k + 1);
        }
        assert(line_inv(g, after, k + 1));
    }
    k2
}

/// From a state of the breadth-first traversal on, the nodes are emitted by the number of
/// edges that it takes to reach them from the entry node.
proof fn lemma_remaining_layered<NL, EL>(g: GraphView<NL, EL>, st: Frontier, k: int)
    requires
        g.entry_closed(),
        frontier_inv(g, st),
        st.line.len() > 0 ==> line_inv(g, st, k),
    ensures
        layered(g, remaining_order(g, st, true)),
    decreases st.weight(),
{
    let order = remaining_order(g, st, true);
    if st.line.len() > 0 && g.nodes.contains_key(st.head(true)) {
        let u = st.head(true);
        let next = advance(g, st, true);
        lemma_advance(g, st, true);
        lemma_advance_weight(g, st, true);
        lemma_remaining_order(g, next, true);
        let rest = remaining_order(g, next, true);
        if next.line.len() > 0 {
            let k2 = lemma_line_step(g, st, k);
            lemma_remaining_layered(g, next, k2);
        } else {
            lemma_remaining_layered(g, next, k);
        }
        assert(order == seq![u] + rest);
        assert forall|i: int, j: int, n: int|
            0 <= i < j < order.len() && #[trigger] g.within(order[j], n) implies #[trigger] g.within(
            order[i],
            n,
        ) by {
            assert(order[j] == rest[j - 1]);
            if i == 0 {
                assert(rest.to_set().contains(rest[j - 1]));
                assert(pending(g, next).contains(order[j]));
                assert(pending(g, st).contains(order[j]));
                lemma_head_is_nearest(g, st, k, order[j], n);
            } else {
                assert(order[i] == rest[i - 1]);
                assert(g.within(rest[j - 1], n));
            }
        }
    }
}

/// The breadth-first order of a graph goes by the number of edges that it takes to reach a
/// node from the entry node, provided that every node that the entry node reaches is in
/// the graph.
pub proof fn lemma_breadth_first_layered<NL, EL>(g: GraphView<NL, EL>)
    requires
        g.entry_closed(),
    ensures
        layered(g, breadth_first_order(g)),
{
    let st = first_frontier(g);
    lemma_first_frontier(g);
    match g.start {
        Some(s) => {
            assert(g.reach_in(s, s, 0));
            assert(g.within(s, 0));
            assert(st.line[0] == s);
            assert(g.within(s, 1)) by {
                g.lemma_within_more(s, 0);
            }
            assert forall|v: usize| #[trigger] g.within(v, 0) implies st.visited.contains(v) by {
                let m = choose|m: nat| m <= 0 && #[trigger] g.reach_in(s, v, m);
                assert(m == 0);
            }
            assert forall|v: usize|
                #[trigger] st.visited.contains(v) && !st.line.contains(v) implies g.within(
                v,
                0,
            ) by {
                assert(v == s);
            }
            assert(!g.within(s, -1));
            assert(line_inv(g, st, 0));
            lemma_remaining_layered(g, st, 0);
        },
        None => {
            lemma_remaining_layered(g, st, 0);
        },
    }
}

} // verus!
