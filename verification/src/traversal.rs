//! What the depth-first and the breadth-first traversal compute, and what holds of it.
//!
//! Both traversals keep a set of visited nodes and a line of nodes that wait to be emitted.
//! A step takes one node off the line (the last for depth-first, the first for
//! breadth-first) and visits its successors in increasing order: each one that was not
//! visited before is marked and joins the end of the line.
use crate::graph::GraphView;
use crate::order::lemma_ascending;
use vstd::prelude::*;

verus! {

/// The identifiers that are not in `visited`.
pub open spec fn unvisited(visited: Set<usize>) -> Set<usize> {
    Set::<usize>::full().difference(visited)
}

/// Marking one more node leaves one node less unvisited.
pub proof fn lemma_unvisited_insert(visited: Set<usize>, s: usize)
    requires
        !visited.contains(s),
    ensures
        unvisited(visited).finite(),
        unvisited(visited.insert(s)).len() + 1 == unvisited(visited).len(),
{
    <usize as vstd::set_lib::FiniteFull>::full_properties();
    assert(unvisited(visited).contains(s));
    assert(unvisited(visited.insert(s)) =~= unvisited(visited).remove(s));
}

/// The elements of a sequence with one more element.
pub proof fn lemma_push_to_set(s: Seq<usize>, x: usize)
    ensures
        s.push(x).to_set() == s.to_set().insert(x),
{
    assert forall|v: usize| s.push(x).to_set().contains(v) <==> s.to_set().insert(x).contains(
        v,
    ) by {
        if s.push(x).contains(v) {
            let i = choose|i: int| 0 <= i < s.push(x).len() && s.push(x)[i] == v;
            if i < s.len() {
                assert(s[i] == v);
            }
        }
        if s.contains(v) {
            let i = choose|i: int| 0 <= i < s.len() && s[i] == v;
            assert(s.push(x)[i] == v);
        }
        if v == x {
            assert(s.push(x)[s.len() as int] == x);
        }
    }
    assert(s.push(x).to_set() =~= s.to_set().insert(x));
}

/// The state of a traversal: the nodes visited so far, and those of them that wait to be
/// emitted, in the order in which they were first visited.
pub struct Frontier {
    pub visited: Set<usize>,
    pub line: Seq<usize>,
}

impl Frontier {
    /// Bounds the number of steps that are left.
    pub open spec fn weight(self) -> nat {
        unvisited(self.visited).len() + self.line.len()
    }

    /// The state after `s` was visited: a node that is visited for the first time joins the
    /// line.
    pub open spec fn touch(self, s: usize) -> Frontier {
        if self.visited.contains(s) {
            self
        } else {
            Frontier { visited: self.visited.insert(s), line: self.line.push(s) }
        }
    }

    /// The state after the first `n` nodes of `succs` were visited in turn.
    pub open spec fn enqueue(self, succs: Seq<usize>, n: nat) -> Frontier
        decreases n,
    {
        if n == 0 || n > succs.len() {
            self
        } else {
            self.enqueue(succs, (n - 1) as nat).touch(succs[n - 1])
        }
    }

    /// The node that the next step emits: the first of the line if `fifo`, else the last.
    pub open spec fn head(self, fifo: bool) -> usize {
        if fifo {
            self.line.first()
        } else {
            self.line.last()
        }
    }

    /// The line without the node that the next step emits.
    pub open spec fn tail(self, fifo: bool) -> Seq<usize> {
        if fifo {
            self.line.drop_first()
        } else {
            self.line.drop_last()
        }
    }

    /// What `enqueue` does to the visited nodes, to the line and to the weight.
    pub proof fn lemma_enqueue(self, succs: Seq<usize>, n: nat)
        requires
            n <= succs.len(),
        ensures
            self.enqueue(succs, n).visited == self.visited.union(succs.take(n as int).to_set()),
            self.line.len() <= self.enqueue(succs, n).line.len(),
            forall|k: int|
                0 <= k < self.line.len() ==> self.enqueue(succs, n).line[k] == self.line[k],
            forall|k: int|
                self.line.len() <= k < self.enqueue(succs, n).line.len() ==> {
                    &&& !self.visited.contains(#[trigger] self.enqueue(succs, n).line[k])
                    &&& succs.take(n as int).contains(self.enqueue(succs, n).line[k])
                },
            forall|k1: int, k2: int|
                self.line.len() <= k1 < k2 < self.enqueue(succs, n).line.len() ==> self.enqueue(
                    succs,
                    n,
                ).line[k1] != self.enqueue(succs, n).line[k2],
            forall|x: usize|
                succs.take(n as int).contains(x) && !self.visited.contains(x) ==> exists|k: int|
                    self.line.len() <= k < self.enqueue(succs, n).line.len() && #[trigger] self.enqueue(
                        succs,
                        n,
                    ).line[k] == x,
            self.enqueue(succs, n).weight() == self.weight(),
        decreases n,
    {
        let after = self.enqueue(succs, n);
        if n == 0 {
            assert(succs.take(0).to_set() =~= Set::empty());
            assert(after.visited =~= self.visited.union(succs.take(0).to_set()));
        } else {
            let m = (n - 1) as nat;
            let before = self.enqueue(succs, m);
            self.lemma_enqueue(succs, m);
            let s = succs[n - 1];
            assert(after == before.touch(s));
            assert(succs.take(n as int) =~= succs.take(m as int).push(s));
            lemma_push_to_set(succs.take(m as int), s);
            assert(succs.take(n as int)[n - 1] == s);
            assert forall|x: usize| succs.take(m as int).contains(x) implies succs.take(
                n as int,
            ).contains(x) by {
                let i = choose|i: int| 0 <= i < m && succs.take(m as int)[i] == x;
                assert(succs.take(n as int)[i] == x);
            }
            assert(after.visited =~= self.visited.union(succs.take(n as int).to_set()));
            if before.visited.contains(s) {
                assert forall|k: int| self.line.len() <= k < after.line.len() implies succs.take(
                    n as int,
                ).contains(#[trigger] after.line[k]) by {
                    assert(succs.take(m as int).contains(before.line[k]));
                }
                assert forall|x: usize|
                    succs.take(n as int).contains(x) && !self.visited.contains(
                        x,
                    ) implies exists|k: int|
                    self.line.len() <= k < after.line.len() && #[trigger] after.line[k] == x by {
                    if succs.take(m as int).contains(x) {
                    } else {
                        assert(x == s);
                        assert(succs.take(m as int).to_set().contains(s));
                    }
                }
            } else {
                lemma_unvisited_insert(before.visited, s);
                assert(!succs.take(m as int).to_set().contains(s));
                assert forall|k: int| self.line.len() <= k < after.line.len() implies {
                    &&& !self.visited.contains(#[trigger] after.line[k])
                    &&& succs.take(n as int).contains(after.line[k])
                } by {
                    if k < before.line.len() {
                        assert(succs.take(m as int).contains(before.line[k]));
                    }
                }
                assert forall|k1: int, k2: int|
                    self.line.len() <= k1 < k2 < after.line.len() implies after.line[k1]
                    != after.line[k2] by {
                    if k2 == before.line.len() {
                        assert(succs.take(m as int).contains(before.line[k1]));
                        assert(succs.take(m as int).to_set().contains(before.line[k1]));
                    }
                }
                assert forall|x: usize|
                    succs.take(n as int).contains(x) && !self.visited.contains(
                        x,
                    ) implies exists|k: int|
                    self.line.len() <= k < after.line.len() && #[trigger] after.line[k] == x by {
                    if succs.take(m as int).contains(x) {
                        let k = choose|k: int|
                            self.line.len() <= k < before.line.len() && #[trigger] before.line[k]
                                == x;
                        assert(after.line[k] == x);
                    } else {
                        assert(after.line[before.line.len() as int] == x);
                    }
                }
            }
        }
    }
}

/// The state in which a traversal of `g` starts: the entry node is visited and waits alone
/// on the line. Without an entry node there is nothing to do.
pub open spec fn first_frontier<NL, EL>(g: GraphView<NL, EL>) -> Frontier {
    match g.start {
        Some(s) => Frontier { visited: Set::empty().insert(s), line: seq![s] },
        None => Frontier { visited: Set::empty(), line: Seq::empty() },
    }
}

/// The state after one step: the head leaves the line and its successors are visited in
/// increasing order. An empty line stays as it is.
pub open spec fn advance<NL, EL>(g: GraphView<NL, EL>, st: Frontier, fifo: bool) -> Frontier {
    if st.line.len() == 0 {
        st
    } else {
        let succs = g.successor_seq(st.head(fifo));
        Frontier { visited: st.visited, line: st.tail(fifo) }.enqueue(succs, succs.len())
    }
}

/// Each step takes one off the weight.
pub proof fn lemma_advance_weight<NL, EL>(g: GraphView<NL, EL>, st: Frontier, fifo: bool)
    requires
        st.line.len() > 0,
    ensures
        advance(g, st, fifo).weight() + 1 == st.weight(),
{
    let succs = g.successor_seq(st.head(fifo));
    Frontier { visited: st.visited, line: st.tail(fifo) }.lemma_enqueue(succs, succs.len());
}

/// The nodes that a traversal emits from the state `st` on, as a caller sees them who stops
/// at the first node that is not in the graph.
pub open spec fn remaining_order<NL, EL>(g: GraphView<NL, EL>, st: Frontier, fifo: bool) -> Seq<
    usize,
>
    decreases st.weight(),
{
    if st.line.len() == 0 {
        Seq::empty()
    } else if !g.nodes.contains_key(st.head(fifo)) {
        Seq::empty()
    } else {
        proof {
            lemma_advance_weight(g, st, fifo);
        }
        seq![st.head(fifo)] + remaining_order(g, advance(g, st, fifo), fifo)
    }
}

/// The nodes of `g` in depth-first order from the entry node.
pub open spec fn depth_first_order<NL, EL>(g: GraphView<NL, EL>) -> Seq<usize> {
    remaining_order(g, first_frontier(g), false)
}

/// The nodes of `g` in breadth-first order from the entry node.
pub open spec fn breadth_first_order<NL, EL>(g: GraphView<NL, EL>) -> Seq<usize> {
    remaining_order(g, first_frontier(g), true)
}

/// What holds of the state of a traversal of `g` at every step.
pub open spec fn frontier_inv<NL, EL>(g: GraphView<NL, EL>, st: Frontier) -> bool {
    &&& st.line.no_duplicates()
    &&& forall|i: int| 0 <= i < st.line.len() ==> st.visited.contains(#[trigger] st.line[i])
    &&& forall|v: usize| #[trigger] st.visited.contains(v) ==> g.reachable_set().contains(v)
    &&& forall|u: usize, v: usize|
        st.visited.contains(u) && !st.line.contains(u) && #[trigger] g.has_edge(u, v)
            ==> st.visited.contains(v)
    &&& g.start matches Some(s) ==> st.visited.contains(s)
}

/// The nodes that are still to be emitted: those on the line, and those that the entry node
/// reaches and that were not visited yet.
pub open spec fn pending<NL, EL>(g: GraphView<NL, EL>, st: Frontier) -> Set<usize> {
    st.line.to_set().union(g.reachable_set().difference(st.visited))
}

proof fn lemma_tail(st: Frontier, fifo: bool)
    requires
        st.line.len() > 0,
        st.line.no_duplicates(),
    ensures
        st.tail(fifo).no_duplicates(),
        st.line.contains(st.head(fifo)),
        !st.tail(fifo).contains(st.head(fifo)),
        forall|x: usize| #[trigger]
            st.tail(fifo).contains(x) <==> st.line.contains(x) && x != st.head(fifo),
        forall|x: usize| #[trigger]
            st.line.contains(x) ==> x == st.head(fifo) || st.tail(fifo).contains(x),
{
    let t = st.tail(fifo);
    let h = st.head(fifo);
    if fifo {
        assert(st.line[0] == h);
        assert forall|x: usize| #[trigger] t.contains(x) <==> st.line.contains(x) && x != h by {
            if t.contains(x) {
                let i = choose|i: int| 0 <= i < t.len() && t[i] == x;
                assert(st.line[i + 1] == x);
            }
            if st.line.contains(x) && x != h {
                let i = choose|i: int| 0 <= i < st.line.len() && st.line[i] == x;
                assert(t[i - 1] == x);
            }
        }
    } else {
        assert(st.line[st.line.len() - 1] == h);
        assert forall|x: usize| #[trigger] t.contains(x) <==> st.line.contains(x) && x != h by {
            if t.contains(x) {
                let i = choose|i: int| 0 <= i < t.len() && t[i] == x;
                assert(st.line[i] == x);
            }
            if st.line.contains(x) && x != h {
                let i = choose|i: int| 0 <= i < st.line.len() && st.line[i] == x;
                assert(t[i] == x);
            }
        }
    }
}

/// A step keeps what holds at every step, and takes exactly the head out of the nodes that
/// are still to be emitted.
pub proof fn lemma_advance<NL, EL>(g: GraphView<NL, EL>, st: Frontier, fifo: bool)
    requires
        frontier_inv(g, st),
        st.line.len() > 0,
    ensures
        frontier_inv(g, advance(g, st, fifo)),
        pending(g, st).contains(st.head(fifo)),
        pending(g, advance(g, st, fifo)) == pending(g, st).remove(st.head(fifo)),
{
    let h = st.head(fifo);
    let t = st.tail(fifo);
    let succs = g.successor_seq(h);
    let base = Frontier { visited: st.visited, line: t };
    let after = advance(g, st, fifo);
    let start = g.start->0;
    lemma_tail(st, fifo);
    lemma_ascending(g.successors(h));
    base.lemma_enqueue(succs, succs.len());
    assert(succs.take(succs.len() as int) =~= succs);
    assert(after == base.enqueue(succs, succs.len()));
    assert(st.visited.contains(h)) by {
        let i = choose|i: int| 0 <= i < st.line.len() && st.line[i] == h;
        assert(st.visited.contains(st.line[i]));
    }
    assert(g.reachable_set().contains(h));
    assert(g.start is Some);
    assert forall|v: usize| #[trigger] after.visited.contains(v) implies g.reachable_set().contains(
        v,
    ) by {
        if !st.visited.contains(v) {
            assert(succs.contains(v));
            assert(g.has_edge(h, v));
            g.lemma_reachable_step(start, h, v);
        }
    }
    assert forall|i: int| 0 <= i < after.line.len() implies after.visited.contains(
        #[trigger] after.line[i],
    ) by {
        if i < t.len() {
            assert(t.contains(t[i]));
            assert(st.line.contains(t[i]));
            let j = choose|j: int| 0 <= j < st.line.len() && st.line[j] == t[i];
            assert(st.visited.contains(st.line[j]));
        } else {
            assert(succs.contains(after.line[i]));
            assert(succs.to_set().contains(after.line[i]));
        }
    }
    assert(after.line.no_duplicates()) by {
        assert forall|i: int, j: int|
            0 <= i < after.line.len() && 0 <= j < after.line.len() && i != j implies after.line[i]
            != after.line[j] by {
            let (a, b) = if i < j {
                (i, j)
            } else {
                (j, i)
            };
            if b < t.len() {
                assert(t[a] != t[b]);
            } else if a < t.len() {
                assert(!st.visited.contains(after.line[b]));
                assert(t.contains(t[a]));
                assert(st.line.contains(t[a]));
                let k = choose|k: int| 0 <= k < st.line.len() && st.line[k] == t[a];
                assert(st.visited.contains(st.line[k]));
            } else {
                assert(after.line[a] != after.line[b]);
            }
        }
    }
    assert forall|u: usize, v: usize|
        after.visited.contains(u) && !after.line.contains(u) && #[trigger] g.has_edge(
            u,
            v,
        ) implies after.visited.contains(v) by {
        if u == h {
            assert(succs.contains(v));
            assert(succs.to_set().contains(v));
        } else if st.visited.contains(u) {
            if st.line.contains(u) {
                assert(t.contains(u));
                let k = choose|k: int| 0 <= k < t.len() && t[k] == u;
                assert(after.line[k] == u);
            }
            assert(st.visited.contains(v));
        } else {
            assert(succs.to_set().contains(u));
            assert(succs.contains(u));
            let k = choose|k: int| t.len() <= k < after.line.len() && #[trigger] after.line[k] == u;
            assert(after.line.contains(u));
        }
    }
    assert(pending(g, st).contains(h)) by {
        assert(st.line.to_set().contains(h));
    }
    assert forall|x: usize| pending(g, after).contains(x) <==> pending(g, st).remove(h).contains(
        x,
    ) by {
        if after.line.contains(x) {
            let k = choose|k: int| 0 <= k < after.line.len() && after.line[k] == x;
            if k < t.len() {
                assert(t[k] == x);
            } else {
                assert(!st.visited.contains(after.line[k]));
                assert(after.visited.contains(after.line[k]));
                assert(g.reachable_set().contains(x));
            }
        }
        if st.line.contains(x) && x != h {
            assert(t.contains(x));
            let k = choose|k: int| 0 <= k < t.len() && t[k] == x;
            assert(after.line[k] == x);
        }
        if g.reachable_set().contains(x) && !st.visited.contains(x) && after.visited.contains(
            x,
        ) {
            assert(succs.to_set().contains(x));
            assert(succs.contains(x));
            let k = choose|k: int| t.len() <= k < after.line.len() && #[trigger] after.line[k] == x;
            assert(after.line.contains(x));
        }
    }
    assert(pending(g, after) =~= pending(g, st).remove(h));
}

/// From a state of a traversal on, every node that is still to be emitted is emitted exactly
/// once, and no other node.
pub proof fn lemma_remaining_order<NL, EL>(g: GraphView<NL, EL>, st: Frontier, fifo: bool)
    requires
        g.entry_closed(),
        frontier_inv(g, st),
    ensures
        remaining_order(g, st, fifo).no_duplicates(),
        remaining_order(g, st, fifo).to_set() == pending(g, st),
    decreases st.weight(),
{
    let order = remaining_order(g, st, fifo);
    if st.line.len() == 0 {
        assert(order.to_set() =~= Set::empty());
        assert forall|x: usize| !pending(g, st).contains(x) by {
            if g.reachable_set().contains(x) {
                let s = g.start->0;
                assert(g.closed_under_edges(st.visited)) by {
                    assert forall|u: usize, v: usize|
                        st.visited.contains(u) && #[trigger] g.has_edge(
                            u,
                            v,
                        ) implies st.visited.contains(v) by {
                        assert(!st.line.contains(u));
                    }
                }
                g.lemma_closed_holds_reachable(st.visited, s, x);
            }
        }
        assert(pending(g, st) =~= Set::empty());
    } else {
        let h = st.head(fifo);
        let next = advance(g, st, fifo);
        lemma_advance(g, st, fifo);
        lemma_advance_weight(g, st, fifo);
        lemma_tail(st, fifo);
        assert(st.visited.contains(h)) by {
            let i = choose|i: int| 0 <= i < st.line.len() && st.line[i] == h;
            assert(st.visited.contains(st.line[i]));
        }
        assert(g.reachable_set().contains(h));
        assert(g.nodes.contains_key(h));
        lemma_remaining_order(g, next, fifo);
        let rest = remaining_order(g, next, fifo);
        assert(order == seq![h] + rest);
        assert(!rest.contains(h)) by {
            if rest.contains(h) {
                assert(rest.to_set().contains(h));
            }
        }
        assert forall|i: int, j: int|
            0 <= i < order.len() && 0 <= j < order.len() && i != j implies order[i]
            != order[j] by {
            if i == 0 {
                assert(rest[j - 1] == order[j]);
                assert(rest.contains(order[j]));
            } else if j == 0 {
                assert(rest[i - 1] == order[i]);
                assert(rest.contains(order[i]));
            } else {
                assert(rest[i - 1] != rest[j - 1]);
            }
        }
        assert forall|x: usize| order.to_set().contains(x) <==> pending(g, st).contains(x) by {
            if order.contains(x) {
                let i = choose|i: int| 0 <= i < order.len() && order[i] == x;
                if i > 0 {
                    assert(rest[i - 1] == x);
                    assert(rest.to_set().contains(x));
                }
            }
            if pending(g, st).contains(x) {
                if x == h {
                    assert(order[0] == x);
                } else {
                    assert(rest.to_set().contains(x));
                    let i = choose|i: int| 0 <= i < rest.len() && rest[i] == x;
                    assert(order[i + 1] == x);
                }
            }
        }
        assert(order.to_set() =~= pending(g, st));
    }
}

/// A traversal starts in a state of which the invariant holds, and with every node that
/// the entry node reaches still to be emitted.
pub proof fn lemma_first_frontier<NL, EL>(g: GraphView<NL, EL>)
    ensures
        frontier_inv(g, first_frontier(g)),
        pending(g, first_frontier(g)) == g.reachable_set(),
{
    let st = first_frontier(g);
    match g.start {
        Some(s) => {
            g.lemma_reachable_refl(s);
            assert(st.line[0] == s);
            assert forall|u: usize| st.visited.contains(u) implies st.line.contains(u) by {
                assert(st.line[0] == u);
            }
            assert(pending(g, st) =~= g.reachable_set()) by {
                assert(st.line.to_set() =~= Set::empty().insert(s));
            }
        },
        None => {
            assert(st.line.to_set() =~= Set::empty());
            assert(pending(g, st) =~= g.reachable_set());
        },
    }
}

/// The depth-first order holds every node that the entry node reaches exactly once, and no
/// other node, provided that all those nodes are in the graph.
pub proof fn lemma_depth_first_visits_reachable<NL, EL>(g: GraphView<NL, EL>)
    requires
        g.entry_closed(),
    ensures
        depth_first_order(g).no_duplicates(),
        depth_first_order(g).to_set() == g.reachable_set(),
{
    lemma_first_frontier(g);
    lemma_remaining_order(g, first_frontier(g), false);
}

/// The breadth-first order holds every node that the entry node reaches exactly once, and no
/// other node, provided that all those nodes are in the graph.
pub proof fn lemma_breadth_first_visits_reachable<NL, EL>(g: GraphView<NL, EL>)
    requires
        g.entry_closed(),
    ensures
        breadth_first_order(g).no_duplicates(),
        breadth_first_order(g).to_set() == g.reachable_set(),
{
    lemma_first_frontier(g);
    lemma_remaining_order(g, first_frontier(g), true);
}

} // verus!
