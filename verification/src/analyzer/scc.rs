//! Strongly connected components by Tarjan's algorithm.
//!
//! Every node that is found gets the next index, and a low link: the smallest index that
//! it is known to reach among the nodes that wait on the stack. A node whose low link is
//! its own index when all its successors were looked at is the root of a component: the
//! nodes from it to the top of the stack leave the stack as one component.
use crate::analyzer::dom::lists_view;
use crate::graph::{DiGraph, GraphView};
use crate::order::lemma_ascending;
use crate::traversal::unvisited;
use std::collections::HashMap;
use vstd::prelude::*;

verus! {

broadcast use vstd::std_specs::hash::group_hash_axioms;

/// What the search knows of a node that it has found.
#[derive(Clone, Copy, Debug)]
pub struct Idx {
    pub low_link: usize,
    pub index: usize,
    pub on_stack: bool,
}

/// The state of the search: what is known of the nodes found so far, the stack of the
/// nodes whose component is still open, the components that were closed, and the index
/// that the next node gets.
pub struct Search {
    pub state: Map<usize, Idx>,
    pub stack: Seq<usize>,
    pub result: Seq<Seq<usize>>,
    pub idx: usize,
}

/// `v` is in one of the components `comps[..n]`.
pub open spec fn member_upto(comps: Seq<Seq<usize>>, n: int, v: usize) -> bool {
    exists|i: int, a: int|
        0 <= i < n && i < comps.len() && 0 <= a < comps[i].len() && #[trigger] comps[i][a] == v
}

/// `v` is in one of the components `comps`.
pub open spec fn member(comps: Seq<Seq<usize>>, v: usize) -> bool {
    member_upto(comps, comps.len() as int, v)
}

impl Search {
    /// The node `v` was found.
    pub open spec fn known(self, v: usize) -> bool {
        self.state.contains_key(v)
    }

    /// The index of the node `v`.
    pub open spec fn index(self, v: usize) -> usize {
        self.state[v].index
    }

    /// The low link of the node `v`.
    pub open spec fn low(self, v: usize) -> usize {
        self.state[v].low_link
    }

    /// The node `v` was found and waits on the stack.
    pub open spec fn waits(self, v: usize) -> bool {
        self.state.contains_key(v) && self.state[v].on_stack
    }

    /// The state in which the search starts.
    pub open spec fn start() -> Search {
        Search { state: Map::empty(), stack: Seq::empty(), result: Seq::empty(), idx: 0 }
    }

    /// The state after the node `x` was found: it gets the next index, which is its low link
    /// too, and goes on top of the stack.
    pub open spec fn push(self, x: usize) -> Search {
        Search {
            state: self.state.insert(
                x,
                Idx { low_link: self.idx, index: self.idx, on_stack: true },
            ),
            stack: self.stack.push(x),
            result: self.result,
            idx: (self.idx + 1) as usize,
        }
    }

    /// The state after the low link of `x` was lowered to `bound`, if that is lower.
    pub open spec fn lower(self, x: usize, bound: usize) -> Search {
        Search {
            state: self.state.insert(
                x,
                Idx {
                    low_link: if self.low(x) <= bound {
                        self.low(x)
                    } else {
                        bound
                    },
                    index: self.index(x),
                    on_stack: self.state[x].on_stack,
                },
            ),
            stack: self.stack,
            result: self.result,
            idx: self.idx,
        }
    }

    /// The state after the nodes from the place `p` of the stack to its top left the stack
    /// as one component, the top first.
    pub open spec fn close(self, p: int) -> Search {
        Search {
            state: Map::new(
                |v: usize| self.state.contains_key(v),
                |v: usize|
                    if self.stack.skip(p).contains(v) {
                        Idx {
                            low_link: self.state[v].low_link,
                            index: self.state[v].index,
                            on_stack: false,
                        }
                    } else {
                        self.state[v]
                    },
            ),
            stack: self.stack.take(p),
            result: self.result.push(self.stack.skip(p).reverse()),
            idx: self.idx,
        }
    }
}

impl<NL, EL> GraphView<NL, EL> {
    /// Some node of the graph reaches `v`: the search comes across exactly these nodes.
    pub open spec fn in_scope(self, v: usize) -> bool {
        exists|n: usize| self.nodes.contains_key(n) && #[trigger] self.reachable(n, v)
    }
}

/// The stack holds each waiting node once, in increasing order of index.
#[verifier::opaque]
pub open spec fn stack_ok(s: Search) -> bool {
    &&& s.stack.no_duplicates()
    &&& forall|v: usize| #[trigger] s.stack.contains(v) <==> s.waits(v)
    &&& forall|i: int, j: int|
        0 <= i < j < s.stack.len() ==> s.index(#[trigger] s.stack[i]) < s.index(
            #[trigger] s.stack[j],
        )
}

/// The indices are given out in turn, no two nodes share one, and no low link is above the
/// index of its node.
#[verifier::opaque]
pub open spec fn index_ok(s: Search) -> bool {
    &&& s.state.dom().finite()
    &&& s.idx == s.state.dom().len()
    &&& forall|v: usize| #[trigger] s.known(v) ==> s.index(v) < s.idx && s.low(v) <= s.index(v)
    &&& forall|u: usize, v: usize|
        #![trigger s.known(u), s.known(v)]
        s.known(u) && s.known(v) && s.index(u) == s.index(v) ==> u == v
}

/// The components are not empty, no node is in them twice, and they hold exactly the nodes
/// that were found and do not wait on the stack.
#[verifier::opaque]
pub open spec fn result_ok(s: Search) -> bool {
    &&& forall|i: int| 0 <= i < s.result.len() ==> (#[trigger] s.result[i]).len() > 0
    &&& forall|i: int, a: int, j: int, b: int|
        0 <= i < s.result.len() && 0 <= a < s.result[i].len() && 0 <= j < s.result.len() && 0
            <= b < s.result[j].len() && #[trigger] s.result[i][a] == #[trigger] s.result[j][b]
            ==> i == j && a == b
    &&& forall|v: usize| #[trigger] member(s.result, v) <==> s.known(v) && !s.waits(v)
}

/// An edge from a node of a component leads into that component or into one that was
/// closed before it.
#[verifier::opaque]
pub open spec fn sink_first<NL, EL>(g: GraphView<NL, EL>, comps: Seq<Seq<usize>>) -> bool {
    forall|i: int, a: int, w: usize|
        0 <= i < comps.len() && 0 <= a < comps[i].len() && #[trigger] g.has_edge(comps[i][a], w)
            ==> member_upto(comps, i + 1, w)
}

/// Each node of a component reaches every node of it.
#[verifier::opaque]
pub open spec fn connected<NL, EL>(g: GraphView<NL, EL>, comps: Seq<Seq<usize>>) -> bool {
    forall|i: int, a: int, b: int|
        0 <= i < comps.len() && 0 <= a < comps[i].len() && 0 <= b < comps[i].len()
            ==> g.reachable(#[trigger] comps[i][a], #[trigger] comps[i][b])
}

/// Every node that was found is one that some node of the graph reaches.
#[verifier::opaque]
pub open spec fn scope_ok<NL, EL>(g: GraphView<NL, EL>, s: Search) -> bool {
    forall|v: usize| #[trigger] s.known(v) ==> g.in_scope(v)
}

/// A node on the stack reaches every node above it.
#[verifier::opaque]
pub open spec fn stack_reach<NL, EL>(g: GraphView<NL, EL>, s: Search) -> bool {
    forall|x: usize, y: usize|
        #![trigger s.waits(x), s.waits(y)]
        s.waits(x) && s.waits(y) && s.index(x) <= s.index(y) ==> g.reachable(x, y)
}

/// The node `y` reaches a node on the stack whose index is the low link of `y`.
pub open spec fn low_witness<NL, EL>(g: GraphView<NL, EL>, s: Search, y: usize) -> bool {
    exists|z: usize| #[trigger] s.waits(z) && s.index(z) == s.low(y) && g.reachable(y, z)
}

/// The low link of a node on the stack is the index of a node on the stack that it reaches.
#[verifier::opaque]
pub open spec fn low_reach<NL, EL>(g: GraphView<NL, EL>, s: Search) -> bool {
    forall|y: usize| s.waits(y) ==> #[trigger] low_witness(g, s, y)
}

/// What holds of the state of the search at every step.
pub open spec fn search_ok<NL, EL>(g: GraphView<NL, EL>, s: Search) -> bool {
    &&& stack_ok(s)
    &&& index_ok(s)
    &&& result_ok(s)
    &&& sink_first(g, s.result)
    &&& connected(g, s.result)
    &&& scope_ok(g, s)
    &&& stack_reach(g, s)
    &&& low_reach(g, s)
}

/// The state `t` comes after the state `s`: what was known of a node is still known, the
/// stack and the components of `s` are the lower part of those of `t`, and what `t` has
/// more on the stack was not found in `s`.
#[verifier::opaque]
pub open spec fn extends(s: Search, t: Search) -> bool {
    &&& forall|v: usize| #[trigger] s.known(v) ==> t.known(v) && t.state[v] == s.state[v]
    &&& forall|v: usize| #[trigger] t.known(v) && !s.known(v) ==> t.index(v) >= s.idx
    &&& s.idx <= t.idx
    &&& s.stack.len() <= t.stack.len()
    &&& t.stack.take(s.stack.len() as int) == s.stack
    &&& s.result.len() <= t.result.len()
    &&& t.result.take(s.result.len() as int) == s.result
}

/// The visit of the node `x` may start in the state `s`: `x` is new, some node of the graph
/// reaches it, and so does every node on the stack.
pub open spec fn may_visit<NL, EL>(g: GraphView<NL, EL>, s: Search, x: usize) -> bool {
    &&& search_ok(g, s)
    &&& !s.known(x)
    &&& g.in_scope(x)
    &&& forall|v: usize| s.waits(v) ==> #[trigger] g.reachable(v, x)
}

/// The visit of the node `x`, which started in the state `before`, has looked at the first
/// `k` successors of `x` and is in the state `s`.
#[verifier::opaque]
pub open spec fn visiting<NL, EL>(
    g: GraphView<NL, EL>,
    before: Search,
    s: Search,
    x: usize,
    k: int,
) -> bool {
    let succs = g.successor_seq(x);
    let me = before.idx;
    &&& extends(before, s)
    &&& !before.known(x)
    &&& s.waits(x)
    &&& s.index(x) == me
    &&& s.stack.len() > before.stack.len()
    &&& s.stack[before.stack.len() as int] == x
    &&& 0 <= k <= succs.len()
    &&& forall|y: usize, w: usize|
        s.waits(y) && s.index(y) > me && #[trigger] g.has_edge(y, w) ==> s.known(w) && (s.waits(w)
            ==> s.low(x) <= s.index(w))
    &&& forall|j: int|
        0 <= j < k ==> s.known(#[trigger] succs[j]) && (s.waits(succs[j]) ==> s.low(x) <= s.index(
            succs[j],
        ))
    &&& forall|v: usize| s.waits(v) ==> #[trigger] g.reachable(v, x)
}

/// The visit of the node `x`, which started in the state `before`, has ended in the state
/// `s`: every successor of `x` and of the nodes that it left on the stack was found, and
/// those of them that wait on the stack have an index that is no lower than the low link
/// of `x`; the nodes that the visit left on the stack reach `x`; and `x` itself waits on
/// the stack with a low link below its index, or the stack is what it was before.
#[verifier::opaque]
pub open spec fn visited<NL, EL>(g: GraphView<NL, EL>, before: Search, s: Search, x: usize) -> bool {
    let me = before.idx;
    &&& extends(before, s)
    &&& !before.known(x)
    &&& s.known(x)
    &&& s.index(x) == me
    &&& forall|y: usize, w: usize|
        s.waits(y) && s.index(y) >= me && #[trigger] g.has_edge(y, w) ==> s.known(w) && (s.waits(w)
            ==> s.low(x) <= s.index(w))
    &&& forall|y: usize| s.waits(y) && s.index(y) >= me ==> #[trigger] g.reachable(y, x)
    &&& s.waits(x) ==> s.low(x) < me
    &&& !s.waits(x) ==> s.stack == before.stack && s.low(x) == me
}

/// Coming after is transitive.
pub proof fn lemma_extends_trans(a: Search, b: Search, c: Search)
    requires
        extends(a, b),
        extends(b, c),
    ensures
        extends(a, c),
{
    reveal(extends);
    assert(c.stack.take(a.stack.len() as int) =~= b.stack.take(a.stack.len() as int)) by {
        assert forall|i: int| 0 <= i < a.stack.len() implies c.stack[i] == b.stack[i] by {
            assert(c.stack.take(b.stack.len() as int)[i] == b.stack[i]);
        }
    }
    assert(c.result.take(a.result.len() as int) =~= b.result.take(a.result.len() as int)) by {
        assert forall|i: int| 0 <= i < a.result.len() implies c.result[i] == b.result[i] by {
            assert(c.result.take(b.result.len() as int)[i] == b.result[i]);
        }
    }
    assert forall|v: usize| #[trigger] c.known(v) && !a.known(v) implies c.index(v) >= a.idx by {
        if b.known(v) {
            assert(c.state[v] == b.state[v]);
        }
    }
}

/// The places of the stack.
proof fn lemma_stack_places(s: Search)
    requires
        stack_ok(s),
    ensures
        s.stack.no_duplicates(),
        forall|i: int| 0 <= i < s.stack.len() ==> s.waits(#[trigger] s.stack[i]),
        forall|v: usize| #[trigger]
            s.waits(v) ==> s.stack.contains(v) && 0 <= s.stack.index_of(v) < s.stack.len()
                && s.stack[s.stack.index_of(v)] == v,
        forall|i: int, j: int|
            0 <= i < s.stack.len() && 0 <= j < s.stack.len() ==> (i < j <==> s.index(
                #[trigger] s.stack[i],
            ) < s.index(#[trigger] s.stack[j])),
{
    reveal(stack_ok);
    assert forall|i: int| 0 <= i < s.stack.len() implies s.waits(#[trigger] s.stack[i]) by {
        assert(s.stack.contains(s.stack[i]));
    }
    assert forall|i: int, j: int| 0 <= i < s.stack.len() && 0 <= j < s.stack.len() implies (i < j
        <==> s.index(#[trigger] s.stack[i]) < s.index(#[trigger] s.stack[j])) by {
        if i < j {
        } else if j < i {
            assert(s.index(s.stack[j]) < s.index(s.stack[i]));
        }
    }
}

/// The search keeps what holds of it when a new node goes on the stack, and the visit of
/// that node is under way.
pub proof fn lemma_push<NL, EL>(g: GraphView<NL, EL>, s: Search, x: usize)
    requires
        may_visit(g, s, x),
        s.idx < usize::MAX,
    ensures
        search_ok(g, s.push(x)),
        visiting(g, s, s.push(x), x, 0),
{
    let t = s.push(x);
    lemma_stack_places(s);
    assert forall|v: usize| #[trigger] t.waits(v) <==> s.waits(v) || v == x by {}
    assert forall|v: usize| s.known(v) implies t.state[v] == s.state[v] by {}
    assert(index_ok(t)) by {
        reveal(index_ok);
        assert(t.state.dom() =~= s.state.dom().insert(x));
        assert forall|v: usize| #[trigger] t.known(v) implies t.index(v) < t.idx && t.low(v)
            <= t.index(v) by {
            if v != x {
                assert(s.known(v));
            }
        }
        assert forall|u: usize, v: usize|
            #![trigger t.known(u), t.known(v)]
            t.known(u) && t.known(v) && t.index(u) == t.index(v) implies u == v by {
            if u != x && v != x {
                assert(s.known(u) && s.known(v));
            } else if u != x {
                assert(s.known(u));
            } else if v != x {
                assert(s.known(v));
            }
        }
    }
    assert(stack_ok(t)) by {
        reveal(stack_ok);
        reveal(index_ok);
        assert(!s.stack.contains(x));
        assert forall|v: usize| #[trigger] t.stack.contains(v) <==> t.waits(v) by {
            if t.stack.contains(v) {
                let i = choose|i: int| 0 <= i < t.stack.len() && t.stack[i] == v;
                if i < s.stack.len() {
                    assert(s.stack[i] == v);
                    assert(s.stack.contains(v));
                }
            }
            if s.waits(v) {
                let i = s.stack.index_of(v);
                assert(t.stack[i] == v);
            }
            if v == x {
                assert(t.stack[s.stack.len() as int] == x);
            }
        }
        assert forall|i: int, j: int| 0 <= i < j < t.stack.len() implies t.index(
            #[trigger] t.stack[i],
        ) < t.index(#[trigger] t.stack[j]) by {
            assert(s.stack[i] == t.stack[i]);
            assert(s.waits(s.stack[i]));
            assert(s.known(s.stack[i]));
            if j < s.stack.len() {
                assert(s.stack[j] == t.stack[j]);
                assert(s.waits(s.stack[j]));
            }
        }
        assert forall|i: int, j: int|
            0 <= i < t.stack.len() && 0 <= j < t.stack.len() && i != j implies t.stack[i]
            != t.stack[j] by {
            if i < s.stack.len() && j < s.stack.len() {
                assert(s.stack[i] != s.stack[j]);
            } else if i < s.stack.len() {
                assert(s.stack.contains(s.stack[i]));
            } else {
                assert(s.stack.contains(s.stack[j]));
            }
        }
    }
    assert(result_ok(t)) by {
        reveal(result_ok);
        assert forall|v: usize| #[trigger] member(t.result, v) <==> t.known(v) && !t.waits(v) by {
            if member(s.result, v) {
                assert(s.known(v));
            }
        }
    }
    assert(scope_ok(g, t)) by {
        reveal(scope_ok);
        assert forall|v: usize| #[trigger] t.known(v) implies g.in_scope(v) by {
            if v != x {
                assert(s.known(v));
            }
        }
    }
    g.lemma_reachable_refl(x);
    assert(stack_reach(g, t)) by {
        reveal(stack_reach);
        reveal(index_ok);
        assert forall|a: usize, b: usize|
            #![trigger t.waits(a), t.waits(b)]
            t.waits(a) && t.waits(b) && t.index(a) <= t.index(b) implies g.reachable(a, b) by {
            if b == x {
                if a != x {
                    assert(s.waits(a));
                }
            } else if a == x {
                assert(s.known(b));
            } else {
                assert(s.waits(a) && s.waits(b));
            }
        }
    }
    assert(low_reach(g, t)) by {
        reveal(low_reach);
        assert forall|y: usize| t.waits(y) implies #[trigger] low_witness(g, t, y) by {
            if y == x {
                assert(t.waits(x) && t.index(x) == t.low(x) && g.reachable(x, x));
            } else {
                assert(s.waits(y));
                assert(low_witness(g, s, y));
                let z = choose|z: usize|
                    #[trigger] s.waits(z) && s.index(z) == s.low(y) && g.reachable(y, z);
                assert(t.waits(z) && t.index(z) == t.low(y) && g.reachable(y, z));
            }
        }
    }
    assert(visiting(g, s, t, x, 0)) by {
        reveal(visiting);
        reveal(extends);
        reveal(index_ok);
        assert(t.stack.take(s.stack.len() as int) =~= s.stack);
        assert(t.result.take(s.result.len() as int) =~= s.result);
        assert forall|y: usize| t.waits(y) implies t.index(y) <= s.idx by {
            if y != x {
                assert(s.known(y));
            }
        }
        assert forall|v: usize| t.waits(v) implies #[trigger] g.reachable(v, x) by {
            if v != x {
                assert(s.waits(v));
            }
        }
    }
}

/// Lowering the low link of a node on the stack to the index of a node on the stack that it
/// reaches keeps what holds of the search.
pub proof fn lemma_lower<NL, EL>(g: GraphView<NL, EL>, s: Search, x: usize, bound: usize)
    requires
        search_ok(g, s),
        s.waits(x),
        bound < s.low(x) ==> exists|z: usize|
            #[trigger] s.waits(z) && s.index(z) == bound && g.reachable(x, z),
    ensures
        search_ok(g, s.lower(x, bound)),
{
    let t = s.lower(x, bound);
    assert forall|v: usize| #[trigger] t.waits(v) <==> s.waits(v) by {}
    assert forall|v: usize| #[trigger] t.known(v) <==> s.known(v) by {}
    assert forall|v: usize| t.known(v) implies t.index(v) == s.index(v) && t.low(v) <= s.low(v) by {}
    assert(t.state.dom() =~= s.state.dom());
    assert(index_ok(t)) by {
        reveal(index_ok);
        assert forall|v: usize| #[trigger] t.known(v) implies t.index(v) < t.idx && t.low(v)
            <= t.index(v) by {
            assert(s.known(v));
        }
        assert forall|u: usize, v: usize|
            #![trigger t.known(u), t.known(v)]
            t.known(u) && t.known(v) && t.index(u) == t.index(v) implies u == v by {
            assert(s.known(u) && s.known(v));
        }
    }
    assert(stack_ok(t)) by {
        reveal(stack_ok);
        assert forall|v: usize| #[trigger] t.stack.contains(v) <==> t.waits(v) by {
            assert(s.stack.contains(v) <==> s.waits(v));
        }
        assert forall|i: int, j: int| 0 <= i < j < t.stack.len() implies t.index(
            #[trigger] t.stack[i],
        ) < t.index(#[trigger] t.stack[j]) by {
            assert(s.index(s.stack[i]) < s.index(s.stack[j]));
            assert(s.stack.contains(s.stack[i]));
            assert(s.stack.contains(s.stack[j]));
        }
    }
    assert(result_ok(t)) by {
        reveal(result_ok);
        assert forall|v: usize| #[trigger] member(t.result, v) <==> t.known(v) && !t.waits(v) by {
            assert(member(s.result, v) <==> s.known(v) && !s.waits(v));
        }
    }
    assert(scope_ok(g, t)) by {
        reveal(scope_ok);
        assert forall|v: usize| #[trigger] t.known(v) implies g.in_scope(v) by {
            assert(s.known(v));
        }
    }
    assert(stack_reach(g, t)) by {
        reveal(stack_reach);
        assert forall|a: usize, b: usize|
            #![trigger t.waits(a), t.waits(b)]
            t.waits(a) && t.waits(b) && t.index(a) <= t.index(b) implies g.reachable(a, b) by {
            assert(s.waits(a) && s.waits(b));
        }
    }
    assert(low_reach(g, t)) by {
        reveal(low_reach);
        assert forall|y: usize| t.waits(y) implies #[trigger] low_witness(g, t, y) by {
            assert(s.waits(y));
            if y == x && bound < s.low(x) {
                let z = choose|z: usize|
                    #[trigger] s.waits(z) && s.index(z) == bound && g.reachable(x, z);
                assert(t.waits(z) && t.index(z) == t.low(y) && g.reachable(y, z));
            } else {
                assert(low_witness(g, s, y));
                let z = choose|z: usize|
                    #[trigger] s.waits(z) && s.index(z) == s.low(y) && g.reachable(y, z);
                assert(t.waits(z) && t.index(z) == t.low(y) && g.reachable(y, z));
            }
        }
    }
}

/// A visit stays under way when the low link of its node is lowered.
pub proof fn lemma_visiting_lower<NL, EL>(
    g: GraphView<NL, EL>,
    before: Search,
    s: Search,
    x: usize,
    k: int,
    bound: usize,
)
    requires
        visiting(g, before, s, x, k),
    ensures
        visiting(g, before, s.lower(x, bound), x, k),
{
    reveal(visiting);
    reveal(extends);
    let t = s.lower(x, bound);
    let succs = g.successor_seq(x);
    assert forall|v: usize| #[trigger] t.waits(v) <==> s.waits(v) by {}
    assert forall|v: usize| #[trigger] before.known(v) implies t.known(v) && t.state[v]
        == before.state[v] by {
        assert(s.known(v));
    }
    assert forall|v: usize| #[trigger] t.known(v) && !before.known(v) implies t.index(v)
        >= before.idx by {
        assert(s.known(v));
    }
    assert forall|y: usize, w: usize|
        t.waits(y) && t.index(y) > before.idx && #[trigger] g.has_edge(y, w) implies t.known(w)
        && (t.waits(w) ==> t.low(x) <= t.index(w)) by {
        assert(s.waits(y) && s.index(y) > before.idx);
    }
    assert forall|j: int| 0 <= j < k implies t.known(#[trigger] succs[j]) && (t.waits(succs[j])
        ==> t.low(x) <= t.index(succs[j])) by {
        assert(s.known(succs[j]));
    }
    assert forall|v: usize| t.waits(v) implies #[trigger] g.reachable(v, x) by {
        assert(s.waits(v));
    }
}

/// A visit has looked at one more successor, which is known and, if it waits on the stack,
/// has an index that is no lower than the low link of the visited node.
pub proof fn lemma_visiting_next<NL, EL>(
    g: GraphView<NL, EL>,
    before: Search,
    s: Search,
    x: usize,
    k: int,
)
    requires
        visiting(g, before, s, x, k),
        0 <= k < g.successor_seq(x).len(),
        s.known(g.successor_seq(x)[k]),
        s.waits(g.successor_seq(x)[k]) ==> s.low(x) <= s.index(g.successor_seq(x)[k]),
    ensures
        visiting(g, before, s, x, k + 1),
{
    reveal(visiting);
}

/// A successor of the visited node that was not found yet may be visited.
pub proof fn lemma_call<NL, EL>(g: GraphView<NL, EL>, before: Search, s: Search, x: usize, k: int)
    requires
        search_ok(g, s),
        visiting(g, before, s, x, k),
        0 <= k < g.successor_seq(x).len(),
        !s.known(g.successor_seq(x)[k]),
    ensures
        may_visit(g, s, g.successor_seq(x)[k]),
        g.has_edge(x, g.successor_seq(x)[k]),
{
    reveal(visiting);
    reveal(scope_ok);
    let w = g.successor_seq(x)[k];
    lemma_ascending(g.successors(x));
    assert(g.successor_seq(x).contains(w));
    assert(g.has_edge(x, w));
    assert(s.known(x));
    assert(g.in_scope(x));
    let n = choose|n: usize| g.nodes.contains_key(n) && #[trigger] g.reachable(n, x);
    g.lemma_reachable_step(n, x, w);
    assert forall|v: usize| s.waits(v) implies #[trigger] g.reachable(v, w) by {
        assert(g.reachable(v, x));
        g.lemma_reachable_step(v, x, w);
    }
}

/// After the visit of a successor `w` of the visited node `x` has ended, the low link of
/// `x` is lowered to that of `w`: the search keeps what holds of it, and the visit of `x`
/// has looked at one more successor.
pub proof fn lemma_return<NL, EL>(
    g: GraphView<NL, EL>,
    before: Search,
    s: Search,
    c: Search,
    x: usize,
    k: int,
)
    requires
        search_ok(g, s),
        search_ok(g, c),
        visiting(g, before, s, x, k),
        0 <= k < g.successor_seq(x).len(),
        visited(g, s, c, g.successor_seq(x)[k]),
    ensures
        c.waits(x),
        c.known(g.successor_seq(x)[k]),
        search_ok(g, c.lower(x, c.low(g.successor_seq(x)[k]))),
        visiting(g, before, c.lower(x, c.low(g.successor_seq(x)[k])), x, k + 1),
{
    let succs = g.successor_seq(x);
    let w = succs[k];
    let bound = c.low(w);
    let t = c.lower(x, bound);
    let me = before.idx;
    lemma_ascending(g.successors(x));
    assert(succs.contains(w));
    assert(g.has_edge(x, w));
    assert(extends(before, c)) by {
        reveal(visiting);
        reveal(visited);
        lemma_extends_trans(before, s, c);
    }
    // what the visit of `w` left of the state `s`
    assert(s.waits(x) && s.index(x) == me && !before.known(x)) by {
        reveal(visiting);
    }
    assert(c.state[x] == s.state[x] && c.known(x)) by {
        reveal(visited);
        reveal(extends);
        assert(s.known(x));
    }
    assert(c.known(w) && c.index(w) == s.idx) by {
        reveal(visited);
    }
    assert(me < s.idx && s.low(x) <= me) by {
        reveal(index_ok);
        assert(s.known(x));
    }
    assert forall|v: usize| s.known(v) implies c.known(v) && c.state[v] == s.state[v] by {
        reveal(visited);
        reveal(extends);
    }
    assert forall|v: usize| c.known(v) && !s.known(v) implies c.index(v) >= s.idx by {
        reveal(visited);
        reveal(extends);
    }
    // every node on the stack reaches `x`
    assert forall|v: usize| c.waits(v) implies #[trigger] g.reachable(v, x) by {
        if s.known(v) {
            reveal(visiting);
            assert(s.waits(v));
        } else {
            reveal(visited);
            reveal(visiting);
            reveal(low_reach);
            assert(g.reachable(v, w));
            if !c.waits(w) {
                assert(c.stack == s.stack);
                lemma_stack_places(c);
                lemma_stack_places(s);
                assert(c.stack.contains(v));
                assert(s.stack.contains(v));
                assert(s.waits(v));
            }
            assert(low_witness(g, c, w));
            let z = choose|z: usize|
                #[trigger] c.waits(z) && c.index(z) == c.low(w) && g.reachable(w, z);
            assert(s.known(z));
            assert(s.waits(z));
            assert(g.reachable(z, x));
            g.lemma_reachable_trans(w, z, x);
            g.lemma_reachable_trans(v, w, x);
        }
    }
    // the low link of `x` may be lowered
    assert(bound < c.low(x) ==> exists|z: usize|
        #[trigger] c.waits(z) && c.index(z) == bound && g.reachable(x, z)) by {
        if bound < c.low(x) {
            reveal(visited);
            reveal(low_reach);
            assert(c.waits(w));
            assert(low_witness(g, c, w));
            let z = choose|z: usize|
                #[trigger] c.waits(z) && c.index(z) == c.low(w) && g.reachable(w, z);
            g.lemma_reachable_refl(x);
            g.lemma_reachable_step(x, x, w);
            g.lemma_reachable_trans(x, w, z);
            assert(c.waits(z) && c.index(z) == bound && g.reachable(x, z));
        }
    }
    lemma_lower(g, c, x, bound);
    assert forall|v: usize| #[trigger] t.waits(v) <==> c.waits(v) by {}
    assert forall|v: usize| #[trigger] t.known(v) <==> c.known(v) by {}
    assert forall|v: usize| t.known(v) implies t.index(v) == c.index(v) by {}
    assert(t.low(x) <= s.low(x) && t.low(x) <= bound);
    assert(visiting(g, before, t, x, k + 1)) by {
        reveal(visiting);
        reveal(visited);
        reveal(extends);
        reveal(index_ok);
        assert forall|v: usize| #[trigger] before.known(v) implies t.known(v) && t.state[v]
            == before.state[v] by {
            assert(c.known(v) && c.state[v] == before.state[v]);
        }
        assert forall|v: usize| #[trigger] t.known(v) && !before.known(v) implies t.index(v)
            >= before.idx by {
            assert(c.known(v));
        }
        assert(t.stack[before.stack.len() as int] == x) by {
            assert(c.stack.take(s.stack.len() as int)[before.stack.len() as int]
                == s.stack[before.stack.len() as int]);
        }
        assert forall|y: usize, u: usize|
            t.waits(y) && t.index(y) > me && #[trigger] g.has_edge(y, u) implies t.known(u) && (
        t.waits(u) ==> t.low(x) <= t.index(u)) by {
            assert(c.waits(y));
            if s.known(y) {
                assert(s.waits(y) && s.index(y) > me);
                assert(s.known(u));
                if c.waits(u) {
                    assert(s.waits(u));
                }
            } else {
                assert(c.index(y) >= s.idx);
            }
        }
        assert forall|j: int| 0 <= j < k + 1 implies t.known(#[trigger] succs[j]) && (t.waits(
            succs[j],
        ) ==> t.low(x) <= t.index(succs[j])) by {
            if j < k {
                assert(s.known(succs[j]));
                if c.waits(succs[j]) {
                    assert(s.waits(succs[j]));
                }
            } else {
                assert(c.known(w));
                assert(c.low(w) <= c.index(w));
            }
        }
        assert forall|v: usize| t.waits(v) implies #[trigger] g.reachable(v, x) by {
            assert(c.waits(v));
        }
    }
}

/// A visit that has looked at every successor of its node, and leaves the node with a low
/// link that is not its index, has ended.
pub proof fn lemma_keep<NL, EL>(g: GraphView<NL, EL>, before: Search, s: Search, x: usize)
    requires
        search_ok(g, s),
        visiting(g, before, s, x, g.successor_seq(x).len() as int),
        s.low(x) != s.index(x),
    ensures
        visited(g, before, s, x),
{
    reveal(visiting);
    reveal(visited);
    reveal(index_ok);
    let succs = g.successor_seq(x);
    lemma_ascending(g.successors(x));
    assert(s.known(x));
    assert forall|y: usize, w: usize|
        s.waits(y) && s.index(y) >= before.idx && #[trigger] g.has_edge(y, w) implies s.known(w)
        && (s.waits(w) ==> s.low(x) <= s.index(w)) by {
        if s.index(y) == before.idx {
            assert(s.known(y));
            assert(y == x);
            assert(succs.contains(w));
            let j = choose|j: int| 0 <= j < succs.len() && succs[j] == w;
            assert(s.known(succs[j]));
        }
    }
}

/// A visit that has looked at every successor of its node, and finds the low link of the
/// node to be its index, closes a component: the nodes from that node to the top of the
/// stack. The search keeps what holds of it, and the visit has ended.
pub proof fn lemma_close<NL, EL>(g: GraphView<NL, EL>, before: Search, s: Search, x: usize)
    requires
        search_ok(g, before),
        search_ok(g, s),
        visiting(g, before, s, x, g.successor_seq(x).len() as int),
        s.low(x) == s.index(x),
    ensures
        search_ok(g, s.close(before.stack.len() as int)),
        visited(g, before, s.close(before.stack.len() as int), x),
{
    let p = before.stack.len() as int;
    let t = s.close(p);
    let me = before.idx;
    let succs = g.successor_seq(x);
    let top = s.stack.skip(p);
    let comp = top.reverse();
    let old = s.result.len() as int;
    lemma_ascending(g.successors(x));
    lemma_stack_places(s);
    assert(extends(before, s) && s.waits(x) && s.index(x) == me && s.stack.len() > p && s.stack[p]
        == x && !before.known(x)) by {
        reveal(visiting);
    }
    assert forall|i: int| 0 <= i < s.stack.len() implies (i >= p <==> s.index(
        #[trigger] s.stack[i],
    ) >= me) by {
        if i > p {
            assert(s.index(s.stack[p]) < s.index(s.stack[i]));
        } else if i < p {
            assert(s.index(s.stack[i]) < s.index(s.stack[p]));
        }
    }
    assert forall|v: usize| #[trigger] top.contains(v) <==> s.waits(v) && s.index(v) >= me by {
        if top.contains(v) {
            let m = choose|m: int| 0 <= m < top.len() && top[m] == v;
            assert(s.stack[p + m] == v);
        }
        if s.waits(v) && s.index(v) >= me {
            let i = s.stack.index_of(v);
            assert(s.stack[i] == v);
            assert(i >= p);
            assert(top[i - p] == v);
        }
    }
    assert forall|v: usize| #[trigger] t.stack.contains(v) <==> s.waits(v) && s.index(v) < me by {
        if t.stack.contains(v) {
            let m = choose|m: int| 0 <= m < t.stack.len() && t.stack[m] == v;
            assert(s.stack[m] == v);
        }
        if s.waits(v) && s.index(v) < me {
            let i = s.stack.index_of(v);
            assert(s.stack[i] == v);
            assert(i < p);
            assert(t.stack[i] == v);
        }
    }
    assert forall|v: usize| #[trigger] t.known(v) <==> s.known(v) by {}
    assert forall|v: usize| s.known(v) implies t.index(v) == s.index(v) && t.low(v) == s.low(v) by {}
    assert forall|v: usize| #[trigger] t.waits(v) <==> s.waits(v) && s.index(v) < me by {
        if s.known(v) {
            assert(top.contains(v) <==> s.waits(v) && s.index(v) >= me);
        }
    }
    assert forall|a: int| 0 <= a < comp.len() implies top.contains(#[trigger] comp[a]) by {
        assert(top[top.len() - 1 - a] == comp[a]);
    }
    assert forall|v: usize| top.contains(v) implies exists|a: int|
        0 <= a < comp.len() && #[trigger] comp[a] == v by {
        let m = choose|m: int| 0 <= m < top.len() && top[m] == v;
        assert(comp[top.len() - 1 - m] == v);
    }
    assert forall|i: int| 0 <= i < old implies t.result[i] == s.result[i] by {}
    assert(t.result[old] == comp);
    assert forall|v: usize, n: int| member_upto(s.result, n, v) implies member_upto(
        t.result,
        n,
        v,
    ) by {
        let (i, a) = choose|i: int, a: int|
            0 <= i < n && i < s.result.len() && 0 <= a < s.result[i].len()
                && #[trigger] s.result[i][a] == v;
        assert(t.result[i][a] == v);
    }
    assert forall|v: usize| top.contains(v) implies member_upto(t.result, old + 1, v) by {
        let a = choose|a: int| 0 <= a < comp.len() && #[trigger] comp[a] == v;
        assert(t.result[old][a] == v);
    }
    assert(t.state.dom() =~= s.state.dom());
    assert(index_ok(t)) by {
        reveal(index_ok);
        assert forall|v: usize| #[trigger] t.known(v) implies t.index(v) < t.idx && t.low(v)
            <= t.index(v) by {
            assert(s.known(v));
        }
        assert forall|u: usize, v: usize|
            #![trigger t.known(u), t.known(v)]
            t.known(u) && t.known(v) && t.index(u) == t.index(v) implies u == v by {
            assert(s.known(u) && s.known(v));
        }
    }
    assert(stack_ok(t)) by {
        reveal(stack_ok);
        assert forall|i: int, j: int|
            0 <= i < t.stack.len() && 0 <= j < t.stack.len() && i != j implies t.stack[i]
            != t.stack[j] by {
            assert(s.stack[i] != s.stack[j]);
        }
        assert forall|i: int, j: int| 0 <= i < j < t.stack.len() implies t.index(
            #[trigger] t.stack[i],
        ) < t.index(#[trigger] t.stack[j]) by {
            assert(s.index(s.stack[i]) < s.index(s.stack[j]));
            assert(s.waits(s.stack[i]) && s.waits(s.stack[j]));
        }
    }
    assert(result_ok(t)) by {
        reveal(result_ok);
        assert forall|i: int| 0 <= i < t.result.len() implies (#[trigger] t.result[i]).len()
            > 0 by {
            if i < old {
                assert(s.result[i].len() > 0);
            }
        }
        assert forall|i: int, a: int, j: int, b: int|
            0 <= i < t.result.len() && 0 <= a < t.result[i].len() && 0 <= j < t.result.len() && 0
                <= b < t.result[j].len() && #[trigger] t.result[i][a]
                == #[trigger] t.result[j][b] implies i == j && a == b by {
            if i < old && j < old {
                assert(s.result[i][a] == s.result[j][b]);
            } else if i < old {
                assert(s.result[i][a] == comp[b]);
                assert(member(s.result, s.result[i][a]));
                assert(top.contains(comp[b]));
            } else if j < old {
                assert(s.result[j][b] == comp[a]);
                assert(member(s.result, s.result[j][b]));
                assert(top.contains(comp[a]));
            } else {
                assert(top[top.len() - 1 - a] == top[top.len() - 1 - b]);
                assert(s.stack[p + top.len() - 1 - a] == s.stack[p + top.len() - 1 - b]);
                reveal(stack_ok);
            }
        }
        assert forall|v: usize| #[trigger] member(t.result, v) <==> t.known(v) && !t.waits(v) by {
            if member(t.result, v) {
                let (i, a) = choose|i: int, a: int|
                    0 <= i < t.result.len() && i < t.result.len() && 0 <= a < t.result[i].len()
                        && #[trigger] t.result[i][a] == v;
                if i < old {
                    assert(s.result[i][a] == v);
                    assert(member(s.result, v));
                } else {
                    assert(top.contains(comp[a]));
                }
            }
            if t.known(v) && !t.waits(v) {
                if s.waits(v) {
                    assert(top.contains(v));
                } else {
                    assert(member(s.result, v));
                }
            }
        }
    }
    assert(sink_first(g, t.result)) by {
        reveal(sink_first);
        reveal(visiting);
        reveal(result_ok);
        reveal(index_ok);
        assert forall|i: int, a: int, w: usize|
            0 <= i < t.result.len() && 0 <= a < t.result[i].len() && #[trigger] g.has_edge(
                t.result[i][a],
                w,
            ) implies member_upto(t.result, i + 1, w) by {
            if i < old {
                assert(g.has_edge(s.result[i][a], w));
                assert(member_upto(s.result, i + 1, w));
            } else {
                let y = comp[a];
                assert(top.contains(y));
                assert(s.waits(y) && s.index(y) >= me);
                assert(s.known(w) && (s.waits(w) ==> s.low(x) <= s.index(w))) by {
                    if s.index(y) == me {
                        assert(s.known(y) && s.known(x));
                        assert(y == x);
                        assert(succs.contains(w));
                        let j = choose|j: int| 0 <= j < succs.len() && succs[j] == w;
                        assert(s.known(succs[j]));
                    }
                }
                if s.waits(w) {
                    assert(top.contains(w));
                } else {
                    assert(member(s.result, w));
                    assert(member_upto(s.result, old, w));
                    assert(member_upto(t.result, old, w));
                    let (i2, a2) = choose|i2: int, a2: int|
                        0 <= i2 < old && i2 < t.result.len() && 0 <= a2 < t.result[i2].len()
                            && #[trigger] t.result[i2][a2] == w;
                    assert(t.result[i2][a2] == w);
                }
            }
        }
    }
    assert(connected(g, t.result)) by {
        reveal(connected);
        reveal(visiting);
        reveal(stack_reach);
        assert forall|i: int, a: int, b: int|
            0 <= i < t.result.len() && 0 <= a < t.result[i].len() && 0 <= b < t.result[i].len()
            implies g.reachable(#[trigger] t.result[i][a], #[trigger] t.result[i][b]) by {
            if i < old {
                assert(g.reachable(s.result[i][a], s.result[i][b]));
            } else {
                assert(top.contains(comp[a]) && top.contains(comp[b]));
                assert(s.waits(comp[a]) && s.waits(comp[b]));
                assert(g.reachable(comp[a], x));
                assert(s.waits(x) && s.waits(comp[b]) && s.index(x) <= s.index(comp[b]));
                assert(g.reachable(x, comp[b]));
                g.lemma_reachable_trans(comp[a], x, comp[b]);
            }
        }
    }
    assert(scope_ok(g, t)) by {
        reveal(scope_ok);
        assert forall|v: usize| #[trigger] t.known(v) implies g.in_scope(v) by {
            assert(s.known(v));
        }
    }
    assert(stack_reach(g, t)) by {
        reveal(stack_reach);
        assert forall|a: usize, b: usize|
            #![trigger t.waits(a), t.waits(b)]
            t.waits(a) && t.waits(b) && t.index(a) <= t.index(b) implies g.reachable(a, b) by {
            assert(s.waits(a) && s.waits(b));
        }
    }
    assert(low_reach(g, t)) by {
        reveal(low_reach);
        reveal(index_ok);
        assert forall|y: usize| t.waits(y) implies #[trigger] low_witness(g, t, y) by {
            assert(s.waits(y));
            assert(low_witness(g, s, y));
            let z = choose|z: usize|
                #[trigger] s.waits(z) && s.index(z) == s.low(y) && g.reachable(y, z);
            assert(s.known(y));
            assert(t.waits(z) && t.index(z) == t.low(y) && g.reachable(y, z));
        }
    }
    assert(visited(g, before, t, x)) by {
        reveal(visited);
        reveal(extends);
        reveal(index_ok);
        assert(t.stack =~= before.stack);
        assert(t.result.take(before.result.len() as int) =~= before.result) by {
            assert forall|i: int| 0 <= i < before.result.len() implies t.result[i]
                == before.result[i] by {
                assert(s.result.take(before.result.len() as int)[i] == before.result[i]);
            }
        }
        assert forall|v: usize| #[trigger] before.known(v) implies t.known(v) && t.state[v]
            == before.state[v] by {
            assert(s.known(v) && s.state[v] == before.state[v]);
            assert(before.index(v) < me);
            assert(!top.contains(v));
        }
        assert forall|v: usize| #[trigger] t.known(v) && !before.known(v) implies t.index(v)
            >= before.idx by {
            assert(s.known(v));
        }
        assert(s.known(x));
        assert(t.stack.take(before.stack.len() as int) =~= before.stack);
        assert(extends(before, t));
        assert(t.known(x) && t.index(x) == me);
        assert(!t.waits(x));
        assert(t.low(x) == me);
        assert forall|y: usize, w: usize|
            t.waits(y) && t.index(y) >= me && #[trigger] g.has_edge(y, w) implies t.known(w) && (
        t.waits(w) ==> t.low(x) <= t.index(w)) by {
            assert(s.known(y));
        }
        assert forall|y: usize| t.waits(y) && t.index(y) >= me implies #[trigger] g.reachable(
            y,
            x,
        ) by {
            assert(s.known(y));
        }
    }
}

/// `comps` are the strongly connected components of the part of `g` that its nodes reach,
/// sinks first: no component is empty; every node that some node of the graph reaches is
/// in exactly one place; two nodes are in the same component if and only if each reaches
/// the other; and an edge from a node of a component leads into that component or into
/// one that comes before it.
pub open spec fn is_scc_list<NL, EL>(g: GraphView<NL, EL>, comps: Seq<Seq<usize>>) -> bool {
    &&& forall|i: int| 0 <= i < comps.len() ==> (#[trigger] comps[i]).len() > 0
    &&& forall|i: int, a: int, j: int, b: int|
        0 <= i < comps.len() && 0 <= a < comps[i].len() && 0 <= j < comps.len() && 0 <= b
            < comps[j].len() && #[trigger] comps[i][a] == #[trigger] comps[j][b] ==> i == j && a
            == b
    &&& forall|v: usize| #[trigger] member(comps, v) <==> g.in_scope(v)
    &&& forall|i: int, a: int, j: int, b: int|
        0 <= i < comps.len() && 0 <= a < comps[i].len() && 0 <= j < comps.len() && 0 <= b
            < comps[j].len() ==> (i == j <==> g.reachable(
            #[trigger] comps[i][a],
            #[trigger] comps[j][b],
        ) && g.reachable(comps[j][b], comps[i][a]))
    &&& forall|i: int, a: int, w: usize|
        0 <= i < comps.len() && 0 <= a < comps[i].len() && #[trigger] g.has_edge(comps[i][a], w)
            ==> member_upto(comps, i + 1, w)
}

/// The first `n` components hold whatever their nodes reach.
proof fn lemma_sinks_closed<NL, EL>(
    g: GraphView<NL, EL>,
    comps: Seq<Seq<usize>>,
    n: int,
    from: usize,
    to: usize,
)
    requires
        sink_first(g, comps),
        member_upto(comps, n, from),
        g.reachable(from, to),
    ensures
        member_upto(comps, n, to),
{
    reveal(sink_first);
    let inside = Set::new(|v: usize| member_upto(comps, n, v));
    assert(g.closed_under_edges(inside)) by {
        assert forall|u: usize, v: usize| inside.contains(u) && #[trigger] g.has_edge(
            u,
            v,
        ) implies inside.contains(v) by {
            let (i, a) = choose|i: int, a: int|
                0 <= i < n && i < comps.len() && 0 <= a < comps[i].len() && #[trigger] comps[i][a]
                    == u;
            assert(g.has_edge(comps[i][a], v));
            assert(member_upto(comps, i + 1, v));
            let (j, b) = choose|j: int, b: int|
                0 <= j < i + 1 && j < comps.len() && 0 <= b < comps[j].len()
                    && #[trigger] comps[j][b] == v;
            assert(comps[j][b] == v);
        }
    }
    g.lemma_closed_holds_reachable(inside, from, to);
}

/// When the stack is empty and every node of the graph was found, the components that were
/// closed are the strongly connected components.
pub proof fn lemma_done<NL, EL>(g: GraphView<NL, EL>, s: Search)
    requires
        search_ok(g, s),
        s.stack.len() == 0,
        forall|n: usize| g.nodes.contains_key(n) ==> s.known(n),
    ensures
        is_scc_list(g, s.result),
{
    let comps = s.result;
    lemma_stack_places(s);
    assert forall|v: usize| !s.waits(v) by {
        if s.waits(v) {
            assert(s.stack.contains(v));
        }
    }
    assert forall|v: usize| #[trigger] member(comps, v) <==> g.in_scope(v) by {
        reveal(result_ok);
        reveal(scope_ok);
        if member(comps, v) {
            assert(s.known(v));
        }
        if g.in_scope(v) {
            let n = choose|n: usize| g.nodes.contains_key(n) && #[trigger] g.reachable(n, v);
            assert(s.known(n));
            assert(member(comps, n));
            lemma_sinks_closed(g, comps, comps.len() as int, n, v);
        }
    }
    assert forall|i: int, a: int, j: int, b: int|
        0 <= i < comps.len() && 0 <= a < comps[i].len() && 0 <= j < comps.len() && 0 <= b
            < comps[j].len() implies (i == j <==> g.reachable(
        #[trigger] comps[i][a],
        #[trigger] comps[j][b],
    ) && g.reachable(comps[j][b], comps[i][a])) by {
        reveal(connected);
        reveal(result_ok);
        if i < j && g.reachable(comps[i][a], comps[j][b]) {
            assert(member_upto(comps, i + 1, comps[i][a]));
            lemma_sinks_closed(g, comps, i + 1, comps[i][a], comps[j][b]);
            let (i2, a2) = choose|i2: int, a2: int|
                0 <= i2 < i + 1 && i2 < comps.len() && 0 <= a2 < comps[i2].len()
                    && #[trigger] comps[i2][a2] == comps[j][b];
            assert(comps[i2][a2] == comps[j][b]);
        }
        if j < i && g.reachable(comps[j][b], comps[i][a]) {
            assert(member_upto(comps, j + 1, comps[j][b]));
            lemma_sinks_closed(g, comps, j + 1, comps[j][b], comps[i][a]);
            let (i2, a2) = choose|i2: int, a2: int|
                0 <= i2 < j + 1 && i2 < comps.len() && 0 <= a2 < comps[i2].len()
                    && #[trigger] comps[i2][a2] == comps[i][a];
            assert(comps[i2][a2] == comps[i][a]);
        }
    }
    assert(is_scc_list(g, comps)) by {
        reveal(result_ok);
        reveal(sink_first);
    }
}

/// A visit that starts with an empty stack ends with an empty stack.
pub proof fn lemma_top_level<NL, EL>(g: GraphView<NL, EL>, before: Search, s: Search, x: usize)
    requires
        search_ok(g, before),
        search_ok(g, s),
        visited(g, before, s, x),
        before.stack.len() == 0,
    ensures
        s.stack.len() == 0,
        forall|v: usize| before.known(v) ==> s.known(v),
        s.known(x),
{
    reveal(visited);
    reveal(extends);
    reveal(low_reach);
    lemma_stack_places(before);
    if s.waits(x) {
        assert(low_witness(g, s, x));
        let z = choose|z: usize|
            #[trigger] s.waits(z) && s.index(z) == s.low(x) && g.reachable(x, z);
        assert(s.known(z));
        assert(before.known(z));
        assert(before.waits(z));
        assert(before.stack.contains(z));
    }
}

/// A visit that is under way: its node, the successors of the node, and the number of
/// successors that were looked at.
struct Frame {
    node: usize,
    succs: Vec<usize>,
    at: usize,
}

/// Bounds the number of steps that the visits under way take before one of them finds a
/// new node.
spec fn work_left(work: Seq<Frame>) -> nat
    decreases work.len(),
{
    if work.len() == 0 {
        0
    } else {
        work_left(work.drop_last()) + (if work.last().at <= work.last().succs@.len() {
            (work.last().succs@.len() - work.last().at) as nat
        } else {
            0
        }) + 1
    }
}

/// The visits `work` are under way one inside the other, each but the last at the
/// successor that the next one visits: `trail` holds the state in which each of them
/// started, which is the state that the visit around it was in, and `s` is the state that
/// the last of them is in.
#[verifier::opaque]
spec fn frames_ok<NL, EL>(
    g: GraphView<NL, EL>,
    work: Seq<Frame>,
    trail: Seq<Search>,
    s: Search,
) -> bool {
    &&& work.len() == trail.len()
    &&& work.len() > 0
    &&& forall|i: int|
        0 <= i < work.len() ==> (#[trigger] work[i]).succs@ == g.successor_seq(work[i].node)
            && work[i].at <= work[i].succs@.len()
    &&& forall|i: int|
        0 <= i < work.len() - 1 ==> {
            &&& search_ok(g, #[trigger] trail[i + 1])
            &&& visiting(g, trail[i], trail[i + 1], work[i].node, work[i].at as int)
            &&& work[i].at < work[i].succs@.len()
            &&& work[i + 1].node == work[i].succs@[work[i].at as int]
        }
    &&& visiting(g, trail.last(), s, work.last().node, work.last().at as int)
}

/// The work that is left with one more visit.
proof fn lemma_work_push(work: Seq<Frame>, f: Frame)
    ensures
        work.push(f).drop_last() == work,
{
    assert(work.push(f).drop_last() =~= work);
}

/// The last visit counts in the work that is left.
proof fn lemma_work_top(work: Seq<Frame>)
    requires
        work.len() > 0,
    ensures
        work_left(work) == work_left(work.drop_last()) + (if work.last().at
            <= work.last().succs@.len() {
            (work.last().succs@.len() - work.last().at) as nat
        } else {
            0
        }) + 1,
{
}

/// A visit that has ended leaves less work.
proof fn lemma_work_pop(work: Seq<Frame>)
    requires
        work.len() > 0,
    ensures
        work_left(work.drop_last()) < work_left(work),
{
}

/// A look at one more successor in the last visit leaves less work.
proof fn lemma_work_step(before: Seq<Frame>, after: Seq<Frame>)
    requires
        before.len() > 0,
        after.len() == before.len(),
        after.drop_last() == before.drop_last(),
        after.last().succs == before.last().succs,
        before.last().at < before.last().succs@.len(),
        after.last().at == before.last().at + 1,
    ensures
        work_left(after) < work_left(before),
{
}

/// The visits stay in order when the last of them has looked at one more successor.
proof fn lemma_frames_step<NL, EL>(
    g: GraphView<NL, EL>,
    before: Seq<Frame>,
    after: Seq<Frame>,
    trail: Seq<Search>,
    s: Search,
    t: Search,
)
    requires
        frames_ok(g, before, trail, s),
        after.len() == before.len(),
        forall|i: int| 0 <= i < before.len() - 1 ==> after[i] == before[i],
        after.last().node == before.last().node,
        after.last().succs == before.last().succs,
        before.last().at < before.last().succs@.len(),
        after.last().at == before.last().at + 1,
        visiting(g, trail.last(), t, after.last().node, after.last().at as int),
    ensures
        frames_ok(g, after, trail, t),
        after.drop_last() == before.drop_last(),
{
    reveal(frames_ok);
    assert(after.drop_last() =~= before.drop_last());
    assert forall|i: int| 0 <= i < after.len() implies (#[trigger] after[i]).succs@
        == g.successor_seq(after[i].node) && after[i].at <= after[i].succs@.len() by {
        if i < before.len() - 1 {
            assert(after[i] == before[i]);
        } else {
            assert(before[i].succs@ == g.successor_seq(before[i].node));
        }
    }
    assert forall|i: int| 0 <= i < after.len() - 1 implies {
        &&& search_ok(g, #[trigger] trail[i + 1])
        &&& visiting(g, trail[i], trail[i + 1], after[i].node, after[i].at as int)
        &&& after[i].at < after[i].succs@.len()
        &&& after[i + 1].node == after[i].succs@[after[i].at as int]
    } by {
        assert(after[i] == before[i]);
        assert(search_ok(g, trail[i + 1]));
        if i + 1 < before.len() - 1 {
            assert(after[i + 1] == before[i + 1]);
        }
    }
}

/// The visits stay in order when the last of them starts the visit of a successor.
proof fn lemma_frames_push<NL, EL>(
    g: GraphView<NL, EL>,
    before: Seq<Frame>,
    after: Seq<Frame>,
    trail: Seq<Search>,
    s: Search,
    t: Search,
)
    requires
        before.len() > 0,
        frames_ok(g, before, trail.drop_last(), s),
        trail.len() == before.len() + 1,
        trail.last() == s,
        search_ok(g, s),
        after.len() == before.len() + 1,
        forall|i: int| 0 <= i < before.len() ==> after[i] == before[i],
        before.last().at < before.last().succs@.len(),
        after.last().node == before.last().succs@[before.last().at as int],
        after.last().succs@ == g.successor_seq(after.last().node),
        after.last().at == 0,
        visiting(g, s, t, after.last().node, 0),
    ensures
        frames_ok(g, after, trail, t),
{
    reveal(frames_ok);
    let old_trail = trail.drop_last();
    assert forall|i: int| 0 <= i < after.len() implies (#[trigger] after[i]).succs@
        == g.successor_seq(after[i].node) && after[i].at <= after[i].succs@.len() by {
        if i < before.len() {
            assert(after[i] == before[i]);
        }
    }
    assert forall|i: int| 0 <= i < after.len() - 1 implies {
        &&& search_ok(g, #[trigger] trail[i + 1])
        &&& visiting(g, trail[i], trail[i + 1], after[i].node, after[i].at as int)
        &&& after[i].at < after[i].succs@.len()
        &&& after[i + 1].node == after[i].succs@[after[i].at as int]
    } by {
        assert(after[i] == before[i]);
        assert(trail[i] == old_trail[i]);
        if i < before.len() - 1 {
            assert(search_ok(g, old_trail[i + 1]));
            assert(trail[i + 1] == old_trail[i + 1]);
            assert(after[i + 1] == before[i + 1]);
        } else {
            assert(old_trail.last() == trail[i]);
        }
    }
}

/// The visits stay in order when the last of them has ended and the one around it has
/// looked at one more successor.
proof fn lemma_frames_return<NL, EL>(
    g: GraphView<NL, EL>,
    before: Seq<Frame>,
    after: Seq<Frame>,
    trail: Seq<Search>,
    t: Search,
)
    requires
        before.len() > 1,
        after.len() == before.len() - 1,
        trail.len() == after.len(),
        forall|i: int| 0 <= i < after.len() - 1 ==> after[i] == before[i],
        after.last().node == before[after.len() - 1].node,
        after.last().succs == before[after.len() - 1].succs,
        after.last().at == before[after.len() - 1].at + 1,
        before[after.len() - 1].at < before[after.len() - 1].succs@.len(),
        before[after.len() - 1].succs@ == g.successor_seq(before[after.len() - 1].node),
        forall|i: int|
            0 <= i < after.len() - 1 ==> {
                &&& search_ok(g, #[trigger] trail[i + 1])
                &&& visiting(g, trail[i], trail[i + 1], before[i].node, before[i].at as int)
                &&& before[i].at < before[i].succs@.len()
                &&& before[i + 1].node == before[i].succs@[before[i].at as int]
                &&& before[i].succs@ == g.successor_seq(before[i].node)
            },
        visiting(g, trail.last(), t, after.last().node, after.last().at as int),
    ensures
        frames_ok(g, after, trail, t),
{
    reveal(frames_ok);
    assert forall|i: int| 0 <= i < after.len() implies (#[trigger] after[i]).succs@
        == g.successor_seq(after[i].node) && after[i].at <= after[i].succs@.len() by {
        if i < after.len() - 1 {
            assert(after[i] == before[i]);
            assert(search_ok(g, trail[i + 1]));
        }
    }
    assert forall|i: int| 0 <= i < after.len() - 1 implies {
        &&& search_ok(g, #[trigger] trail[i + 1])
        &&& visiting(g, trail[i], trail[i + 1], after[i].node, after[i].at as int)
        &&& after[i].at < after[i].succs@.len()
        &&& after[i + 1].node == after[i].succs@[after[i].at as int]
    } by {
        assert(after[i] == before[i]);
        assert(search_ok(g, trail[i + 1]));
        if i + 1 < after.len() - 1 {
            assert(after[i + 1] == before[i + 1]);
        }
    }
}

/// The search for the strongly connected components of a graph.
pub struct TarjanSCC<'a, NL, EL> {
    graph: &'a DiGraph<NL, EL>,
    idx: usize,
    state: HashMap<usize, Idx>,
    stack: Vec<usize>,
    result: Vec<Vec<usize>>,
}

impl<'a, NL, EL> View for TarjanSCC<'a, NL, EL> {
    type V = Search;

    closed spec fn view(&self) -> Search {
        Search {
            state: self.state@,
            stack: self.stack@,
            result: lists_view(self.result),
            idx: self.idx,
        }
    }
}

/// A copy of `lists`.
fn copy_lists(lists: &Vec<Vec<usize>>) -> (r: Vec<Vec<usize>>)
    ensures
        lists_view(r) == lists_view(*lists),
{
    let mut out: Vec<Vec<usize>> = Vec::new();
    let mut i: usize = 0;
    while i < lists.len()
        invariant
            i <= lists.len(),
            out@.len() == i,
            forall|k: int| 0 <= k < i ==> (#[trigger] out@[k])@ == lists@[k]@,
        decreases lists.len() - i,
    {
        let mut one: Vec<usize> = Vec::new();
        let mut j: usize = 0;
        while j < lists[i].len()
            invariant
                i < lists.len(),
                j <= lists@[i as int]@.len(),
                one@ == lists@[i as int]@.take(j as int),
            decreases lists@[i as int]@.len() - j,
        {
            one.push(lists[i][j]);
            assert(one@ =~= lists@[i as int]@.take(j + 1));
            j += 1;
        }
        assert(one@ =~= lists@[i as int]@);
        out.push(one);
        i += 1;
    }
    assert(lists_view(out) =~= lists_view(*lists));
    out
}

impl<'a, NL, EL> TarjanSCC<'a, NL, EL> {
    /// The graph that is searched.
    pub closed spec fn graph(&self) -> GraphView<NL, EL> {
        self.graph@
    }

    /// The search is between two visits: its stack is empty.
    pub open spec fn inv(&self) -> bool {
        search_ok(self.graph(), self@) && self@.stack.len() == 0
    }

    pub fn new(graph: &'a DiGraph<NL, EL>) -> (r: Self)
        ensures
            r.graph() == graph@,
            r@ == Search::start(),
            r.inv(),
    {
        let r = Self {
            graph,
            idx: 0,
            state: HashMap::new(),
            stack: Vec::new(),
            result: Vec::new(),
        };
        proof {
            assert(r@.result =~= Seq::<Seq<usize>>::empty());
            assert(r@.state =~= Map::<usize, Idx>::empty());
            reveal(stack_ok);
            reveal(index_ok);
            reveal(result_ok);
            reveal(sink_first);
            reveal(connected);
            reveal(scope_ok);
            reveal(stack_reach);
            reveal(low_reach);
        }
        r
    }

    /// Visits every node of the graph that was not found yet, in increasing order of
    /// identifier, and returns the strongly connected components, sinks first.
    pub fn process_graph(&mut self) -> (r: Vec<Vec<usize>>)
        requires
            old(self).inv(),
        ensures
            final(self).inv(),
            final(self).graph() == old(self).graph(),
            lists_view(r) == final(self)@.result,
            is_scc_list(old(self).graph(), lists_view(r)),
    {
        let ids = self.graph.node_ids();
        let mut i: usize = 0;
        while i < ids.len()
            invariant
                i <= ids.len(),
                self.inv(),
                self.graph() == old(self).graph(),
                ids@ == self.graph().node_seq(),
                forall|j: int| 0 <= j < i ==> self@.known(#[trigger] ids@[j]),
            decreases ids.len() - i,
        {
            let id = ids[i];
            if !self.state.contains_key(&id) {
                let ghost before = self@;
                proof {
                    lemma_ascending(self.graph().nodes.dom());
                    assert(ids@.contains(id));
                    self.graph().lemma_reachable_refl(id);
                    lemma_stack_places(before);
                    assert forall|v: usize| before.waits(v) implies #[trigger] self.graph().reachable(
                        v,
                        id,
                    ) by {
                        assert(before.stack.contains(v));
                    }
                }
                self.process_node(id);
                proof {
                    lemma_top_level(self.graph(), before, self@, id);
                }
            }
            i += 1;
        }
        proof {
            lemma_ascending(self.graph().nodes.dom());
            assert forall|n: usize| self.graph().nodes.contains_key(n) implies self@.known(n) by {
                assert(ids@.contains(n));
                let j = choose|j: int| 0 <= j < ids@.len() && ids@[j] == n;
                assert(self@.known(ids@[j]));
            }
            lemma_done(self.graph(), self@);
        }
        copy_lists(&self.result)
    }

    /// Visits the node `id`, which was not found yet, and the nodes that it reaches and
    /// that were not found yet; closes the components whose root is among them. The visits
    /// that are under way are kept on a stack of their own, so that a long path in the
    /// graph takes memory and no depth of calls.
    fn process_node(&mut self, id: usize)
        requires
            may_visit(old(self).graph(), old(self)@, id),
        ensures
            final(self).graph() == old(self).graph(),
            search_ok(old(self).graph(), final(self)@),
            visited(old(self).graph(), old(self)@, final(self)@, id),
    {
        let ghost g = self.graph();
        let ghost mut trail: Seq<Search> = seq![self@];
        let mut work: Vec<Frame> = Vec::new();
        self.enter(id);
        let succs = self.graph.successor_ids(&id);
        work.push(Frame { node: id, succs, at: 0 });
        proof {
            lemma_push(g, old(self)@, id);
            assert(frames_ok(g, work@, trail, self@)) by {
                reveal(frames_ok);
            }
        }
        loop
            invariant_except_break
                g == self.graph(),
                g == old(self).graph(),
                search_ok(g, old(self)@),
                work@.len() == trail.len(),
                work@.len() > 0,
                work@[0].node == id,
                trail[0] == old(self)@,
                search_ok(g, self@),
                frames_ok(g, work@, trail, self@),
            ensures
                g == self.graph(),
                search_ok(g, self@),
                visited(g, old(self)@, self@, id),
            decreases unvisited(self@.state.dom()).len(), work_left(work@),
        {
            let top = work.len() - 1;
            let node = work[top].node;
            let ghost s = self@;
            let ghost before = trail[top as int];
            let ghost frames = work@;
            proof {
                reveal(frames_ok);
                lemma_work_top(frames);
                assert(frames[top as int].succs@ == g.successor_seq(node));
                assert(visiting(g, before, s, node, frames[top as int].at as int));
                if top > 0 {
                    let up = top - 1;
                    assert(search_ok(g, trail[up + 1]));
                    assert(visiting(
                        g,
                        trail[up],
                        trail[up + 1],
                        frames[up].node,
                        frames[up].at as int,
                    ));
                    assert(frames[up].at < frames[up].succs@.len());
                    assert(frames[up + 1].node == frames[up].succs@[frames[up].at as int]);
                    assert(frames[up].succs@ == g.successor_seq(frames[up].node));
                }
            }
            let ghost whole = trail;
            if work[top].at < work[top].succs.len() {
                let k = work[top].at;
                let next = work[top].succs[k];
                match self.state.get(&next) {
                    Some(found) => {
                        if found.on_stack {
                            proof {
                                lemma_ascending(g.successors(node));
                                assert(work@[top as int].succs@.contains(next));
                                g.lemma_reachable_refl(node);
                                g.lemma_reachable_step(node, node, next);
                                assert(s.waits(next) && s.index(next) == s.index(next)
                                    && g.reachable(node, next));
                                assert(s.waits(node)) by {
                                    reveal(visiting);
                                }
                                lemma_lower(g, s, node, s.index(next));
                                lemma_visiting_lower(g, before, s, node, k as int, s.index(next));
                            }
                            self.set_low_link_or_idx(node, next);
                            proof {
                                lemma_visiting_next(g, before, self@, node, k as int);
                            }
                        } else {
                            proof {
                                lemma_visiting_next(g, before, s, node, k as int);
                            }
                        }
                        work[top].at = k + 1;
                        proof {
                            lemma_frames_step(g, frames, work@, trail, s, self@);
                            lemma_work_step(frames, work@);
                            assert(self@.state.dom() =~= s.state.dom());
                        }
                    },
                    None => {
                        proof {
                            lemma_call(g, before, s, node, k as int);
                            reveal(index_ok);
                        }
                        self.enter(next);
                        let succs = self.graph.successor_ids(&next);
                        work.push(Frame { node: next, succs, at: 0 });
                        proof {
                            lemma_push(g, s, next);
                            trail = trail.push(s);
                            assert(trail.drop_last() =~= whole);
                            lemma_work_push(frames, work@[top + 1]);
                            lemma_frames_push(g, frames, work@, trail, s, self@);
                            assert(self@.state.dom() =~= s.state.dom().insert(next));
                            crate::traversal::lemma_unvisited_insert(s.state.dom(), next);
                        }
                    },
                }
            } else {
                proof {
                    assert(s.waits(node) && s.stack.len() > before.stack.len()
                        && s.stack[before.stack.len() as int] == node) by {
                        reveal(visiting);
                    }
                    assert(search_ok(g, before)) by {
                        if top > 0 {
                            assert(search_ok(g, trail[(top - 1) + 1]));
                        }
                    }
                }
                if self.eq_idx_link(node) {
                    proof {
                        lemma_close(g, before, s, node);
                        lemma_stack_places(s);
                        assert(s.stack.index_of(node) == before.stack.len());
                    }
                    self.close_component(node);
                } else {
                    proof {
                        lemma_keep(g, before, s, node);
                    }
                }
                let ghost c = self@;
                proof {
                    assert(c.state.dom() =~= s.state.dom());
                }
                work.pop();
                proof {
                    trail = trail.drop_last();
                    assert(work@ =~= frames.drop_last());
                }
                if work.len() == 0 {
                    break ;
                }
                let up = top - 1;
                let parent = work[up].node;
                let k = work[up].at;
                let count = work[up].succs.len();
                let ghost rest = work@;
                proof {
                    assert(rest[up as int] == frames[up as int]);
                    assert(k < count);
                    assert(trail[up as int] == whole[up as int]);
                    assert(whole[up + 1] == before);
                    lemma_return(g, trail[up as int], before, c, parent, k as int);
                    lemma_work_top(rest);
                }
                self.set_low_link(parent, node);
                work[up].at = k + 1;
                proof {
                    reveal(frames_ok);
                    lemma_work_pop(frames);
                    assert(work@.drop_last() =~= rest.drop_last());
                    lemma_work_step(rest, work@);
                    assert forall|i: int| 0 <= i < work@.len() - 1 implies {
                        &&& search_ok(g, #[trigger] trail[i + 1])
                        &&& visiting(g, trail[i], trail[i + 1], frames[i].node, frames[i].at as int)
                        &&& frames[i].at < frames[i].succs@.len()
                        &&& frames[i + 1].node == frames[i].succs@[frames[i].at as int]
                        &&& frames[i].succs@ == g.successor_seq(frames[i].node)
                    } by {
                        assert(trail[i] == whole[i] && trail[i + 1] == whole[i + 1]);
                        assert(search_ok(g, whole[i + 1]));
                    }
                    assert forall|i: int| 0 <= i < work@.len() - 1 implies work@[i]
                        == frames[i] by {
                        assert(rest[i] == frames[i]);
                    }
                    lemma_frames_return(g, frames, work@, trail, self@);
                    assert(self@.state.dom() =~= c.state.dom());
                }
            }
        }
    }

    /// The node `id`, which was not found yet, gets the next index and goes on the stack.
    fn enter(&mut self, id: usize)
        requires
            index_ok(old(self)@),
            !old(self)@.known(id),
        ensures
            final(self).graph() == old(self).graph(),
            final(self)@ == old(self)@.push(id),
            old(self)@.idx < usize::MAX,
    {
        let idx = Idx { low_link: self.idx, index: self.idx, on_stack: true };
        self.stack.push(id);
        self.state.insert(id, idx);
        proof {
            reveal(index_ok);
            assert(self.state@.dom() =~= old(self)@.state.dom().insert(id));
            assert(self.state.len() == self.state@.len());
        }
        self.idx += 1;
    }

    /// The nodes from `id` to the top of the stack leave the stack as one component, the
    /// top first.
    fn close_component(&mut self, id: usize)
        requires
            old(self)@.stack.no_duplicates(),
            old(self)@.stack.contains(id),
            forall|i: int|
                0 <= i < old(self)@.stack.len() ==> old(self)@.known(#[trigger] old(self)@.stack[i]),
        ensures
            final(self).graph() == old(self).graph(),
            final(self)@ == old(self)@.close(old(self)@.stack.index_of(id)),
    {
        let ghost g = self.graph();
        let ghost s = self@;
        let ghost p = s.stack.index_of(id);
        let mut scc: Vec<usize> = Vec::new();
        proof {
            assert(s.stack.skip(s.stack.len() as int).reverse() =~= scc@);
            assert(s.stack.take(s.stack.len() as int) =~= s.stack);
            assert(self.state@ =~= Map::new(
                |v: usize| s.state.contains_key(v),
                |v: usize|
                    if s.stack.skip(s.stack.len() as int).contains(v) {
                        Idx {
                            low_link: s.state[v].low_link,
                            index: s.state[v].index,
                            on_stack: false,
                        }
                    } else {
                        s.state[v]
                    },
            ));
        }
        loop
            invariant_except_break
                self.graph() == g,
                0 <= p < self.stack@.len() <= s.stack.len(),
                self.stack@ == s.stack.take(self.stack@.len() as int),
                scc@ == s.stack.skip(self.stack@.len() as int).reverse(),
                self.state@ == Map::new(
                    |v: usize| s.state.contains_key(v),
                    |v: usize|
                        if s.stack.skip(self.stack@.len() as int).contains(v) {
                            Idx {
                                low_link: s.state[v].low_link,
                                index: s.state[v].index,
                                on_stack: false,
                            }
                        } else {
                            s.state[v]
                        },
                ),
                lists_view(self.result) == s.result,
                self.idx == s.idx,
                s.stack[p] == id,
                s.stack.no_duplicates(),
                forall|i: int| 0 <= i < s.stack.len() ==> s.known(#[trigger] s.stack[i]),
            ensures
                self.graph() == g,
                self@ == s.close(p),
            decreases self.stack@.len(),
        {
            let ghost m = self.stack@.len() as int;
            match self.stack.pop() {
                Some(curr) => {
                    assert(curr == s.stack[m - 1]);
                    scc.push(curr);
                    self.set_on_stack_false(curr);
                    proof {
                        assert(self.stack@ =~= s.stack.take(m - 1));
                        assert(scc@ =~= s.stack.skip(m - 1).reverse());
                        let goal = Map::new(
                            |v: usize| s.state.contains_key(v),
                            |v: usize|
                                if s.stack.skip(m - 1).contains(v) {
                                    Idx {
                                        low_link: s.state[v].low_link,
                                        index: s.state[v].index,
                                        on_stack: false,
                                    }
                                } else {
                                    s.state[v]
                                },
                        );
                        let upper = s.stack.skip(m);
                        let wider = s.stack.skip(m - 1);
                        assert forall|v: usize| wider.contains(v) <==> v == curr || upper.contains(
                            v,
                        ) by {
                            if wider.contains(v) {
                                let i = choose|i: int| 0 <= i < wider.len() && wider[i] == v;
                                if i > 0 {
                                    assert(upper[i - 1] == v);
                                }
                            }
                            if upper.contains(v) {
                                let i = choose|i: int| 0 <= i < upper.len() && upper[i] == v;
                                assert(wider[i + 1] == v);
                            }
                            assert(wider[0] == curr);
                        }
                        assert(!upper.contains(curr)) by {
                            if upper.contains(curr) {
                                let i = choose|i: int| 0 <= i < upper.len() && upper[i] == curr;
                                assert(s.stack[m + i] == s.stack[m - 1]);
                            }
                        }
                        assert(self.state@ =~= goal);
                    }
                    if curr == id {
                        let ghost done = scc@;
                        self.result.push(scc);
                        proof {
                            assert(s.stack[m - 1] == s.stack[p]);
                            assert(m - 1 == p);
                            assert(lists_view(self.result) =~= s.result.push(done));
                        }
                        break ;
                    }
                    proof {
                        assert(s.stack[m - 1] != s.stack[p]);
                        assert(m - 1 != p);
                    }
                },
                None => {
                    proof {
                        assert(false);
                    }
                    break ;
                },
            }
        }
    }

    fn set_on_stack_false(&mut self, id: usize)
        requires
            old(self)@.known(id),
        ensures
            final(self).graph() == old(self).graph(),
            final(self)@.stack == old(self)@.stack,
            final(self)@.result == old(self)@.result,
            final(self)@.idx == old(self)@.idx,
            final(self)@.state == old(self)@.state.insert(
                id,
                Idx {
                    low_link: old(self)@.low(id),
                    index: old(self)@.index(id),
                    on_stack: false,
                },
            ),
    {
        match self.state.get(&id) {
            Some(found) => {
                let changed = Idx { low_link: found.low_link, index: found.index, on_stack: false };
                self.state.insert(id, changed);
            },
            None => {},
        }
    }

    fn eq_idx_link(&self, src: usize) -> (r: bool)
        requires
            self@.known(src),
        ensures
            r == (self@.low(src) == self@.index(src)),
    {
        match self.state.get(&src) {
            Some(found) => found.low_link == found.index,
            None => false,
        }
    }

    fn set_low_link_or_idx(&mut self, src: usize, trg: usize)
        requires
            old(self)@.known(src),
            old(self)@.known(trg),
        ensures
            final(self).graph() == old(self).graph(),
            final(self)@ == old(self)@.lower(src, old(self)@.index(trg)),
    {
        let trg_idx = match self.state.get(&trg) {
            Some(found) => found.index,
            None => 0,
        };
        self.lower_to(src, trg_idx);
    }

    fn set_low_link(&mut self, src: usize, trg: usize)
        requires
            old(self)@.known(src),
            old(self)@.known(trg),
        ensures
            final(self).graph() == old(self).graph(),
            final(self)@ == old(self)@.lower(src, old(self)@.low(trg)),
    {
        let trg_link = match self.state.get(&trg) {
            Some(found) => found.low_link,
            None => 0,
        };
        self.lower_to(src, trg_link);
    }

    fn lower_to(&mut self, src: usize, bound: usize)
        requires
            old(self)@.known(src),
        ensures
            final(self).graph() == old(self).graph(),
            final(self)@ == old(self)@.lower(src, bound),
    {
        match self.state.get(&src) {
            Some(found) => {
                let changed = Idx {
                    low_link: if found.low_link <= bound {
                        found.low_link
                    } else {
                        bound
                    },
                    index: found.index,
                    on_stack: found.on_stack,
                };
                self.state.insert(src, changed);
            },
            None => {},
        }
    }
}

impl<NL, EL> DiGraph<NL, EL> {
    /// The strongly connected components of the part of the graph that its nodes reach,
    /// sinks first.
    pub fn scc(&self) -> (r: Vec<Vec<usize>>)
        ensures
            is_scc_list(self@, lists_view(r)),
    {
        let mut search = TarjanSCC::new(self);
        search.process_graph()
    }
}

} // verus!
