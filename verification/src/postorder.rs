//! What the post-order depth-first traversal computes.
//!
//! The traversal keeps a buffer of nodes, used as a stack. The node on top is looked at:
//! on its first visit it is marked, and those of its successors that were not visited yet
//! are put on top of it, in increasing order; on a later visit it leaves the buffer, and
//! is emitted unless it was emitted before.
use crate::graph::GraphView;
use crate::order::lemma_ascending;
use crate::traversal::{lemma_unvisited_insert, unvisited};
use vstd::prelude::*;

verus! {

/// `buffer` with those of the first `n` nodes of `succs` on top that are not in `visited`.
pub open spec fn stack_up(buffer: Seq<usize>, visited: Set<usize>, succs: Seq<usize>, n: nat) -> Seq<
    usize,
>
    decreases n,
{
    if n == 0 || n > succs.len() {
        buffer
    } else {
        let below = stack_up(buffer, visited, succs, (n - 1) as nat);
        if visited.contains(succs[n - 1]) {
            below
        } else {
            below.push(succs[n - 1])
        }
    }
}

/// The state of a post-order traversal: the nodes that were visited, those of them that
/// were emitted, and the buffer.
pub struct Walk {
    pub visited: Set<usize>,
    pub processed: Set<usize>,
    pub buffer: Seq<usize>,
}

impl Walk {
    /// The state without the top of the buffer.
    pub open spec fn popped(self) -> Walk {
        Walk { visited: self.visited, processed: self.processed, buffer: self.buffer.drop_last() }
    }

    /// The state after `id` was emitted.
    pub open spec fn emit(self, id: usize) -> Walk {
        Walk {
            visited: self.visited,
            processed: self.processed.insert(id),
            buffer: self.buffer,
        }
    }
}

/// The state in which the traversal of `g` starts: the entry node is alone in the buffer,
/// and nothing was visited.
pub open spec fn first_walk<NL, EL>(g: GraphView<NL, EL>) -> Walk {
    Walk {
        visited: Set::empty(),
        processed: Set::empty(),
        buffer: match g.start {
            Some(s) => seq![s],
            None => Seq::empty(),
        },
    }
}

/// The state after the first visit of the node on top of the buffer.
pub open spec fn expand<NL, EL>(g: GraphView<NL, EL>, w: Walk) -> Walk {
    let id = w.buffer.last();
    let visited = w.visited.insert(id);
    let succs = g.successor_seq(id);
    Walk {
        visited,
        processed: w.processed,
        buffer: stack_up(w.buffer, visited, succs, succs.len()),
    }
}

/// The walk from the state `w` up to the next node that is emitted: the state after it, and
/// the node. With `None` the buffer is empty and the traversal is over.
pub open spec fn walk_next<NL, EL>(g: GraphView<NL, EL>, w: Walk) -> (Walk, Option<usize>)
    decreases unvisited(w.visited).len(), w.buffer.len(),
{
    if w.buffer.len() == 0 {
        (w, None)
    } else {
        let id = w.buffer.last();
        if !w.visited.contains(id) {
            proof {
                lemma_unvisited_insert(w.visited, id);
            }
            walk_next(g, expand(g, w))
        } else if w.processed.contains(id) {
            walk_next(g, w.popped())
        } else {
            (w.popped().emit(id), Some(id))
        }
    }
}

/// What `walk_next` emits was not emitted before, and is recorded as emitted after; when
/// nothing is emitted, the buffer is empty.
pub proof fn lemma_walk_next_emits<NL, EL>(g: GraphView<NL, EL>, w: Walk)
    ensures
        match walk_next(g, w).1 {
            Some(id) => !w.processed.contains(id) && walk_next(g, w).0.processed
                == w.processed.insert(id),
            None => walk_next(g, w).0.buffer.len() == 0 && walk_next(g, w).0.processed
                == w.processed,
        },
    decreases unvisited(w.visited).len(), w.buffer.len(),
{
    if w.buffer.len() > 0 {
        let id = w.buffer.last();
        if !w.visited.contains(id) {
            lemma_unvisited_insert(w.visited, id);
            lemma_walk_next_emits(g, expand(g, w));
        } else if w.processed.contains(id) {
            lemma_walk_next_emits(g, w.popped());
        }
    }
}

/// The nodes that the traversal emits from the state `w` on, as a caller sees them who
/// stops at the first node that is not in the graph.
pub open spec fn walk_rest<NL, EL>(g: GraphView<NL, EL>, w: Walk) -> Seq<usize>
    decreases unvisited(w.processed).len(),
{
    match walk_next(g, w).1 {
        None => Seq::empty(),
        Some(id) => {
            if !g.nodes.contains_key(id) {
                Seq::empty()
            } else {
                proof {
                    lemma_walk_next_emits(g, w);
                    lemma_unvisited_insert(w.processed, id);
                }
                seq![id] + walk_rest(g, walk_next(g, w).0)
            }
        },
    }
}

/// No node is emitted twice, whatever the graph.
pub proof fn lemma_walk_rest_distinct<NL, EL>(g: GraphView<NL, EL>, w: Walk)
    ensures
        walk_rest(g, w).no_duplicates(),
        forall|x: usize| walk_rest(g, w).contains(x) ==> !w.processed.contains(x),
    decreases unvisited(w.processed).len(),
{
    lemma_walk_next_emits(g, w);
    match walk_next(g, w).1 {
        None => {},
        Some(id) => {
            if g.nodes.contains_key(id) {
                lemma_unvisited_insert(w.processed, id);
                let next = walk_next(g, w).0;
                lemma_walk_rest_distinct(g, next);
                let rest = walk_rest(g, next);
                let all = walk_rest(g, w);
                assert(all == seq![id] + rest);
                assert(next.processed == w.processed.insert(id));
                assert(!w.processed.contains(id));
                assert forall|x: usize| all.contains(x) implies !w.processed.contains(x) by {
                    let i = choose|i: int| 0 <= i < all.len() && all[i] == x;
                    if i > 0 {
                        assert(rest[i - 1] == x);
                        assert(rest.contains(x));
                        assert(!next.processed.contains(x));
                    } else {
                        assert(x == id);
                    }
                }
                assert forall|i: int, j: int|
                    0 <= i < all.len() && 0 <= j < all.len() && i != j implies all[i]
                    != all[j] by {
                    if i == 0 {
                        assert(rest[j - 1] == all[j]);
                        assert(rest.contains(all[j]));
                        assert(!next.processed.contains(all[j]));
                    } else if j == 0 {
                        assert(rest[i - 1] == all[i]);
                        assert(rest.contains(all[i]));
                        assert(!next.processed.contains(all[i]));
                    } else {
                        assert(rest[i - 1] != rest[j - 1]);
                    }
                }
            }
        },
    }
}

/// The nodes of `g` in post-order of the depth-first traversal from the entry node.
pub open spec fn post_order<NL, EL>(g: GraphView<NL, EL>) -> Seq<usize> {
    walk_rest(g, first_walk(g))
}

/// The nodes that were visited and not emitted yet.
pub open spec fn active(w: Walk) -> Set<usize> {
    w.visited.difference(w.processed)
}

/// The place `j` of the buffer is where a node that is visited and not emitted yet waits to
/// be emitted: its highest place in the buffer.
#[verifier::opaque]
pub open spec fn is_frame(w: Walk, j: int) -> bool {
    &&& 0 <= j < w.buffer.len()
    &&& active(w).contains(w.buffer[j])
    &&& forall|k: int| j < k < w.buffer.len() ==> w.buffer[k] != w.buffer[j]
}

/// What holds of the nodes `out` emitted so far, while the nodes of `act` are visited and
/// not emitted yet: no node is emitted twice; an edge from an emitted node leads to a node
/// emitted no later, or to one that reaches it and is still to be emitted or was emitted
/// later; and each emitted node but the entry node `s` has a predecessor that is still to
/// be emitted or was emitted later.
#[verifier::opaque]
pub open spec fn emitted_ok<NL, EL>(
    g: GraphView<NL, EL>,
    s: usize,
    out: Seq<usize>,
    act: Set<usize>,
) -> bool {
    &&& out.no_duplicates()
    &&& forall|i: int, v: usize|
        0 <= i < out.len() && #[trigger] g.has_edge(out[i], v) ==> edge_ok(g, out, act, i, v)
    &&& forall|i: int| 0 <= i < out.len() && out[i] != s ==> #[trigger] parent_ok(g, out, act, i)
}

/// The node `v`, a successor of `out[i]`, is emitted no later than `out[i]`, or it reaches
/// `out[i]` and is in `act` or emitted later.
pub open spec fn edge_ok<NL, EL>(
    g: GraphView<NL, EL>,
    out: Seq<usize>,
    act: Set<usize>,
    i: int,
    v: usize,
) -> bool {
    out.take(i + 1).contains(v) || (g.reachable(v, out[i]) && (act.contains(v) || out.skip(
        i + 1,
    ).contains(v)))
}

/// Some predecessor of `out[i]` is in `act` or emitted later than `out[i]`.
pub open spec fn parent_ok<NL, EL>(
    g: GraphView<NL, EL>,
    out: Seq<usize>,
    act: Set<usize>,
    i: int,
) -> bool {
    exists|x: usize| #[trigger] g.has_edge(x, out[i]) && (act.contains(x) || out.skip(i + 1).contains(x))
}

/// The plain facts about a walk from the entry node `s`.
pub open spec fn inv_basic<NL, EL>(g: GraphView<NL, EL>, s: usize, w: Walk, out: Seq<usize>) -> bool {
    &&& w.processed.subset_of(w.visited)
    &&& out.to_set() == w.processed
    &&& forall|v: usize| #[trigger] w.visited.contains(v) ==> g.reachable(s, v)
    &&& forall|j: int| 0 <= j < w.buffer.len() ==> g.reachable(s, #[trigger] w.buffer[j])
    &&& w.buffer.len() > 0 ==> w.buffer[0] == s
    &&& forall|j: int| 1 <= j < w.buffer.len() ==> #[trigger] w.buffer[j] != s
    &&& w.processed.contains(s) <==> w.buffer.len() == 0
    &&& w.processed.contains(s) ==> out.len() > 0 && out.last() == s
    &&& w.visited.contains(s) || w.buffer.len() == 1
}

/// Every node that is visited and not emitted yet is in the buffer.
#[verifier::opaque]
pub open spec fn inv_active(w: Walk) -> bool {
    forall|a: usize| #[trigger] active(w).contains(a) ==> w.buffer.contains(a)
}

/// A successor of a node that waits to be emitted was visited, or lies above it in the
/// buffer.
#[verifier::opaque]
pub open spec fn inv_cover<NL, EL>(g: GraphView<NL, EL>, w: Walk) -> bool {
    forall|f: int, v: usize|
        #![trigger is_frame(w, f), g.has_edge(w.buffer[f], v)]
        is_frame(w, f) && g.has_edge(w.buffer[f], v) ==> w.visited.contains(v) || w.buffer.skip(
            f + 1,
        ).contains(v)
}

/// The entry at the place `j` of the buffer was put there for an edge from a node that
/// waits below it to be emitted.
pub open spec fn has_parent<NL, EL>(g: GraphView<NL, EL>, w: Walk, j: int) -> bool {
    exists|f: int| #[trigger] is_frame(w, f) && f < j && g.has_edge(w.buffer[f], w.buffer[j])
}

/// Every entry of the buffer but the lowest was put there for an edge from a node that
/// waits below it to be emitted.
#[verifier::opaque]
pub open spec fn inv_parent<NL, EL>(g: GraphView<NL, EL>, w: Walk) -> bool {
    forall|j: int| 1 <= j < w.buffer.len() ==> #[trigger] has_parent(g, w, j)
}

/// A node that waits to be emitted reaches every entry above it in the buffer.
#[verifier::opaque]
pub open spec fn inv_chain<NL, EL>(g: GraphView<NL, EL>, w: Walk) -> bool {
    forall|f: int, j: int|
        #![trigger is_frame(w, f), w.buffer[j]]
        is_frame(w, f) && f < j < w.buffer.len() ==> g.reachable(w.buffer[f], w.buffer[j])
}

/// Every successor of an emitted node was visited.
#[verifier::opaque]
pub open spec fn inv_closed<NL, EL>(g: GraphView<NL, EL>, w: Walk) -> bool {
    forall|u: usize, v: usize|
        w.processed.contains(u) && #[trigger] g.has_edge(u, v) ==> w.visited.contains(v)
}

/// What holds of the state `w` of a traversal of `g` from the entry node `s`, and of the
/// nodes `out` emitted so far.
pub open spec fn walk_inv<NL, EL>(g: GraphView<NL, EL>, s: usize, w: Walk, out: Seq<usize>) -> bool {
    &&& inv_basic(g, s, w, out)
    &&& emitted_ok(g, s, out, active(w))
    &&& inv_active(w)
    &&& inv_cover(g, w)
    &&& inv_parent(g, w)
    &&& inv_chain(g, w)
    &&& inv_closed(g, w)
}

/// What `stack_up` does to the buffer.
pub proof fn lemma_stack_up(buffer: Seq<usize>, visited: Set<usize>, succs: Seq<usize>, n: nat)
    requires
        n <= succs.len(),
    ensures
        buffer.len() <= stack_up(buffer, visited, succs, n).len(),
        forall|k: int|
            0 <= k < buffer.len() ==> stack_up(buffer, visited, succs, n)[k] == buffer[k],
        forall|k: int|
            buffer.len() <= k < stack_up(buffer, visited, succs, n).len() ==> {
                &&& !visited.contains(#[trigger] stack_up(buffer, visited, succs, n)[k])
                &&& succs.take(n as int).contains(stack_up(buffer, visited, succs, n)[k])
            },
        forall|x: usize|
            succs.take(n as int).contains(x) && !visited.contains(x) ==> exists|k: int|
                buffer.len() <= k < stack_up(buffer, visited, succs, n).len() && #[trigger] stack_up(
                    buffer,
                    visited,
                    succs,
                    n,
                )[k] == x,
    decreases n,
{
    let after = stack_up(buffer, visited, succs, n);
    if n > 0 {
        let m = (n - 1) as nat;
        let before = stack_up(buffer, visited, succs, m);
        lemma_stack_up(buffer, visited, succs, m);
        let s = succs[n - 1];
        assert(succs.take(n as int)[n - 1] == s);
        assert forall|x: usize| succs.take(m as int).contains(x) implies succs.take(
            n as int,
        ).contains(x) by {
            let i = choose|i: int| 0 <= i < m && succs.take(m as int)[i] == x;
            assert(succs.take(n as int)[i] == x);
        }
        assert forall|x: usize| succs.take(n as int).contains(x) implies x == s || succs.take(
            m as int,
        ).contains(x) by {
            let i = choose|i: int| 0 <= i < n && succs.take(n as int)[i] == x;
            if i < m {
                assert(succs.take(m as int)[i] == x);
            }
        }
        assert forall|x: usize|
            succs.take(n as int).contains(x) && !visited.contains(x) implies exists|k: int|
            buffer.len() <= k < after.len() && #[trigger] after[k] == x by {
            if succs.take(m as int).contains(x) {
                let k = choose|k: int| buffer.len() <= k < before.len() && #[trigger] before[k] == x;
                assert(after[k] == x);
            } else {
                assert(after[before.len() as int] == x);
            }
        }
    }
}

/// The highest place that `v` has in `b`.
pub proof fn lemma_highest_place(b: Seq<usize>, v: usize) -> (f: int)
    requires
        b.contains(v),
    ensures
        0 <= f < b.len(),
        b[f] == v,
        forall|k: int| f < k < b.len() ==> b[k] != v,
    decreases b.len(),
{
    if b.last() == v {
        b.len() - 1
    } else {
        let i = choose|i: int| 0 <= i < b.len() && b[i] == v;
        assert(b.drop_last()[i] == v);
        let f = lemma_highest_place(b.drop_last(), v);
        assert forall|k: int| f < k < b.len() implies b[k] != v by {
            if k < b.len() - 1 {
                assert(b.drop_last()[k] == b[k]);
            }
        }
        f
    }
}

/// A place where a node waits to be emitted is a place of the buffer, and its node is
/// visited and not emitted yet.
proof fn lemma_frame_bounds(w: Walk)
    ensures
        forall|f: int| #[trigger]
            is_frame(w, f) ==> 0 <= f < w.buffer.len() && active(w).contains(w.buffer[f]),
{
    reveal(is_frame);
}

/// A node that was emitted before leaves the buffer: the places where nodes wait to be
/// emitted stay.
proof fn lemma_frames_skip(w: Walk)
    requires
        w.buffer.len() > 0,
        w.processed.contains(w.buffer.last()),
    ensures
        forall|f: int| #[trigger] is_frame(w.popped(), f) <==> is_frame(w, f),
        forall|f: int| #[trigger] is_frame(w, f) ==> f < w.buffer.len() - 1,
{
    reveal(is_frame);
    let p = w.popped();
    let t = w.buffer.len() - 1;
    assert forall|f: int| #[trigger] is_frame(p, f) implies is_frame(w, f) by {
        assert(p.buffer[f] == w.buffer[f]);
        assert forall|k: int| f < k < w.buffer.len() implies w.buffer[k] != w.buffer[f] by {
            if k < t {
                assert(p.buffer[k] == w.buffer[k]);
            }
        }
    }
    assert forall|f: int| #[trigger] is_frame(w, f) implies is_frame(p, f) && f < t by {
        assert(f < t);
        assert forall|k: int| f < k < p.buffer.len() implies p.buffer[k] != p.buffer[f] by {
            assert(p.buffer[k] == w.buffer[k]);
        }
    }
}

/// The walk keeps what holds of it when a node that was emitted before leaves the buffer.
pub proof fn lemma_walk_skip<NL, EL>(g: GraphView<NL, EL>, s: usize, w: Walk, out: Seq<usize>)
    requires
        walk_inv(g, s, w, out),
        w.buffer.len() > 0,
        w.processed.contains(w.buffer.last()),
    ensures
        walk_inv(g, s, w.popped(), out),
{
    let p = w.popped();
    let t = w.buffer.len() - 1;
    lemma_frames_skip(w);
    lemma_frame_bounds(w);
    lemma_frame_bounds(p);
    assert(active(p) == active(w));
    assert(t >= 1) by {
        if t == 0 {
            assert(w.buffer[0] == s);
        }
    }
    assert(inv_basic(g, s, p, out)) by {
        assert forall|j: int| 0 <= j < p.buffer.len() implies g.reachable(
            s,
            #[trigger] p.buffer[j],
        ) by {
            assert(p.buffer[j] == w.buffer[j]);
        }
        assert forall|j: int| 1 <= j < p.buffer.len() implies #[trigger] p.buffer[j] != s by {
            assert(p.buffer[j] == w.buffer[j]);
        }
        assert(p.buffer[0] == w.buffer[0]);
    }
    assert(inv_active(p)) by {
        reveal(inv_active);
        assert forall|a: usize| #[trigger] active(p).contains(a) implies p.buffer.contains(a) by {
            assert(w.buffer.contains(a));
            let i = choose|i: int| 0 <= i < w.buffer.len() && w.buffer[i] == a;
            assert(p.buffer[i] == a);
        }
    }
    assert(inv_cover(g, p)) by {
        reveal(inv_cover);
        assert forall|f: int, v: usize|
            #![trigger is_frame(p, f), g.has_edge(p.buffer[f], v)]
            is_frame(p, f) && g.has_edge(p.buffer[f], v) implies p.visited.contains(v)
            || p.buffer.skip(f + 1).contains(v) by {
            assert(is_frame(w, f));
            assert(p.buffer[f] == w.buffer[f]);
            assert(g.has_edge(w.buffer[f], v));
            if !w.visited.contains(v) {
                let sk = w.buffer.skip(f + 1);
                let i = choose|i: int| 0 <= i < sk.len() && sk[i] == v;
                assert(w.buffer[f + 1 + i] == v);
                assert(f + 1 + i < t);
                assert(p.buffer.skip(f + 1)[i] == v);
            }
        }
    }
    assert(inv_parent(g, p)) by {
        reveal(inv_parent);
        assert forall|j: int| 1 <= j < p.buffer.len() implies #[trigger] has_parent(
            g,
            p,
            j,
        ) by {
            assert(p.buffer[j] == w.buffer[j]);
            assert(has_parent(g, w, j));
            let f = choose|f: int|
                #[trigger] is_frame(w, f) && f < j && g.has_edge(w.buffer[f], w.buffer[j]);
            assert(is_frame(p, f));
            assert(p.buffer[f] == w.buffer[f]);
        }
    }
    assert(inv_chain(g, p)) by {
        reveal(inv_chain);
        assert forall|f: int, j: int|
            #![trigger is_frame(p, f), p.buffer[j]]
            is_frame(p, f) && f < j < p.buffer.len() implies g.reachable(
            p.buffer[f],
            p.buffer[j],
        ) by {
            assert(is_frame(w, f));
            assert(p.buffer[f] == w.buffer[f]);
            assert(p.buffer[j] == w.buffer[j]);
            assert(g.reachable(w.buffer[f], w.buffer[j]));
        }
    }
    assert(inv_closed(g, p)) by {
        reveal(inv_closed);
    }
}

/// More nodes that are visited and not emitted yet leave what holds of the emitted nodes.
proof fn lemma_emitted_grow<NL, EL>(
    g: GraphView<NL, EL>,
    s: usize,
    out: Seq<usize>,
    act: Set<usize>,
    more: Set<usize>,
)
    requires
        emitted_ok(g, s, out, act),
        act.subset_of(more),
    ensures
        emitted_ok(g, s, out, more),
{
    reveal(emitted_ok);
    assert forall|i: int, v: usize|
        0 <= i < out.len() && #[trigger] g.has_edge(out[i], v) implies edge_ok(
        g,
        out,
        more,
        i,
        v,
    ) by {
        assert(edge_ok(g, out, act, i, v));
    }
    assert forall|i: int| 0 <= i < out.len() && out[i] != s implies #[trigger] parent_ok(
        g,
        out,
        more,
        i,
    ) by {
        assert(parent_ok(g, out, act, i));
        let x = choose|x: usize|
            #[trigger] g.has_edge(x, out[i]) && (act.contains(x) || out.skip(i + 1).contains(x));
        assert(g.has_edge(x, out[i]) && (more.contains(x) || out.skip(i + 1).contains(x)));
    }
}

/// What holds of the emitted nodes still holds when `u` is emitted next.
proof fn lemma_emitted_push<NL, EL>(
    g: GraphView<NL, EL>,
    s: usize,
    out: Seq<usize>,
    act: Set<usize>,
    u: usize,
)
    requires
        emitted_ok(g, s, out, act),
        act.contains(u),
        !out.contains(u),
        forall|v: usize| #[trigger]
            g.has_edge(u, v) ==> out.contains(v) || v == u || (act.contains(v) && g.reachable(v, u)),
        u != s ==> exists|x: usize| #[trigger] g.has_edge(x, u) && act.contains(x) && x != u,
    ensures
        emitted_ok(g, s, out.push(u), act.remove(u)),
{
    reveal(emitted_ok);
    let out2 = out.push(u);
    let act2 = act.remove(u);
    let n = out.len() as int;
    assert(out2.no_duplicates()) by {
        assert forall|i: int, j: int|
            0 <= i < out2.len() && 0 <= j < out2.len() && i != j implies out2[i] != out2[j] by {
            if i < n && j < n {
                assert(out[i] != out[j]);
            } else if i < n {
                assert(out.contains(out[i]));
            } else {
                assert(out.contains(out[j]));
            }
        }
    }
    assert forall|i: int, v: usize|
        0 <= i < out2.len() && #[trigger] g.has_edge(out2[i], v) implies edge_ok(
        g,
        out2,
        act2,
        i,
        v,
    ) by {
        if i < n {
            assert(out2[i] == out[i]);
            assert(edge_ok(g, out, act, i, v));
            assert(out2.take(i + 1) =~= out.take(i + 1));
            assert(out2.skip(i + 1)[n - i - 1] == u);
            if out.skip(i + 1).contains(v) {
                let sk = out.skip(i + 1);
                let k = choose|k: int| 0 <= k < sk.len() && sk[k] == v;
                assert(out2.skip(i + 1)[k] == v);
            }
        } else {
            assert(out2.take(i + 1) =~= out2);
            if out.contains(v) {
                let k = choose|k: int| 0 <= k < out.len() && out[k] == v;
                assert(out2[k] == v);
            } else if v == u {
                assert(out2[n] == v);
            }
        }
    }
    assert forall|i: int| 0 <= i < out2.len() && out2[i] != s implies #[trigger] parent_ok(
        g,
        out2,
        act2,
        i,
    ) by {
        if i < n {
            assert(out2[i] == out[i]);
            assert(parent_ok(g, out, act, i));
            let x = choose|x: usize|
                #[trigger] g.has_edge(x, out[i]) && (act.contains(x) || out.skip(i + 1).contains(
                    x,
                ));
            assert(out2.skip(i + 1)[n - i - 1] == u);
            if out.skip(i + 1).contains(x) {
                let sk = out.skip(i + 1);
                let k = choose|k: int| 0 <= k < sk.len() && sk[k] == x;
                assert(out2.skip(i + 1)[k] == x);
            }
            assert(g.has_edge(x, out2[i]) && (act2.contains(x) || out2.skip(i + 1).contains(x)));
        } else {
            let x = choose|x: usize| #[trigger] g.has_edge(x, u) && act.contains(x) && x != u;
            assert(g.has_edge(x, out2[i]) && (act2.contains(x) || out2.skip(i + 1).contains(x)));
        }
    }
}

/// The place where a node waits that is visited and not emitted yet.
proof fn lemma_frame_of_active(w: Walk, v: usize) -> (f: int)
    requires
        inv_active(w),
        active(w).contains(v),
    ensures
        is_frame(w, f),
        w.buffer[f] == v,
{
    reveal(inv_active);
    reveal(is_frame);
    lemma_highest_place(w.buffer, v)
}

/// The node on top of the buffer is emitted: the places below it where nodes wait to be
/// emitted stay, and none of them holds that node.
proof fn lemma_frames_emit(w: Walk)
    requires
        w.buffer.len() > 0,
        active(w).contains(w.buffer.last()),
    ensures
        is_frame(w, w.buffer.len() - 1),
        forall|f: int| #[trigger]
            is_frame(w.popped().emit(w.buffer.last()), f) <==> is_frame(w, f) && f
                < w.buffer.len() - 1,
        forall|f: int| #[trigger]
            is_frame(w, f) && f < w.buffer.len() - 1 ==> w.buffer[f] != w.buffer.last(),
{
    reveal(is_frame);
    let u = w.buffer.last();
    let e = w.popped().emit(u);
    let t = w.buffer.len() - 1;
    assert forall|f: int| #[trigger] is_frame(e, f) implies is_frame(w, f) && f < t by {
        assert(e.buffer[f] == w.buffer[f]);
        assert forall|k: int| f < k < w.buffer.len() implies w.buffer[k] != w.buffer[f] by {
            if k < t {
                assert(e.buffer[k] == w.buffer[k]);
            }
        }
    }
    assert forall|f: int| is_frame(w, f) && f < t implies #[trigger] is_frame(e, f) by {
        assert(w.buffer[t] != w.buffer[f]);
        assert(e.buffer[f] == w.buffer[f]);
        assert forall|k: int| f < k < e.buffer.len() implies e.buffer[k] != e.buffer[f] by {
            assert(e.buffer[k] == w.buffer[k]);
        }
    }
}

/// The walk keeps what holds of it when the node on top of the buffer is emitted.
pub proof fn lemma_walk_emit<NL, EL>(g: GraphView<NL, EL>, s: usize, w: Walk, out: Seq<usize>)
    requires
        walk_inv(g, s, w, out),
        w.buffer.len() > 0,
        w.visited.contains(w.buffer.last()),
        !w.processed.contains(w.buffer.last()),
    ensures
        walk_inv(g, s, w.popped().emit(w.buffer.last()), out.push(w.buffer.last())),
        g.reachable(s, w.buffer.last()),
{
    let u = w.buffer.last();
    let e = w.popped().emit(u);
    let t = w.buffer.len() - 1;
    let out2 = out.push(u);
    lemma_frames_emit(w);
    lemma_frame_bounds(w);
    lemma_frame_bounds(e);
    assert(active(e) =~= active(w).remove(u));
    assert(w.buffer[t] == u);
    assert(!out.contains(u)) by {
        if out.contains(u) {
            assert(out.to_set().contains(u));
        }
    }
    assert forall|v: usize| #[trigger] g.has_edge(u, v) implies w.visited.contains(v) by {
        reveal(inv_cover);
        assert(is_frame(w, t) && g.has_edge(w.buffer[t], v));
        assert(w.buffer.skip(t + 1).len() == 0);
    }
    assert forall|v: usize| #[trigger] g.has_edge(u, v) implies out.contains(v) || v == u || (
    active(w).contains(v) && g.reachable(v, u)) by {
        if w.processed.contains(v) {
            assert(out.to_set().contains(v));
        } else if v != u {
            let f = lemma_frame_of_active(w, v);
            reveal(inv_chain);
            assert(f != t);
            assert(g.reachable(w.buffer[f], w.buffer[t]));
        }
    }
    if u != s {
        assert(t >= 1) by {
            if t == 0 {
                assert(w.buffer[0] == s);
            }
        }
        reveal(inv_parent);
        assert(has_parent(g, w, t));
        let f = choose|f: int|
            #[trigger] is_frame(w, f) && f < t && g.has_edge(w.buffer[f], w.buffer[t]);
        let x = w.buffer[f];
        assert(g.has_edge(x, u) && active(w).contains(x) && x != u);
    }
    lemma_emitted_push(g, s, out, active(w), u);
    assert(inv_basic(g, s, e, out2)) by {
        crate::traversal::lemma_push_to_set(out, u);
        assert(out2.to_set() =~= e.processed);
        assert forall|j: int| 0 <= j < e.buffer.len() implies g.reachable(
            s,
            #[trigger] e.buffer[j],
        ) by {
            assert(e.buffer[j] == w.buffer[j]);
        }
        assert forall|j: int| 1 <= j < e.buffer.len() implies #[trigger] e.buffer[j] != s by {
            assert(e.buffer[j] == w.buffer[j]);
        }
        if e.buffer.len() > 0 {
            assert(e.buffer[0] == w.buffer[0]);
        }
        if u == s {
            if t >= 1 {
                assert(w.buffer[t] != s);
            }
        } else {
            assert(w.buffer[0] == s);
        }
        assert(out2.last() == u);
    }
    assert(inv_active(e)) by {
        reveal(inv_active);
        assert forall|a: usize| #[trigger] active(e).contains(a) implies e.buffer.contains(a) by {
            assert(active(w).contains(a));
            assert(w.buffer.contains(a));
            let i = choose|i: int| 0 <= i < w.buffer.len() && w.buffer[i] == a;
            assert(e.buffer[i] == a);
        }
    }
    assert(inv_cover(g, e)) by {
        reveal(inv_cover);
        assert forall|f: int, v: usize|
            #![trigger is_frame(e, f), g.has_edge(e.buffer[f], v)]
            is_frame(e, f) && g.has_edge(e.buffer[f], v) implies e.visited.contains(v)
            || e.buffer.skip(f + 1).contains(v) by {
            assert(is_frame(w, f));
            assert(e.buffer[f] == w.buffer[f]);
            assert(g.has_edge(w.buffer[f], v));
            if !w.visited.contains(v) {
                let sk = w.buffer.skip(f + 1);
                let i = choose|i: int| 0 <= i < sk.len() && sk[i] == v;
                assert(w.buffer[f + 1 + i] == v);
                assert(f + 1 + i < t);
                assert(e.buffer.skip(f + 1)[i] == v);
            }
        }
    }
    assert(inv_parent(g, e)) by {
        reveal(inv_parent);
        assert forall|j: int| 1 <= j < e.buffer.len() implies #[trigger] has_parent(
            g,
            e,
            j,
        ) by {
            assert(e.buffer[j] == w.buffer[j]);
            assert(has_parent(g, w, j));
            let f = choose|f: int|
                #[trigger] is_frame(w, f) && f < j && g.has_edge(w.buffer[f], w.buffer[j]);
            assert(is_frame(e, f));
            assert(e.buffer[f] == w.buffer[f]);
        }
    }
    assert(inv_chain(g, e)) by {
        reveal(inv_chain);
        assert forall|f: int, j: int|
            #![trigger is_frame(e, f), e.buffer[j]]
            is_frame(e, f) && f < j < e.buffer.len() implies g.reachable(
            e.buffer[f],
            e.buffer[j],
        ) by {
            assert(is_frame(w, f));
            assert(e.buffer[f] == w.buffer[f]);
            assert(e.buffer[j] == w.buffer[j]);
            assert(g.reachable(w.buffer[f], w.buffer[j]));
        }
    }
    assert(inv_closed(g, e)) by {
        reveal(inv_closed);
    }
}

/// The node on top of the buffer is visited for the first time: it waits there from now
/// on, and the other places where nodes wait stay.
proof fn lemma_frames_expand<NL, EL>(g: GraphView<NL, EL>, w: Walk)
    requires
        w.buffer.len() > 0,
        !w.visited.contains(w.buffer.last()),
        w.processed.subset_of(w.visited),
    ensures
        forall|f: int| #[trigger]
            is_frame(expand(g, w), f) <==> f == w.buffer.len() - 1 || is_frame(w, f),
{
    reveal(is_frame);
    let u = w.buffer.last();
    let e = expand(g, w);
    let t = w.buffer.len() - 1;
    let succs = g.successor_seq(u);
    lemma_stack_up(w.buffer, w.visited.insert(u), succs, succs.len());
    assert forall|f: int| #[trigger] is_frame(e, f) implies f == t || is_frame(w, f) by {
        if f != t {
            if f > t {
                assert(!e.visited.contains(e.buffer[f]));
            } else {
                assert(e.buffer[f] == w.buffer[f]);
                assert(e.buffer[t] == u);
                assert(w.buffer[f] != u);
                assert forall|k: int| f < k < w.buffer.len() implies w.buffer[k]
                    != w.buffer[f] by {
                    assert(e.buffer[k] == w.buffer[k]);
                }
            }
        }
    }
    assert forall|f: int| f == t || is_frame(w, f) implies #[trigger] is_frame(e, f) by {
        assert(e.buffer[f] == w.buffer[f]);
        assert forall|k: int| f < k < e.buffer.len() implies e.buffer[k] != e.buffer[f] by {
            if k <= t {
                assert(e.buffer[k] == w.buffer[k]);
            } else {
                assert(!e.visited.contains(e.buffer[k]));
            }
        }
    }
}

/// The walk keeps what holds of it when the node on top of the buffer is visited for the
/// first time.
pub proof fn lemma_walk_expand<NL, EL>(g: GraphView<NL, EL>, s: usize, w: Walk, out: Seq<usize>)
    requires
        walk_inv(g, s, w, out),
        w.buffer.len() > 0,
        !w.visited.contains(w.buffer.last()),
    ensures
        walk_inv(g, s, expand(g, w), out),
{
    let u = w.buffer.last();
    let e = expand(g, w);
    let t = w.buffer.len() - 1;
    let succs = g.successor_seq(u);
    lemma_stack_up(w.buffer, w.visited.insert(u), succs, succs.len());
    lemma_ascending(g.successors(u));
    assert(succs.take(succs.len() as int) =~= succs);
    lemma_frames_expand(g, w);
    lemma_frame_bounds(w);
    lemma_frame_bounds(e);
    assert(w.buffer[t] == u);
    assert(e.buffer[t] == u);
    assert(g.reachable(s, u));
    assert forall|j: int| w.buffer.len() <= j < e.buffer.len() implies g.has_edge(
        u,
        #[trigger] e.buffer[j],
    ) by {
        assert(succs.contains(e.buffer[j]));
    }
    assert(active(w).subset_of(active(e)));
    lemma_emitted_grow(g, s, out, active(w), active(e));
    assert(inv_basic(g, s, e, out)) by {
        assert forall|v: usize| #[trigger] e.visited.contains(v) implies g.reachable(s, v) by {}
        assert forall|j: int| 0 <= j < e.buffer.len() implies g.reachable(
            s,
            #[trigger] e.buffer[j],
        ) by {
            if j < w.buffer.len() {
                assert(e.buffer[j] == w.buffer[j]);
            } else {
                g.lemma_reachable_step(s, u, e.buffer[j]);
            }
        }
        assert(e.buffer[0] == w.buffer[0]);
        assert(e.visited.contains(s)) by {
            if !w.visited.contains(s) {
                assert(t == 0);
            }
        }
        assert forall|j: int| 1 <= j < e.buffer.len() implies #[trigger] e.buffer[j] != s by {
            if j < w.buffer.len() {
                assert(e.buffer[j] == w.buffer[j]);
            } else {
                assert(!e.visited.contains(e.buffer[j]));
            }
        }
    }
    assert(inv_active(e)) by {
        reveal(inv_active);
        assert forall|a: usize| #[trigger] active(e).contains(a) implies e.buffer.contains(a) by {
            if a != u {
                assert(active(w).contains(a));
                assert(w.buffer.contains(a));
                let i = choose|i: int| 0 <= i < w.buffer.len() && w.buffer[i] == a;
                assert(e.buffer[i] == a);
            }
        }
    }
    assert(inv_cover(g, e)) by {
        reveal(inv_cover);
        assert forall|f: int, v: usize|
            #![trigger is_frame(e, f), g.has_edge(e.buffer[f], v)]
            is_frame(e, f) && g.has_edge(e.buffer[f], v) implies e.visited.contains(v)
            || e.buffer.skip(f + 1).contains(v) by {
            if f == t {
                if !e.visited.contains(v) {
                    assert(succs.contains(v));
                    let k = choose|k: int|
                        w.buffer.len() <= k < e.buffer.len() && #[trigger] e.buffer[k] == v;
                    assert(e.buffer.skip(t + 1)[k - (t + 1)] == v);
                }
            } else {
                assert(is_frame(w, f));
                assert(e.buffer[f] == w.buffer[f]);
                assert(g.has_edge(w.buffer[f], v));
                if !w.visited.contains(v) {
                    let sk = w.buffer.skip(f + 1);
                    let i = choose|i: int| 0 <= i < sk.len() && sk[i] == v;
                    assert(w.buffer[f + 1 + i] == v);
                    assert(e.buffer.skip(f + 1)[i] == v);
                }
            }
        }
    }
    assert(inv_parent(g, e)) by {
        reveal(inv_parent);
        assert forall|j: int| 1 <= j < e.buffer.len() implies #[trigger] has_parent(
            g,
            e,
            j,
        ) by {
            if j < w.buffer.len() {
                assert(e.buffer[j] == w.buffer[j]);
                assert(has_parent(g, w, j));
                let f = choose|f: int|
                    #[trigger] is_frame(w, f) && f < j && g.has_edge(w.buffer[f], w.buffer[j]);
                assert(is_frame(e, f));
                assert(e.buffer[f] == w.buffer[f]);
            } else {
                assert(is_frame(e, t) && t < j && g.has_edge(e.buffer[t], e.buffer[j]));
            }
        }
    }
    assert(inv_chain(g, e)) by {
        reveal(inv_chain);
        assert forall|f: int, j: int|
            #![trigger is_frame(e, f), e.buffer[j]]
            is_frame(e, f) && f < j < e.buffer.len() implies g.reachable(
            e.buffer[f],
            e.buffer[j],
        ) by {
            if f == t {
                g.lemma_reachable_refl(u);
                g.lemma_reachable_step(u, u, e.buffer[j]);
            } else {
                assert(is_frame(w, f));
                assert(e.buffer[f] == w.buffer[f]);
                if j < w.buffer.len() {
                    assert(e.buffer[j] == w.buffer[j]);
                    assert(g.reachable(w.buffer[f], w.buffer[j]));
                } else {
                    assert(g.reachable(w.buffer[f], w.buffer[t]));
                    g.lemma_reachable_step(w.buffer[f], u, e.buffer[j]);
                }
            }
        }
    }
    assert(inv_closed(g, e)) by {
        reveal(inv_closed);
    }
}

/// The walk up to the next node that is emitted keeps what holds of it; that node is one
/// that the entry node reaches.
pub proof fn lemma_walk_next<NL, EL>(g: GraphView<NL, EL>, s: usize, w: Walk, out: Seq<usize>)
    requires
        walk_inv(g, s, w, out),
    ensures
        match walk_next(g, w).1 {
            Some(id) => walk_inv(g, s, walk_next(g, w).0, out.push(id)) && g.reachable(s, id),
            None => walk_inv(g, s, walk_next(g, w).0, out) && walk_next(g, w).0.buffer.len() == 0,
        },
    decreases unvisited(w.visited).len(), w.buffer.len(),
{
    if w.buffer.len() > 0 {
        let id = w.buffer.last();
        if !w.visited.contains(id) {
            lemma_unvisited_insert(w.visited, id);
            lemma_walk_expand(g, s, w, out);
            lemma_walk_next(g, s, expand(g, w), out);
        } else if w.processed.contains(id) {
            lemma_walk_skip(g, s, w, out);
            lemma_walk_next(g, s, w.popped(), out);
        } else {
            lemma_walk_emit(g, s, w, out);
        }
    }
}

/// `po` is a post-order of the depth-first traversal of `g` from its entry node: it holds
/// every node that the entry node reaches exactly once, and no other node; an edge from a
/// node of `po` leads to a node that comes no later, or to one that comes later and
/// reaches it; the entry node comes last; and every other node has a predecessor that
/// comes later.
pub open spec fn is_post_order<NL, EL>(g: GraphView<NL, EL>, po: Seq<usize>) -> bool {
    &&& po.no_duplicates()
    &&& po.to_set() == g.reachable_set()
    &&& forall|i: int, v: usize|
        0 <= i < po.len() && #[trigger] g.has_edge(po[i], v) ==> po.take(i + 1).contains(v) || (
        g.reachable(v, po[i]) && po.skip(i + 1).contains(v))
    &&& po.len() > 0 ==> g.start == Some(po.last())
    &&& forall|i: int| 0 <= i < po.len() - 1 ==> #[trigger] has_later_predecessor(g, po, i)
}

/// Some predecessor of `po[i]` comes later in `po`.
pub open spec fn has_later_predecessor<NL, EL>(g: GraphView<NL, EL>, po: Seq<usize>, i: int) -> bool {
    exists|x: usize| #[trigger] g.has_edge(x, po[i]) && po.skip(i + 1).contains(x)
}

/// When the buffer is empty, the nodes that were emitted are a post-order.
proof fn lemma_walk_done<NL, EL>(g: GraphView<NL, EL>, s: usize, w: Walk, out: Seq<usize>)
    requires
        g.start == Some(s),
        walk_inv(g, s, w, out),
        w.buffer.len() == 0,
    ensures
        is_post_order(g, out),
{
    reveal(emitted_ok);
    reveal(inv_active);
    reveal(inv_closed);
    let none = Set::<usize>::empty();
    assert(active(w) =~= none) by {
        assert forall|a: usize| !active(w).contains(a) by {
            if active(w).contains(a) {
                assert(w.buffer.contains(a));
            }
        }
    }
    assert forall|v: usize| w.visited.contains(v) implies w.processed.contains(v) by {
        assert(!active(w).contains(v));
    }
    assert(w.visited =~= w.processed);
    assert(g.closed_under_edges(w.visited));
    assert forall|v: usize| g.reachable_set().contains(v) implies w.visited.contains(v) by {
        g.lemma_closed_holds_reachable(w.visited, s, v);
    }
    assert(out.to_set() =~= g.reachable_set());
    assert forall|i: int, v: usize|
        0 <= i < out.len() && #[trigger] g.has_edge(out[i], v) implies out.take(i + 1).contains(v)
        || (g.reachable(v, out[i]) && out.skip(i + 1).contains(v)) by {
        assert(edge_ok(g, out, none, i, v));
    }
    assert forall|i: int| 0 <= i < out.len() - 1 implies #[trigger] has_later_predecessor(
        g,
        out,
        i,
    ) by {
        assert(out[i] != out[out.len() - 1]);
        assert(parent_ok(g, out, none, i));
        let x = choose|x: usize|
            #[trigger] g.has_edge(x, out[i]) && (none.contains(x) || out.skip(i + 1).contains(x));
        assert(g.has_edge(x, out[i]) && out.skip(i + 1).contains(x));
    }
}

/// From a state of the traversal on, the nodes emitted before and after make up a
/// post-order.
proof fn lemma_walk_rest<NL, EL>(g: GraphView<NL, EL>, s: usize, w: Walk, out: Seq<usize>)
    requires
        g.start == Some(s),
        g.entry_closed(),
        walk_inv(g, s, w, out),
    ensures
        is_post_order(g, out + walk_rest(g, w)),
    decreases unvisited(w.processed).len(),
{
    lemma_walk_next(g, s, w, out);
    lemma_walk_next_emits(g, w);
    let next = walk_next(g, w).0;
    match walk_next(g, w).1 {
        None => {
            lemma_walk_done(g, s, next, out);
            assert(out + walk_rest(g, w) =~= out);
        },
        Some(id) => {
            assert(g.reachable_set().contains(id));
            assert(g.nodes.contains_key(id));
            lemma_unvisited_insert(w.processed, id);
            lemma_walk_rest(g, s, next, out.push(id));
            assert(out + walk_rest(g, w) =~= out.push(id) + walk_rest(g, next));
        },
    }
}

/// The post-order of a graph is a post-order of its depth-first traversal, provided that
/// every node that the entry node reaches is in the graph.
pub proof fn lemma_post_order<NL, EL>(g: GraphView<NL, EL>)
    requires
        g.entry_closed(),
    ensures
        is_post_order(g, post_order(g)),
{
    let w = first_walk(g);
    let none = Seq::<usize>::empty();
    match g.start {
        None => {
            assert(post_order(g) =~= none);
            assert(none.to_set() =~= g.reachable_set());
        },
        Some(s) => {
            lemma_frame_bounds(w);
            g.lemma_reachable_refl(s);
            assert(w.buffer[0] == s);
            assert(none.to_set() =~= w.processed);
            assert(emitted_ok(g, s, none, active(w))) by {
                reveal(emitted_ok);
            }
            assert(inv_active(w)) by {
                reveal(inv_active);
            }
            assert(inv_cover(g, w)) by {
                reveal(inv_cover);
            }
            assert(inv_parent(g, w)) by {
                reveal(inv_parent);
            }
            assert(inv_chain(g, w)) by {
                reveal(inv_chain);
            }
            assert(inv_closed(g, w)) by {
                reveal(inv_closed);
            }
            lemma_walk_rest(g, s, w, none);
            assert(none + walk_rest(g, w) =~= post_order(g));
        },
    }
}

/// The post-order of a graph whose nodes can be counted in a `usize` is no longer than that,
/// provided that every node that the entry node reaches is in the graph.
pub proof fn lemma_post_order_fits<NL, EL>(g: GraphView<NL, EL>)
    requires
        g.entry_closed(),
        g.fits(),
    ensures
        post_order(g).len() <= usize::MAX,
{
    lemma_post_order(g);
    let po = post_order(g);
    po.unique_seq_to_set();
    assert(po.to_set().subset_of(g.nodes.dom()));
    vstd::set_lib::lemma_len_subset(po.to_set(), g.nodes.dom());
}

} // verus!
