//! A test of whether the nodes of a graph can be painted in two colours so that every edge
//! joins two colours.
use crate::graph::{DiGraph, GraphView};
use crate::order::lemma_ascending;
use crate::traversal::{lemma_unvisited_insert, unvisited};
use std::collections::HashMap;
use vstd::prelude::*;

verus! {

broadcast use vstd::std_specs::hash::group_hash_axioms;

/// The colour of a node.
#[derive(PartialEq, Eq, Structural, Clone, Copy, Debug)]
pub enum Color {
    NoColor,
    Black,
    White,
}

impl Color {
    /// The other colour; black for a node without colour.
    pub open spec fn switched(self) -> Color {
        match self {
            Color::NoColor => Color::Black,
            Color::White => Color::Black,
            Color::Black => Color::White,
        }
    }

    /// One of the two is black and the other white.
    pub open spec fn opposite(self, color: Color) -> bool {
        (self == Color::White && color == Color::Black) || (self == Color::Black && color
            == Color::White)
    }

    pub fn switch(&self) -> (c: Color)
        ensures
            c == self.switched(),
    {
        match self {
            Color::NoColor => Color::Black,
            Color::White => Color::Black,
            Color::Black => Color::White,
        }
    }

    pub fn is_opposite(&self, color: &Color) -> (r: bool)
        ensures
            r == self.opposite(*color),
    {
        match (self, color) {
            (Color::White, Color::Black) => true,
            (Color::Black, Color::White) => true,
            _ => false,
        }
    }
}

/// The node `v` has a colour.
pub open spec fn painted(colors: Map<usize, Color>, v: usize) -> bool {
    colors.contains_key(v) && colors[v] != Color::NoColor
}

/// The nodes that have a colour.
pub open spec fn painted_set(colors: Map<usize, Color>) -> Set<usize> {
    Set::new(|v: usize| painted(colors, v))
}

/// Both nodes have a colour, one black and the other white.
pub open spec fn opposite_at(colors: Map<usize, Color>, a: usize, b: usize) -> bool {
    colors.contains_key(a) && colors.contains_key(b) && colors[a].opposite(colors[b])
}

/// The colour that a successor of `id` gets.
pub open spec fn next_color(colors: Map<usize, Color>, id: usize) -> Color {
    if colors.contains_key(id) {
        colors[id].switched()
    } else {
        Color::Black
    }
}

/// The colours of the nodes, and the nodes whose successors are still to be looked at.
pub struct Painting {
    pub colors: Map<usize, Color>,
    pub queue: Seq<usize>,
}

impl Painting {
    /// Bounds the number of steps that are left.
    pub open spec fn weight(self) -> nat {
        unvisited(painted_set(self.colors)).len() + self.queue.len()
    }
}

/// Looks at the successors `succs[k..]` of `id` in turn: one without colour gets the other
/// colour than `id` and joins the queue; one with the colour of `id` ends the look with
/// `false`.
pub open spec fn look(p: Painting, id: usize, succs: Seq<usize>, k: nat) -> (Painting, bool)
    decreases succs.len() - k,
{
    if k >= succs.len() {
        (p, true)
    } else {
        let ss = succs[k as int];
        if !painted(p.colors, ss) {
            look(
                Painting {
                    colors: p.colors.insert(ss, next_color(p.colors, id)),
                    queue: p.queue.push(ss),
                },
                id,
                succs,
                k + 1,
            )
        } else if !opposite_at(p.colors, id, ss) {
            (p, false)
        } else {
            look(p, id, succs, k + 1)
        }
    }
}

/// A look that ends well leaves the weight as it is; in any case the colours that were
/// given stay.
pub proof fn lemma_look(p: Painting, id: usize, succs: Seq<usize>, k: nat)
    ensures
        look(p, id, succs, k).1 ==> look(p, id, succs, k).0.weight() == p.weight(),
        forall|v: usize| #[trigger]
            painted(p.colors, v) ==> painted(look(p, id, succs, k).0.colors, v) && look(
                p,
                id,
                succs,
                k,
            ).0.colors[v] == p.colors[v],
    decreases succs.len() - k,
{
    if k < succs.len() {
        let ss = succs[k as int];
        if !painted(p.colors, ss) {
            let next = Painting {
                colors: p.colors.insert(ss, next_color(p.colors, id)),
                queue: p.queue.push(ss),
            };
            assert(painted_set(next.colors) =~= painted_set(p.colors).insert(ss));
            lemma_unvisited_insert(painted_set(p.colors), ss);
            lemma_look(next, id, succs, k + 1);
            assert forall|v: usize| #[trigger] painted(p.colors, v) implies painted(
                look(p, id, succs, k).0.colors,
                v,
            ) && look(p, id, succs, k).0.colors[v] == p.colors[v] by {
                assert(painted(next.colors, v));
            }
        } else if opposite_at(p.colors, id, ss) {
            lemma_look(p, id, succs, k + 1);
        }
    }
}

/// Looks at the successors of the nodes in the queue, the last first, until the queue is
/// empty or a look ends with `false`.
pub open spec fn spread<NL, EL>(g: GraphView<NL, EL>, p: Painting) -> (Map<usize, Color>, bool)
    decreases p.weight(),
{
    if p.queue.len() == 0 {
        (p.colors, true)
    } else {
        let id = p.queue.last();
        let rest = Painting { colors: p.colors, queue: p.queue.drop_last() };
        let (next, ok) = look(rest, id, g.successor_seq(id), 0);
        if !ok {
            (next.colors, false)
        } else {
            proof {
                lemma_look(rest, id, g.successor_seq(id), 0);
            }
            spread(g, next)
        }
    }
}

/// Gives each of the nodes `ids[i..]` that has no colour yet the colour black and spreads
/// the colours from it, until all have a colour or a look ends with `false`.
pub open spec fn scan<NL, EL>(
    g: GraphView<NL, EL>,
    colors: Map<usize, Color>,
    ids: Seq<usize>,
    i: nat,
) -> (Map<usize, Color>, bool)
    decreases ids.len() - i,
{
    if i >= ids.len() {
        (colors, true)
    } else {
        let nid = ids[i as int];
        if !painted(colors, nid) {
            let (next, ok) = spread(
                g,
                Painting { colors: colors.insert(nid, Color::Black), queue: seq![nid] },
            );
            if !ok {
                (next, false)
            } else {
                scan(g, next, ids, i + 1)
            }
        } else {
            scan(g, colors, ids, i + 1)
        }
    }
}

/// Every edge from a node with a colour leads to a node with the other colour.
pub open spec fn proper<NL, EL>(g: GraphView<NL, EL>, colors: Map<usize, Color>) -> bool {
    forall|u: usize, v: usize|
        painted(colors, u) && #[trigger] g.has_edge(u, v) ==> opposite_at(colors, u, v)
}

/// The nodes in the queue have a colour, and every edge from a node with a colour that is
/// neither `skip` nor in the queue leads to a node with the other colour.
pub open spec fn paint_inv<NL, EL>(g: GraphView<NL, EL>, p: Painting, skip: Option<usize>) -> bool {
    &&& forall|i: int| 0 <= i < p.queue.len() ==> painted(p.colors, #[trigger] p.queue[i])
    &&& forall|u: usize, v: usize|
        painted(p.colors, u) && skip != Some(u) && !p.queue.contains(u) && #[trigger] g.has_edge(
            u,
            v,
        ) ==> opposite_at(p.colors, u, v)
}

/// A look that ends well at the successors of a node with a colour leaves each of them
/// with the other colour.
pub proof fn lemma_look_proper<NL, EL>(g: GraphView<NL, EL>, p: Painting, id: usize, k: nat)
    requires
        painted(p.colors, id),
        paint_inv(g, p, Some(id)),
        k <= g.successor_seq(id).len(),
        forall|j: int| 0 <= j < k ==> opposite_at(p.colors, id, #[trigger] g.successor_seq(id)[j]),
    ensures
        look(p, id, g.successor_seq(id), k).1 ==> {
            let after = look(p, id, g.successor_seq(id), k).0;
            &&& paint_inv(g, after, Some(id))
            &&& painted(after.colors, id)
            &&& forall|j: int|
                0 <= j < g.successor_seq(id).len() ==> opposite_at(
                    after.colors,
                    id,
                    #[trigger] g.successor_seq(id)[j],
                )
        },
    decreases g.successor_seq(id).len() - k,
{
    let succs = g.successor_seq(id);
    if k < succs.len() {
        let ss = succs[k as int];
        if !painted(p.colors, ss) {
            let next = Painting {
                colors: p.colors.insert(ss, next_color(p.colors, id)),
                queue: p.queue.push(ss),
            };
            assert(next.queue[p.queue.len() as int] == ss);
            assert forall|i: int| 0 <= i < next.queue.len() implies painted(
                next.colors,
                #[trigger] next.queue[i],
            ) by {
                if i < p.queue.len() {
                    assert(painted(p.colors, p.queue[i]));
                }
            }
            assert forall|u: usize, v: usize|
                painted(next.colors, u) && Some(id) != Some(u) && !next.queue.contains(u)
                    && #[trigger] g.has_edge(u, v) implies opposite_at(next.colors, u, v) by {
                assert(u != ss);
                if p.queue.contains(u) {
                    let i = choose|i: int| 0 <= i < p.queue.len() && p.queue[i] == u;
                    assert(next.queue[i] == u);
                }
                assert(opposite_at(p.colors, u, v));
            }
            assert forall|j: int| 0 <= j < k + 1 implies opposite_at(
                next.colors,
                id,
                #[trigger] succs[j],
            ) by {
                if j < k {
                    assert(opposite_at(p.colors, id, succs[j]));
                }
            }
            lemma_look_proper(g, next, id, k + 1);
        } else if opposite_at(p.colors, id, ss) {
            lemma_look_proper(g, p, id, k + 1);
        }
    }
}

/// When the colours were spread without a look that ended with `false`, every edge from a
/// node with a colour leads to a node with the other colour; the colours that were given
/// before stay.
pub proof fn lemma_spread_proper<NL, EL>(g: GraphView<NL, EL>, p: Painting)
    requires
        paint_inv(g, p, None),
    ensures
        spread(g, p).1 ==> proper(g, spread(g, p).0),
        forall|v: usize| #[trigger]
            painted(p.colors, v) ==> painted(spread(g, p).0, v) && spread(g, p).0[v]
                == p.colors[v],
    decreases p.weight(),
{
    if p.queue.len() > 0 {
        let id = p.queue.last();
        let succs = g.successor_seq(id);
        let rest = Painting { colors: p.colors, queue: p.queue.drop_last() };
        let (next, ok) = look(rest, id, succs, 0);
        lemma_look(rest, id, succs, 0);
        assert(painted(p.colors, p.queue[p.queue.len() - 1]));
        assert(paint_inv(g, rest, Some(id))) by {
            assert forall|i: int| 0 <= i < rest.queue.len() implies painted(
                rest.colors,
                #[trigger] rest.queue[i],
            ) by {
                assert(painted(p.colors, p.queue[i]));
            }
            assert forall|u: usize, v: usize|
                painted(rest.colors, u) && Some(id) != Some(u) && !rest.queue.contains(u)
                    && #[trigger] g.has_edge(u, v) implies opposite_at(rest.colors, u, v) by {
                if p.queue.contains(u) {
                    let i = choose|i: int| 0 <= i < p.queue.len() && p.queue[i] == u;
                    assert(rest.queue[i] == u);
                }
            }
        }
        if ok {
            lemma_look_proper(g, rest, id, 0);
            assert(paint_inv(g, next, None)) by {
                lemma_ascending(g.successors(id));
                assert forall|u: usize, v: usize|
                    painted(next.colors, u) && !next.queue.contains(u) && #[trigger] g.has_edge(
                        u,
                        v,
                    ) implies opposite_at(next.colors, u, v) by {
                    if u == id {
                        assert(succs.contains(v));
                        let j = choose|j: int| 0 <= j < succs.len() && succs[j] == v;
                        assert(opposite_at(next.colors, id, succs[j]));
                    }
                }
            }
            lemma_spread_proper(g, next);
            assert forall|v: usize| #[trigger] painted(p.colors, v) implies painted(
                spread(g, p).0,
                v,
            ) && spread(g, p).0[v] == p.colors[v] by {
                assert(painted(rest.colors, v));
                assert(painted(next.colors, v));
            }
        }
    }
}

/// When the scan ends without a look that ended with `false`, every edge from a node with
/// a colour leads to a node with the other colour, and each of the nodes `ids[i..]` has a
/// colour; the colours that were given before stay.
pub proof fn lemma_scan_proper<NL, EL>(
    g: GraphView<NL, EL>,
    colors: Map<usize, Color>,
    ids: Seq<usize>,
    i: nat,
)
    requires
        proper(g, colors),
    ensures
        scan(g, colors, ids, i).1 ==> proper(g, scan(g, colors, ids, i).0),
        scan(g, colors, ids, i).1 ==> forall|j: int|
            i <= j < ids.len() ==> painted(scan(g, colors, ids, i).0, #[trigger] ids[j]),
        scan(g, colors, ids, i).1 ==> forall|v: usize| #[trigger]
            painted(colors, v) ==> painted(scan(g, colors, ids, i).0, v) && scan(
                g,
                colors,
                ids,
                i,
            ).0[v] == colors[v],
    decreases ids.len() - i,
{
    if i < ids.len() {
        let nid = ids[i as int];
        if !painted(colors, nid) {
            let first = Painting { colors: colors.insert(nid, Color::Black), queue: seq![nid] };
            let (next, ok) = spread(g, first);
            assert(paint_inv(g, first, None)) by {
                assert forall|u: usize, v: usize|
                    painted(first.colors, u) && !first.queue.contains(u) && #[trigger] g.has_edge(
                        u,
                        v,
                    ) implies opposite_at(first.colors, u, v) by {
                    assert(first.queue[0] == nid);
                    assert(u != nid);
                    assert(opposite_at(colors, u, v));
                }
            }
            lemma_spread_proper(g, first);
            if ok {
                lemma_scan_proper(g, next, ids, i + 1);
                assert(painted(first.colors, nid));
                assert(painted(next, nid));
                if scan(g, colors, ids, i).1 {
                    assert forall|v: usize| #[trigger] painted(colors, v) implies painted(
                        scan(g, colors, ids, i).0,
                        v,
                    ) && scan(g, colors, ids, i).0[v] == colors[v] by {
                        assert(painted(first.colors, v));
                        assert(painted(next, v));
                    }
                }
            }
        } else {
            lemma_scan_proper(g, colors, ids, i + 1);
        }
    }
}

/// The colours that the nodes of `g` have before any was painted.
pub open spec fn blank<NL, EL>(g: GraphView<NL, EL>) -> Map<usize, Color> {
    Map::new(|v: usize| g.nodes.contains_key(v), |v: usize| Color::NoColor)
}

/// When the test finds that the nodes of a graph can be painted in two colours, it has
/// painted every node, and every edge from a node with a colour leads to a node with the
/// other colour.
pub proof fn lemma_bipartite_sound<NL, EL>(g: GraphView<NL, EL>)
    ensures
        scan(g, blank(g), g.node_seq(), 0).1 ==> {
            let colors = scan(g, blank(g), g.node_seq(), 0).0;
            &&& proper(g, colors)
            &&& forall|n: usize| g.nodes.contains_key(n) ==> #[trigger] painted(colors, n)
        },
{
    lemma_scan_proper(g, blank(g), g.node_seq(), 0);
    lemma_ascending(g.nodes.dom());
    if scan(g, blank(g), g.node_seq(), 0).1 {
        let colors = scan(g, blank(g), g.node_seq(), 0).0;
        assert forall|n: usize| g.nodes.contains_key(n) implies #[trigger] painted(colors, n) by {
            assert(g.node_seq().contains(n));
            let j = choose|j: int| 0 <= j < g.node_seq().len() && g.node_seq()[j] == n;
            assert(painted(colors, g.node_seq()[j]));
        }
    }
}

/// Finds out whether the nodes of a graph can be painted in two colours.
pub struct Bipartite<'a, NL, EL> {
    graph: &'a DiGraph<NL, EL>,
    colors: HashMap<usize, Color>,
}

impl<'a, NL, EL> View for Bipartite<'a, NL, EL> {
    type V = Map<usize, Color>;

    /// The colours of the nodes.
    closed spec fn view(&self) -> Map<usize, Color> {
        self.colors@
    }
}

impl<'a, NL, EL> Bipartite<'a, NL, EL> {
    /// The graph that is painted.
    pub closed spec fn graph(&self) -> GraphView<NL, EL> {
        self.graph@
    }

    fn is_opposite(&self, lhs: &usize, rhs: &usize) -> (r: bool)
        ensures
            r == opposite_at(self@, *lhs, *rhs),
    {
        match (self.colors.get(lhs), self.colors.get(rhs)) {
            (Some(l), Some(r)) => l.is_opposite(r),
            _ => false,
        }
    }

    fn not_visited(&self, nid: &usize) -> (r: bool)
        ensures
            r == !painted(self@, *nid),
    {
        match self.colors.get(nid) {
            None => true,
            Some(Color::NoColor) => true,
            _ => false,
        }
    }

    /// Every node of `graph` starts without colour.
    pub fn new(graph: &'a DiGraph<NL, EL>) -> (r: Self)
        ensures
            r.graph() == graph@,
            r@ == blank(graph@),
    {
        let ids = graph.node_ids();
        let mut colors: HashMap<usize, Color> = HashMap::new();
        let mut i: usize = 0;
        while i < ids.len()
            invariant
                i <= ids.len(),
                colors@ == Map::new(
                    |v: usize| ids@.take(i as int).contains(v),
                    |v: usize| Color::NoColor,
                ),
            decreases ids.len() - i,
        {
            colors.insert(ids[i], Color::NoColor);
            proof {
                let now = ids@.take(i + 1);
                let before = ids@.take(i as int);
                assert(now =~= before.push(ids@[i as int]));
                assert forall|v: usize| now.contains(v) <==> before.contains(v) || v
                    == ids@[i as int] by {
                    if now.contains(v) {
                        let k = choose|k: int| 0 <= k < now.len() && now[k] == v;
                        if k < i {
                            assert(before[k] == v);
                        }
                    }
                    if before.contains(v) {
                        let k = choose|k: int| 0 <= k < before.len() && before[k] == v;
                        assert(now[k] == v);
                    }
                    assert(now[i as int] == ids@[i as int]);
                }
                assert(colors@ =~= Map::new(
                    |v: usize| ids@.take(i + 1).contains(v),
                    |v: usize| Color::NoColor,
                ));
            }
            i += 1;
        }
        proof {
            lemma_ascending(graph@.nodes.dom());
            assert(ids@.take(ids.len() as int) =~= ids@);
            assert(colors@ =~= Map::new(
                |v: usize| graph@.nodes.contains_key(v),
                |v: usize| Color::NoColor,
            ));
        }
        Self { graph, colors }
    }

    fn has_odd_cycles(&mut self, id: usize) -> (r: bool)
        ensures
            final(self).graph() == old(self).graph(),
            (final(self)@, !r) == spread(
                old(self).graph(),
                Painting { colors: old(self)@, queue: seq![id] },
            ),
    {
        !self.has_no_odd_cycles(id)
    }

    fn has_no_odd_cycles(&mut self, id: usize) -> (r: bool)
        ensures
            final(self).graph() == old(self).graph(),
            (final(self)@, r) == spread(
                old(self).graph(),
                Painting { colors: old(self)@, queue: seq![id] },
            ),
    {
        let ghost g = self.graph();
        let ghost goal = spread(g, Painting { colors: self@, queue: seq![id] });
        let mut q: Vec<usize> = Vec::new();
        q.push(id);
        assert(q@ =~= seq![id]);
        loop
            invariant
                self.graph() == g,
                g == old(self).graph(),
                goal == spread(g, Painting { colors: old(self)@, queue: seq![id] }),
                spread(g, Painting { colors: self@, queue: q@ }) == goal,
            decreases (Painting { colors: self@, queue: q@ }).weight(),
        {
            let ghost before = Painting { colors: self@, queue: q@ };
            match q.pop() {
                None => {
                    return true;
                },
                Some(node) => {
                    let succs = self.graph.successor_ids(&node);
                    let ghost rest = Painting { colors: self@, queue: q@ };
                    assert(q@ =~= before.queue.drop_last());
                    let mut k: usize = 0;
                    while k < succs.len()
                        invariant
                            k <= succs.len(),
                            self.graph() == g,
                            g == old(self).graph(),
                            goal == spread(g, Painting { colors: old(self)@, queue: seq![id] }),
                            spread(g, before) == goal,
                            before.queue.len() > 0,
                            node == before.queue.last(),
                            rest == (Painting {
                                colors: before.colors,
                                queue: before.queue.drop_last(),
                            }),
                            succs@ == g.successor_seq(node),
                            look(Painting { colors: self@, queue: q@ }, node, succs@, k as nat)
                                == look(rest, node, succs@, 0),
                        decreases succs.len() - k,
                    {
                        let ss = succs[k];
                        if self.not_visited(&ss) {
                            let color = match self.colors.get(&node) {
                                Some(c) => c.switch(),
                                None => Color::Black,
                            };
                            self.colors.insert(ss, color);
                            q.push(ss);
                        } else if !self.is_opposite(&node, &ss) {
                            return false;
                        }
                        k += 1;
                    }
                    proof {
                        lemma_look(rest, node, succs@, 0);
                    }
                },
            }
        }
    }

    /// Whether the nodes can be painted in two colours, as far as the colours given so far
    /// allow: each node without colour is painted black in turn, and the other colour is
    /// given to the successors of every node that was painted.
    pub fn bipartite(&mut self) -> (r: bool)
        ensures
            final(self).graph() == old(self).graph(),
            (final(self)@, r) == scan(old(self).graph(), old(self)@, old(self).graph().node_seq(), 0),
    {
        let ghost g = self.graph();
        let ids = self.graph.node_ids();
        let mut i: usize = 0;
        while i < ids.len()
            invariant
                i <= ids.len(),
                self.graph() == g,
                g == old(self).graph(),
                ids@ == g.node_seq(),
                scan(g, self@, ids@, i as nat) == scan(g, old(self)@, ids@, 0),
            decreases ids.len() - i,
        {
            let nid = ids[i];
            if self.not_visited(&nid) {
                self.colors.insert(nid, Color::Black);
                if self.has_odd_cycles(nid) {
                    return false;
                }
            }
            i += 1;
        }
        true
    }

    /// Whether the nodes cannot be painted in two colours.
    pub fn no_bipartite(&mut self) -> (r: bool)
        ensures
            final(self).graph() == old(self).graph(),
            (final(self)@, !r) == scan(
                old(self).graph(),
                old(self)@,
                old(self).graph().node_seq(),
                0,
            ),
    {
        !self.bipartite()
    }
}

} // verus!
