//! Lazy traversals of a graph: in increasing order of identifier, depth-first and
//! breadth-first from the entry node.
use crate::analyzer::visit::{Visited, VisitedSet};
use crate::graph::{DiGraph, GraphView};
use crate::postorder::{
    expand, first_walk, lemma_walk_next_emits, post_order, stack_up, walk_next, walk_rest, Walk,
};
use crate::traversal::{
    advance, breadth_first_order, depth_first_order, first_frontier, lemma_advance_weight,
    lemma_unvisited_insert, remaining_order, unvisited, Frontier,
};
use std::collections::VecDeque;
use vstd::prelude::*;

verus! {

/// The nodes of a graph in increasing order of identifier.
pub struct NodeIteratorPlain<'a, NL, EL> {
    graph: &'a DiGraph<NL, EL>,
    ids: Vec<usize>,
    pos: usize,
}

impl<'a, NL, EL> NodeIteratorPlain<'a, NL, EL> {
    /// The graph that is walked.
    pub closed spec fn graph(&self) -> GraphView<NL, EL> {
        self.graph@
    }

    /// The nodes that are still to come.
    pub closed spec fn remaining(&self) -> Seq<usize> {
        if self.pos <= self.ids@.len() {
            self.ids@.skip(self.pos as int)
        } else {
            Seq::empty()
        }
    }

    pub fn new(graph: &'a DiGraph<NL, EL>) -> (it: Self)
        ensures
            it.graph() == graph@,
            it.remaining() == graph@.node_seq(),
    {
        let ids = graph.node_ids();
        assert(ids@.skip(0) =~= ids@);
        Self { graph, ids, pos: 0 }
    }

    /// The next node with its payload; `None` at the end, and for a node that is not in the
    /// graph.
    pub fn next(&mut self) -> (r: Option<(usize, &'a NL)>)
        ensures
            final(self).graph() == old(self).graph(),
            old(self).remaining().len() == 0 ==> r is None && final(self).remaining()
                == old(self).remaining(),
            old(self).remaining().len() > 0 ==> {
                let id = old(self).remaining().first();
                &&& final(self).remaining() == old(self).remaining().drop_first()
                &&& match r {
                    Some((i, nl)) => i == id && old(self).graph().nodes.contains_key(id) && *nl
                        == old(self).graph().nodes[id],
                    None => !old(self).graph().nodes.contains_key(id),
                }
            },
    {
        if self.pos < self.ids.len() {
            let id = self.ids[self.pos];
            self.pos = self.pos + 1;
            assert(self.remaining() =~= old(self).remaining().drop_first());
            self.graph.node_by_id(&id)
        } else {
            None
        }
    }
}

/// The depth-first traversal of a graph from its entry node.
pub struct NodeIteratorDF<'a, NL, EL> {
    graph: &'a DiGraph<NL, EL>,
    visited: VisitedSet,
    line: Vec<usize>,
}

impl<'a, NL, EL> View for NodeIteratorDF<'a, NL, EL> {
    type V = Frontier;

    closed spec fn view(&self) -> Frontier {
        Frontier { visited: self.visited.seen(), line: self.line@ }
    }
}

impl<'a, NL, EL> NodeIteratorDF<'a, NL, EL> {
    /// The graph that is walked.
    pub closed spec fn graph(&self) -> GraphView<NL, EL> {
        self.graph@
    }

    pub fn new(graph: &'a DiGraph<NL, EL>) -> (it: Self)
        ensures
            it.graph() == graph@,
            it@ == first_frontier(graph@),
    {
        let mut visited = VisitedSet::default();
        let mut line: Vec<usize> = Vec::new();
        match graph.start() {
            Some(s) => {
                visited.visit(s);
                line.push(*s);
                assert(line@ =~= seq![*s]);
            },
            None => {},
        }
        Self { graph, visited, line }
    }

    /// Emits the last node of the line with its payload, and visits its successors. `None`
    /// when the line is empty, and for a node that is not in the graph.
    pub fn next(&mut self) -> (r: Option<(usize, &'a NL)>)
        ensures
            final(self).graph() == old(self).graph(),
            final(self)@ == advance(old(self).graph(), old(self)@, false),
            match r {
                Some((id, nl)) => {
                    &&& old(self)@.line.len() > 0
                    &&& id == old(self)@.head(false)
                    &&& old(self).graph().nodes.contains_key(id)
                    &&& *nl == old(self).graph().nodes[id]
                },
                None => old(self)@.line.len() == 0 || !old(self).graph().nodes.contains_key(
                    old(self)@.head(false),
                ),
            },
    {
        match self.line.pop() {
            Some(node) => {
                let succs = self.graph.successor_ids(&node);
                let ghost base = Frontier { visited: old(self)@.visited, line: old(self)@.tail(false) };
                assert(self.line@ =~= old(self)@.tail(false));
                let mut j: usize = 0;
                while j < succs.len()
                    invariant
                        j <= succs.len(),
                        self.graph == old(self).graph,
                        self@ == base.enqueue(succs@, j as nat),
                    decreases succs.len() - j,
                {
                    let s = succs[j];
                    let ghost prior = self@;
                    if self.visited.visit(&s) {
                        self.line.push(s);
                    }
                    proof {
                        assert(self@.visited =~= prior.touch(s).visited);
                        assert(self@.line =~= prior.touch(s).line);
                        assert(base.enqueue(succs@, (j + 1) as nat) == prior.touch(s));
                    }
                    j += 1;
                }
                self.graph.node_by_id(&node)
            },
            None => None,
        }
    }

    /// Runs the traversal to its end: the nodes that it emits from here on, up to the first
    /// that is not in the graph.
    pub fn collect_ids(self) -> (r: Vec<usize>)
        ensures
            r@ == remaining_order(self.graph(), self@, false),
    {
        let mut it = self;
        let mut out: Vec<usize> = Vec::new();
        loop
            invariant_except_break
                it.graph() == self.graph(),
                out@ + remaining_order(it.graph(), it@, false) == remaining_order(
                    self.graph(),
                    self@,
                    false,
                ),
            ensures
                out@ == remaining_order(self.graph(), self@, false),
            decreases it@.weight(),
        {
            let ghost before = it@;
            match it.next() {
                Some((id, _)) => {
                    proof {
                        lemma_advance_weight(it.graph(), before, false);
                        assert(out@.push(id) + remaining_order(it.graph(), it@, false) =~= out@
                            + remaining_order(it.graph(), before, false));
                    }
                    out.push(id);
                },
                None => {
                    assert(out@ + Seq::<usize>::empty() =~= out@);
                    break ;
                },
            }
        }
        out
    }
}

/// The breadth-first traversal of a graph from its entry node.
pub struct NodeIteratorBF<'a, NL, EL> {
    graph: &'a DiGraph<NL, EL>,
    visited: VisitedSet,
    line: VecDeque<usize>,
}

impl<'a, NL, EL> View for NodeIteratorBF<'a, NL, EL> {
    type V = Frontier;

    closed spec fn view(&self) -> Frontier {
        Frontier { visited: self.visited.seen(), line: self.line@ }
    }
}

impl<'a, NL, EL> NodeIteratorBF<'a, NL, EL> {
    /// The graph that is walked.
    pub closed spec fn graph(&self) -> GraphView<NL, EL> {
        self.graph@
    }

    pub fn new(graph: &'a DiGraph<NL, EL>) -> (it: Self)
        ensures
            it.graph() == graph@,
            it@ == first_frontier(graph@),
    {
        let mut visited = VisitedSet::default();
        let mut line: VecDeque<usize> = VecDeque::new();
        match graph.start() {
            Some(s) => {
                visited.visit(s);
                line.push_back(*s);
                assert(line@ =~= seq![*s]);
            },
            None => {},
        }
        Self { graph, visited, line }
    }

    /// Emits the first node of the line with its payload, and visits its successors. `None`
    /// when the line is empty, and for a node that is not in the graph.
    pub fn next(&mut self) -> (r: Option<(usize, &'a NL)>)
        ensures
            final(self).graph() == old(self).graph(),
            final(self)@ == advance(old(self).graph(), old(self)@, true),
            match r {
                Some((id, nl)) => {
                    &&& old(self)@.line.len() > 0
                    &&& id == old(self)@.head(true)
                    &&& old(self).graph().nodes.contains_key(id)
                    &&& *nl == old(self).graph().nodes[id]
                },
                None => old(self)@.line.len() == 0 || !old(self).graph().nodes.contains_key(
                    old(self)@.head(true),
                ),
            },
    {
        match self.line.pop_front() {
            Some(node) => {
                let succs = self.graph.successor_ids(&node);
                let ghost base = Frontier { visited: old(self)@.visited, line: old(self)@.tail(true) };
                assert(self.line@ =~= old(self)@.tail(true));
                let mut j: usize = 0;
                while j < succs.len()
                    invariant
                        j <= succs.len(),
                        self.graph == old(self).graph,
                        self@ == base.enqueue(succs@, j as nat),
                    decreases succs.len() - j,
                {
                    let s = succs[j];
                    let ghost prior = self@;
                    if self.visited.visit(&s) {
                        self.line.push_back(s);
                    }
                    proof {
                        assert(self@.visited =~= prior.touch(s).visited);
                        assert(self@.line =~= prior.touch(s).line);
                        assert(base.enqueue(succs@, (j + 1) as nat) == prior.touch(s));
                    }
                    j += 1;
                }
                self.graph.node_by_id(&node)
            },
            None => None,
        }
    }

    /// Runs the traversal to its end: the nodes that it emits from here on, up to the first
    /// that is not in the graph.
    pub fn collect_ids(self) -> (r: Vec<usize>)
        ensures
            r@ == remaining_order(self.graph(), self@, true),
    {
        let mut it = self;
        let mut out: Vec<usize> = Vec::new();
        loop
            invariant_except_break
                it.graph() == self.graph(),
                out@ + remaining_order(it.graph(), it@, true) == remaining_order(
                    self.graph(),
                    self@,
                    true,
                ),
            ensures
                out@ == remaining_order(self.graph(), self@, true),
            decreases it@.weight(),
        {
            let ghost before = it@;
            match it.next() {
                Some((id, _)) => {
                    proof {
                        lemma_advance_weight(it.graph(), before, true);
                        assert(out@.push(id) + remaining_order(it.graph(), it@, true) =~= out@
                            + remaining_order(it.graph(), before, true));
                    }
                    out.push(id);
                },
                None => {
                    assert(out@ + Seq::<usize>::empty() =~= out@);
                    break ;
                },
            }
        }
        out
    }
}

/// The post-order depth-first traversal of a graph from its entry node.
pub struct NodeIteratorDFPostOrder<'a, NL, EL> {
    graph: &'a DiGraph<NL, EL>,
    visited: VisitedSet,
    processed: VisitedSet,
    buffer: Vec<usize>,
}

impl<'a, NL, EL> View for NodeIteratorDFPostOrder<'a, NL, EL> {
    type V = Walk;

    closed spec fn view(&self) -> Walk {
        Walk {
            visited: self.visited.seen(),
            processed: self.processed.seen(),
            buffer: self.buffer@,
        }
    }
}

impl<'a, NL, EL> NodeIteratorDFPostOrder<'a, NL, EL> {
    /// The graph that is walked.
    pub closed spec fn graph(&self) -> GraphView<NL, EL> {
        self.graph@
    }

    pub fn new(graph: &'a DiGraph<NL, EL>) -> (it: Self)
        ensures
            it.graph() == graph@,
            it@ == first_walk(graph@),
    {
        let mut buffer: Vec<usize> = Vec::new();
        match graph.start() {
            Some(s) => {
                buffer.push(*s);
                assert(buffer@ =~= seq![*s]);
            },
            None => {},
        }
        Self { graph, visited: VisitedSet::default(), processed: VisitedSet::default(), buffer }
    }

    /// Walks on to the next node that is emitted, and returns it with its payload. `None`
    /// when the traversal is over, and for a node that is not in the graph.
    pub fn next(&mut self) -> (r: Option<(usize, &'a NL)>)
        ensures
            final(self).graph() == old(self).graph(),
            final(self)@ == walk_next(old(self).graph(), old(self)@).0,
            match walk_next(old(self).graph(), old(self)@).1 {
                Some(id) => match r {
                    Some((i, nl)) => i == id && old(self).graph().nodes.contains_key(id) && *nl
                        == old(self).graph().nodes[id],
                    None => !old(self).graph().nodes.contains_key(id),
                },
                None => r is None,
            },
    {
        loop
            invariant
                self.graph == old(self).graph,
                walk_next(self.graph(), self@) == walk_next(old(self).graph(), old(self)@),
            decreases unvisited(self@.visited).len(), self.buffer.len(),
        {
            if self.buffer.len() == 0 {
                return None;
            }
            let id = self.buffer[self.buffer.len() - 1];
            let ghost before = self@;
            if self.visited.visit(&id) {
                let succs = self.graph.successor_ids(&id);
                let mut j: usize = 0;
                while j < succs.len()
                    invariant
                        j <= succs.len(),
                        self.graph == old(self).graph,
                        self@.visited == before.visited.insert(id),
                        self@.processed == before.processed,
                        self.buffer@ == stack_up(
                            before.buffer,
                            before.visited.insert(id),
                            succs@,
                            j as nat,
                        ),
                    decreases succs.len() - j,
                {
                    let s = succs[j];
                    if !self.visited.is_visited(&s) {
                        self.buffer.push(s);
                    }
                    j += 1;
                }
                proof {
                    lemma_unvisited_insert(before.visited, id);
                    assert(self@ == expand(self.graph(), before));
                }
            } else {
                self.buffer.pop();
                assert(self.buffer@ =~= before.buffer.drop_last());
                assert(self@.visited =~= before.visited);
                if self.processed.visit(&id) {
                    assert(self@ == before.popped().emit(id));
                    return self.graph.node_by_id(&id);
                }
                proof {
                    assert(self@.processed =~= before.processed);
                    assert(self@ == before.popped());
                }
            }
        }
    }

    /// Runs the traversal to its end: the nodes that it emits from here on, up to the first
    /// that is not in the graph.
    pub fn collect_ids(self) -> (r: Vec<usize>)
        ensures
            r@ == walk_rest(self.graph(), self@),
    {
        let mut it = self;
        let mut out: Vec<usize> = Vec::new();
        loop
            invariant_except_break
                it.graph() == self.graph(),
                out@ + walk_rest(it.graph(), it@) == walk_rest(self.graph(), self@),
            ensures
                out@ == walk_rest(self.graph(), self@),
            decreases unvisited(it@.processed).len(),
        {
            let ghost before = it@;
            proof {
                lemma_walk_next_emits(it.graph(), before);
            }
            match it.next() {
                Some((id, _)) => {
                    proof {
                        lemma_unvisited_insert(before.processed, id);
                        assert(out@.push(id) + walk_rest(it.graph(), it@) =~= out@ + walk_rest(
                            it.graph(),
                            before,
                        ));
                    }
                    out.push(id);
                },
                None => {
                    assert(out@ + Seq::<usize>::empty() =~= out@);
                    break ;
                },
            }
        }
        out
    }
}

impl<NL, EL> DiGraph<NL, EL> {
    /// The post-order depth-first traversal from the entry node.
    pub fn iter_df_post(&self) -> (it: NodeIteratorDFPostOrder<'_, NL, EL>)
        ensures
            it.graph() == self@,
            it@ == first_walk(self@),
            walk_rest(it.graph(), it@) == post_order(self@),
    {
        NodeIteratorDFPostOrder::new(self)
    }

    /// The nodes in increasing order of identifier.
    pub fn iter(&self) -> (it: NodeIteratorPlain<'_, NL, EL>)
        ensures
            it.graph() == self@,
            it.remaining() == self@.node_seq(),
    {
        NodeIteratorPlain::new(self)
    }

    /// The depth-first traversal from the entry node.
    pub fn iter_df(&self) -> (it: NodeIteratorDF<'_, NL, EL>)
        ensures
            it.graph() == self@,
            it@ == first_frontier(self@),
            remaining_order(it.graph(), it@, false) == depth_first_order(self@),
    {
        NodeIteratorDF::new(self)
    }

    /// The breadth-first traversal from the entry node.
    pub fn iter_bf(&self) -> (it: NodeIteratorBF<'_, NL, EL>)
        ensures
            it.graph() == self@,
            it@ == first_frontier(self@),
            remaining_order(it.graph(), it@, true) == breadth_first_order(self@),
    {
        NodeIteratorBF::new(self)
    }
}

} // verus!
