//! A first test of whether two graphs can be isomorphic.
use crate::graph::{DiGraph, GraphView};
use crate::order::{lemma_sorted_descending_unique, sort_descending};
use vstd::prelude::*;

verus! {

/// Two graphs have as many nodes, and as many nodes with each number of successors, counting
/// the nodes that have an entry among the edges.
pub open spec fn could_be_isomorphic<NL1, EL1, NL2, EL2>(
    lhs: GraphView<NL1, EL1>,
    rhs: GraphView<NL2, EL2>,
) -> bool {
    lhs.nodes.dom().len() == rhs.nodes.dom().len() && lhs.out_degrees().to_multiset()
        == rhs.out_degrees().to_multiset()
}

/// Compares the shape of two graphs.
pub struct IsomorphismAnalyzer<'a, NLlhs, NLrhs, ELlhs, ELrhs> {
    pub lhs: &'a DiGraph<NLlhs, ELlhs>,
    pub rhs: &'a DiGraph<NLrhs, ELrhs>,
}

impl<'a, NLlhs, NLrhs, ELlhs, ELrhs> IsomorphismAnalyzer<'a, NLlhs, NLrhs, ELlhs, ELrhs> {
    pub fn new(lhs: &'a DiGraph<NLlhs, ELlhs>, rhs: &'a DiGraph<NLrhs, ELrhs>) -> (r: Self)
        ensures
            r.lhs@ == lhs@,
            r.rhs@ == rhs@,
    {
        Self { lhs, rhs }
    }

    /// Whether the two graphs are isomorphic. No graphs are found to be so.
    pub fn test(&self) -> (r: bool)
        ensures
            !r,
    {
        false
    }

    /// Whether the two graphs have as many nodes and the same numbers of successors: if not,
    /// they are not isomorphic.
    pub fn could_be_iso(&self) -> (r: bool)
        ensures
            r == could_be_isomorphic(self.lhs@, self.rhs@),
    {
        if self.lhs.node_count() != self.rhs.node_count() {
            false
        } else {
            let rhs_degree = sort_descending(&self.rhs.out_degrees());
            let lhs_degree = sort_descending(&self.lhs.out_degrees());
            let same = same_elements(&lhs_degree, &rhs_degree);
            proof {
                if !same && self.lhs@.out_degrees().to_multiset()
                    == self.rhs@.out_degrees().to_multiset() {
                    lemma_sorted_descending_unique(lhs_degree@, rhs_degree@);
                }
            }
            same
        }
    }
}

/// Whether two vectors hold the same elements in the same order.
pub fn same_elements(a: &Vec<usize>, b: &Vec<usize>) -> (r: bool)
    ensures
        r == (a@ == b@),
{
    if a.len() != b.len() {
        return false;
    }
    let mut i: usize = 0;
    while i < a.len()
        invariant
            i <= a.len(),
            a.len() == b.len(),
            forall|k: int| 0 <= k < i ==> a@[k] == b@[k],
        decreases a.len() - i,
    {
        if a[i] != b[i] {
            return false;
        }
        i += 1;
    }
    assert(a@ =~= b@);
    true
}

} // verus!
