//! The set of nodes that a traversal has come across.
use std::collections::HashSet;
use vstd::prelude::*;

verus! {

broadcast use vstd::std_specs::hash::group_hash_axioms;

/// A record of the nodes that were visited.
pub trait Visited {
    /// The nodes visited so far.
    spec fn seen(&self) -> Set<usize>;

    /// Marks `v` as visited. Returns true if this is its first visit.
    fn visit(&mut self, v: &usize) -> (first: bool)
        ensures
            final(self).seen() == old(self).seen().insert(*v),
            first == !old(self).seen().contains(*v),
    ;

    /// `v` was visited.
    fn is_visited(&self, v: &usize) -> (r: bool)
        ensures
            r == self.seen().contains(*v),
    ;
}

/// The visited nodes, held in a hash set.
#[derive(Debug)]
pub struct VisitedSet {
    visited: HashSet<usize>,
}

impl Default for VisitedSet {
    fn default() -> (s: Self)
        ensures
            s.seen() == Set::<usize>::empty(),
    {
        Self { visited: HashSet::new() }
    }
}

impl Visited for VisitedSet {
    closed spec fn seen(&self) -> Set<usize> {
        self.visited@
    }

    fn visit(&mut self, v: &usize) -> (first: bool) {
        self.visited.insert(*v)
    }

    fn is_visited(&self, v: &usize) -> (r: bool) {
        self.visited.contains(v)
    }
}

} // verus!
