//! The rules by which random graphs are generated. The random draws themselves are made by
//! the caller, who asks these rules what to do with them.
use crate::graph::{DiGraph, GraphView};
use std::collections::HashMap;
use vstd::prelude::*;

verus! {

broadcast use vstd::std_specs::hash::group_hash_axioms;

/// Whether the graph has the edge back from `to` to `from`.
pub fn has_back_link<NL, EL>(g: &DiGraph<NL, EL>, from: &usize, to: &usize) -> (r: bool)
    ensures
        r == g@.has_edge(*to, *from),
{
    match g.edge(to, from) {
        Some(_) => true,
        None => false,
    }
}

/// The limits of the Erdős–Rényi model: whether a node may have an edge to itself, whether
/// an edge is left out where the graph has the edge back, and the greatest numbers of edges
/// that leave a node and that reach a node (zero for no limit).
#[derive(Clone, Copy, Debug)]
pub struct ErLimits {
    pub self_conn: bool,
    pub back_strict: bool,
    pub max_from: usize,
    pub max_to: usize,
}

/// The numbers of edges that leave the node `from` and that reach the node `to` are at
/// a limit.
pub open spec fn at_limit(
    limits: ErLimits,
    counters: Map<usize, (usize, usize)>,
    from: usize,
    to: usize,
) -> bool {
    (limits.max_from != 0 && counters.contains_key(from) && counters[from].0 >= limits.max_from)
        || (limits.max_to != 0 && counters.contains_key(to) && counters[to].1 >= limits.max_to)
}

impl ErLimits {
    /// Whether the edge from `from` to `to` is out of the question because a limit is
    /// reached.
    pub fn max_bounds(&self, counters: &HashMap<usize, (usize, usize)>, from: &usize, to: &usize) -> (r:
        bool)
        ensures
            r == at_limit(*self, counters@, *from, *to),
    {
        let from_full = self.max_from != 0 && match counters.get(from) {
            Some(v) => v.0 >= self.max_from,
            None => false,
        };
        let to_full = self.max_to != 0 && match counters.get(to) {
            Some(v) => v.1 >= self.max_to,
            None => false,
        };
        from_full || to_full
    }

    /// Whether a draw decides on the edge from `from` to `to`: not so for an edge from a
    /// node to itself where these are left out.
    pub fn draws(&self, from: &usize, to: &usize) -> (r: bool)
        ensures
            r == (self.self_conn || *from != *to),
    {
        !(!self.self_conn && *from == *to)
    }

    /// Whether the edge from `from` to `to`, which was drawn, is added to `g`: not so where
    /// the graph has the edge back and such edges are left out.
    pub fn accepts<NL, EL>(&self, g: &DiGraph<NL, EL>, from: &usize, to: &usize) -> (r: bool)
        ensures
            r == (!self.back_strict || !g@.has_edge(*to, *from)),
    {
        !self.back_strict || !has_back_link(g, from, to)
    }
}

/// The counters after an edge from `from` to `to` was counted: first the edges that leave
/// `from`, then the edges that reach `to`. A node without a counter gets none.
pub open spec fn counted(counters: Map<usize, (usize, usize)>, from: usize, to: usize) -> Map<
    usize,
    (usize, usize),
> {
    let left = if counters.contains_key(from) {
        counters.insert(from, ((counters[from].0 + 1) as usize, counters[from].1))
    } else {
        counters
    };
    if left.contains_key(to) {
        left.insert(to, (left[to].0, (left[to].1 + 1) as usize))
    } else {
        left
    }
}

/// Counts an edge from `from` to `to`.
pub fn count_edge(counters: &mut HashMap<usize, (usize, usize)>, from: &usize, to: &usize)
    requires
        old(counters)@.contains_key(*from) ==> old(counters)@[*from].0 < usize::MAX,
        old(counters)@.contains_key(*to) ==> old(counters)@[*to].1 < usize::MAX,
    ensures
        final(counters)@ == counted(old(counters)@, *from, *to),
{
    let left = match counters.get(from) {
        Some(v) => Some((v.0 + 1, v.1)),
        None => None,
    };
    match left {
        Some(v) => {
            counters.insert(*from, v);
        },
        None => {},
    }
    let reached = match counters.get(to) {
        Some(v) => Some((v.0, v.1 + 1)),
        None => None,
    };
    match reached {
        Some(v) => {
            counters.insert(*to, v);
        },
        None => {},
    }
}

/// The two places at the distance `r` from the place `idx` on a ring of `l` places, as the
/// Watts–Strogatz model takes them: to the left `idx - r`, from the end of the ring where
/// that is below its start; to the right `idx + r`, or `r` where that is beyond the length
/// of the ring.
pub fn ring_neighbours(idx: usize, r: usize, l: usize) -> (n: (usize, usize))
    requires
        r <= l,
        idx + r <= usize::MAX,
    ensures
        n.0 == (if idx < r {
            l - r
        } else {
            idx - r
        }),
        n.1 == (if idx + r > l {
            r
        } else {
            (idx + r) as usize
        }),
{
    let lhs_idx = if idx < r {
        l - r
    } else {
        idx - r
    };
    let rhs_idx = if idx + r > l {
        r
    } else {
        idx + r
    };
    (lhs_idx, rhs_idx)
}

/// The nodes at the distance `r` from the place `idx` on the ring `ids`: the left
/// neighbour, then the right, each where the ring has its place.
pub open spec fn ring_pair(ids: Seq<usize>, idx: int, r: int) -> Seq<usize> {
    let l = ids.len() as int;
    let lhs = if idx < r {
        l - r
    } else {
        idx - r
    };
    let rhs = if idx + r > l {
        r
    } else {
        idx + r
    };
    (if 0 <= lhs < l {
        seq![ids[lhs]]
    } else {
        Seq::empty()
    }) + (if 0 <= rhs < l {
        seq![ids[rhs]]
    } else {
        Seq::empty()
    })
}

/// The nodes at the distances from one to `nsize` from the place `idx` on the ring `ids`,
/// the nearest first.
pub open spec fn ring_of(ids: Seq<usize>, idx: int, nsize: nat) -> Seq<usize>
    decreases nsize,
{
    if nsize == 0 {
        Seq::empty()
    } else {
        ring_of(ids, idx, (nsize - 1) as nat) + ring_pair(ids, idx, nsize as int)
    }
}

/// For each place of the ring `ids`, the nodes to which the Watts–Strogatz model first
/// gives it an edge: its neighbours at the distances from one to `nsize`, the nearest
/// first, at each distance the left one and then the right one, each where the ring has
/// its place.
pub fn ring_targets(ids: &Vec<usize>, nsize: usize) -> (r: Vec<Vec<usize>>)
    requires
        nsize < ids@.len(),
        ids@.len() + nsize <= usize::MAX,
    ensures
        r@.len() == ids@.len(),
        forall|i: int| 0 <= i < ids@.len() ==> (#[trigger] r@[i])@ == ring_of(ids@, i, nsize as nat),
{
    let l = ids.len();
    let mut out: Vec<Vec<usize>> = Vec::new();
    let mut idx: usize = 0;
    while idx < l
        invariant
            idx <= l,
            l == ids@.len(),
            nsize < l,
            l + nsize <= usize::MAX,
            out@.len() == idx,
            forall|i: int| 0 <= i < idx ==> (#[trigger] out@[i])@ == ring_of(ids@, i, nsize as nat),
        decreases l - idx,
    {
        let mut ring: Vec<usize> = Vec::new();
        let mut r: usize = 1;
        while r <= nsize
            invariant
                1 <= r <= nsize + 1,
                idx < l,
                l == ids@.len(),
                nsize < l,
                l + nsize <= usize::MAX,
                ring@ == ring_of(ids@, idx as int, (r - 1) as nat),
            decreases nsize + 1 - r,
        {
            let ghost before = ring@;
            let (lhs_idx, rhs_idx) = ring_neighbours(idx, r, l);
            if lhs_idx < l {
                ring.push(ids[lhs_idx]);
            }
            if rhs_idx < l {
                ring.push(ids[rhs_idx]);
            }
            assert(ring@ =~= before + ring_pair(ids@, idx as int, r as int));
            r += 1;
        }
        out.push(ring);
        idx += 1;
    }
    out
}

/// Whether the node `drawn` is drawn again when an edge from `from` is led elsewhere: it
/// is if it is `from` itself or one of the nodes `ring` to which `from` was first given an
/// edge.
pub fn rejects(from: usize, ring: &Vec<usize>, drawn: usize) -> (r: bool)
    ensures
        r == (drawn == from || ring@.contains(drawn)),
{
    if drawn == from {
        return true;
    }
    let mut i: usize = 0;
    while i < ring.len()
        invariant
            i <= ring@.len(),
            forall|k: int| 0 <= k < i ==> ring@[k] != drawn,
        decreases ring@.len() - i,
    {
        if ring[i] == drawn {
            return true;
        }
        i += 1;
    }
    false
}

} // verus!
