//! What a drawing of a graph shows, as far as it does not depend on how it is drawn.
use crate::graph::{DiGraph, GraphView};
use std::collections::HashMap;
use vstd::prelude::*;

verus! {

broadcast use vstd::std_specs::hash::group_hash_axioms;

/// The graph that is to be drawn.
#[derive(Debug)]
pub struct DotGraphVisualizer<'a, NL, EL> {
    pub graph: &'a DiGraph<NL, EL>,
}

impl<'a, NL, EL> DotGraphVisualizer<'a, NL, EL> {
    pub fn new(graph: &'a DiGraph<NL, EL>) -> (r: Self)
        ensures
            r.graph@ == graph@,
    {
        Self { graph }
    }
}

impl<NL, EL> DiGraph<NL, EL> {
    /// The visualizer of this graph.
    pub fn visualize(&self) -> (r: DotGraphVisualizer<'_, NL, EL>)
        ensures
            r.graph@ == self@,
    {
        DotGraphVisualizer::new(self)
    }
}

/// The colours in which groups of nodes are drawn.
#[derive(Clone, Copy, PartialEq, Eq, Structural, Debug)]
pub enum Shade {
    Aqua,
    Red,
    Blue,
    Green,
    Chocolate,
    Yellow,
    Palegreen,
    Purple,
    Aquamarine1,
    Bisque,
    Yellowgreen,
    White,
}

/// The colour of the group with the number `idx`: the numbers up to ten have a colour each,
/// a greater number has the colour of its last digit.
pub open spec fn shade_of(idx: usize) -> Shade {
    let i: int = if idx > 10 {
        (idx % 10) as int
    } else {
        idx as int
    };
    if i == 0 {
        Shade::Aqua
    } else if i == 1 {
        Shade::Red
    } else if i == 2 {
        Shade::Blue
    } else if i == 3 {
        Shade::Green
    } else if i == 4 {
        Shade::Chocolate
    } else if i == 5 {
        Shade::Yellow
    } else if i == 6 {
        Shade::Palegreen
    } else if i == 7 {
        Shade::Purple
    } else if i == 8 {
        Shade::Aquamarine1
    } else if i == 9 {
        Shade::Bisque
    } else {
        Shade::Yellowgreen
    }
}

/// The colour of the group with the number `idx`.
pub fn idx_to_color(idx: usize) -> (c: Shade)
    ensures
        c == shade_of(idx),
{
    let mut idx = idx;
    if idx > 10 {
        idx = idx % 10
    }
    match idx {
        0 => Shade::Aqua,
        1 => Shade::Red,
        2 => Shade::Blue,
        3 => Shade::Green,
        4 => Shade::Chocolate,
        5 => Shade::Yellow,
        6 => Shade::Palegreen,
        7 => Shade::Purple,
        8 => Shade::Aquamarine1,
        9 => Shade::Bisque,
        10 => Shade::Yellowgreen,
        _ => Shade::White,
    }
}

/// The number of the last of the first `n` groups that holds `v`, if any does.
pub open spec fn group_of(groups: Seq<Seq<usize>>, n: int, v: usize) -> Option<usize>
    decreases n,
{
    if n <= 0 || n > groups.len() {
        None
    } else if groups[n - 1].contains(v) {
        Some((n - 1) as usize)
    } else {
        group_of(groups, n - 1, v)
    }
}

/// For each node of the first `n` groups the number of its group: of the last one,
/// should it be in several.
pub open spec fn group_map(groups: Seq<Seq<usize>>, n: int) -> Map<usize, usize> {
    Map::new(
        |v: usize| group_of(groups, n, v) is Some,
        |v: usize| group_of(groups, n, v)->0,
    )
}

/// For each node of `groups` the number of its group: of the last one, should it be in
/// several.
pub fn group_numbers(groups: &Vec<Vec<usize>>) -> (map: HashMap<usize, usize>)
    ensures
        map@ == group_map(crate::analyzer::dom::lists_view(*groups), groups@.len() as int),
{
    let ghost lists = crate::analyzer::dom::lists_view(*groups);
    let mut map: HashMap<usize, usize> = HashMap::new();
    let mut i: usize = 0;
    assert(map@ =~= group_map(lists, 0));
    while i < groups.len()
        invariant
            i <= groups@.len(),
            lists == crate::analyzer::dom::lists_view(*groups),
            map@ == group_map(lists, i as int),
        decreases groups@.len() - i,
    {
        let ghost before = map@;
        let mut j: usize = 0;
        while j < groups[i].len()
            invariant
                i < groups@.len(),
                j <= groups@[i as int]@.len(),
                lists == crate::analyzer::dom::lists_view(*groups),
                forall|v: usize| #[trigger]
                    map@.contains_key(v) <==> groups@[i as int]@.take(j as int).contains(v)
                        || before.contains_key(v),
                forall|v: usize| #[trigger]
                    map@.contains_key(v) ==> map@[v] == (if groups@[i as int]@.take(
                        j as int,
                    ).contains(v) {
                        i
                    } else {
                        before[v]
                    }),
            decreases groups@[i as int]@.len() - j,
        {
            let e = groups[i][j];
            let ghost prior_map = map@;
            map.insert(e, i);
            proof {
                let now = groups@[i as int]@.take(j + 1);
                let prior = groups@[i as int]@.take(j as int);
                assert(now =~= prior.push(e));
                assert forall|v: usize| now.contains(v) <==> prior.contains(v) || v == e by {
                    if now.contains(v) {
                        let k = choose|k: int| 0 <= k < now.len() && now[k] == v;
                        if k < j {
                            assert(prior[k] == v);
                        }
                    }
                    if prior.contains(v) {
                        let k = choose|k: int| 0 <= k < prior.len() && prior[k] == v;
                        assert(now[k] == v);
                    }
                    assert(now[j as int] == e);
                }
                assert forall|v: usize| #[trigger]
                    map@.contains_key(v) <==> now.contains(v) || before.contains_key(v) by {
                    assert(prior_map.contains_key(v) <==> prior.contains(v) || before.contains_key(
                        v,
                    ));
                }
                assert forall|v: usize| #[trigger] map@.contains_key(v) implies map@[v] == (if now.contains(
                    v,
                ) {
                    i
                } else {
                    before[v]
                }) by {
                    if v != e {
                        assert(prior_map.contains_key(v));
                    }
                }
            }
            j += 1;
        }
        proof {
            assert(groups@[i as int]@.take(groups@[i as int]@.len() as int) =~= groups@[i as int]@);
            assert(lists[i as int] == groups@[i as int]@);
            let goal = group_map(lists, i + 1);
            assert forall|v: usize| map@.contains_key(v) <==> goal.contains_key(v) by {
                assert(before.contains_key(v) <==> group_of(lists, i as int, v) is Some);
            }
            assert forall|v: usize| map@.contains_key(v) implies map@[v] == goal[v] by {
                assert(before.contains_key(v) <==> group_of(lists, i as int, v) is Some);
            }
            assert(map@ =~= goal);
        }
        i += 1;
    }
    map
}

} // verus!
