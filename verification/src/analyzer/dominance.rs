//! What the dominators that the passes find have to do with the paths of the graph: the
//! dominator given out for a node is the node through which every path from the entry node
//! to it leads, and which is the closest to it of all such nodes. When the passes have gone
//! on until one changed nothing, they have found it; when they were stopped, it is found
//! on the way that they left, by a search for a path that avoids a node.
use crate::analyzer::dom::{
    candidate, defined, dominators_of, final_places, first_blocking, fold_meet, initial,
    is_forest, iterate, led_from_above, lemma_fold_meet, lemma_meet,
    lemma_places_led_from_above, lemma_settle_at, lemma_solution, lemma_solution_total,
    lemma_sweep_down, meet, mended, pass, place_lists, predecessor_places, settle_at, solution,
    sweep_down, UNDEFINED,
};
use crate::analyzer::predecessors::predecessor_map;
use crate::analyzer::visit::{Visited, VisitedSet};
use crate::graph::{DiGraph, GraphView};
use crate::traversal::{lemma_unvisited_insert, unvisited};
use crate::order::{decreasing, lemma_descending};
use crate::postorder::{lemma_post_order, post_order};
use vstd::prelude::*;

verus! {

/// The place `u` is on the way from the place `v` to the last place, by the steps from a
/// place to its dominator: `v` itself, its dominator, the dominator of that, and so on.
pub open spec fn chain_has(d: Seq<usize>, v: usize, u: usize) -> bool
    decreases d.len() - v,
{
    v == u || (v < d.len() && d[v as int] != UNDEFINED && v < d[v as int] && d[v as int] < d.len()
        && chain_has(d, d[v as int], u))
}

/// The places on the way from a place come no lower than that place.
pub proof fn lemma_chain_above(d: Seq<usize>, v: usize, u: usize)
    requires
        chain_has(d, v, u),
    ensures
        u >= v,
    decreases d.len() - v,
{
    if v != u {
        lemma_chain_above(d, d[v as int], u);
    }
}

/// A place on the way from a place on the way is on the way.
pub proof fn lemma_chain_trans(d: Seq<usize>, a: usize, b: usize, c: usize)
    requires
        chain_has(d, a, b),
        chain_has(d, b, c),
    ensures
        chain_has(d, a, c),
    decreases d.len() - a,
{
    if a != b {
        lemma_chain_trans(d, d[a as int], b, c);
    }
}

/// Of two places on the way from one place, the higher is on the way from the lower.
pub proof fn lemma_chain_line(d: Seq<usize>, v: usize, a: usize, b: usize)
    requires
        chain_has(d, v, a),
        chain_has(d, v, b),
        a <= b,
    ensures
        chain_has(d, a, b),
    decreases d.len() - v,
{
    if v == a {
    } else if v == b {
        lemma_chain_above(d, v, a);
    } else {
        lemma_chain_line(d, d[v as int], a, b);
    }
}

/// The way from the meeting place of two places is what the ways from the two share.
pub proof fn lemma_meet_chain(d: Seq<usize>, a: usize, b: usize, u: usize)
    requires
        is_forest(d),
        defined(d, a),
        defined(d, b),
    ensures
        chain_has(d, meet(d, a, b), u) <==> chain_has(d, a, u) && chain_has(d, b, u),
    decreases 2 * d.len() - a - b,
{
    if a != b {
        if a < b {
            assert(defined(d, d[a as int]));
            lemma_meet_chain(d, d[a as int], b, u);
            if chain_has(d, b, u) {
                lemma_chain_above(d, b, u);
            }
        } else {
            assert(defined(d, d[b as int]));
            lemma_meet_chain(d, a, d[b as int], u);
            if chain_has(d, a, u) {
                lemma_chain_above(d, a, u);
            }
        }
    }
}

/// The way from the place that folding gives is what the way from `acc` shares with the
/// ways from the dominators of those of `plist[k..]` that have one.
pub proof fn lemma_fold_chain(d: Seq<usize>, plist: Seq<usize>, k: nat, acc: usize, u: usize)
    requires
        is_forest(d),
        defined(d, acc),
    ensures
        chain_has(d, fold_meet(d, plist, k, acc), u) <==> chain_has(d, acc, u) && forall|j: int|
            k <= j < plist.len() && defined(d, #[trigger] plist[j]) ==> chain_has(
                d,
                d[plist[j] as int],
                u,
            ),
    decreases plist.len() - k,
{
    if k < plist.len() {
        let p = plist[k as int];
        if defined(d, p) {
            assert(defined(d, d[p as int]));
            lemma_meet(d, acc, d[p as int]);
            lemma_meet_chain(d, acc, d[p as int], u);
            lemma_fold_chain(d, plist, k + 1, meet(d, acc, d[p as int]), u);
        } else {
            lemma_fold_chain(d, plist, k + 1, acc, u);
        }
    }
}

/// What giving the place `v` the dominator `y` does to the ways: a way that led through `v`
/// leads on from `y` after it, and the other ways stay.
pub proof fn lemma_chain_update(d: Seq<usize>, v: usize, y: usize, x: usize, u: usize)
    requires
        is_forest(d),
        v < y,
        y < d.len(),
        defined(d, y),
    ensures
        chain_has(d.update(v as int, y), x, u) <==> (if chain_has(d, x, v) {
            (chain_has(d, x, u) && u <= v) || chain_has(d, y, u)
        } else {
            chain_has(d, x, u)
        }),
    decreases d.len() - x,
{
    let e = d.update(v as int, y);
    if x == v {
        lemma_chain_same_above(d, v, y, y, u);
        if chain_has(d, x, u) && u <= v {
            lemma_chain_above(d, x, u);
        }
        if chain_has(d, y, u) {
            lemma_chain_above(d, y, u);
        }
    } else if x < d.len() && d[x as int] != UNDEFINED && x < d[x as int] && d[x as int] < d.len() {
        lemma_chain_update(d, v, y, d[x as int], u);
        if chain_has(d, x, v) {
            lemma_chain_above(d, x, v);
            if chain_has(d, y, u) {
                lemma_chain_above(d, y, u);
            }
        }
    } else {
        if chain_has(d, x, v) {
            assert(x == v);
        }
    }
}

/// Giving a place a dominator leaves the ways from the places above it.
pub proof fn lemma_chain_same_above(d: Seq<usize>, v: usize, y: usize, x: usize, u: usize)
    requires
        v < x,
        v < d.len(),
    ensures
        chain_has(d.update(v as int, y), x, u) == chain_has(d, x, u),
    decreases d.len() - x,
{
    if x != u && x < d.len() && d[x as int] != UNDEFINED && x < d[x as int] && d[x as int] < d.len() {
        lemma_chain_same_above(d, v, y, d[x as int], u);
    }
}

/// The places of the predecessors are places, and those of one node come highest first.
pub open spec fn places_ok(places: Seq<Seq<usize>>) -> bool {
    forall|v: int|
        0 <= v < places.len() ==> decreasing(#[trigger] places[v]) && forall|j: int|
            0 <= j < places[v].len() ==> (#[trigger] places[v][j]) < places.len()
}

/// The relation `rel` between places goes from a node to its predecessors as dominance
/// does: what is related to a node, and is not the node itself, is related to each of its
/// predecessors; and nothing but the last place is related to the last place.
pub open spec fn dominance_like(rel: spec_fn(usize, usize) -> bool, places: Seq<Seq<usize>>) -> bool {
    &&& forall|w: usize, v: usize| #[trigger] rel(w, v) ==> w < places.len() && v < places.len()
    &&& forall|w: usize| #[trigger] rel(w, (places.len() - 1) as usize) ==> w == places.len() - 1
    &&& forall|w: usize, v: usize, j: int|
        #![trigger rel(w, v), places[v as int][j]]
        rel(w, v) && w != v && 0 <= j < places[v as int].len() ==> rel(w, places[v as int][j])
}

/// Whatever is related to a place that has a dominator is on the way from that place.
pub open spec fn holds_all(d: Seq<usize>, rel: spec_fn(usize, usize) -> bool) -> bool {
    forall|v: usize, w: usize| defined(d, v) && #[trigger] rel(w, v) ==> chain_has(d, v, w)
}

/// What is related to a place is related to every lower place on the way from that place.
pub open spec fn keeps_order(d: Seq<usize>, rel: spec_fn(usize, usize) -> bool) -> bool {
    forall|x: usize, u: usize, w: usize|
        #![trigger chain_has(d, x, u), rel(w, x)]
        defined(d, x) && chain_has(d, x, u) && rel(w, x) && w > u ==> rel(w, u)
}

/// Settling a place keeps both: what is related to a place is on the way from it, and is
/// related to the lower places on that way.
pub proof fn lemma_settle_keeps(
    d: Seq<usize>,
    places: Seq<Seq<usize>>,
    rel: spec_fn(usize, usize) -> bool,
    idx: usize,
)
    requires
        is_forest(d),
        d.len() == places.len(),
        places_ok(places),
        dominance_like(rel, places),
        holds_all(d, rel),
        keeps_order(d, rel),
        idx < d.len() - 1,
    ensures
        holds_all(settle_at(d, places[idx as int], idx), rel),
        keeps_order(settle_at(d, places[idx as int], idx), rel),
{
    let plist = places[idx as int];
    match candidate(d, plist, idx) {
        None => {},
        Some(y) => {
            let e = settle_at(d, plist, idx);
            let seed = plist[0];
            lemma_fold_meet(d, plist, 1, seed);
            lemma_settle_at(d, plist, idx);
            assert(e == d.update(idx as int, y));
            assert(decreasing(plist));
            // what is related to `idx`, and is not `idx`, is on the way from `y`
            assert forall|w: usize| rel(w, idx) && w != idx implies chain_has(d, y, w) by {
                lemma_fold_chain(d, plist, 1, seed, w);
                assert(rel(w, plist[0]));
                assert(chain_has(d, seed, w));
                lemma_chain_above(d, seed, w);
                assert forall|j: int|
                    1 <= j < plist.len() && defined(d, #[trigger] plist[j]) implies chain_has(
                    d,
                    d[plist[j] as int],
                    w,
                ) by {
                    assert(rel(w, plist[j]));
                    assert(chain_has(d, plist[j], w));
                    assert(plist[0] > plist[j]);
                }
            }
            // what is related to `idx` is related to the places on the way from `y`
            assert forall|w: usize, u: usize|
                #![trigger rel(w, idx), chain_has(d, y, u)]
                rel(w, idx) && w > u && chain_has(d, y, u) implies rel(w, u) by {
                lemma_chain_above(d, y, u);
                lemma_fold_chain(d, plist, 1, seed, u);
                assert(rel(w, plist[0]));
                assert(chain_has(d, seed, u) && rel(w, seed));
            }
            assert forall|v: usize, w: usize| defined(e, v) && #[trigger] rel(w, v) implies chain_has(
                e,
                v,
                w,
            ) by {
                lemma_chain_update(d, idx, y, v, w);
                if v == idx {
                    if w != idx {
                        assert(chain_has(d, y, w));
                    }
                } else {
                    assert(defined(d, v));
                    assert(chain_has(d, v, w));
                    if chain_has(d, v, idx) && w > idx {
                        assert(chain_has(d, v, idx) && rel(w, v));
                        assert(rel(w, idx));
                    }
                }
            }
            assert forall|x: usize, u: usize, w: usize|
                #![trigger chain_has(e, x, u), rel(w, x)]
                defined(e, x) && chain_has(e, x, u) && rel(w, x) && w > u implies rel(w, u) by {
                lemma_chain_update(d, idx, y, x, u);
                if x == idx {
                    if chain_has(d, y, u) {
                    } else {
                        assert(chain_has(d, idx, u) && u <= idx);
                        lemma_chain_above(d, idx, u);
                    }
                } else {
                    assert(defined(d, x));
                    if chain_has(d, x, u) {
                        assert(chain_has(d, x, u) && rel(w, x));
                    } else {
                        assert(chain_has(d, x, idx) && chain_has(d, y, u));
                        lemma_chain_above(d, y, u);
                        assert(chain_has(d, x, idx) && rel(w, x));
                        assert(rel(w, idx));
                    }
                }
            }
        },
    }
}

/// Settling places one after another keeps both.
pub proof fn lemma_sweep_keeps(
    d: Seq<usize>,
    places: Seq<Seq<usize>>,
    rel: spec_fn(usize, usize) -> bool,
    k: nat,
)
    requires
        is_forest(d),
        d.len() == places.len(),
        places_ok(places),
        dominance_like(rel, places),
        holds_all(d, rel),
        keeps_order(d, rel),
    ensures
        holds_all(sweep_down(d, places, k), rel),
        keeps_order(sweep_down(d, places, k), rel),
    decreases k,
{
    if k == 0 || k >= d.len() || places.len() != d.len() {
    } else {
        let idx = (d.len() - 1 - k) as usize;
        let before = sweep_down(d, places, (k - 1) as nat);
        lemma_sweep_keeps(d, places, rel, (k - 1) as nat);
        lemma_sweep_down(d, places, (k - 1) as nat);
        lemma_settle_keeps(before, places, rel, idx);
    }
}

/// The passes keep both.
pub proof fn lemma_iterate_keeps(
    d: Seq<usize>,
    places: Seq<Seq<usize>>,
    rel: spec_fn(usize, usize) -> bool,
    budget: nat,
)
    requires
        is_forest(d),
        d.len() == places.len(),
        places_ok(places),
        dominance_like(rel, places),
        holds_all(d, rel),
        keeps_order(d, rel),
    ensures
        holds_all(iterate(d, places, budget).0, rel),
        keeps_order(iterate(d, places, budget).0, rel),
    decreases budget,
{
    if budget > 0 {
        let next = pass(d, places);
        if next != d {
            lemma_sweep_keeps(d, places, rel, (d.len() - 1) as nat);
            lemma_sweep_down(d, places, (d.len() - 1) as nat);
            lemma_iterate_keeps(next, places, rel, (budget - 1) as nat);
        }
    }
}

/// Before the first pass both hold.
pub proof fn lemma_initial_keeps(places: Seq<Seq<usize>>, rel: spec_fn(usize, usize) -> bool)
    requires
        dominance_like(rel, places),
        0 < places.len() <= usize::MAX,
    ensures
        is_forest(initial(places.len())),
        holds_all(initial(places.len()), rel),
        keeps_order(initial(places.len()), rel),
{
    let d = initial(places.len());
    let last = (places.len() - 1) as usize;
    assert forall|v: usize, w: usize| defined(d, v) && #[trigger] rel(w, v) implies chain_has(
        d,
        v,
        w,
    ) by {
        assert(v == last);
    }
    assert forall|x: usize, u: usize, w: usize|
        #![trigger chain_has(d, x, u), rel(w, x)]
        defined(d, x) && chain_has(d, x, u) && rel(w, x) && w > u implies rel(w, u) by {
        assert(x == last);
        assert(w == last);
        lemma_chain_above(d, x, u);
    }
}

impl<NL, EL> GraphView<NL, EL> {
    /// The node `w` dominates the node `v`: the entry node reaches `v`, and every path from
    /// the entry node to `v` leads through `w`.
    pub open spec fn dominates(self, w: usize, v: usize) -> bool {
        self.reachable_set().contains(v) && forall|p: Seq<usize>|
            #[trigger] self.is_path(p) && Some(p[0]) == self.start && p.last() == v ==> p.contains(w)
    }
}

/// The node `m` is the immediate dominator of the node `v`: it is not `v`, it dominates `v`,
/// and every other node that dominates `v` dominates `m` too.
pub open spec fn is_immediate_dominator<NL, EL>(g: GraphView<NL, EL>, m: usize, v: usize) -> bool {
    &&& m != v
    &&& g.dominates(m, v)
    &&& forall|w: usize| #[trigger] g.dominates(w, v) && w != v ==> g.dominates(w, m)
}

/// A pass that changes nothing has changed nothing at any place: when a place was settled,
/// the places above it had the dominators that the pass ends with, and the places below it
/// those that the pass started with.
proof fn lemma_sweep_frame(d: Seq<usize>, places: Seq<Seq<usize>>, k: nat, m: nat)
    requires
        is_forest(d),
        d.len() == places.len(),
        d.len() <= usize::MAX,
        k <= m < d.len(),
    ensures
        sweep_down(d, places, k).len() == d.len(),
        forall|i: int| 0 <= i < d.len() - 1 - k ==> sweep_down(d, places, k)[i] == d[i],
        forall|i: int|
            d.len() - 1 - k <= i < d.len() ==> sweep_down(d, places, m)[i] == sweep_down(
                d,
                places,
                k,
            )[i],
    decreases m,
{
    lemma_sweep_down(d, places, k);
    lemma_sweep_below(d, places, k);
    if k < m {
        let prev = sweep_down(d, places, (m - 1) as nat);
        lemma_sweep_frame(d, places, k, (m - 1) as nat);
        lemma_sweep_down(d, places, (m - 1) as nat);
        let idx = (d.len() - 1 - m) as usize;
        lemma_settle_at(prev, places[idx as int], idx);
    }
}

proof fn lemma_sweep_below(d: Seq<usize>, places: Seq<Seq<usize>>, k: nat)
    requires
        is_forest(d),
        d.len() == places.len(),
        d.len() <= usize::MAX,
        k < d.len(),
    ensures
        forall|i: int| 0 <= i < d.len() - 1 - k ==> sweep_down(d, places, k)[i] == d[i],
    decreases k,
{
    if k > 0 {
        let prev = sweep_down(d, places, (k - 1) as nat);
        lemma_sweep_below(d, places, (k - 1) as nat);
        lemma_sweep_down(d, places, (k - 1) as nat);
        let idx = (d.len() - 1 - k) as usize;
        lemma_settle_at(prev, places[idx as int], idx);
    }
}

/// Where a pass changes nothing, every place below the last has the dominator that
/// settling it gives.
pub proof fn lemma_pass_fixed(d: Seq<usize>, places: Seq<Seq<usize>>, idx: usize)
    requires
        is_forest(d),
        d.len() == places.len(),
        d.len() <= usize::MAX,
        pass(d, places) == d,
        idx < d.len() - 1,
    ensures
        settle_at(d, places[idx as int], idx) == d,
{
    let n = d.len();
    let k = (n - 1 - idx) as nat;
    lemma_sweep_frame(d, places, k, (n - 1) as nat);
    lemma_sweep_frame(d, places, (k - 1) as nat, (n - 1) as nat);
    let prev = sweep_down(d, places, (k - 1) as nat);
    let next = sweep_down(d, places, k);
    lemma_sweep_down(d, places, (k - 1) as nat);
    lemma_settle_at(prev, places[idx as int], idx);
    assert(prev =~= d);
    assert(next =~= d) by {
        assert forall|i: int| 0 <= i < n implies next[i] == d[i] by {
            if i >= n - 1 - k {
                assert(sweep_down(d, places, (n - 1) as nat)[i] == next[i]);
            }
        }
    }
}

/// The relation between the places of two nodes of which the first dominates the second.
pub open spec fn dominance_by_place<NL, EL>(g: GraphView<NL, EL>) -> spec_fn(usize, usize) -> bool {
    |w: usize, v: usize|
        w < post_order(g).len() && v < post_order(g).len() && g.dominates(
            post_order(g)[w as int],
            post_order(g)[v as int],
        )
}

/// In the post-order of a graph with all the nodes that its entry node reaches, dominance
/// goes from a node to its predecessors, and the places of the predecessors come highest
/// first.
proof fn lemma_dominance_like<NL, EL>(g: GraphView<NL, EL>)
    requires
        g.entry_closed(),
        0 < post_order(g).len() <= usize::MAX,
    ensures
        places_ok(place_lists(post_order(g), predecessor_map(g, post_order(g)))),
        dominance_like(
            dominance_by_place(g),
            place_lists(post_order(g), predecessor_map(g, post_order(g))),
        ),
{
    lemma_post_order(g);
    let po = post_order(g);
    let preds = predecessor_map(g, po);
    let places = place_lists(po, preds);
    let rel = dominance_by_place(g);
    let n = po.len();
    let s = g.start->0;
    assert(po[n - 1] == s);
    assert forall|v: int| 0 <= v < places.len() implies decreasing(#[trigger] places[v])
        && forall|j: int| 0 <= j < places[v].len() ==> (#[trigger] places[v][j]) < places.len() by {
        lemma_descending(predecessor_places(po, preds, v));
        assert forall|j: int| 0 <= j < places[v].len() implies (#[trigger] places[v][j])
            < places.len() by {
            assert(places[v].contains(places[v][j]));
        }
    }
    assert forall|w: usize| #[trigger] rel(w, (places.len() - 1) as usize) implies w == places.len()
        - 1 by {
        let only = seq![s];
        assert(g.is_path(only) && Some(only[0]) == g.start && only.last() == s);
        assert(only.contains(po[w as int]));
        assert(po[w as int] == only[0]);
        if w != n - 1 {
            assert(po[w as int] != po[n - 1]);
        }
    }
    assert forall|w: usize, v: usize, j: int|
        #![trigger rel(w, v), places[v as int][j]]
        rel(w, v) && w != v && 0 <= j < places[v as int].len() implies rel(
        w,
        places[v as int][j],
    ) by {
        let p = places[v as int][j];
        lemma_descending(predecessor_places(po, preds, v as int));
        assert(places[v as int].contains(p));
        assert(predecessor_places(po, preds, v as int).contains(p));
        let from = po[p as int];
        let to = po[v as int];
        let u = choose|u: usize| po.contains(u) && #[trigger] g.has_edge(u, to);
        assert(g.has_edge(from, to));
        assert(po.contains(from));
        assert(po.to_set().contains(from));
        assert(po[w as int] != to);
        assert forall|q: Seq<usize>|
            #[trigger] g.is_path(q) && Some(q[0]) == g.start && q.last() == from implies q.contains(
            po[w as int],
        ) by {
            let longer = q.push(to);
            assert forall|i: int| 0 <= i < longer.len() - 1 implies g.has_edge(
                #[trigger] longer[i],
                longer[i + 1],
            ) by {
                if i < q.len() - 1 {
                    assert(g.has_edge(q[i], q[i + 1]));
                }
            }
            assert(g.is_path(longer) && Some(longer[0]) == g.start && longer.last() == to);
            assert(longer.contains(po[w as int]));
            let i = choose|i: int| 0 <= i < longer.len() && longer[i] == po[w as int];
            assert(i < q.len());
            assert(q[i] == po[w as int]);
        }
    }
}

/// Where a pass changes nothing and every place has a dominator, every path from the entry
/// node to a node leads through the nodes on the way from the place of that node.
proof fn lemma_chain_dominates<NL, EL>(
    g: GraphView<NL, EL>,
    d: Seq<usize>,
    v: usize,
    u: usize,
    path: Seq<usize>,
)
    requires
        g.entry_closed(),
        d.len() == post_order(g).len(),
        d.len() <= usize::MAX,
        is_forest(d),
        led_from_above(place_lists(post_order(g), predecessor_map(g, post_order(g)))),
        forall|i: usize| i < d.len() ==> #[trigger] defined(d, i),
        pass(d, place_lists(post_order(g), predecessor_map(g, post_order(g)))) == d,
        v < d.len(),
        chain_has(d, v, u),
        g.is_path(path),
        Some(path[0]) == g.start,
        path.last() == post_order(g)[v as int],
    ensures
        u < d.len(),
        path.contains(post_order(g)[u as int]),
    decreases path.len(),
{
    lemma_post_order(g);
    let po = post_order(g);
    let preds = predecessor_map(g, po);
    let places = place_lists(po, preds);
    let n = po.len();
    let s = g.start->0;
    assert(po[n - 1] == s);
    if v == u {
        assert(path[path.len() - 1] == po[u as int]);
    } else {
        assert(defined(d, v));
        assert(v < n - 1);
        assert(po[v as int] != po[n - 1]);
        assert(path.len() >= 2);
        let prev = path[path.len() - 2];
        let to = po[v as int];
        assert(g.has_edge(path[path.len() - 2], path[path.len() - 2 + 1]));
        let shorter = path.drop_last();
        assert forall|i: int| 0 <= i < shorter.len() - 1 implies g.has_edge(
            #[trigger] shorter[i],
            shorter[i + 1],
        ) by {
            assert(g.has_edge(path[i], path[i + 1]));
        }
        assert(g.is_path(shorter) && shorter[0] == s && shorter.last() == prev);
        assert(g.reachable(s, prev));
        assert(g.reachable_set().contains(prev));
        assert(po.to_set().contains(prev));
        assert(po.contains(prev));
        let p = po.index_of(prev) as usize;
        assert(po[p as int] == prev);
        assert(predecessor_places(po, preds, v as int).contains(p)) by {
            assert(po.contains(prev) && g.has_edge(prev, to));
        }
        lemma_descending(predecessor_places(po, preds, v as int));
        let plist = places[v as int];
        assert(plist.contains(p));
        let j = choose|j: int| 0 <= j < plist.len() && plist[j] == p;
        lemma_pass_fixed(d, places, v);
        assert(plist.len() > 0 && v < plist[0] < n);
        assert(defined(d, plist[0]));
        assert(candidate(d, plist, v) == Some(fold_meet(d, plist, 1, plist[0])));
        assert(d.update(v as int, fold_meet(d, plist, 1, plist[0])) == d);
        assert(d[v as int] == fold_meet(d, plist, 1, plist[0]));
        lemma_fold_chain(d, plist, 1, plist[0], u);
        assert(chain_has(d, d[v as int], u));
        assert(defined(d, p));
        if j > 0 {
            assert(chain_has(d, d[plist[j] as int], u));
            assert(plist[0] > plist[j]);
            assert(chain_has(d, p, u));
        }
        lemma_chain_dominates(g, d, p, u, shorter);
        let i = choose|i: int| 0 <= i < shorter.len() && shorter[i] == po[u as int];
        assert(path[i] == po[u as int]);
    }
}

/// When the passes over the post-order of a graph have gone on until one changed nothing,
/// the dominator that they found for a node is its immediate dominator: every path from
/// the entry node to the node leads through it, and every other node through which all
/// these paths lead dominates it too. This holds for every node but the entry node that the
/// entry node reaches, provided that all these nodes are in the graph.
pub proof fn lemma_stable_dominators_are_immediate<NL, EL>(g: GraphView<NL, EL>)
    requires
        g.entry_closed(),
        g.fits(),
        dominators_of(g).1,
    ensures
        forall|v: usize|
            #[trigger] g.reachable_set().contains(v) && g.start != Some(v)
                ==> is_immediate_dominator(g, dominators_of(g).0[v], v),
{
    lemma_post_order(g);
    let po = post_order(g);
    let preds = predecessor_map(g, po);
    let places = place_lists(po, preds);
    let n = po.len();
    if n > 0 {
        let s = g.start->0;
        let rel = dominance_by_place(g);
        lemma_places_led_from_above(g);
        lemma_dominance_like(g);
        lemma_solution(places);
        lemma_solution_total(places);
        lemma_initial_keeps(places, rel);
        lemma_iterate_keeps(initial(n), places, rel, n * n);
        let d = solution(places).0;
        assert(d == iterate(initial(n), places, n * n).0);
        assert(po[n - 1] == s);
        assert forall|v: usize| #[trigger]
            g.reachable_set().contains(v) && g.start != Some(v) implies is_immediate_dominator(
            g,
            dominators_of(g).0[v],
            v,
        ) by {
            assert(po.to_set().contains(v));
            assert(po.contains(v));
            let i = po.index_of(v) as usize;
            assert(po[i as int] == v);
            assert(defined(d, i));
            assert(i != n - 1);
            let up = d[i as int];
            let m = po[up as int];
            assert(dominators_of(g).0[v] == m);
            assert(defined(d, up));
            assert(chain_has(d, up, up));
            assert(chain_has(d, i, up));
            assert(po[up as int] != po[i as int]);
            assert(po.to_set().contains(m)) by {
                assert(po.contains(po[up as int]));
            }
            assert forall|q: Seq<usize>|
                #[trigger] g.is_path(q) && Some(q[0]) == g.start && q.last() == v implies q.contains(
                m,
            ) by {
                lemma_chain_dominates(g, d, i, up, q);
            }
            assert forall|w: usize| #[trigger] g.dominates(w, v) && w != v implies g.dominates(
                w,
                m,
            ) by {
                // `w` is on a path from the entry node, so it has a place
                let some = choose|q: Seq<usize>|
                    #[trigger] g.is_path(q) && q[0] == s && q.last() == v;
                assert(some.contains(w));
                let at = choose|at: int| 0 <= at < some.len() && some[at] == w;
                let head = some.take(at + 1);
                assert forall|x: int| 0 <= x < head.len() - 1 implies g.has_edge(
                    #[trigger] head[x],
                    head[x + 1],
                ) by {
                    assert(g.has_edge(some[x], some[x + 1]));
                }
                assert(g.is_path(head) && head[0] == s && head.last() == w);
                assert(g.reachable(s, w));
                assert(g.reachable_set().contains(w));
                assert(po.to_set().contains(w));
                assert(po.contains(w));
                let k = po.index_of(w) as usize;
                assert(po[k as int] == w);
                assert(rel(k, i));
                assert(chain_has(d, i, k));
                assert(k != i);
                assert(chain_has(d, up, k));
                assert forall|q: Seq<usize>|
                    #[trigger] g.is_path(q) && Some(q[0]) == g.start && q.last()
                        == m implies q.contains(w) by {
                    lemma_chain_dominates(g, d, up, k, q);
                }
            }
        }
    } else {
        assert forall|v: usize| !g.reachable_set().contains(v) by {
            assert(po.to_set().contains(v) <==> po.contains(v));
        }
    }
}

impl<NL, EL> GraphView<NL, EL> {
    /// Some path leads from the entry node to `to` and not through `avoid`.
    pub open spec fn reachable_avoiding(self, to: usize, avoid: usize) -> bool {
        self.start is Some && exists|p: Seq<usize>|
            #[trigger] self.is_path(p) && p[0] == self.start->0 && p.last() == to && !p.contains(
                avoid,
            )
    }

    /// A node dominates a node that the entry node reaches if and only if no path from the
    /// entry node leads to that node and not through it.
    pub proof fn lemma_dominates_blocks(self, w: usize, v: usize)
        ensures
            self.dominates(w, v) <==> self.reachable_set().contains(v) && !self.reachable_avoiding(
                v,
                w,
            ),
    {
        if self.reachable_set().contains(v) {
            let s = self.start->0;
            if !self.reachable_avoiding(v, w) {
                assert forall|p: Seq<usize>|
                    #[trigger] self.is_path(p) && Some(p[0]) == self.start && p.last()
                        == v implies p.contains(w) by {
                    if !p.contains(w) {
                        assert(self.is_path(p) && p[0] == s && p.last() == v && !p.contains(w));
                    }
                }
            }
            if self.reachable_avoiding(v, w) {
                let p = choose|p: Seq<usize>|
                    #[trigger] self.is_path(p) && p[0] == s && p.last() == v && !p.contains(w);
                assert(self.is_path(p) && Some(p[0]) == self.start && p.last() == v);
            }
        }
    }
}

/// The way from the place `u` that looks for a node on every path to the node at the place
/// `idx` ends on that way, at such a node or at the last place, and passes none before.
proof fn lemma_first_blocking<NL, EL>(
    g: GraphView<NL, EL>,
    line: Seq<usize>,
    d: Seq<usize>,
    idx: usize,
    u: usize,
)
    requires
        is_forest(d),
        d.len() == line.len(),
        idx < d.len(),
        u < d.len(),
        forall|i: usize| i < d.len() ==> #[trigger] defined(d, i),
    ensures
        u <= first_blocking(g, line, d, idx, u) < d.len(),
        chain_has(d, u, first_blocking(g, line, d, idx, u)),
        first_blocking(g, line, d, idx, u) == d.len() - 1 || !g.reachable_avoiding(
            line[idx as int],
            line[first_blocking(g, line, d, idx, u) as int],
        ),
        forall|t: usize|
            #[trigger] chain_has(d, u, t) && t < first_blocking(g, line, d, idx, u)
                ==> g.reachable_avoiding(line[idx as int], line[t as int]),
    decreases d.len() - u,
{
    let f = first_blocking(g, line, d, idx, u);
    assert(defined(d, u));
    if u < d[u as int] && g.reachable_avoiding(line[idx as int], line[u as int]) {
        let up = d[u as int];
        lemma_first_blocking(g, line, d, idx, up);
        assert(f == first_blocking(g, line, d, idx, up));
        assert forall|t: usize| #[trigger] chain_has(d, u, t) && t < f implies g.reachable_avoiding(
            line[idx as int],
            line[t as int],
        ) by {
            if t != u {
                assert(chain_has(d, up, t));
            }
        }
    } else {
        assert(f == u);
        assert forall|t: usize| #[trigger] chain_has(d, u, t) && t < f implies g.reachable_avoiding(
            line[idx as int],
            line[t as int],
        ) by {
            lemma_chain_above(d, u, t);
        }
    }
}

/// A node that dominates another is one that the entry node reaches.
proof fn lemma_dominator_reached<NL, EL>(g: GraphView<NL, EL>, w: usize, v: usize)
    requires
        g.dominates(w, v),
        g.start is Some,
    ensures
        g.reachable_set().contains(w),
{
    let s = g.start->0;
    assert(g.reachable(s, v));
    let some = choose|q: Seq<usize>| #[trigger] g.is_path(q) && q[0] == s && q.last() == v;
    assert(some.contains(w));
    let at = choose|at: int| 0 <= at < some.len() && some[at] == w;
    let head = some.take(at + 1);
    assert forall|x: int| 0 <= x < head.len() - 1 implies g.has_edge(
        #[trigger] head[x],
        head[x + 1],
    ) by {
        assert(g.has_edge(some[x], some[x + 1]));
    }
    assert(g.is_path(head) && head[0] == s && head.last() == w);
    assert(g.reachable(s, w));
}

/// When the passes over the post-order of a graph were stopped before one changed nothing,
/// the mended dominator of a node is its immediate dominator all the same: what the passes
/// leave has every dominator of a node on the way from it, in the order of dominance, and
/// mending picks the first of them. This holds for every node but the entry node that the
/// entry node reaches, provided that all these nodes are in the graph.
proof fn lemma_mended_dominators_are_immediate<NL, EL>(g: GraphView<NL, EL>)
    requires
        g.entry_closed(),
        g.fits(),
        !dominators_of(g).1,
    ensures
        forall|v: usize|
            #[trigger] g.reachable_set().contains(v) && g.start != Some(v)
                ==> is_immediate_dominator(g, dominators_of(g).0[v], v),
{
    lemma_post_order(g);
    let po = post_order(g);
    let preds = predecessor_map(g, po);
    let places = place_lists(po, preds);
    let n = po.len();
    if n > 0 {
        let s = g.start->0;
        let rel = dominance_by_place(g);
        lemma_places_led_from_above(g);
        lemma_dominance_like(g);
        lemma_solution(places);
        lemma_solution_total(places);
        lemma_initial_keeps(places, rel);
        lemma_iterate_keeps(initial(n), places, rel, n * n);
        let d = solution(places).0;
        let e = mended(g, po, d);
        assert(d == iterate(initial(n), places, n * n).0);
        assert(e == final_places(g));
        assert(po[n - 1] == s);
        assert forall|v: usize| #[trigger]
            g.reachable_set().contains(v) && g.start != Some(v) implies is_immediate_dominator(
            g,
            dominators_of(g).0[v],
            v,
        ) by {
            assert(po.to_set().contains(v));
            assert(po.contains(v));
            let i = po.index_of(v) as usize;
            assert(po[i as int] == v);
            assert(defined(d, i));
            assert(i != n - 1);
            let up = d[i as int];
            assert(defined(d, up));
            lemma_first_blocking(g, po, d, i, up);
            let f = first_blocking(g, po, d, i, up);
            assert(e[i as int] == f);
            assert(defined(e, i));
            let m = po[f as int];
            assert(dominators_of(g).0[v] == m);
            assert(chain_has(d, i, f));
            assert(m != v);
            assert(po.to_set().contains(m)) by {
                assert(po.contains(po[f as int]));
            }
            assert(g.dominates(m, v)) by {
                if f == n - 1 {
                    assert forall|q: Seq<usize>|
                        #[trigger] g.is_path(q) && Some(q[0]) == g.start && q.last()
                            == v implies q.contains(m) by {
                        assert(q[0] == m);
                    }
                } else {
                    g.lemma_dominates_blocks(m, v);
                }
            }
            assert forall|w: usize| #[trigger] g.dominates(w, v) && w != v implies g.dominates(
                w,
                m,
            ) by {
                lemma_dominator_reached(g, w, v);
                assert(po.to_set().contains(w));
                assert(po.contains(w));
                let k = po.index_of(w) as usize;
                assert(po[k as int] == w);
                assert(rel(k, i));
                assert(chain_has(d, i, k));
                assert(k != i);
                assert(chain_has(d, up, k));
                if k < f {
                    g.lemma_dominates_blocks(w, v);
                } else if k > f {
                    assert(rel(k, f));
                } else {
                    assert forall|q: Seq<usize>|
                        #[trigger] g.is_path(q) && Some(q[0]) == g.start && q.last()
                            == m implies q.contains(m) by {
                        assert(q[q.len() - 1] == m);
                    }
                }
            }
        }
    } else {
        assert forall|v: usize| !g.reachable_set().contains(v) by {
            assert(po.to_set().contains(v) <==> po.contains(v));
        }
    }
}

/// The dominator that is given out for a node is its immediate dominator: every path from
/// the entry node to the node leads through it, and every other node through which all
/// these paths lead dominates it too. This holds for every node but the entry node that the
/// entry node reaches, provided that all these nodes are in the graph.
pub proof fn lemma_dominators_are_immediate<NL, EL>(g: GraphView<NL, EL>)
    requires
        g.entry_closed(),
        g.fits(),
    ensures
        forall|v: usize|
            #[trigger] g.reachable_set().contains(v) && g.start != Some(v)
                ==> is_immediate_dominator(g, dominators_of(g).0[v], v),
{
    if dominators_of(g).1 {
        lemma_stable_dominators_are_immediate(g);
    } else {
        lemma_mended_dominators_are_immediate(g);
    }
}

/// A set that holds the entry node and every successor but `avoid` of its members holds
/// every node that a path from the entry node reaches without leading through `avoid`.
proof fn lemma_closed_avoiding<NL, EL>(
    g: GraphView<NL, EL>,
    seen: Set<usize>,
    avoid: usize,
    p: Seq<usize>,
    k: int,
)
    requires
        g.is_path(p),
        seen.contains(p[0]),
        !p.contains(avoid),
        forall|u: usize, x: usize|
            seen.contains(u) && #[trigger] g.has_edge(u, x) && x != avoid ==> seen.contains(x),
        0 <= k < p.len(),
    ensures
        seen.contains(p[k]),
    decreases k,
{
    if k > 0 {
        lemma_closed_avoiding(g, seen, avoid, p, k - 1);
        assert(g.has_edge(p[k - 1], p[k - 1 + 1]));
        assert(p.contains(p[k]));
    }
}

/// Whether some path leads from the entry node of `graph` to `target` and not through
/// `avoid`.
pub fn reaches_avoiding<NL, EL>(graph: &DiGraph<NL, EL>, target: usize, avoid: usize) -> (r: bool)
    ensures
        r == graph@.reachable_avoiding(target, avoid),
{
    let ghost g = graph@;
    let s = match graph.start() {
        Some(s) => *s,
        None => {
            return false;
        },
    };
    if s == avoid {
        proof {
            assert forall|p: Seq<usize>|
                #[trigger] g.is_path(p) && p[0] == s && p.last() == target implies p.contains(
                avoid,
            ) by {
                assert(p[0] == avoid);
            }
        }
        return false;
    }
    let mut visited = VisitedSet::default();
    visited.visit(&s);
    let mut line: Vec<usize> = Vec::new();
    line.push(s);
    proof {
        let first = seq![s];
        assert(g.is_path(first) && first[0] == s && first.last() == s);
        assert(!first.contains(avoid));
        assert(line@[0] == s);
        assert forall|u: usize| visited.seen().contains(u) implies line@.contains(u) by {
            assert(line@[0] == u);
        }
    }
    while line.len() > 0
        invariant
            g == graph@,
            g.start == Some(s),
            s != avoid,
            visited.seen().contains(s),
            !visited.seen().contains(avoid),
            forall|i: int| 0 <= i < line@.len() ==> visited.seen().contains(#[trigger] line@[i]),
            forall|v: usize| #[trigger] visited.seen().contains(v) ==> g.reachable_avoiding(v, avoid),
            forall|u: usize, x: usize|
                visited.seen().contains(u) && !line@.contains(u) && #[trigger] g.has_edge(u, x) && x
                    != avoid ==> visited.seen().contains(x),
        decreases unvisited(visited.seen()).len() + line@.len(),
    {
        let ghost before = line@;
        let node = match line.pop() {
            Some(n) => n,
            None => s,
        };
        proof {
            assert(node == before[before.len() - 1]);
            assert(visited.seen().contains(node));
            assert forall|u: usize| #[trigger] before.contains(u) implies u == node || line@.contains(
                u,
            ) by {
                let i = choose|i: int| 0 <= i < before.len() && before[i] == u;
                if i < before.len() - 1 {
                    assert(line@[i] == u);
                }
            }
        }
        let succs = graph.successor_ids(&node);
        let ghost weight = unvisited(visited.seen()).len() + line@.len();
        let mut j: usize = 0;
        while j < succs.len()
            invariant
                j <= succs.len(),
                g == graph@,
                g.start == Some(s),
                s != avoid,
                succs@ == g.successor_seq(node),
                visited.seen().contains(s),
                visited.seen().contains(node),
                !visited.seen().contains(avoid),
                forall|i: int| 0 <= i < line@.len() ==> visited.seen().contains(#[trigger] line@[i]),
                forall|v: usize| #[trigger]
                    visited.seen().contains(v) ==> g.reachable_avoiding(v, avoid),
                forall|u: usize, x: usize|
                    visited.seen().contains(u) && !line@.contains(u) && u != node
                        && #[trigger] g.has_edge(u, x) && x != avoid ==> visited.seen().contains(x),
                forall|i: int|
                    0 <= i < j && succs@[i] != avoid ==> visited.seen().contains(#[trigger] succs@[i]),
                unvisited(visited.seen()).len() + line@.len() == weight,
            decreases succs.len() - j,
        {
            let x = succs[j];
            let ghost seen = visited.seen();
            let ghost prior = line@;
            if x != avoid {
                if visited.visit(&x) {
                    line.push(x);
                    proof {
                        lemma_unvisited_insert(seen, x);
                        crate::order::lemma_ascending(g.successors(node));
                        assert(succs@.contains(x));
                        assert(g.has_edge(node, x));
                        let p = choose|p: Seq<usize>|
                            #[trigger] g.is_path(p) && p[0] == s && p.last() == node && !p.contains(
                                avoid,
                            );
                        let q = p.push(x);
                        assert forall|i: int| 0 <= i < q.len() - 1 implies g.has_edge(
                            #[trigger] q[i],
                            q[i + 1],
                        ) by {
                            if i < p.len() - 1 {
                                assert(g.has_edge(p[i], p[i + 1]));
                            }
                        }
                        assert(!q.contains(avoid)) by {
                            if q.contains(avoid) {
                                let i = choose|i: int| 0 <= i < q.len() && q[i] == avoid;
                                assert(p[i] == avoid);
                            }
                        }
                        assert(g.is_path(q) && q[0] == s && q.last() == x && !q.contains(avoid));
                        assert forall|u: usize| prior.contains(u) implies line@.contains(u) by {
                            let i = choose|i: int| 0 <= i < prior.len() && prior[i] == u;
                            assert(line@[i] == u);
                        }
                        assert(line@[prior.len() as int] == x);
                    }
                } else {
                    proof {
                        assert(visited.seen() =~= seen);
                    }
                }
            }
            j += 1;
        }
        proof {
            crate::order::lemma_ascending(g.successors(node));
            assert forall|u: usize, x: usize|
                visited.seen().contains(u) && !line@.contains(u) && #[trigger] g.has_edge(u, x) && x
                    != avoid implies visited.seen().contains(x) by {
                if u == node {
                    assert(succs@.contains(x));
                    let i = choose|i: int| 0 <= i < succs@.len() && succs@[i] == x;
                    assert(visited.seen().contains(succs@[i]));
                }
            }
        }
    }
    proof {
        if g.reachable_avoiding(target, avoid) {
            let p = choose|p: Seq<usize>|
                #[trigger] g.is_path(p) && p[0] == s && p.last() == target && !p.contains(avoid);
            lemma_closed_avoiding(g, visited.seen(), avoid, p, p.len() - 1);
        }
    }
    visited.is_visited(&target)
}

} // verus!
