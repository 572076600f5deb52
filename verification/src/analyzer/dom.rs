//! Immediate dominators by repeated passes over the post-order of a graph.
//!
//! The nodes are numbered by their place in the post-order, so the entry node has the
//! highest number. Each node gets a candidate dominator from its predecessors, and the
//! passes go on until one of them changes nothing.
use crate::analyzer::dominance::reaches_avoiding;
use crate::analyzer::predecessors::{predecessor_map, sets_view, Predecessors};
use crate::graph::{DiGraph, GraphView};
use crate::order::{
    decreasing, descending, insert_descending, lemma_descending, lemma_descending_of,
};
use crate::postorder::{
    has_later_predecessor, is_post_order, lemma_post_order, lemma_walk_rest_distinct, post_order,
    first_walk,
};
use std::collections::{HashMap, HashSet};
use vstd::prelude::*;
use vstd::std_specs::iter::IteratorSpec;

verus! {

broadcast use vstd::std_specs::hash::group_hash_axioms;

/// Stands for "no dominator yet" among the places of a post-order.
pub const UNDEFINED: usize = usize::MAX;

/// The places in `line` of the predecessors of the node at the place `i`.
pub open spec fn predecessor_places(
    line: Seq<usize>,
    preds: Map<usize, Set<usize>>,
    i: int,
) -> Set<usize> {
    Set::new(
        |k: usize|
            k < line.len() && preds.contains_key(line[i]) && preds[line[i]].contains(
                line[k as int],
            ),
    )
}

/// For each place of `line`, the places of the predecessors of its node, highest first.
pub open spec fn place_lists(line: Seq<usize>, preds: Map<usize, Set<usize>>) -> Seq<Seq<usize>> {
    Seq::new(line.len(), |i: int| descending(predecessor_places(line, preds, i)))
}

/// What a vector of vectors holds.
pub open spec fn lists_view(v: Vec<Vec<usize>>) -> Seq<Seq<usize>> {
    Seq::new(v@.len(), |i: int| v@[i]@)
}

/// For each place of the post-order `post_order_line`, the places of the predecessors of its
/// node, highest first. Predecessors that are not in the post-order are left out.
pub fn to_post_order_indexes(
    post_order_line: &Vec<usize>,
    predecessors: &HashMap<usize, HashSet<usize>>,
) -> (r: Vec<Vec<usize>>)
    requires
        post_order_line@.no_duplicates(),
    ensures
        lists_view(r) == place_lists(post_order_line@, sets_view(*predecessors)),
{
    let n = post_order_line.len();
    let ghost line = post_order_line@;
    let ghost preds = sets_view(*predecessors);
    let mut position: HashMap<usize, usize> = HashMap::new();
    let mut i: usize = 0;
    while i < n
        invariant
            i <= n,
            n == line.len(),
            line == post_order_line@,
            line.no_duplicates(),
            forall|k: int| 0 <= k < i ==> position@.contains_key(#[trigger] line[k]) && position@[line[k]] == k,
            forall|id: usize| #[trigger]
                position@.contains_key(id) ==> position@[id] < i && line[position@[id] as int] == id,
        decreases n - i,
    {
        position.insert(post_order_line[i], i);
        i += 1;
    }
    let mut indexes: Vec<Vec<usize>> = Vec::new();
    i = 0;
    while i < n
        invariant
            i <= n,
            n == line.len(),
            line == post_order_line@,
            preds == sets_view(*predecessors),
            line.no_duplicates(),
            forall|k: int| 0 <= k < n ==> position@.contains_key(#[trigger] line[k]) && position@[line[k]] == k,
            forall|id: usize| #[trigger]
                position@.contains_key(id) ==> position@[id] < n && line[position@[id] as int] == id,
            indexes@.len() == i,
            forall|k: int| 0 <= k < i ==> (#[trigger] indexes@[k])@ == descending(predecessor_places(line, preds, k)),
        decreases n - i,
    {
        let node = post_order_line[i];
        let mut idxs: Vec<usize> = Vec::new();
        match predecessors.get(&node) {
            Some(ps) => {
                assert(preds.contains_key(node) && preds[node] == ps@);
                let ghost all = ps.iter().remaining();
                assert(idxs@.to_set() =~= Set::new(
                    |k: usize|
                        k < n && exists|j: int| 0 <= j < 0 && *#[trigger] all[j] == line[k as int],
                ));
                for p in it: ps.iter()
                    invariant
                        it.seq() == all,
                        all == ps.iter().remaining(),
                        all.no_duplicates(),
                        n == line.len(),
                        line.no_duplicates(),
                        forall|k: int| 0 <= k < n ==> position@.contains_key(#[trigger] line[k]) && position@[line[k]] == k,
                        forall|id: usize| #[trigger]
                            position@.contains_key(id) ==> position@[id] < n && line[position@[id] as int] == id,
                        decreasing(idxs@),
                        idxs@.to_set() == Set::new(
                            |k: usize|
                                k < n && exists|j: int|
                                    0 <= j < it.index() && *#[trigger] all[j] == line[k as int],
                        ),
                {
                    let ghost at = it.index();
                    let ghost before = idxs@;
                    match position.get(p) {
                        Some(idx) => {
                            proof {
                                if before.contains(*idx) {
                                    assert(before.to_set().contains(*idx));
                                    let j = choose|j: int|
                                        0 <= j < at && *#[trigger] all[j] == line[*idx as int];
                                    assert(all[j] == all[at]);
                                }
                            }
                            insert_descending(&mut idxs, *idx);
                            proof {
                                let goal = Set::new(
                                    |k: usize|
                                        k < n && exists|j: int|
                                            0 <= j < at + 1 && *#[trigger] all[j] == line[k as int],
                                );
                                assert forall|k: usize| idxs@.to_set().contains(k) <==> goal.contains(k) by {
                                    if before.to_set().contains(k) {
                                        let j = choose|j: int|
                                            0 <= j < at && *#[trigger] all[j] == line[k as int];
                                        assert(0 <= j < at + 1 && *all[j] == line[k as int]);
                                    }
                                    if k == *idx {
                                        assert(*all[at] == line[k as int]);
                                    }
                                    if goal.contains(k) {
                                        let j = choose|j: int|
                                            0 <= j < at + 1 && *#[trigger] all[j] == line[k as int];
                                        if j == at {
                                            assert(position@[line[k as int]] == k);
                                        } else {
                                            assert(0 <= j < at && *all[j] == line[k as int]);
                                        }
                                    }
                                }
                                assert(idxs@.to_set() =~= goal);
                            }
                        },
                        None => {
                            proof {
                                let goal = Set::new(
                                    |k: usize|
                                        k < n && exists|j: int|
                                            0 <= j < at + 1 && *#[trigger] all[j] == line[k as int],
                                );
                                assert forall|k: usize| idxs@.to_set().contains(k) <==> goal.contains(k) by {
                                    if before.to_set().contains(k) {
                                        let j = choose|j: int|
                                            0 <= j < at && *#[trigger] all[j] == line[k as int];
                                        assert(0 <= j < at + 1 && *all[j] == line[k as int]);
                                    }
                                    if goal.contains(k) {
                                        let j = choose|j: int|
                                            0 <= j < at + 1 && *#[trigger] all[j] == line[k as int];
                                        if j == at {
                                            assert(position@.contains_key(line[k as int]));
                                        } else {
                                            assert(0 <= j < at && *all[j] == line[k as int]);
                                        }
                                    }
                                }
                                assert(idxs@.to_set() =~= goal);
                            }
                        },
                    }
                }
                proof {
                    let places = predecessor_places(line, preds, i as int);
                    assert forall|k: usize| idxs@.to_set().contains(k) <==> places.contains(k) by {
                        if idxs@.to_set().contains(k) {
                            let j = choose|j: int|
                                0 <= j < all.len() && *#[trigger] all[j] == line[k as int];
                            assert(all.unref()[j] == line[k as int]);
                            assert(all.unref().to_set().contains(line[k as int]));
                        }
                        if places.contains(k) {
                            assert(all.unref().to_set().contains(line[k as int]));
                            assert(all.unref().contains(line[k as int]));
                            let j = choose|j: int|
                                0 <= j < all.unref().len() && all.unref()[j] == line[k as int];
                            assert(*all[j] == line[k as int]);
                        }
                    }
                    assert(idxs@.to_set() =~= places);
                    lemma_descending_of(idxs@);
                }
            },
            None => {
                proof {
                    let places = predecessor_places(line, preds, i as int);
                    assert(places =~= Set::empty());
                    assert(idxs@.to_set() =~= places);
                    lemma_descending_of(idxs@);
                }
            },
        }
        indexes.push(idxs);
        i += 1;
    }
    assert(lists_view(indexes) =~= place_lists(line, preds));
    indexes
}

/// The place `a` has a dominator in `d`.
pub open spec fn defined(d: Seq<usize>, a: usize) -> bool {
    a < d.len() && d[a as int] != UNDEFINED
}

/// The dominators `d` by place form a forest that hangs from the last place: the last place
/// is its own dominator, and the dominator of any other place is a higher place that has a
/// dominator too.
pub open spec fn is_forest(d: Seq<usize>) -> bool {
    forall|i: usize| #[trigger]
        defined(d, i) ==> d[i as int] < d.len() && d[d[i as int] as int] != UNDEFINED && (d[i as int]
            > i || (i == d.len() - 1 && d[i as int] == i))
}

/// The first place that the walks from `a` and from `b` towards the last place share: the
/// lower of the two places is replaced by its dominator until both are equal.
pub open spec fn meet(d: Seq<usize>, a: usize, b: usize) -> usize
    decreases 2 * d.len() - a - b,
{
    if a == b || a >= d.len() || b >= d.len() {
        a
    } else if a < b {
        if a < d[a as int] && d[a as int] < d.len() {
            meet(d, d[a as int], b)
        } else {
            a
        }
    } else {
        if b < d[b as int] && d[b as int] < d.len() {
            meet(d, a, d[b as int])
        } else {
            a
        }
    }
}

/// `acc` met in turn with the dominator of each of `plist[k..]` that has one.
pub open spec fn fold_meet(d: Seq<usize>, plist: Seq<usize>, k: nat, acc: usize) -> usize
    decreases plist.len() - k,
{
    if k >= plist.len() {
        acc
    } else {
        let p = plist[k as int];
        let next = if defined(d, p) {
            meet(d, acc, d[p as int])
        } else {
            acc
        };
        fold_meet(d, plist, k + 1, next)
    }
}

/// The dominator that the place `idx` gets from the places `plist` of its predecessors: the
/// first of them, met with the dominators of the others. There is none while the first
/// predecessor is not a higher place with a dominator.
pub open spec fn candidate(d: Seq<usize>, plist: Seq<usize>, idx: usize) -> Option<usize> {
    if plist.len() > 0 && plist[0] > idx && defined(d, plist[0]) {
        Some(fold_meet(d, plist, 1, plist[0]))
    } else {
        None
    }
}

/// The dominators after the place `idx` was given its candidate.
pub open spec fn settle_at(d: Seq<usize>, plist: Seq<usize>, idx: usize) -> Seq<usize> {
    match candidate(d, plist, idx) {
        Some(c) => d.update(idx as int, c),
        None => d,
    }
}

/// The dominators after the `k` highest places below the last were settled, from the
/// highest down.
pub open spec fn sweep_down(d: Seq<usize>, places: Seq<Seq<usize>>, k: nat) -> Seq<usize>
    decreases k,
{
    if k == 0 || k >= d.len() || places.len() != d.len() {
        d
    } else {
        let idx = (d.len() - 1 - k) as usize;
        settle_at(sweep_down(d, places, (k - 1) as nat), places[idx as int], idx)
    }
}

/// The dominators after one pass over all places below the last.
pub open spec fn pass(d: Seq<usize>, places: Seq<Seq<usize>>) -> Seq<usize> {
    sweep_down(d, places, (d.len() - 1) as nat)
}

/// The dominators after passes were made until one changed nothing, or until `budget`
/// passes were made. The flag tells whether the last pass changed nothing.
pub open spec fn iterate(d: Seq<usize>, places: Seq<Seq<usize>>, budget: nat) -> (Seq<usize>, bool)
    decreases budget,
{
    if budget == 0 {
        (d, false)
    } else {
        let next = pass(d, places);
        if next == d {
            (d, true)
        } else {
            iterate(next, places, (budget - 1) as nat)
        }
    }
}

/// The dominators before the first pass: the last place is its own dominator, the others
/// have none.
pub open spec fn initial(n: nat) -> Seq<usize> {
    Seq::new(
        n,
        |i: int|
            if i == n - 1 {
                i as usize
            } else {
                UNDEFINED
            },
    )
}

/// The dominators by place that the passes end with, and whether the last pass changed
/// nothing. The number of passes is bounded by the square of the number of places.
pub open spec fn solution(places: Seq<Seq<usize>>) -> (Seq<usize>, bool) {
    if places.len() == 0 {
        (Seq::empty(), true)
    } else {
        iterate(initial(places.len()), places, places.len() * places.len())
    }
}

/// Meeting two places of a forest gives a place that has a dominator and is no lower than
/// either.
pub proof fn lemma_meet(d: Seq<usize>, a: usize, b: usize)
    requires
        is_forest(d),
        defined(d, a),
        defined(d, b),
    ensures
        defined(d, meet(d, a, b)),
        meet(d, a, b) >= a,
        meet(d, a, b) >= b,
    decreases 2 * d.len() - a - b,
{
    if a != b {
        if a < b {
            assert(defined(d, d[a as int]));
            lemma_meet(d, d[a as int], b);
        } else {
            assert(defined(d, d[b as int]));
            lemma_meet(d, a, d[b as int]);
        }
    }
}

/// The first place that the walks from `finger1` and from `finger2` towards the last place
/// share.
pub fn intersect(dominators: &Vec<usize>, finger1: usize, finger2: usize) -> (r: usize)
    requires
        is_forest(dominators@),
        defined(dominators@, finger1),
        defined(dominators@, finger2),
    ensures
        r == meet(dominators@, finger1, finger2),
        defined(dominators@, r),
        r >= finger1,
        r >= finger2,
{
    let mut f1 = finger1;
    let mut f2 = finger2;
    proof {
        lemma_meet(dominators@, finger1, finger2);
    }
    while f1 != f2
        invariant
            is_forest(dominators@),
            defined(dominators@, f1),
            defined(dominators@, f2),
            meet(dominators@, f1, f2) == meet(dominators@, finger1, finger2),
        decreases 2 * dominators.len() - f1 - f2,
    {
        let ghost g1 = f1;
        let ghost g2 = f2;
        while f1 < f2
            invariant
                is_forest(dominators@),
                defined(dominators@, f1),
                defined(dominators@, f2),
                meet(dominators@, f1, f2) == meet(dominators@, finger1, finger2),
                f1 >= g1,
                f2 == g2,
            decreases dominators.len() - f1,
        {
            assert(defined(dominators@, dominators@[f1 as int]));
            f1 = dominators[f1];
        }
        let ghost h1 = f1;
        while f2 < f1
            invariant
                is_forest(dominators@),
                defined(dominators@, f1),
                defined(dominators@, f2),
                meet(dominators@, f1, f2) == meet(dominators@, finger1, finger2),
                f2 >= g2,
                f1 == h1,
            decreases dominators.len() - f2,
        {
            assert(defined(dominators@, dominators@[f2 as int]));
            f2 = dominators[f2];
        }
    }
    f1
}

/// Folding the dominators of the predecessors into a place of a forest gives a place that
/// has a dominator and is no lower.
pub proof fn lemma_fold_meet(d: Seq<usize>, plist: Seq<usize>, k: nat, acc: usize)
    requires
        is_forest(d),
        defined(d, acc),
    ensures
        defined(d, fold_meet(d, plist, k, acc)),
        fold_meet(d, plist, k, acc) >= acc,
    decreases plist.len() - k,
{
    if k < plist.len() {
        let p = plist[k as int];
        if defined(d, p) {
            assert(defined(d, d[p as int]));
            lemma_meet(d, acc, d[p as int]);
            lemma_fold_meet(d, plist, k + 1, meet(d, acc, d[p as int]));
        } else {
            lemma_fold_meet(d, plist, k + 1, acc);
        }
    }
}

/// Settling a place below the last keeps a forest a forest.
pub proof fn lemma_settle_at(d: Seq<usize>, plist: Seq<usize>, idx: usize)
    requires
        is_forest(d),
        idx < d.len() - 1,
    ensures
        is_forest(settle_at(d, plist, idx)),
        settle_at(d, plist, idx).len() == d.len(),
        forall|i: int| 0 <= i < d.len() && i != idx ==> settle_at(d, plist, idx)[i] == d[i],
        forall|i: usize| defined(d, i) ==> defined(settle_at(d, plist, idx), i),
{
    match candidate(d, plist, idx) {
        Some(c) => {
            lemma_fold_meet(d, plist, 1, plist[0]);
            let e = settle_at(d, plist, idx);
            assert forall|i: usize| #[trigger] defined(e, i) implies e[i as int] < e.len()
                && e[e[i as int] as int] != UNDEFINED && (e[i as int] > i || (i == e.len() - 1
                && e[i as int] == i)) by {
                if i == idx {
                    assert(defined(d, c));
                } else {
                    assert(defined(d, i));
                    assert(defined(d, d[i as int]));
                }
            }
        },
        None => {},
    }
}

/// Gives the place `idx` its candidate. Returns whether its dominator changed.
fn settle(dominators: &mut Vec<usize>, plist: &Vec<usize>, idx: usize) -> (changed: bool)
    requires
        is_forest(old(dominators)@),
        idx < old(dominators)@.len() - 1,
    ensures
        final(dominators)@ == settle_at(old(dominators)@, plist@, idx),
        changed == (final(dominators)@ != old(dominators)@),
{
    let ghost d = dominators@;
    if plist.len() > 0 {
        let first = plist[0];
        if first > idx && first < dominators.len() && dominators[first] != UNDEFINED {
            let mut new_idom = first;
            let mut p: usize = 1;
            while p < plist.len()
                invariant
                    1 <= p <= plist.len(),
                    dominators@ == d,
                    is_forest(d),
                    defined(d, new_idom),
                    fold_meet(d, plist@, p as nat, new_idom) == fold_meet(d, plist@, 1, first),
                decreases plist.len() - p,
            {
                let pred = plist[p];
                if pred < dominators.len() && dominators[pred] != UNDEFINED {
                    assert(defined(d, pred));
                    assert(defined(d, d[pred as int]));
                    new_idom = intersect(dominators, new_idom, dominators[pred]);
                }
                p += 1;
            }
            assert(candidate(d, plist@, idx) == Some(new_idom));
            if dominators[idx] != new_idom {
                dominators.set(idx, new_idom);
                assert(dominators@[idx as int] != d[idx as int]);
                return true;
            }
            assert(dominators@ =~= d.update(idx as int, new_idom));
            return false;
        }
    }
    false
}

/// Makes one pass over all places below the last, from the highest down. Returns whether a
/// dominator changed.
fn sweep(dominators: &mut Vec<usize>, places: &Vec<Vec<usize>>) -> (changed: bool)
    requires
        is_forest(old(dominators)@),
        old(dominators)@.len() == places@.len(),
        old(dominators)@.len() > 0,
    ensures
        final(dominators)@ == pass(old(dominators)@, lists_view(*places)),
        changed == (final(dominators)@ != old(dominators)@),
        is_forest(final(dominators)@),
        final(dominators)@.len() == old(dominators)@.len(),
{
    let ghost d0 = dominators@;
    let ghost lists = lists_view(*places);
    let len = dominators.len();
    let mut changed = false;
    let mut idx: usize = len - 1;
    while idx > 0
        invariant
            idx < len,
            len == d0.len(),
            len == places@.len(),
            lists == lists_view(*places),
            dominators@.len() == len,
            is_forest(dominators@),
            dominators@ == sweep_down(d0, lists, (len - 1 - idx) as nat),
            changed == (dominators@ != d0),
            forall|i: int| 0 <= i < idx ==> dominators@[i] == d0[i],
        decreases idx,
    {
        idx -= 1;
        let ghost before = dominators@;
        proof {
            lemma_settle_at(before, places@[idx as int]@, idx);
            assert(lists[idx as int] == places@[idx as int]@);
        }
        let moved = settle(dominators, &places[idx], idx);
        if moved {
            changed = true;
            proof {
                if dominators@[idx as int] == before[idx as int] {
                    assert(dominators@ =~= before);
                }
            }
        }
    }
    changed
}

/// The dominators by place for the places `places` of the predecessors: passes are made
/// until one changes nothing. The number of passes is bounded by the square of the number
/// of places; the flag tells whether the last pass changed nothing.
pub fn solve(places: &Vec<Vec<usize>>) -> (r: (Vec<usize>, bool))
    ensures
        (r.0@, r.1) == solution(lists_view(*places)),
        r.0@.len() == places@.len(),
        is_forest(r.0@),
{
    let len = places.len();
    let ghost lists = lists_view(*places);
    let mut dominators: Vec<usize> = Vec::new();
    if len == 0 {
        assert(dominators@ =~= Seq::<usize>::empty());
        return (dominators, true);
    }
    let mut i: usize = 0;
    while i < len
        invariant
            i <= len,
            dominators@.len() == i,
            forall|k: int| 0 <= k < i ==> dominators@[k] == initial(len as nat)[k],
        decreases len - i,
    {
        dominators.push(if i == len - 1 {
            i
        } else {
            UNDEFINED
        });
        i += 1;
    }
    assert(dominators@ =~= initial(len as nat));
    assert(is_forest(dominators@));
    assert((len as u128) * (len as u128) <= u128::MAX) by (nonlinear_arith)
        requires
            len <= 0xffff_ffff_ffff_ffff,
    ;
    let budget: u128 = (len as u128) * (len as u128);
    let mut rounds: u128 = 0;
    let mut changed = true;
    while changed && rounds < budget
        invariant
            rounds <= budget,
            budget == len * len,
            len == places@.len(),
            len > 0,
            lists == lists_view(*places),
            dominators@.len() == len,
            is_forest(dominators@),
            changed ==> iterate(dominators@, lists, (budget - rounds) as nat) == solution(lists),
            !changed ==> (dominators@, true) == solution(lists),
        decreases budget - rounds,
    {
        changed = sweep(&mut dominators, places);
        rounds += 1;
    }
    (dominators, !changed)
}

/// Settling places one after another keeps a forest a forest, and a place that had a
/// dominator keeps one.
pub proof fn lemma_sweep_down(d: Seq<usize>, places: Seq<Seq<usize>>, k: nat)
    requires
        is_forest(d),
    ensures
        is_forest(sweep_down(d, places, k)),
        sweep_down(d, places, k).len() == d.len(),
        forall|i: usize| defined(d, i) ==> #[trigger] defined(sweep_down(d, places, k), i),
    decreases k,
{
    if k == 0 || k >= d.len() || places.len() != d.len() {
    } else {
        let idx = (d.len() - 1 - k) as usize;
        let before = sweep_down(d, places, (k - 1) as nat);
        lemma_sweep_down(d, places, (k - 1) as nat);
        lemma_settle_at(before, places[idx as int], idx);
        assert forall|i: usize| defined(d, i) implies #[trigger] defined(
            sweep_down(d, places, k),
            i,
        ) by {
            assert(defined(before, i));
        }
    }
}

/// The passes keep a forest a forest, and a place that had a dominator keeps one. When the
/// last pass changed nothing, one more pass changes nothing either.
pub proof fn lemma_iterate(d: Seq<usize>, places: Seq<Seq<usize>>, budget: nat)
    requires
        is_forest(d),
    ensures
        is_forest(iterate(d, places, budget).0),
        iterate(d, places, budget).0.len() == d.len(),
        forall|i: usize| defined(d, i) ==> #[trigger] defined(iterate(d, places, budget).0, i),
        iterate(d, places, budget).1 ==> pass(iterate(d, places, budget).0, places) == iterate(
            d,
            places,
            budget,
        ).0,
    decreases budget,
{
    if budget > 0 {
        let next = pass(d, places);
        lemma_sweep_down(d, places, (d.len() - 1) as nat);
        if next != d {
            lemma_iterate(next, places, (budget - 1) as nat);
            assert forall|i: usize| defined(d, i) implies #[trigger] defined(
                iterate(d, places, budget).0,
                i,
            ) by {
                assert(defined(next, i));
            }
        }
    }
}

/// The dominators by place that the passes end with form a forest: the dominator of a
/// place is a higher place, but for the last place, which is its own. When the last pass
/// changed nothing, one more pass changes nothing either.
pub proof fn lemma_solution(places: Seq<Seq<usize>>)
    requires
        places.len() <= usize::MAX,
    ensures
        is_forest(solution(places).0),
        solution(places).0.len() == places.len(),
        places.len() > 0 ==> solution(places).0[places.len() - 1] == places.len() - 1,
        solution(places).1 ==> pass(solution(places).0, places) == solution(places).0,
{
    let n = places.len();
    if n > 0 {
        let d = initial(n);
        assert(is_forest(d));
        assert(defined(d, (n - 1) as usize));
        lemma_iterate(d, places, n * n);
        let e = solution(places).0;
        assert(defined(e, (n - 1) as usize));
    } else {
        assert(pass(Seq::<usize>::empty(), places) =~= Seq::<usize>::empty());
    }
}

/// Every place below the last has predecessors, and the highest of them is a higher place.
pub open spec fn led_from_above(places: Seq<Seq<usize>>) -> bool {
    forall|i: int|
        0 <= i < places.len() - 1 ==> (#[trigger] places[i]).len() > 0 && i < places[i][0]
            < places.len()
}

/// Where every place below the last has a predecessor at a higher place, the `k` highest
/// places below the last have a dominator once they were settled for the first time.
proof fn lemma_first_sweep(places: Seq<Seq<usize>>, k: nat)
    requires
        led_from_above(places),
        k < places.len(),
        places.len() <= usize::MAX,
    ensures
        forall|i: usize|
            places.len() - 1 - k <= i < places.len() ==> #[trigger] defined(
                sweep_down(initial(places.len()), places, k),
                i,
            ),
    decreases k,
{
    let n = places.len();
    let d = initial(n);
    assert(is_forest(d));
    if k == 0 {
        assert(defined(d, (n - 1) as usize));
    } else {
        let idx = (n - 1 - k) as usize;
        let before = sweep_down(d, places, (k - 1) as nat);
        lemma_first_sweep(places, (k - 1) as nat);
        lemma_sweep_down(d, places, (k - 1) as nat);
        lemma_settle_at(before, places[idx as int], idx);
        let plist = places[idx as int];
        assert(plist.len() > 0 && idx < plist[0] < n);
        assert(defined(before, plist[0]));
        lemma_fold_meet(before, plist, 1, plist[0]);
        let after = sweep_down(d, places, k);
        assert(after == settle_at(before, plist, idx));
        assert forall|i: usize| n - 1 - k <= i < n implies #[trigger] defined(after, i) by {
            if i != idx {
                assert(defined(before, i));
            }
        }
    }
}

/// Where every place below the last has a predecessor at a higher place, every place has a
/// dominator in the end.
pub proof fn lemma_solution_total(places: Seq<Seq<usize>>)
    requires
        led_from_above(places),
        places.len() <= usize::MAX,
    ensures
        forall|i: usize| i < places.len() ==> #[trigger] defined(solution(places).0, i),
{
    let n = places.len();
    if n > 0 {
        let d = initial(n);
        let next = pass(d, places);
        assert(is_forest(d));
        lemma_first_sweep(places, (n - 1) as nat);
        lemma_sweep_down(d, places, (n - 1) as nat);
        assert(n * n >= 1) by (nonlinear_arith)
            requires
                n >= 1,
        ;
        if next != d {
            lemma_iterate(next, places, (n * n - 1) as nat);
            assert forall|i: usize| i < n implies #[trigger] defined(solution(places).0, i) by {
                assert(defined(next, i));
            }
        }
    }
}

/// In the post-order of a graph with all the nodes that its entry node reaches, every
/// place below the last has a predecessor at a higher place.
pub proof fn lemma_places_led_from_above<NL, EL>(g: GraphView<NL, EL>)
    requires
        g.entry_closed(),
        g.fits(),
    ensures
        led_from_above(place_lists(post_order(g), predecessor_map(g, post_order(g)))),
        post_order(g).len() <= usize::MAX,
{
    lemma_post_order(g);
    crate::postorder::lemma_post_order_fits(g);
    let po = post_order(g);
    let preds = predecessor_map(g, po);
    let places = place_lists(po, preds);
    assert forall|i: int| 0 <= i < places.len() - 1 implies (#[trigger] places[i]).len() > 0 && i
        < places[i][0] < places.len() by {
        assert(has_later_predecessor(g, po, i));
        let x = choose|x: usize| #[trigger] g.has_edge(x, po[i]) && po.skip(i + 1).contains(x);
        let sk = po.skip(i + 1);
        let m = choose|m: int| 0 <= m < sk.len() && sk[m] == x;
        let j = (i + 1 + m) as usize;
        assert(po[j as int] == x);
        assert(po.contains(x));
        let set = predecessor_places(po, preds, i);
        assert(preds.contains_key(po[i]));
        assert(preds[po[i]].contains(po[j as int]));
        assert(set.contains(j));
        lemma_descending(set);
        let list = descending(set);
        assert(list.contains(j));
        let at = choose|at: int| 0 <= at < list.len() && list[at] == j;
        if at > 0 {
            assert(list[0] > list[at]);
        }
        assert(list.contains(list[0]));
        assert(set.contains(list[0]));
    }
}

/// In a graph with all the nodes that its entry node reaches, each of these nodes has a
/// dominator in the end: the entry node itself, any other node a node that comes later in
/// the post-order.
pub proof fn lemma_dominators_cover_reachable<NL, EL>(g: GraphView<NL, EL>)
    requires
        g.entry_closed(),
        g.fits(),
    ensures
        dominators_of(g).0.dom() == g.reachable_set(),
        forall|v: usize| #[trigger]
            g.reachable_set().contains(v) ==> post_order(g).contains(dominators_of(g).0[v]) && (
            if g.start == Some(v) {
                dominators_of(g).0[v] == v
            } else {
                post_order(g).index_of(dominators_of(g).0[v]) > post_order(g).index_of(v)
            }),
{
    lemma_post_order(g);
    lemma_places_led_from_above(g);
    let po = post_order(g);
    let places = place_lists(po, predecessor_map(g, po));
    lemma_solution(places);
    lemma_solution_total(places);
    lemma_mended(g, po, solution(places).0);
    let d = final_places(g);
    let map = dominators_of(g).0;
    assert forall|k: usize| k < po.len() implies #[trigger] defined(d, k) && d[k as int]
        < po.len() && (d[k as int] > k || (k == po.len() - 1 && d[k as int] == k)) by {
        assert(defined(solution(places).0, k));
    }
    assert forall|v: usize| map.dom().contains(v) <==> g.reachable_set().contains(v) by {
        assert(po.to_set().contains(v) <==> po.contains(v));
        if po.contains(v) {
            let k = po.index_of(v);
            assert(defined(d, k as usize));
        }
    }
    assert(map.dom() =~= g.reachable_set());
    assert forall|v: usize| #[trigger] g.reachable_set().contains(v) implies po.contains(map[v])
        && (if g.start == Some(v) {
        map[v] == v
    } else {
        po.index_of(map[v]) > po.index_of(v)
    }) by {
        assert(po.to_set().contains(v));
        assert(po.contains(v));
        let k = po.index_of(v);
        assert(po[k] == v);
        assert(defined(d, k as usize));
        let up = d[k] as int;
        assert(po[up] == map[v]);
        assert(po.contains(po[up]));
        let back = po.index_of(po[up]);
        assert(po[back] == po[up]);
        assert(back == up);
        if g.start == Some(v) {
            assert(k == po.len() - 1) by {
                if k != po.len() - 1 {
                    assert(po[k] != po[po.len() - 1]);
                }
            }
        } else {
            assert(k != po.len() - 1);
        }
    }
}

/// The dominator of each node of `line` whose place has one in `d`.
pub open spec fn dominator_map(line: Seq<usize>, d: Seq<usize>) -> Map<usize, usize> {
    Map::new(
        |id: usize| line.contains(id) && defined(d, line.index_of(id) as usize),
        |id: usize| line[d[line.index_of(id)] as int],
    )
}

/// The first place on the way from the place `u` towards the last place whose node is on
/// every path from the entry node to the node at the place `idx`; the end of the way if
/// there is none.
pub open spec fn first_blocking<NL, EL>(
    g: GraphView<NL, EL>,
    line: Seq<usize>,
    d: Seq<usize>,
    idx: usize,
    u: usize,
) -> usize
    decreases d.len() - u,
{
    if u < d.len() && d[u as int] != UNDEFINED && u < d[u as int] && d[u as int] < d.len() && idx
        < line.len() && u < line.len() && g.reachable_avoiding(line[idx as int], line[u as int]) {
        first_blocking(g, line, d, idx, d[u as int])
    } else {
        u
    }
}

/// The dominators by place after each place below its dominator was given the first place
/// on the way from that dominator whose node is on every path from the entry node to its
/// own node.
pub open spec fn mended<NL, EL>(g: GraphView<NL, EL>, line: Seq<usize>, d: Seq<usize>) -> Seq<
    usize,
> {
    Seq::new(
        d.len(),
        |i: int|
            if d[i] != UNDEFINED && i < d[i] && d[i] < d.len() {
                first_blocking(g, line, d, i as usize, d[i])
            } else {
                d[i]
            },
    )
}

/// The way from a place ends at a place that is no lower.
pub proof fn lemma_first_blocking_range<NL, EL>(
    g: GraphView<NL, EL>,
    line: Seq<usize>,
    d: Seq<usize>,
    idx: usize,
    u: usize,
)
    requires
        u < d.len(),
    ensures
        u <= first_blocking(g, line, d, idx, u) < d.len(),
    decreases d.len() - u,
{
    if u < d.len() && d[u as int] != UNDEFINED && u < d[u as int] && d[u as int] < d.len() && idx
        < line.len() && u < line.len() && g.reachable_avoiding(line[idx as int], line[u as int]) {
        lemma_first_blocking_range(g, line, d, idx, d[u as int]);
    }
}

/// Every dominator is a place.
pub open spec fn in_range(d: Seq<usize>) -> bool {
    forall|i: usize| #[trigger] defined(d, i) ==> d[i as int] < d.len()
}

/// Mending leaves a dominator to the places that have one, and none to the others; the
/// dominator of a place below the last is a higher place.
pub proof fn lemma_mended<NL, EL>(g: GraphView<NL, EL>, line: Seq<usize>, d: Seq<usize>)
    requires
        is_forest(d),
        d.len() <= usize::MAX,
    ensures
        mended(g, line, d).len() == d.len(),
        in_range(mended(g, line, d)),
        forall|i: usize| defined(mended(g, line, d), i) <==> defined(d, i),
        forall|i: usize|
            defined(d, i) ==> mended(g, line, d)[i as int] >= d[i as int],
        forall|i: usize| #[trigger]
            defined(d, i) ==> mended(g, line, d)[i as int] > i || (i == d.len() - 1 && mended(
                g,
                line,
                d,
            )[i as int] == i),
{
    let e = mended(g, line, d);
    assert forall|i: usize| i < d.len() implies (#[trigger] e[i as int] != UNDEFINED <==> d[i as int]
        != UNDEFINED) && (d[i as int] != UNDEFINED ==> d[i as int] <= e[i as int] < d.len()) by {
        if d[i as int] != UNDEFINED {
            assert(defined(d, i));
            if i < d[i as int] {
                lemma_first_blocking_range(g, line, d, i, d[i as int]);
            }
        }
    }
    assert forall|i: usize| defined(e, i) <==> defined(d, i) by {
        if i < d.len() {
            assert(e[i as int] != UNDEFINED <==> d[i as int] != UNDEFINED);
        }
    }
}

/// The dominators by place that are given out for `g`: those that the passes over its
/// post-order end with, mended if the last pass still changed something.
pub open spec fn final_places<NL, EL>(g: GraphView<NL, EL>) -> Seq<usize> {
    let line = post_order(g);
    let found = solution(place_lists(line, predecessor_map(g, line)));
    if found.1 {
        found.0
    } else {
        mended(g, line, found.0)
    }
}

/// The dominators of the nodes of `g`, and whether the passes over its post-order went on
/// until one changed nothing. If they did not, each node was given the first node on the
/// way from the dominator that the passes left it with that is on every path to it.
pub open spec fn dominators_of<NL, EL>(g: GraphView<NL, EL>) -> (Map<usize, usize>, bool) {
    let line = post_order(g);
    let found = solution(place_lists(line, predecessor_map(g, line)));
    (dominator_map(line, final_places(g)), found.1)
}

/// Gives each place below its dominator the first place on the way from that dominator
/// whose node is on every path from the entry node to its own node; the other places keep
/// what they have.
pub fn mend<NL, EL>(graph: &DiGraph<NL, EL>, line: &Vec<usize>, dominators: &Vec<usize>) -> (r: Vec<
    usize,
>)
    requires
        dominators@.len() == line@.len(),
    ensures
        r@ == mended(graph@, line@, dominators@),
{
    let n = dominators.len();
    let ghost g = graph@;
    let ghost d = dominators@;
    let mut out: Vec<usize> = Vec::new();
    let mut i: usize = 0;
    while i < n
        invariant
            i <= n,
            n == d.len(),
            d == dominators@,
            g == graph@,
            d.len() == line@.len(),
            out@.len() == i,
            forall|k: int| 0 <= k < i ==> out@[k] == mended(g, line@, d)[k],
        decreases n - i,
    {
        let first = dominators[i];
        if first != UNDEFINED && i < first && first < n {
            let mut u = first;
            loop
                invariant
                    u < n,
                    i < n,
                    n == d.len(),
                    d == dominators@,
                    g == graph@,
                    d.len() == line@.len(),
                    first_blocking(g, line@, d, i, u) == first_blocking(g, line@, d, i, first),
                ensures
                    u == first_blocking(g, line@, d, i, first),
                decreases n - u,
            {
                let up = dominators[u];
                if up != UNDEFINED && u < up && up < n {
                    if reaches_avoiding(graph, line[i], line[u]) {
                        u = up;
                    } else {
                        break ;
                    }
                } else {
                    break ;
                }
            }
            out.push(u);
        } else {
            out.push(first);
        }
        i += 1;
    }
    assert(out@ =~= mended(g, line@, d));
    out
}

/// The immediate dominators of the nodes that the entry node of a graph reaches.
pub struct Dominators {
    internal: HashMap<usize, usize>,
    stable: bool,
}

impl View for Dominators {
    type V = Map<usize, usize>;

    /// The dominator by node. The entry node is its own dominator.
    closed spec fn view(&self) -> Map<usize, usize> {
        self.internal@
    }
}

impl Dominators {
    /// The passes went on until one changed nothing.
    pub closed spec fn stable(&self) -> bool {
        self.stable
    }

    /// Whether the passes went on until one changed nothing. If not, they were stopped at
    /// their bound, and what they left was mended.
    pub fn is_stable(&self) -> (r: bool)
        ensures
            r == self.stable(),
    {
        self.stable
    }

    /// The immediate dominator of `node`. `None` for the entry node, and for a node without
    /// an entry: one that the entry node does not reach.
    pub fn idom(&self, node: &usize) -> (r: Option<&usize>)
        ensures
            match r {
                Some(d) => self@.contains_key(*node) && *d == self@[*node] && *d != *node,
                None => !self@.contains_key(*node) || self@[*node] == *node,
            },
    {
        match self.internal.get(node) {
            Some(x) => if *x == *node {
                None
            } else {
                Some(x)
            },
            None => None,
        }
    }

    /// Finds the dominators of `graph` by the "simple, fast" algorithm of Cooper, Harvey and
    /// Kennedy, on the post-order of its depth-first traversal. The passes go on until one
    /// changes nothing, and that is what `is_stable` tells; they are stopped after as many
    /// passes as the square of the number of nodes, and what they leave is mended then:
    /// each node gets the first node on the way from its dominator that is on every path to
    /// it. Where every node that the entry node reaches is in the graph, each of these nodes
    /// but the entry node has its immediate dominator.
    pub fn simple_fast<NL, EL>(graph: &DiGraph<NL, EL>) -> (r: Self)
        ensures
            (r@, r.stable()) == dominators_of(graph@),
            graph@.entry_closed() ==> r@.dom() == graph@.reachable_set() && forall|v: usize|
                #[trigger] graph@.reachable_set().contains(v) && graph@.start != Some(v)
                    ==> crate::analyzer::dominance::is_immediate_dominator(graph@, r@[v], v),
    {
        proof {
            graph.lemma_fits();
            if graph@.entry_closed() {
                lemma_dominators_cover_reachable(graph@);
                crate::analyzer::dominance::lemma_dominators_are_immediate(graph@);
            }
        }
        let predecessors = graph.predecessors();
        let post_order_line = predecessors.post_order_line();
        let preds = predecessors.predecessors();
        proof {
            lemma_walk_rest_distinct(graph@, first_walk(graph@));
        }
        let post_order_idx_vec = to_post_order_indexes(&post_order_line, &preds);
        let (found, stable) = solve(&post_order_idx_vec);
        let dominators = if stable {
            found
        } else {
            proof {
                lemma_mended(graph@, post_order_line@, found@);
            }
            mend(graph, &post_order_line, &found)
        };
        let ghost line = post_order_line@;
        let ghost d = dominators@;
        let len = post_order_line.len();
        let mut internal: HashMap<usize, usize> = HashMap::new();
        let mut idx: usize = 0;
        proof {
            assert(d == final_places(graph@));
            assert(in_range(d));
        }
        while idx < len
            invariant
                idx <= len,
                len == line.len(),
                line == post_order_line@,
                d == dominators@,
                d.len() == len,
                in_range(d),
                line.no_duplicates(),
                forall|k: int|
                    0 <= k < idx && defined(d, k as usize) ==> internal@.contains_key(
                        #[trigger] line[k],
                    ) && internal@[line[k]] == line[d[k] as int],
                forall|id: usize| #[trigger]
                    internal@.contains_key(id) ==> exists|k: int|
                        0 <= k < idx && #[trigger] line[k] == id && defined(d, k as usize),
            decreases len - idx,
        {
            let dom = dominators[idx];
            if dom != UNDEFINED {
                assert(defined(d, idx));
                internal.insert(post_order_line[idx], post_order_line[dom]);
            }
            idx += 1;
        }
        proof {
            let goal = dominator_map(line, d);
            assert forall|id: usize| internal@.contains_key(id) <==> goal.contains_key(id) by {
                if internal@.contains_key(id) {
                    let k = choose|k: int|
                        0 <= k < len && #[trigger] line[k] == id && defined(d, k as usize);
                    assert(line.contains(id));
                    assert(line[line.index_of(id)] == id);
                }
                if goal.contains_key(id) {
                    let k = line.index_of(id);
                    assert(line[k] == id);
                }
            }
            assert forall|id: usize| internal@.contains_key(id) implies internal@[id]
                == goal[id] by {
                let k = line.index_of(id);
                assert(line.contains(id));
                assert(line[k] == id);
            }
            assert(internal@ =~= goal);
        }
        Self { internal, stable }
    }
}

impl<NL, EL> DiGraph<NL, EL> {
    /// The immediate dominators of the nodes that the entry node reaches.
    pub fn dominators(&self) -> (r: Dominators)
        ensures
            (r@, r.stable()) == dominators_of(self@),
            self@.entry_closed() ==> r@.dom() == self@.reachable_set() && forall|v: usize|
                #[trigger] self@.reachable_set().contains(v) && self@.start != Some(v)
                    ==> crate::analyzer::dominance::is_immediate_dominator(self@, r@[v], v),
    {
        Dominators::simple_fast(self)
    }
}

} // verus!
