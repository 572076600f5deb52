//! A spanning forest of light edges: the edges are taken from the lightest on, and an edge
//! is kept if its two ends are in different trees, which it joins.
use crate::analyzer::dom::lists_view;
use crate::graph::{edge_triples, DiGraph, Edge, GraphView};
use vstd::prelude::*;
use vstd::std_specs::cmp::{OrdSpec, PartialOrdIs, PartialOrdSpec};

verus! {

/// The payload `a` is less than the payload `b`.
pub open spec fn lighter<EL: PartialOrd>(a: EL, b: EL) -> bool {
    a.is_lt(&b)
}

/// Neither of the payloads `a` and `b` is less than the other.
pub open spec fn same_weight<EL: PartialOrd>(a: EL, b: EL) -> bool {
    !lighter(a, b) && !lighter(b, a)
}

/// Payloads are compared as their order says, and that order puts them in ranks: of two
/// payloads at most one is less than the other, and a payload that is less than another is
/// less than any third payload that is not less than the other.
pub open spec fn ordered<EL: PartialOrd>() -> bool {
    &&& EL::obeys_partial_cmp_spec()
    &&& forall|a: EL, b: EL| !(#[trigger] lighter(a, b) && lighter(b, a))
    &&& forall|a: EL, b: EL, c: EL|
        #![trigger lighter(a, b), lighter(c, b)]
        lighter(a, b) ==> lighter(a, c) || lighter(c, b)
}

/// A type whose comparisons keep the laws of a total order has its payloads in ranks.
pub proof fn lemma_ordered<EL: Ord>()
    requires
        vstd::laws_cmp::obeys_cmp::<EL>(),
    ensures
        ordered::<EL>(),
{
    reveal(vstd::laws_cmp::obeys_partial_cmp_spec_properties);
    reveal(vstd::laws_cmp::obeys_cmp_partial_ord);
    reveal(vstd::laws_cmp::obeys_cmp_ord);
    reveal(vstd::laws_eq::obeys_eq_spec_properties);
    assert forall|a: EL, b: EL| !(#[trigger] lighter(a, b) && lighter(b, a)) by {
        if lighter(a, b) && lighter(b, a) {
            assert(a.partial_cmp_spec(&b) == Some(a.cmp_spec(&b)));
            assert(b.partial_cmp_spec(&a) == Some(b.cmp_spec(&a)));
        }
    }
    assert forall|a: EL, b: EL, c: EL|
        #![trigger lighter(a, b), lighter(c, b)]
        lighter(a, b) implies lighter(a, c) || lighter(c, b) by {
        assert(a.partial_cmp_spec(&c) == Some(a.cmp_spec(&c)));
        assert(c.partial_cmp_spec(&b) == Some(c.cmp_spec(&b)));
        assert(c.partial_cmp_spec(&a) == Some(c.cmp_spec(&a)));
        assert(b.partial_cmp_spec(&c) == Some(b.cmp_spec(&c)));
        assert(a.partial_cmp_spec(&b) == Some(a.cmp_spec(&b)));
        assert(b.partial_cmp_spec(&a) == Some(b.cmp_spec(&a)));
    }
}

/// No edge of `s` is lighter than an edge before it.
pub open spec fn rising<EL: PartialOrd>(s: Seq<(usize, usize, EL)>) -> bool {
    forall|i: int, j: int| 0 <= i < j < s.len() ==> !lighter(#[trigger] s[j].2, #[trigger] s[i].2)
}

/// The edges of `s` whose payload is neither less nor more than `x`, in their order.
pub open spec fn of_weight<EL: PartialOrd>(s: Seq<(usize, usize, EL)>, x: EL) -> Seq<
    (usize, usize, EL),
> {
    s.filter(|e: (usize, usize, EL)| same_weight(e.2, x))
}

/// `sorted` holds the edges of `edges` by payload, the lightest first: no edge is lighter
/// than one before it, every edge occurs as often as in `edges`, and the edges of one
/// weight come in the order that they have in `edges`.
pub open spec fn sorted_from<EL: PartialOrd>(
    edges: Seq<(usize, usize, EL)>,
    sorted: Seq<(usize, usize, EL)>,
) -> bool {
    &&& rising(sorted)
    &&& sorted.to_multiset() == edges.to_multiset()
    &&& forall|x: EL| #[trigger] of_weight(sorted, x) == of_weight(edges, x)
}

/// The edges `edges` by payload, the lightest first; edges of equal payload stay in their
/// order.
pub open spec fn by_payload<EL: PartialOrd>(edges: Seq<(usize, usize, EL)>) -> Seq<
    (usize, usize, EL),
> {
    choose|sorted: Seq<(usize, usize, EL)>| sorted_from(edges, sorted)
}

/// The place of the first of `sorted[from..]` whose payload is not less than `x`; the length
/// of `sorted` if there is none.
pub open spec fn slot<EL: PartialOrd>(sorted: Seq<(usize, usize, EL)>, x: EL, from: nat) -> nat
    decreases sorted.len() - from,
{
    if from >= sorted.len() {
        sorted.len()
    } else if lighter(sorted[from as int].2, x) {
        slot(sorted, x, from + 1)
    } else {
        from
    }
}

/// A slot is a place of the sequence or its length; the edges before it are lighter than
/// the payload, and the edge at it is not.
pub proof fn lemma_slot<EL: PartialOrd>(sorted: Seq<(usize, usize, EL)>, x: EL, from: nat)
    requires
        from <= sorted.len(),
    ensures
        from <= slot(sorted, x, from) <= sorted.len(),
        forall|k: int| from <= k < slot(sorted, x, from) ==> lighter(#[trigger] sorted[k].2, x),
        slot(sorted, x, from) < sorted.len() ==> !lighter(
            sorted[slot(sorted, x, from) as int].2,
            x,
        ),
    decreases sorted.len() - from,
{
    if from < sorted.len() && lighter(sorted[from as int].2, x) {
        lemma_slot(sorted, x, from + 1);
    }
}

/// The edges of one weight of a sequence: the first edge, if it has that weight, and those
/// of the rest.
proof fn lemma_of_weight_first<EL: PartialOrd>(s: Seq<(usize, usize, EL)>, x: EL)
    requires
        s.len() > 0,
    ensures
        of_weight(s, x) == (if same_weight(s[0].2, x) {
            seq![s[0]]
        } else {
            Seq::empty()
        }) + of_weight(s.drop_first(), x),
{
    let p = |e: (usize, usize, EL)| same_weight(e.2, x);
    let head = seq![s[0]];
    assert(s =~= head + s.drop_first());
    Seq::filter_distributes_over_add(head, s.drop_first(), p);
    assert(head =~= Seq::<(usize, usize, EL)>::empty().push(s[0]));
    Seq::<(usize, usize, EL)>::empty().lemma_filter_push(s[0], p);
    Seq::<(usize, usize, EL)>::empty().lemma_filter_len(p);
    assert(Seq::<(usize, usize, EL)>::empty().filter(p) =~= Seq::empty());
    assert(head.filter(p) =~= (if same_weight(s[0].2, x) {
        seq![s[0]]
    } else {
        Seq::empty()
    }));
}

/// Among edges that are all lighter than an edge of the weight `x`, none has that weight.
proof fn lemma_of_weight_none<EL: PartialOrd>(s: Seq<(usize, usize, EL)>, y: EL, x: EL)
    requires
        ordered::<EL>(),
        same_weight(y, x),
        forall|k: int| 0 <= k < s.len() ==> lighter(#[trigger] s[k].2, y),
    ensures
        of_weight(s, x) == Seq::<(usize, usize, EL)>::empty(),
{
    let p = |e: (usize, usize, EL)| same_weight(e.2, x);
    let f = s.filter(p);
    if f.len() > 0 {
        s.lemma_filter_pred(p, 0);
        assert(f.contains(f[0]));
        s.lemma_filter_contains_rev(p, f[0]);
        let k = choose|k: int| 0 <= k < s.len() && s[k] == f[0];
        assert(lighter(s[k].2, y));
        assert(lighter(s[k].2, x) || lighter(x, y));
    }
    assert(f =~= Seq::empty());
}

/// Putting an edge into the slot of its payload sorts it in before the edges that came
/// before it.
pub proof fn lemma_insert_sorted<EL: PartialOrd>(
    edges: Seq<(usize, usize, EL)>,
    sorted: Seq<(usize, usize, EL)>,
    e: (usize, usize, EL),
)
    requires
        ordered::<EL>(),
        sorted_from(edges, sorted),
    ensures
        slot(sorted, e.2, 0) <= sorted.len(),
        sorted_from(seq![e] + edges, sorted.insert(slot(sorted, e.2, 0) as int, e)),
{
    lemma_slot(sorted, e.2, 0);
    let at = slot(sorted, e.2, 0) as int;
    let grown = sorted.insert(at, e);
    let more = seq![e] + edges;
    assert forall|i: int, j: int| 0 <= i < j < grown.len() implies !lighter(
        #[trigger] grown[j].2,
        #[trigger] grown[i].2,
    ) by {
        if j < at || at < i {
        } else if j == at {
            assert(lighter(sorted[i].2, e.2));
        } else if i < at {
            assert(!lighter(sorted[j - 1].2, sorted[i].2));
        } else {
            if j - 1 > at {
                assert(!lighter(sorted[j - 1].2, sorted[at].2));
            }
            if lighter(sorted[j - 1].2, e.2) {
                assert(lighter(sorted[j - 1].2, sorted[at].2) || lighter(sorted[at].2, e.2));
            }
        }
    }
    assert(more =~= edges.insert(0, e));
    vstd::seq_lib::to_multiset_insert(sorted, at, e);
    vstd::seq_lib::to_multiset_insert(edges, 0, e);
    assert forall|x: EL| #[trigger] of_weight(grown, x) == of_weight(more, x) by {
        let p = |e: (usize, usize, EL)| same_weight(e.2, x);
        let low = sorted.take(at);
        let high = sorted.skip(at);
        assert(of_weight(sorted, x) == of_weight(edges, x));
        assert(sorted =~= low + high);
        assert(grown =~= (low + seq![e]) + high);
        Seq::filter_distributes_over_add(low, high, p);
        Seq::filter_distributes_over_add(low + seq![e], high, p);
        Seq::filter_distributes_over_add(low, seq![e], p);
        lemma_of_weight_first(more, x);
        assert(more.drop_first() =~= edges);
        lemma_of_weight_first(seq![e], x);
        assert(seq![e].drop_first() =~= Seq::<(usize, usize, EL)>::empty());
        Seq::<(usize, usize, EL)>::empty().lemma_filter_len(p);
        assert(of_weight(Seq::<(usize, usize, EL)>::empty(), x) =~= Seq::empty());
        if same_weight(e.2, x) {
            lemma_of_weight_none(low, e.2, x);
            assert(of_weight(grown, x) =~= seq![e] + of_weight(sorted, x));
        } else {
            assert(of_weight(grown, x) =~= of_weight(sorted, x));
        }
        assert(of_weight(grown, x) =~= of_weight(more, x));
    }
}

/// Edges can be sorted in one way only: two sequences without a lighter edge after a
/// heavier one that hold the same edges of each weight in the same order are equal.
pub proof fn lemma_rising_equal<EL: PartialOrd>(
    a: Seq<(usize, usize, EL)>,
    b: Seq<(usize, usize, EL)>,
)
    requires
        ordered::<EL>(),
        rising(a),
        rising(b),
        a.len() == b.len(),
        forall|x: EL| #[trigger] of_weight(a, x) == of_weight(b, x),
    ensures
        a == b,
    decreases a.len(),
{
    if a.len() == 0 {
        assert(a =~= b);
    } else {
        let x = a[0].2;
        let y = b[0].2;
        assert(!(lighter(x, x) && lighter(x, x)));
        assert(!(lighter(y, y) && lighter(y, y)));
        lemma_of_weight_first(a, x);
        lemma_of_weight_first(b, x);
        lemma_of_weight_first(a, y);
        lemma_of_weight_first(b, y);
        assert(of_weight(a, x) == of_weight(b, x));
        assert(of_weight(a, y) == of_weight(b, y));
        assert(of_weight(a, x)[0] == a[0]);
        assert(of_weight(b, y)[0] == b[0]);
        if !same_weight(y, x) {
            // the first edge of each is found further on in the other
            let px = |e: (usize, usize, EL)| same_weight(e.2, x);
            let py = |e: (usize, usize, EL)| same_weight(e.2, y);
            assert(of_weight(b, x).contains(of_weight(b, x)[0]));
            b.lemma_filter_contains_rev(px, a[0]);
            let k = choose|k: int| 0 <= k < b.len() && b[k] == a[0];
            assert(of_weight(a, y).contains(of_weight(a, y)[0]));
            a.lemma_filter_contains_rev(py, b[0]);
            let m = choose|m: int| 0 <= m < a.len() && a[m] == b[0];
            if k > 0 && m > 0 {
                assert(!lighter(b[k].2, b[0].2));
                assert(!lighter(a[m].2, a[0].2));
            }
        }
        assert(a[0] == b[0]);
        let ra = a.drop_first();
        let rb = b.drop_first();
        assert forall|z: EL| #[trigger] of_weight(ra, z) == of_weight(rb, z) by {
            lemma_of_weight_first(a, z);
            lemma_of_weight_first(b, z);
            assert(of_weight(a, z) == of_weight(b, z));
            let head = if same_weight(a[0].2, z) {
                seq![a[0]]
            } else {
                Seq::empty()
            };
            assert((head + of_weight(ra, z)).skip(head.len() as int) =~= of_weight(ra, z));
            assert((head + of_weight(rb, z)).skip(head.len() as int) =~= of_weight(rb, z));
        }
        assert forall|i: int, j: int| 0 <= i < j < ra.len() implies !lighter(
            #[trigger] ra[j].2,
            #[trigger] ra[i].2,
        ) by {
            assert(!lighter(a[j + 1].2, a[i + 1].2));
        }
        assert forall|i: int, j: int| 0 <= i < j < rb.len() implies !lighter(
            #[trigger] rb[j].2,
            #[trigger] rb[i].2,
        ) by {
            assert(!lighter(b[j + 1].2, b[i + 1].2));
        }
        lemma_rising_equal(ra, rb);
        assert(a =~= seq![a[0]] + ra);
        assert(b =~= seq![b[0]] + rb);
    }
}

/// Whatever holds the edges of `edges` by payload, with those of equal payload in their
/// order, is `by_payload(edges)`.
pub proof fn lemma_sorted_is_by_payload<EL: PartialOrd>(
    edges: Seq<(usize, usize, EL)>,
    sorted: Seq<(usize, usize, EL)>,
)
    requires
        ordered::<EL>(),
        sorted_from(edges, sorted),
    ensures
        sorted == by_payload(edges),
        sorted_from(edges, by_payload(edges)),
{
    let other = by_payload(edges);
    assert(sorted_from(edges, other));
    vstd::seq_lib::to_multiset_len(sorted);
    vstd::seq_lib::to_multiset_len(other);
    vstd::seq_lib::to_multiset_len(edges);
    assert forall|x: EL| #[trigger] of_weight(sorted, x) == of_weight(other, x) by {
        assert(of_weight(sorted, x) == of_weight(edges, x));
        assert(of_weight(other, x) == of_weight(edges, x));
    }
    lemma_rising_equal(sorted, other);
}

/// Every sequence of edges can be sorted by payload.
pub proof fn lemma_by_payload<EL: PartialOrd>(edges: Seq<(usize, usize, EL)>)
    requires
        ordered::<EL>(),
    ensures
        sorted_from(edges, by_payload(edges)),
    decreases edges.len(),
{
    if edges.len() == 0 {
        assert(sorted_from(edges, edges));
    } else {
        let rest = edges.drop_first();
        lemma_by_payload(rest);
        lemma_insert_sorted(rest, by_payload(rest), edges[0]);
        assert(seq![edges[0]] + rest =~= edges);
    }
}

/// A forest in which each of `ids` is a tree of its own.
pub open spec fn singletons(ids: Seq<usize>) -> Seq<Seq<usize>> {
    Seq::new(ids.len(), |i: int| seq![ids[i]])
}

/// The place of the first of the trees `forest[from..]` that holds `id`; the number of trees
/// if there is none.
pub open spec fn stump_from(forest: Seq<Seq<usize>>, id: usize, from: nat) -> nat
    decreases forest.len() - from,
{
    if from >= forest.len() {
        forest.len()
    } else if forest[from as int].contains(id) {
        from
    } else {
        stump_from(forest, id, from + 1)
    }
}

/// The forest after the trees at the places `i1` and `i2` were joined: both leave their
/// places, and the nodes of the second followed by those of the first make a new tree at
/// the end.
pub open spec fn joined(forest: Seq<Seq<usize>>, i1: int, i2: int) -> Seq<Seq<usize>> {
    let low = if i1 < i2 {
        i1
    } else {
        i2
    };
    let high = if i1 < i2 {
        i2
    } else {
        i1
    };
    forest.remove(high).remove(low).push(forest[i2] + forest[i1])
}

/// The edges that are kept of `edges[k..]`, taken in turn: an edge is kept if its ends are
/// in two different trees of the forest, which are joined then.
pub open spec fn pick<EL>(forest: Seq<Seq<usize>>, edges: Seq<(usize, usize, EL)>, k: nat) -> Seq<
    (usize, usize, EL),
>
    decreases edges.len() - k,
{
    if k >= edges.len() {
        Seq::empty()
    } else {
        let e = edges[k as int];
        let i1 = stump_from(forest, e.0, 0);
        let i2 = stump_from(forest, e.1, 0);
        if i1 < forest.len() && i2 < forest.len() && i1 != i2 {
            seq![e] + pick(joined(forest, i1 as int, i2 as int), edges, k + 1)
        } else {
            pick(forest, edges, k + 1)
        }
    }
}

/// The edges that are kept of the edges of `g` whose source is a node.
pub open spec fn light_forest<NL, EL: PartialOrd>(g: GraphView<NL, EL>) -> Seq<(usize, usize, EL)> {
    pick(singletons(g.node_seq()), by_payload(g.edge_seq()), 0)
}

/// Sorts edges by payload, the lightest first; edges of equal payload stay in their order.
pub fn sort_by_payload<'a, EL: Ord>(edges: Vec<Edge<'a, EL>>) -> (r: Vec<Edge<'a, EL>>)
    ensures
        ordered::<EL>() ==> sorted_from(edge_triples(edges@), edge_triples(r@)) && edge_triples(
            r@,
        ) == by_payload(edge_triples(edges@)),
{
    let ghost all = edge_triples(edges@);
    let mut edges = edges;
    let mut out: Vec<Edge<'a, EL>> = Vec::new();
    proof {
        assert(all.skip(all.len() as int) =~= Seq::empty());
        assert(edge_triples(out@) =~= Seq::empty());
        assert(sorted_from(all.skip(all.len() as int), edge_triples(out@)));
    }
    while edges.len() > 0
        invariant
            edges@.len() <= all.len(),
            edge_triples(edges@) == all.take(edges@.len() as int),
            ordered::<EL>() ==> sorted_from(all.skip(edges@.len() as int), edge_triples(out@)),
        decreases edges@.len(),
    {
        let ghost n = edges@.len() as int;
        let ghost sorted = edge_triples(out@);
        let ghost before = edges@;
        match edges.pop() {
            Some(e) => {
                proof {
                    assert(edges@ =~= before.take(n - 1));
                    assert(edge_triples(edges@) =~= all.take(n - 1));
                    assert(edge_triples(before)[n - 1] == all[n - 1]);
                    assert((e.src, e.trg, *e.payload) == all[n - 1]);
                }
                let at = place_for(&out, e.payload);
                let ghost prior = out@;
                out.insert(at, e);
                proof {
                    assert(edge_triples(out@) =~= edge_triples(prior).insert(
                        at as int,
                        (e.src, e.trg, *e.payload),
                    ));
                    assert(all.skip(n - 1) =~= seq![all[n - 1]] + all.skip(n));
                    if ordered::<EL>() {
                        lemma_insert_sorted(all.skip(n), sorted, all[n - 1]);
                    }
                }
            },
            None => {},
        }
    }
    proof {
        assert(all.skip(0) =~= all);
        if ordered::<EL>() {
            lemma_sorted_is_by_payload(all, edge_triples(out@));
        }
    }
    out
}

/// The place in `sorted` of the first edge whose payload is not less than `payload`.
fn place_for<'a, EL: Ord>(sorted: &Vec<Edge<'a, EL>>, payload: &EL) -> (at: usize)
    ensures
        at <= sorted@.len(),
        ordered::<EL>() ==> at == slot(edge_triples(sorted@), *payload, 0),
{
    let mut at: usize = 0;
    let ghost triples = edge_triples(sorted@);
    while at < sorted.len() && *sorted[at].payload < *payload
        invariant
            at <= sorted@.len(),
            triples == edge_triples(sorted@),
            ordered::<EL>() ==> slot(triples, *payload, at as nat) == slot(triples, *payload, 0),
        decreases sorted@.len() - at,
    {
        proof {
            assert(triples[at as int].2 == *sorted@[at as int].payload);
        }
        at += 1;
    }
    proof {
        if at < sorted@.len() {
            assert(triples[at as int].2 == *sorted@[at as int].payload);
        }
    }
    at
}

/// Finds a spanning forest of light edges.
#[derive(Debug)]
pub struct MinimumSpanningArborescence<'a, NL, EL> {
    graph: &'a DiGraph<NL, EL>,
    forest: Vec<Vec<usize>>,
}

impl<'a, NL, EL> MinimumSpanningArborescence<'a, NL, EL> {
    /// The graph whose edges are taken.
    pub closed spec fn graph(&self) -> GraphView<NL, EL> {
        self.graph@
    }

    /// The trees of nodes that were joined so far.
    pub closed spec fn forest(&self) -> Seq<Seq<usize>> {
        lists_view(self.forest)
    }

    pub fn new(graph: &'a DiGraph<NL, EL>) -> (r: Self)
        ensures
            r.graph() == graph@,
            r.forest() == Seq::<Seq<usize>>::empty(),
    {
        let r = Self { graph, forest: Vec::new() };
        assert(r.forest() =~= Seq::<Seq<usize>>::empty());
        r
    }

    /// The place of the first tree that holds `id`, with that tree.
    fn find_set(&self, id: usize) -> (r: Option<(usize, &Vec<usize>)>)
        ensures
            match r {
                Some((at, stump)) => at == stump_from(self.forest(), id, 0) && at
                    < self.forest().len() && stump@ == self.forest()[at as int],
                None => stump_from(self.forest(), id, 0) == self.forest().len(),
            },
    {
        let mut i: usize = 0;
        while i < self.forest.len()
            invariant
                i <= self.forest@.len(),
                stump_from(self.forest(), id, i as nat) == stump_from(self.forest(), id, 0),
            decreases self.forest@.len() - i,
        {
            let stump = &self.forest[i];
            if holds(stump, id) {
                return Some((i, stump));
            }
            i += 1;
        }
        None
    }

    /// Makes each node of the graph a tree of its own.
    fn fill_forest(&mut self)
        ensures
            final(self).graph() == old(self).graph(),
            final(self).forest() == singletons(old(self).graph().node_seq()),
    {
        let ids = self.graph.node_ids();
        let mut forest: Vec<Vec<usize>> = Vec::new();
        let mut i: usize = 0;
        while i < ids.len()
            invariant
                i <= ids.len(),
                forest@.len() == i,
                forall|k: int| 0 <= k < i ==> (#[trigger] forest@[k])@ == seq![ids@[k]],
            decreases ids.len() - i,
        {
            let mut one: Vec<usize> = Vec::new();
            one.push(ids[i]);
            assert(one@ =~= seq![ids@[i as int]]);
            forest.push(one);
            i += 1;
        }
        self.forest = forest;
        assert(self.forest() =~= singletons(ids@));
    }

    /// Joins the trees at the places `idx1` and `idx2`.
    fn merge(&mut self, idx1: usize, idx2: usize)
        requires
            idx1 < old(self).forest().len(),
            idx2 < old(self).forest().len(),
            idx1 != idx2,
        ensures
            final(self).graph() == old(self).graph(),
            final(self).forest() == joined(old(self).forest(), idx1 as int, idx2 as int),
    {
        let ghost before = self.forest();
        let min_idx = if idx1 < idx2 {
            idx1
        } else {
            idx2
        };
        let max_idx = if idx1 < idx2 {
            idx2
        } else {
            idx1
        };
        let high = self.forest.remove(max_idx);
        assert(self.forest() =~= before.remove(max_idx as int));
        let low = self.forest.remove(min_idx);
        assert(self.forest() =~= before.remove(max_idx as int).remove(min_idx as int));
        let (mut new_medow, mut s1) = if idx1 < idx2 {
            (high, low)
        } else {
            (low, high)
        };
        new_medow.append(&mut s1);
        assert(new_medow@ =~= before[idx2 as int] + before[idx1 as int]);
        let ghost grown = new_medow@;
        self.forest.push(new_medow);
        assert(self.forest() =~= before.remove(max_idx as int).remove(min_idx as int).push(
            grown,
        ));
    }
}

impl<'a, NL, EL: Ord> MinimumSpanningArborescence<'a, NL, EL> {
    /// The edges of a spanning forest of light edges: the edges whose source is a node of
    /// the graph are taken from the lightest on, and an edge is kept if its ends are nodes
    /// of the graph in two different trees, which it joins.
    pub fn find(&mut self) -> (r: Vec<Edge<'a, EL>>)
        ensures
            final(self).graph() == old(self).graph(),
            ordered::<EL>() ==> edge_triples(r@) == light_forest(old(self).graph()),
    {
        let ghost g = self.graph();
        let mut msa: Vec<Edge<'a, EL>> = Vec::new();
        let edges = sort_by_payload(self.graph.edges());
        self.fill_forest();
        let ghost sorted = edge_triples(edges@);
        let ghost first = self.forest();
        let mut edges = edges;
        let mut rest: Vec<Edge<'a, EL>> = Vec::new();
        // the edges are taken off the end, so they are turned round first
        while edges.len() > 0
            invariant
                edges@.len() <= sorted.len(),
                edge_triples(edges@) == sorted.take(edges@.len() as int),
                edge_triples(rest@) == sorted.skip(edges@.len() as int).reverse(),
            decreases edges@.len(),
        {
            let ghost n = edges@.len() as int;
            let ghost before = edges@;
            let ghost prior = rest@;
            match edges.pop() {
                Some(e) => {
                    proof {
                        assert(edges@ =~= before.take(n - 1));
                        assert(edge_triples(edges@) =~= sorted.take(n - 1));
                        assert(edge_triples(before)[n - 1] == sorted[n - 1]);
                    }
                    rest.push(e);
                    proof {
                        assert(edge_triples(rest@) =~= edge_triples(prior).push(sorted[n - 1]));
                        assert(edge_triples(rest@) =~= sorted.skip(n - 1).reverse());
                    }
                },
                None => {},
            }
        }
        proof {
            assert(sorted.skip(0) =~= sorted);
            assert(edge_triples(msa@) =~= Seq::empty());
        }
        while rest.len() > 0
            invariant
                self.graph() == g,
                rest@.len() <= sorted.len(),
                edge_triples(rest@) == sorted.reverse().take(rest@.len() as int),
                edge_triples(msa@) + pick(self.forest(), sorted, (sorted.len() - rest@.len()) as nat)
                    == pick(first, sorted, 0),
            decreases rest@.len(),
        {
            let ghost n = rest@.len() as int;
            let ghost k = sorted.len() - n;
            let ghost before = rest@;
            let ghost kept = edge_triples(msa@);
            match rest.pop() {
                Some(e) => {
                    proof {
                        assert(rest@ =~= before.take(n - 1));
                        assert(edge_triples(rest@) =~= sorted.reverse().take(n - 1));
                        assert(edge_triples(before)[n - 1] == sorted.reverse()[n - 1]);
                        assert((e.src, e.trg, *e.payload) == sorted[k]);
                    }
                    let src_stump = match self.find_set(e.src) {
                        Some((at, _)) => Some(at),
                        None => None,
                    };
                    let trg_stump = match self.find_set(e.trg) {
                        Some((at, _)) => Some(at),
                        None => None,
                    };
                    match (src_stump, trg_stump) {
                        (Some(idx1), Some(idx2)) => {
                            if idx1 != idx2 {
                                let ghost triple = (e.src, e.trg, *e.payload);
                                msa.push(e);
                                self.merge(idx1, idx2);
                                proof {
                                    assert(edge_triples(msa@) =~= kept.push(triple));
                                    assert(kept.push(triple) + pick(
                                        self.forest(),
                                        sorted,
                                        (k + 1) as nat,
                                    ) =~= kept + (seq![triple] + pick(
                                        self.forest(),
                                        sorted,
                                        (k + 1) as nat,
                                    )));
                                }
                            }
                        },
                        _ => {},
                    }
                },
                None => {},
            }
        }
        proof {
            assert(edge_triples(msa@) + Seq::<(usize, usize, EL)>::empty() =~= edge_triples(msa@));
        }
        msa
    }
}

/// Whether `stump` holds `id`.
fn holds(stump: &Vec<usize>, id: usize) -> (r: bool)
    ensures
        r == stump@.contains(id),
{
    let mut i: usize = 0;
    while i < stump.len()
        invariant
            i <= stump@.len(),
            forall|k: int| 0 <= k < i ==> stump@[k] != id,
        decreases stump@.len() - i,
    {
        if stump[i] == id {
            return true;
        }
        i += 1;
    }
    false
}

} // verus!
