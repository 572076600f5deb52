//! Strictly increasing sequences of node identifiers.
//!
//! Every enumeration of nodes or successors in this crate is in increasing order of
//! identifier, so that each analysis is a function of the graph alone.
use vstd::prelude::*;

verus! {

/// `s` is strictly increasing.
pub open spec fn increasing(s: Seq<usize>) -> bool {
    forall|i: int, j: int| 0 <= i < j < s.len() ==> s[i] < s[j]
}

/// The elements of `s` that are below `n`, in increasing order.
pub open spec fn ascending_below(s: Set<usize>, n: nat) -> Seq<usize>
    decreases n,
{
    if n == 0 {
        Seq::empty()
    } else {
        let rest = ascending_below(s, (n - 1) as nat);
        if n - 1 <= usize::MAX && s.contains((n - 1) as usize) {
            rest.push((n - 1) as usize)
        } else {
            rest
        }
    }
}

/// The elements of `s` in increasing order.
pub open spec fn ascending(s: Set<usize>) -> Seq<usize> {
    ascending_below(s, (usize::MAX + 1) as nat)
}

/// `ascending_below(s, n)` is strictly increasing and holds exactly the elements of `s`
/// below `n`.
pub proof fn lemma_ascending_below(s: Set<usize>, n: nat)
    ensures
        increasing(ascending_below(s, n)),
        forall|x: usize| #[trigger]
            ascending_below(s, n).contains(x) <==> s.contains(x) && x < n,
    decreases n,
{
    if n > 0 {
        let m = (n - 1) as nat;
        lemma_ascending_below(s, m);
        let rest = ascending_below(s, m);
        let q = ascending_below(s, n);
        if m <= usize::MAX && s.contains(m as usize) {
            let v = m as usize;
            assert(q == rest.push(v));
            assert forall|i: int, j: int| 0 <= i < j < q.len() implies q[i] < q[j] by {
                if j == q.len() - 1 {
                    assert(rest.contains(q[i]));
                }
            }
            assert forall|x: usize| #[trigger] q.contains(x) <==> s.contains(x) && x < n by {
                if q.contains(x) {
                    let i = choose|i: int| 0 <= i < q.len() && q[i] == x;
                    if i < rest.len() {
                        assert(rest.contains(x));
                    }
                }
                if s.contains(x) && x < n {
                    if x == v {
                        assert(q[q.len() - 1] == x);
                    } else {
                        assert(rest.contains(x));
                        let i = choose|i: int| 0 <= i < rest.len() && rest[i] == x;
                        assert(q[i] == x);
                    }
                }
            }
        } else {
            assert(q == rest);
        }
    }
}

/// `ascending(s)` is strictly increasing and holds exactly the elements of `s`.
pub proof fn lemma_ascending(s: Set<usize>)
    ensures
        increasing(ascending(s)),
        ascending(s).no_duplicates(),
        ascending(s).to_set() == s,
        forall|x: usize| #[trigger] ascending(s).contains(x) <==> s.contains(x),
{
    lemma_ascending_below(s, (usize::MAX + 1) as nat);
    lemma_increasing_no_duplicates(ascending(s));
    assert(ascending(s).to_set() =~= s);
}

/// A strictly increasing sequence holds no element twice.
pub proof fn lemma_increasing_no_duplicates(s: Seq<usize>)
    requires
        increasing(s),
    ensures
        s.no_duplicates(),
{
    assert forall|i: int, j: int| 0 <= i < s.len() && 0 <= j < s.len() && i != j implies s[i]
        != s[j] by {
        if i < j {
            assert(s[i] < s[j]);
        } else {
            assert(s[j] < s[i]);
        }
    }
}

/// Two strictly increasing sequences with the same elements are equal.
pub proof fn lemma_increasing_unique(a: Seq<usize>, b: Seq<usize>)
    requires
        increasing(a),
        increasing(b),
        a.to_set() == b.to_set(),
    ensures
        a == b,
    decreases a.len(),
{
    if a.len() == 0 {
        if b.len() > 0 {
            assert(b.to_set().contains(b[0]));
            assert(a.contains(b[0]));
        }
        assert(a =~= b);
    } else {
        let x = a.last();
        assert(a.to_set().contains(x));
        assert(b.contains(x));
        assert(b.len() > 0);
        let y = b.last();
        assert(b.to_set().contains(y));
        assert(a.contains(y));
        let ix = choose|i: int| 0 <= i < b.len() && b[i] == x;
        let iy = choose|i: int| 0 <= i < a.len() && a[i] == y;
        assert(x <= y) by {
            if ix < b.len() - 1 {
                assert(b[ix] < b[b.len() - 1]);
            }
        }
        assert(y <= x) by {
            if iy < a.len() - 1 {
                assert(a[iy] < a[a.len() - 1]);
            }
        }
        let a0 = a.drop_last();
        let b0 = b.drop_last();
        assert(increasing(a0));
        assert(increasing(b0));
        assert forall|v: usize| a0.to_set().contains(v) <==> b0.to_set().contains(v) by {
            if a0.contains(v) {
                let i = choose|i: int| 0 <= i < a0.len() && a0[i] == v;
                assert(a[i] == v);
                assert(a[i] < a[a.len() - 1]);
                assert(a.to_set().contains(v));
                assert(b.contains(v));
                let j = choose|j: int| 0 <= j < b.len() && b[j] == v;
                assert(j < b.len() - 1);
                assert(b0[j] == v);
            }
            if b0.contains(v) {
                let i = choose|i: int| 0 <= i < b0.len() && b0[i] == v;
                assert(b[i] == v);
                assert(b[i] < b[b.len() - 1]);
                assert(b.to_set().contains(v));
                assert(a.contains(v));
                let j = choose|j: int| 0 <= j < a.len() && a[j] == v;
                assert(j < a.len() - 1);
                assert(a0[j] == v);
            }
        }
        assert(a0.to_set() =~= b0.to_set());
        lemma_increasing_unique(a0, b0);
        assert(a =~= a0.push(x));
        assert(b =~= b0.push(y));
    }
}

/// A strictly increasing sequence is the increasing enumeration of its own elements.
pub proof fn lemma_ascending_of(q: Seq<usize>)
    requires
        increasing(q),
    ensures
        ascending(q.to_set()) == q,
{
    lemma_ascending(q.to_set());
    lemma_increasing_unique(ascending(q.to_set()), q);
}

/// `s` is strictly decreasing.
pub open spec fn decreasing(s: Seq<usize>) -> bool {
    forall|i: int, j: int| 0 <= i < j < s.len() ==> s[i] > s[j]
}

/// The elements of `s` in decreasing order.
pub open spec fn descending(s: Set<usize>) -> Seq<usize> {
    ascending(s).reverse()
}

/// `descending(s)` is strictly decreasing and holds exactly the elements of `s`.
pub proof fn lemma_descending(s: Set<usize>)
    ensures
        decreasing(descending(s)),
        descending(s).no_duplicates(),
        descending(s).to_set() == s,
        forall|x: usize| #[trigger] descending(s).contains(x) <==> s.contains(x),
{
    lemma_ascending(s);
    let a = ascending(s);
    let d = descending(s);
    assert forall|i: int, j: int| 0 <= i < j < d.len() implies d[i] > d[j] by {
        assert(a[a.len() - 1 - j] < a[a.len() - 1 - i]);
    }
    assert forall|x: usize| #[trigger] d.contains(x) <==> s.contains(x) by {
        if d.contains(x) {
            let i = choose|i: int| 0 <= i < d.len() && d[i] == x;
            assert(a[a.len() - 1 - i] == x);
            assert(a.contains(x));
        }
        if s.contains(x) {
            assert(a.contains(x));
            let i = choose|i: int| 0 <= i < a.len() && a[i] == x;
            assert(d[a.len() - 1 - i] == x);
        }
    }
    assert(d.to_set() =~= s);
    assert forall|i: int, j: int| 0 <= i < d.len() && 0 <= j < d.len() && i != j implies d[i]
        != d[j] by {
        if i < j {
            assert(d[i] > d[j]);
        } else {
            assert(d[j] > d[i]);
        }
    }
}

/// A strictly decreasing sequence is the decreasing enumeration of its own elements.
pub proof fn lemma_descending_of(q: Seq<usize>)
    requires
        decreasing(q),
    ensures
        descending(q.to_set()) == q,
{
    let r = q.reverse();
    assert forall|i: int, j: int| 0 <= i < j < r.len() implies r[i] < r[j] by {
        assert(q[q.len() - 1 - j] > q[q.len() - 1 - i]);
    }
    assert forall|x: usize| r.contains(x) <==> q.contains(x) by {
        if r.contains(x) {
            let i = choose|i: int| 0 <= i < r.len() && r[i] == x;
            assert(q[q.len() - 1 - i] == x);
        }
        if q.contains(x) {
            let i = choose|i: int| 0 <= i < q.len() && q[i] == x;
            assert(r[q.len() - 1 - i] == x);
        }
    }
    assert(r.to_set() =~= q.to_set());
    lemma_ascending_of(r);
    assert(r.reverse() =~= q);
}

/// Puts `x` into the strictly decreasing `v`, where it keeps the order.
pub fn insert_descending(v: &mut Vec<usize>, x: usize)
    requires
        decreasing(old(v)@),
        !old(v)@.contains(x),
    ensures
        decreasing(final(v)@),
        final(v)@.to_set() == old(v)@.to_set().insert(x),
{
    let mut i: usize = 0;
    while i < v.len() && v[i] > x
        invariant
            i <= v.len(),
            *v == *old(v),
            forall|k: int| 0 <= k < i ==> v@[k] > x,
        decreases v.len() - i,
    {
        i += 1;
    }
    let ghost before = v@;
    v.insert(i, x);
    proof {
        let after = v@;
        assert(after == before.insert(i as int, x));
        assert forall|a: int, b: int| 0 <= a < b < after.len() implies after[a] > after[b] by {
            if b < i {
                assert(before[a] > before[b]);
            } else if b == i {
            } else if a < i {
                assert(before[a] > before[b - 1]);
            } else if a == i {
                assert(before.contains(before[i as int]));
                assert(before[i as int] != x);
                if b - 1 > i {
                    assert(before[i as int] > before[b - 1]);
                }
            } else {
                assert(before[a - 1] > before[b - 1]);
            }
        }
        assert forall|y: usize| after.to_set().contains(y) <==> before.to_set().insert(
            x,
        ).contains(y) by {
            if after.contains(y) {
                let k = choose|k: int| 0 <= k < after.len() && after[k] == y;
                if k < i {
                    assert(before[k] == y);
                } else if k > i {
                    assert(before[k - 1] == y);
                }
            }
            if before.contains(y) {
                let k = choose|k: int| 0 <= k < before.len() && before[k] == y;
                if k < i {
                    assert(after[k] == y);
                } else {
                    assert(after[k + 1] == y);
                }
            }
            if y == x {
                assert(after[i as int] == x);
            }
        }
        assert(after.to_set() =~= before.to_set().insert(x));
    }
}

/// The order "no smaller than", by which degrees are sorted from the greatest down.
pub open spec fn no_smaller() -> spec_fn(usize, usize) -> bool {
    |a: usize, b: usize| a >= b
}

/// Sorts `v` from the greatest down.
pub fn sort_descending(v: &Vec<usize>) -> (r: Vec<usize>)
    ensures
        vstd::relations::sorted_by(r@, no_smaller()),
        r@.to_multiset() == v@.to_multiset(),
{
    broadcast use vstd::seq_lib::group_to_multiset_ensures;

    let mut out: Vec<usize> = Vec::new();
    let mut i: usize = 0;
    assert(v@.take(0) =~= out@);
    while i < v.len()
        invariant
            i <= v.len(),
            vstd::relations::sorted_by(out@, no_smaller()),
            out@.to_multiset() == v@.take(i as int).to_multiset(),
        decreases v.len() - i,
    {
        let x = v[i];
        let mut at: usize = 0;
        while at < out.len() && out[at] > x
            invariant
                at <= out.len(),
                forall|k: int| 0 <= k < at ==> out@[k] > x,
            decreases out.len() - at,
        {
            at += 1;
        }
        let ghost before = out@;
        out.insert(at, x);
        proof {
            let after = out@;
            assert(after == before.insert(at as int, x));
            assert forall|a: int, b: int| 0 <= a < b < after.len() implies (no_smaller())(
                after[a],
                after[b],
            ) by {
                if b < at {
                    assert((no_smaller())(before[a], before[b]));
                } else if b == at {
                } else if a < at {
                    assert((no_smaller())(before[a], before[b - 1]));
                } else if a == at {
                    if b - 1 > at {
                        assert((no_smaller())(before[at as int], before[b - 1]));
                    }
                } else {
                    assert((no_smaller())(before[a - 1], before[b - 1]));
                }
            }
            assert(v@.take(i + 1) =~= v@.take(i as int).push(x));
            vstd::seq_lib::to_multiset_insert(before, at as int, x);
            vstd::seq_lib::to_multiset_build(v@.take(i as int), x);
        }
        i += 1;
    }
    assert(v@.take(v.len() as int) =~= v@);
    out
}

/// The orders of two sequences sorted from the greatest down are equal if the sequences
/// hold the same elements as often.
pub proof fn lemma_sorted_descending_unique(a: Seq<usize>, b: Seq<usize>)
    requires
        vstd::relations::sorted_by(a, no_smaller()),
        vstd::relations::sorted_by(b, no_smaller()),
        a.to_multiset() == b.to_multiset(),
    ensures
        a == b,
{
    assert(vstd::relations::total_ordering(no_smaller())) by {
        assert(vstd::relations::reflexive(no_smaller()));
        assert(vstd::relations::antisymmetric(no_smaller()));
        assert(vstd::relations::transitive(no_smaller()));
        assert(vstd::relations::strongly_connected(no_smaller()));
    }
    vstd::seq_lib::lemma_sorted_unique(a, b, no_smaller());
}

} // verus!
