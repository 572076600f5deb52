//! Disjoint sets: a forest of entities in which every tree is one set, named by its root.
use vstd::prelude::*;
use vstd::std_specs::cmp::PartialEqSpec;

verus! {

/// A pointer to an entity of a `DisjointSet`: its place.
#[derive(Clone, Copy, Debug)]
pub struct EntityPtr {
    pub ptr: usize,
}

/// An entity with its rank and the place of its parent. A root is its own parent.
#[derive(Debug)]
pub struct Entity<T> {
    pub data: T,
    pub rank: usize,
    pub parent: usize,
}

impl<T> Entity<T> {
    pub fn new(data: T, rank: usize, parent: usize) -> (e: Self)
        ensures
            e.data == data,
            e.rank == rank,
            e.parent == parent,
    {
        Self { data, rank, parent }
    }
}

/// The place that is reached from the place `i` by `k` steps to the parent.
pub open spec fn climb(parents: Seq<usize>, i: int, k: nat) -> int
    decreases k,
{
    if k == 0 || !(0 <= i < parents.len()) {
        i
    } else {
        climb(parents, parents[i] as int, (k - 1) as nat)
    }
}

/// The place `r` is a root.
pub open spec fn is_root(parents: Seq<usize>, r: int) -> bool {
    0 <= r < parents.len() && parents[r] == r
}

/// The steps to the parent lead from the place `i` to the root `r`.
pub open spec fn reaches_root(parents: Seq<usize>, i: int, r: int) -> bool {
    is_root(parents, r) && exists|k: nat| #[trigger] climb(parents, i, k) == r
}

/// The root of the tree of the place `i`.
pub open spec fn root_of(parents: Seq<usize>, i: int) -> int {
    choose|r: int| reaches_root(parents, i, r)
}

/// The heights `h`, all below `bound`, grow along every step to a parent: this shows that
/// the parents form a forest.
pub open spec fn climbs(parents: Seq<usize>, h: Seq<nat>, bound: nat) -> bool {
    &&& h.len() == parents.len()
    &&& forall|i: int|
        0 <= i < parents.len() ==> (#[trigger] parents[i]) < parents.len() && h[i] < bound && (
        parents[i] != i ==> h[parents[i] as int] > h[i])
}

/// Every parent is a place, and no steps to the parent lead around in a circle.
pub open spec fn is_forest(parents: Seq<usize>) -> bool {
    exists|h: Seq<nat>, bound: nat| climbs(parents, h, bound)
}

/// Steps can be taken in two parts.
pub proof fn lemma_climb_split(parents: Seq<usize>, i: int, a: nat, b: nat)
    ensures
        climb(parents, i, a + b) == climb(parents, climb(parents, i, a), b),
    decreases a,
{
    if a == 0 {
    } else if !(0 <= i < parents.len()) {
        lemma_climb_outside(parents, i, b);
    } else {
        lemma_climb_split(parents, parents[i] as int, (a - 1) as nat, b);
    }
}

proof fn lemma_climb_outside(parents: Seq<usize>, i: int, k: nat)
    requires
        !(0 <= i < parents.len()),
    ensures
        climb(parents, i, k) == i,
{
}

/// The steps from a root lead nowhere else.
pub proof fn lemma_climb_root(parents: Seq<usize>, r: int, k: nat)
    requires
        is_root(parents, r),
    ensures
        climb(parents, r, k) == r,
    decreases k,
{
    if k > 0 {
        lemma_climb_root(parents, r, (k - 1) as nat);
    }
}

/// A place reaches one root only.
pub proof fn lemma_root_unique(parents: Seq<usize>, i: int, r1: int, r2: int)
    requires
        reaches_root(parents, i, r1),
        reaches_root(parents, i, r2),
    ensures
        r1 == r2,
{
    let k1 = choose|k: nat| #[trigger] climb(parents, i, k) == r1;
    let k2 = choose|k: nat| #[trigger] climb(parents, i, k) == r2;
    if k1 <= k2 {
        lemma_climb_split(parents, i, k1, (k2 - k1) as nat);
        lemma_climb_root(parents, r1, (k2 - k1) as nat);
    } else {
        lemma_climb_split(parents, i, k2, (k1 - k2) as nat);
        lemma_climb_root(parents, r2, (k1 - k2) as nat);
    }
}

/// In a forest every place reaches its root, which is the root of its parent too.
pub proof fn lemma_root_of(parents: Seq<usize>, h: Seq<nat>, bound: nat, i: int)
    requires
        climbs(parents, h, bound),
        0 <= i < parents.len(),
    ensures
        reaches_root(parents, i, root_of(parents, i)),
        root_of(parents, parents[i] as int) == root_of(parents, i),
        is_root(parents, i) ==> root_of(parents, i) == i,
        h[root_of(parents, i)] >= h[i],
    decreases bound - h[i],
{
    if parents[i] == i {
        assert(climb(parents, i, 0) == i);
        assert(reaches_root(parents, i, i));
        lemma_root_unique(parents, i, i, root_of(parents, i));
    } else {
        let p = parents[i] as int;
        assert(parents[i] < parents.len());
        assert(h[p] > h[i]);
        assert(parents[p] < parents.len());
        assert(h[p] < bound);
        lemma_root_of(parents, h, bound, p);
        let r = root_of(parents, p);
        let k = choose|k: nat| #[trigger] climb(parents, p, k) == r;
        assert(climb(parents, i, k + 1) == r);
        assert(reaches_root(parents, i, r));
        lemma_root_unique(parents, i, r, root_of(parents, i));
    }
}

/// A place that is its own root is a root.
pub proof fn lemma_root_is_root(parents: Seq<usize>, h: Seq<nat>, bound: nat, i: int)
    requires
        climbs(parents, h, bound),
        0 <= i < parents.len(),
        root_of(parents, i) == i,
    ensures
        is_root(parents, i),
{
    lemma_root_of(parents, h, bound, i);
}

/// A new root at the end leaves every place its root.
pub proof fn lemma_grown(parents: Seq<usize>, h: Seq<nat>, bound: nat, i: int)
    requires
        climbs(parents, h, bound),
        0 <= i < parents.len(),
    ensures
        root_of(parents.push(parents.len() as usize), i) == root_of(parents, i),
    decreases bound - h[i],
{
    let grown = parents.push(parents.len() as usize);
    lemma_root_of(parents, h, bound, i);
    let r = root_of(parents, i);
    assert(is_root(grown, r));
    if parents[i] == i {
        assert(climb(grown, i, 0) == i);
        assert(reaches_root(grown, i, r));
    } else {
        let j = parents[i] as int;
        assert(parents[j] < parents.len() && h[j] < bound && h[j] > h[i]);
        lemma_grown(parents, h, bound, j);
        lemma_root_of(parents, h, bound, j);
        assert(reaches_root(parents, j, root_of(parents, j)));
        lemma_climb_grown(parents, j, r);
        let k = choose|k: nat| #[trigger] climb(grown, j, k) == r;
        assert(climb(grown, i, k + 1) == r);
        assert(reaches_root(grown, i, r));
    }
    lemma_root_unique(grown, i, r, root_of(grown, i));
}

proof fn lemma_climb_grown(parents: Seq<usize>, j: int, r: int)
    requires
        reaches_root(parents, j, r),
        0 <= j < parents.len(),
        forall|i: int| 0 <= i < parents.len() ==> (#[trigger] parents[i]) < parents.len(),
    ensures
        exists|k: nat| #[trigger] climb(parents.push(parents.len() as usize), j, k) == r,
{
    let k = choose|k: nat| #[trigger] climb(parents, j, k) == r;
    lemma_climb_same(parents, j, k);
}

proof fn lemma_climb_same(parents: Seq<usize>, j: int, k: nat)
    requires
        0 <= j < parents.len(),
        forall|i: int| 0 <= i < parents.len() ==> (#[trigger] parents[i]) < parents.len(),
    ensures
        climb(parents.push(parents.len() as usize), j, k) == climb(parents, j, k),
    decreases k,
{
    if k > 0 {
        assert(parents.push(parents.len() as usize)[j] == parents[j]);
        lemma_climb_same(parents, parents[j] as int, (k - 1) as nat);
    }
}

/// When the parent of one place is replaced by a place of the same tree that is higher up,
/// the parents still form a forest, and every place keeps its root.
pub proof fn lemma_reparent(
    parents: Seq<usize>,
    h: Seq<nat>,
    bound: nat,
    at: int,
    up: usize,
    i: int,
)
    requires
        climbs(parents, h, bound),
        0 <= at < parents.len(),
        up < parents.len(),
        root_of(parents, up as int) == root_of(parents, at),
        up == at || h[up as int] > h[at],
        up == at ==> is_root(parents, at),
        0 <= i < parents.len(),
    ensures
        climbs(parents.update(at, up), h, bound),
        root_of(parents.update(at, up), i) == root_of(parents, i),
    decreases bound - h[i],
{
    let changed = parents.update(at, up);
    assert(climbs(changed, h, bound));
    lemma_root_of(parents, h, bound, i);
    let r = root_of(parents, i);
    if changed[i] == i {
        assert(parents[i] == i);
        assert(climb(changed, i, 0) == i);
        assert(reaches_root(changed, i, i));
    } else {
        let j = changed[i] as int;
        assert(changed[j] < changed.len() && h[j] < bound && h[j] > h[i]);
        lemma_reparent(parents, h, bound, at, up, j);
        lemma_root_of(changed, h, bound, j);
        lemma_root_of(parents, h, bound, j);
        assert(root_of(parents, j) == r);
        let k = choose|k: nat| #[trigger] climb(changed, j, k) == root_of(changed, j);
        assert(climb(changed, i, k + 1) == r);
        assert(is_root(changed, r)) by {
            assert(is_root(parents, r));
            if r == at {
                lemma_root_of(parents, h, bound, up as int);
                assert(h[r] >= h[up as int]);
            }
        }
        assert(reaches_root(changed, i, r));
    }
    lemma_root_of(changed, h, bound, i);
    lemma_root_unique(changed, i, r, root_of(changed, i));
}

/// The steps from a place stay among the places.
pub proof fn lemma_climb_stays(parents: Seq<usize>, h: Seq<nat>, bound: nat, from: int, k: nat)
    requires
        climbs(parents, h, bound),
        0 <= from < parents.len(),
    ensures
        0 <= climb(parents, from, k) < parents.len(),
        climb(parents, from, k + 1) == parents[climb(parents, from, k)],
    decreases k,
{
    assert(parents[from] < parents.len());
    let p = parents[from] as int;
    assert(climb(parents, from, k + 1) == climb(parents, p, k));
    if k > 0 {
        lemma_climb_stays(parents, h, bound, p, (k - 1) as nat);
        assert(climb(parents, from, k) == climb(parents, p, (k - 1) as nat));
    } else {
        assert(climb(parents, p, 0) == p);
    }
}

/// The steps from a place lead upwards until they come to the root.
pub proof fn lemma_climb_up(
    parents: Seq<usize>,
    h: Seq<nat>,
    bound: nat,
    from: int,
    a: nat,
    b: nat,
)
    requires
        climbs(parents, h, bound),
        0 <= from < parents.len(),
        a < b,
        !is_root(parents, climb(parents, from, a)),
    ensures
        h[climb(parents, from, b)] > h[climb(parents, from, a)],
    decreases b - a,
{
    lemma_climb_stays(parents, h, bound, from, a);
    let at = climb(parents, from, a);
    assert(parents[at] < parents.len());
    assert(h[parents[at] as int] > h[at]);
    if a + 1 < b {
        let next = climb(parents, from, a + 1);
        lemma_climb_stays(parents, h, bound, from, a + 1);
        if is_root(parents, next) {
            lemma_climb_split(parents, from, a + 1, (b - a - 1) as nat);
            lemma_climb_root(parents, next, (b - a - 1) as nat);
        } else {
            lemma_climb_up(parents, h, bound, from, a + 1, b);
        }
    }
}

/// A place that is reached by `k` steps, at least `2 * m`, was not passed at an even step
/// below `2 * m`, as long as none of these steps started from a root.
pub proof fn lemma_untouched(
    parents: Seq<usize>,
    h: Seq<nat>,
    bound: nat,
    from: int,
    m: nat,
    k: nat,
)
    requires
        climbs(parents, h, bound),
        0 <= from < parents.len(),
        k >= 2 * m,
        forall|j: nat| j < m ==> !is_root(parents, #[trigger] climb(parents, from, 2 * j)),
    ensures
        !on_even_step_below(parents, from, m, climb(parents, from, k)),
        halved_below(parents, from, m)[climb(parents, from, k)] == parents[climb(
            parents,
            from,
            k,
        )],
{
    lemma_climb_stays(parents, h, bound, from, k);
    let at = climb(parents, from, k);
    if on_even_step_below(parents, from, m, at) {
        let j = choose|j: nat| j < m && #[trigger] climb(parents, from, 2 * j) == at;
        lemma_climb_up(parents, h, bound, from, 2 * j, k);
    }
}

/// The place `i` is reached from the place `from` by an even number of steps to the parent,
/// fewer than `2 * m`.
pub open spec fn on_even_step_below(parents: Seq<usize>, from: int, m: nat, i: int) -> bool {
    exists|j: nat| j < m && #[trigger] climb(parents, from, 2 * j) == i
}

/// The place `i` is reached from the place `from` by an even number of steps to the parent.
pub open spec fn on_even_step(parents: Seq<usize>, from: int, i: int) -> bool {
    exists|j: nat| #[trigger] climb(parents, from, 2 * j) == i
}

/// The parents after every second place on the way from `from` to its root, `from` first,
/// got its grandparent for a parent.
pub open spec fn halved(parents: Seq<usize>, from: int) -> Seq<usize> {
    Seq::new(
        parents.len(),
        |i: int|
            if on_even_step(parents, from, i) {
                parents[parents[i] as int]
            } else {
                parents[i]
            },
    )
}

/// The parents after the first `m` of these places got their grandparent for a parent.
pub open spec fn halved_below(parents: Seq<usize>, from: int, m: nat) -> Seq<usize> {
    Seq::new(
        parents.len(),
        |i: int|
            if on_even_step_below(parents, from, m, i) {
                parents[parents[i] as int]
            } else {
                parents[i]
            },
    )
}

/// When a root gets another root for a parent, the parents still form a forest; the places
/// of its tree get the other root, and every other place keeps its root.
pub proof fn lemma_link(parents: Seq<usize>, h: Seq<nat>, bound: nat, a: int, b: int, i: int)
    requires
        climbs(parents, h, bound),
        is_root(parents, a),
        is_root(parents, b),
        a != b,
        0 <= i < parents.len(),
    ensures
        climbs(
            parents.update(a, b as usize),
            h.update(
                b,
                if h[b] > h[a] {
                    h[b]
                } else {
                    h[a] + 1
                },
            ),
            bound + 1,
        ),
        root_of(parents.update(a, b as usize), i) == (if root_of(parents, i) == a {
            b
        } else {
            root_of(parents, i)
        }),
    decreases bound - h[i],
{
    let changed = parents.update(a, b as usize);
    let taller = h.update(
        b,
        if h[b] > h[a] {
            h[b]
        } else {
            h[a] + 1
        },
    );
    assert(climbs(changed, taller, bound + 1)) by {
        assert forall|j: int| 0 <= j < changed.len() implies (#[trigger] changed[j])
            < changed.len() && taller[j] < bound + 1 && (changed[j] != j ==> taller[changed[j] as int]
            > taller[j]) by {
            assert(parents[j] < parents.len());
            if j != a && parents[j] != j {
                assert(h[parents[j] as int] > h[j]);
            }
        }
    }
    lemma_root_of(parents, h, bound, i);
    let r = root_of(parents, i);
    let goal = if r == a {
        b
    } else {
        r
    };
    assert(is_root(changed, b));
    if parents[i] == i {
        if i == a {
            assert(climb(changed, b, 0) == b);
            assert(climb(changed, a, 1) == b);
        } else {
            assert(climb(changed, i, 0) == i);
        }
        assert(reaches_root(changed, i, goal));
    } else {
        let j = parents[i] as int;
        assert(parents[j] < parents.len() && h[j] < bound && h[j] > h[i]);
        lemma_link(parents, h, bound, a, b, j);
        lemma_root_of(changed, taller, bound + 1, j);
        let k = choose|k: nat| #[trigger] climb(changed, j, k) == root_of(changed, j);
        assert(climb(changed, i, k + 1) == goal);
        assert(is_root(changed, goal)) by {
            assert(is_root(parents, r));
        }
        assert(reaches_root(changed, i, goal));
    }
    lemma_root_unique(changed, i, goal, root_of(changed, i));
}

/// The places whose root is `r`: the set that `r` stands for.
pub open spec fn class(parents: Seq<usize>, r: int) -> Set<int> {
    Set::new(|i: int| 0 <= i < parents.len() && root_of(parents, i) == r)
}

/// The rank of every root is below the number of places in its set.
pub open spec fn ranked(parents: Seq<usize>, ranks: Seq<usize>) -> bool {
    ranks.len() == parents.len() && forall|r: int| #[trigger]
        is_root(parents, r) ==> ranks[r] < class(parents, r).len()
}

/// A set of places is finite and has no more places than there are.
pub proof fn lemma_class_size(parents: Seq<usize>, r: int)
    ensures
        class(parents, r).finite(),
        class(parents, r).len() <= parents.len(),
{
    vstd::set_lib::lemma_int_range(0, parents.len() as int);
    let all = vstd::set_lib::set_int_range(0, parents.len() as int);
    assert(class(parents, r).subset_of(all));
    vstd::set_lib::lemma_len_subset(class(parents, r), all);
}

/// Where every place keeps its root, the ranks stay below the sizes of the sets.
pub proof fn lemma_ranked_same_roots(
    before: Seq<usize>,
    after: Seq<usize>,
    h: Seq<nat>,
    bound: nat,
    ranks: Seq<usize>,
)
    requires
        ranked(before, ranks),
        climbs(after, h, bound),
        after.len() == before.len(),
        forall|i: int| 0 <= i < before.len() ==> root_of(after, i) == root_of(before, i),
        forall|r: int| is_root(after, r) ==> is_root(before, r),
    ensures
        ranked(after, ranks),
{
    assert forall|r: int| #[trigger] is_root(after, r) implies ranks[r] < class(after, r).len() by {
        assert(is_root(before, r));
        assert(class(after, r) =~= class(before, r));
    }
}

/// When a root `a` gets another root `b` for a parent, the set of `b` grows by at least one
/// place, and the other sets stay.
pub proof fn lemma_link_classes(parents: Seq<usize>, h: Seq<nat>, bound: nat, a: int, b: int)
    requires
        climbs(parents, h, bound),
        is_root(parents, a),
        is_root(parents, b),
        a != b,
    ensures
        class(parents.update(a, b as usize), b).len() > class(parents, b).len(),
        forall|r: int|
            r != a && r != b ==> class(parents.update(a, b as usize), r) == class(parents, r),
        forall|r: int| #[trigger]
            is_root(parents.update(a, b as usize), r) ==> is_root(parents, r) && r != a,
{
    let changed = parents.update(a, b as usize);
    assert forall|i: int| 0 <= i < parents.len() implies root_of(changed, i) == (if root_of(
        parents,
        i,
    ) == a {
        b
    } else {
        root_of(parents, i)
    }) by {
        lemma_link(parents, h, bound, a, b, i);
    }
    lemma_root_of(parents, h, bound, a);
    lemma_root_of(parents, h, bound, b);
    lemma_class_size(parents, b);
    lemma_class_size(changed, b);
    let grown = class(parents, b).insert(a);
    assert(!class(parents, b).contains(a));
    assert(grown.subset_of(class(changed, b)));
    vstd::set_lib::lemma_len_subset(grown, class(changed, b));
    assert forall|r: int| r != a && r != b implies class(changed, r) == class(parents, r) by {
        assert(class(changed, r) =~= class(parents, r));
    }
}

/// Disjoint sets of entities. Each entity points to its parent; the root of its tree
/// stands for its set.
pub struct DisjointSet<T> {
    pub entities: Vec<Entity<T>>,
}

impl<T> DisjointSet<T> {
    /// The place of the parent of each entity.
    pub open spec fn parents(&self) -> Seq<usize> {
        Seq::new(self.entities@.len(), |i: int| self.entities@[i].parent)
    }

    /// The rank of each entity.
    pub open spec fn ranks(&self) -> Seq<usize> {
        Seq::new(self.entities@.len(), |i: int| self.entities@[i].rank)
    }

    /// The data of each entity.
    pub open spec fn all_data(&self) -> Seq<T> {
        Seq::new(self.entities@.len(), |i: int| self.entities@[i].data)
    }

    /// The parents form a forest, and the rank of every root is below the number of
    /// entities in its set.
    pub open spec fn wf(&self) -> bool {
        is_forest(self.parents()) && ranked(self.parents(), self.ranks())
    }

    /// The root of the set of the entity at the place `i`.
    pub open spec fn root(&self, i: int) -> int {
        root_of(self.parents(), i)
    }

    /// No entities.
    pub fn new() -> (s: DisjointSet<T>)
        ensures
            s.entities@.len() == 0,
            s.wf(),
    {
        let s = DisjointSet { entities: Vec::new() };
        proof {
            assert(climbs(s.parents(), Seq::<nat>::empty(), 0));
        }
        s
    }

    /// The data of the entity that `ptr` points to.
    pub fn data(&self, ptr: EntityPtr) -> (d: &T)
        requires
            ptr.ptr < self.entities@.len(),
        ensures
            *d == self.entities@[ptr.ptr as int].data,
    {
        &self.entities[ptr.ptr].data
    }

    /// The root of the set of the entity that `ptr` points to. On the way, every second
    /// entity that is passed, the first one first, gets its grandparent for a parent; the
    /// sets stay as they are, and so does what holds of the ranks.
    pub fn find(&mut self, ptr: EntityPtr) -> (r: EntityPtr)
        requires
            is_forest(old(self).parents()),
            ptr.ptr < old(self).entities@.len(),
        ensures
            is_forest(final(self).parents()),
            old(self).wf() ==> final(self).wf(),
            r.ptr == old(self).root(ptr.ptr as int),
            final(self).entities@.len() == old(self).entities@.len(),
            final(self).parents() == halved(old(self).parents(), ptr.ptr as int),
            final(self).ranks() == old(self).ranks(),
            final(self).all_data() == old(self).all_data(),
            forall|i: int|
                0 <= i < old(self).entities@.len() ==> final(self).root(i) == old(self).root(i),
    {
        let ghost first = self.parents();
        let ghost from = ptr.ptr as int;
        let ghost (h, bound) = choose|h: Seq<nat>, bound: nat| climbs(first, h, bound);
        let ghost mut m: nat = 0;
        let mut curr = ptr.ptr;
        let mut parent = self.parent(curr);
        proof {
            lemma_root_of(first, h, bound, curr as int);
            assert(self.parents() =~= halved_below(first, from, 0));
        }
        while curr != parent
            invariant
                first == old(self).parents(),
                from == ptr.ptr,
                0 <= from < first.len(),
                climbs(first, h, bound),
                climbs(self.parents(), h, bound),
                curr < self.entities@.len(),
                curr == climb(first, from, 2 * m),
                self.parents() == halved_below(first, from, m),
                forall|j: nat| j < m ==> !is_root(first, #[trigger] climb(first, from, 2 * j)),
                parent == self.parents()[curr as int],
                self.entities@.len() == old(self).entities@.len(),
                self.ranks() == old(self).ranks(),
                self.all_data() == old(self).all_data(),
                self.root(curr as int) == old(self).root(ptr.ptr as int),
                forall|i: int|
                    0 <= i < old(self).entities@.len() ==> self.root(i) == old(self).root(i),
            decreases bound - h[curr as int],
        {
            let ghost before = self.parents();
            let up = self.parent(parent);
            proof {
                lemma_root_of(before, h, bound, curr as int);
                lemma_root_of(before, h, bound, parent as int);
                assert forall|i: int| 0 <= i < before.len() implies root_of(
                    before.update(curr as int, up),
                    i,
                ) == root_of(before, i) by {
                    lemma_reparent(before, h, bound, curr as int, up, i);
                }
                lemma_reparent(before, h, bound, curr as int, up, curr as int);
                // the way so far has not passed the places of the next two steps
                lemma_untouched(first, h, bound, from, m, 2 * m);
                assert(before[curr as int] == first[curr as int]);
                assert(!is_root(first, curr as int));
                lemma_climb_stays(first, h, bound, from, 2 * m);
                lemma_untouched(first, h, bound, from, m, 2 * m + 1);
                lemma_climb_stays(first, h, bound, from, 2 * m + 1);
                assert(up == climb(first, from, 2 * (m + 1)));
                let next = halved_below(first, from, m + 1);
                assert forall|i: int| 0 <= i < first.len() implies (on_even_step_below(
                    first,
                    from,
                    m + 1,
                    i,
                ) <==> on_even_step_below(first, from, m, i) || i == curr) by {
                    if on_even_step_below(first, from, m + 1, i) {
                        let j = choose|j: nat| j < m + 1 && #[trigger] climb(first, from, 2 * j) == i;
                        if j < m {
                            assert(on_even_step_below(first, from, m, i));
                        }
                    }
                    if on_even_step_below(first, from, m, i) {
                        let j = choose|j: nat| j < m && #[trigger] climb(first, from, 2 * j) == i;
                        assert(j < m + 1 && climb(first, from, 2 * j) == i);
                    }
                    if i == curr {
                        assert(m < m + 1 && climb(first, from, 2 * m) == i);
                    }
                }
                assert(before.update(curr as int, up) =~= next);
            }
            curr = self.compress(curr, up);
            parent = self.parent(curr);
            proof {
                m = m + 1;
            }
        }
        proof {
            lemma_root_of(self.parents(), h, bound, curr as int);
            lemma_untouched(first, h, bound, from, m, 2 * m);
            assert(is_root(first, curr as int));
            assert forall|i: int| 0 <= i < first.len() implies #[trigger] self.parents()[i] == halved(
                first,
                from,
            )[i] by {
                if on_even_step(first, from, i) && !on_even_step_below(first, from, m, i) {
                    let j = choose|j: nat| #[trigger] climb(first, from, 2 * j) == i;
                    assert(j >= m);
                    lemma_climb_split(first, from, 2 * m, (2 * j - 2 * m) as nat);
                    lemma_climb_root(first, curr as int, (2 * j - 2 * m) as nat);
                    assert(i == curr);
                }
                if on_even_step_below(first, from, m, i) {
                    let j = choose|j: nat| j < m && #[trigger] climb(first, from, 2 * j) == i;
                    assert(climb(first, from, 2 * j) == i);
                }
            }
            assert(self.parents() =~= halved(first, from));
            assert forall|i: int| 0 <= i < first.len() implies root_of(self.parents(), i)
                == root_of(first, i) by {
                assert(self.root(i) == old(self).root(i));
            }
            assert forall|r: int| is_root(self.parents(), r) implies is_root(first, r) by {
                lemma_root_of(self.parents(), h, bound, r);
                assert(root_of(first, r) == r);
                lemma_root_is_root(first, h, bound, r);
            }
            if ranked(first, self.ranks()) {
                lemma_ranked_same_roots(first, self.parents(), h, bound, self.ranks());
            }
        }
        EntityPtr { ptr: curr }
    }

    /// Joins the set of `lhs` and the set of `rhs`: after the root of each was found, the
    /// root of lower rank gets the other for a parent (the root of `lhs` where the ranks are
    /// equal, and then the rank of the other grows by one).
    pub fn union(&mut self, lhs: EntityPtr, rhs: EntityPtr)
        requires
            old(self).wf(),
            lhs.ptr < old(self).entities@.len(),
            rhs.ptr < old(self).entities@.len(),
        ensures
            final(self).wf(),
            final(self).entities@.len() == old(self).entities@.len(),
            final(self).all_data() == old(self).all_data(),
            ({
                let l = old(self).root(lhs.ptr as int);
                let r = old(self).root(rhs.ptr as int);
                let l_wins = old(self).ranks()[l] > old(self).ranks()[r];
                let found = halved(halved(old(self).parents(), lhs.ptr as int), rhs.ptr as int);
                &&& forall|i: int|
                    0 <= i < old(self).entities@.len() ==> final(self).root(i) == (if l == r {
                        old(self).root(i)
                    } else if l_wins {
                        if old(self).root(i) == r {
                            l
                        } else {
                            old(self).root(i)
                        }
                    } else {
                        if old(self).root(i) == l {
                            r
                        } else {
                            old(self).root(i)
                        }
                    })
                &&& final(self).parents() == (if l == r {
                    found
                } else if l_wins {
                    found.update(r, l as usize)
                } else {
                    found.update(l, r as usize)
                })
                &&& final(self).ranks() == (if l != r && old(self).ranks()[l] == old(self).ranks()[r] {
                    old(self).ranks().update(r, (old(self).ranks()[r] + 1) as usize)
                } else {
                    old(self).ranks()
                })
            }),
    {
        let ghost first = self.parents();
        let ghost (h0, bound0) = choose|h: Seq<nat>, bound: nat| climbs(first, h, bound);
        let l_ptr = self.find(lhs).ptr;
        let ghost s1 = *self;
        let ghost mid = self.parents();
        let ghost (h1, bound1) = choose|h: Seq<nat>, bound: nat| climbs(mid, h, bound);
        let r_ptr = self.find(rhs).ptr;
        let count = self.entities.len();
        let ghost s2 = *self;
        let ghost now = self.parents();
        let ghost ranks = self.ranks();
        let ghost (h, bound) = choose|h: Seq<nat>, bound: nat| climbs(now, h, bound);
        proof {
            assert(climbs(first, h0, bound0));
            assert(climbs(mid, h1, bound1));
            assert(climbs(now, h, bound));
            lemma_root_of(first, h0, bound0, lhs.ptr as int);
            lemma_root_of(first, h0, bound0, l_ptr as int);
            lemma_root_of(mid, h1, bound1, rhs.ptr as int);
            lemma_root_of(mid, h1, bound1, r_ptr as int);
            assert(s1.root(l_ptr as int) == old(self).root(l_ptr as int));
            assert(s2.root(l_ptr as int) == s1.root(l_ptr as int));
            assert(s2.root(r_ptr as int) == s1.root(r_ptr as int));
            assert(s1.root(rhs.ptr as int) == old(self).root(rhs.ptr as int));
            assert(root_of(now, l_ptr as int) == l_ptr);
            assert(root_of(now, r_ptr as int) == r_ptr);
            lemma_root_is_root(now, h, bound, l_ptr as int);
            lemma_root_is_root(now, h, bound, r_ptr as int);
            assert(self.ranks() == old(self).ranks());
            assert forall|i: int| 0 <= i < now.len() implies root_of(now, i) == old(self).root(
                i,
            ) by {
                assert(s2.root(i) == s1.root(i));
                assert(s1.root(i) == old(self).root(i));
            }
            lemma_class_size(now, l_ptr as int);
            lemma_class_size(now, r_ptr as int);
        }
        if l_ptr != r_ptr {
            if self.rank(l_ptr) > self.rank(r_ptr) {
                proof {
                    assert forall|i: int| 0 <= i < now.len() implies root_of(
                        now.update(r_ptr as int, l_ptr),
                        i,
                    ) == (if root_of(now, i) == r_ptr {
                        l_ptr as int
                    } else {
                        root_of(now, i)
                    }) by {
                        lemma_link(now, h, bound, r_ptr as int, l_ptr as int, i);
                    }
                    lemma_link(now, h, bound, r_ptr as int, l_ptr as int, 0);
                    lemma_link_classes(now, h, bound, r_ptr as int, l_ptr as int);
                }
                self.set_parent(r_ptr, l_ptr);
                proof {
                    let changed = now.update(r_ptr as int, l_ptr);
                    assert forall|x: int| #[trigger] is_root(changed, x) implies ranks[x] < class(
                        changed,
                        x,
                    ).len() by {
                        assert(is_root(now, x));
                    }
                }
            } else {
                proof {
                    assert forall|i: int| 0 <= i < now.len() implies root_of(
                        now.update(l_ptr as int, r_ptr),
                        i,
                    ) == (if root_of(now, i) == l_ptr {
                        r_ptr as int
                    } else {
                        root_of(now, i)
                    }) by {
                        lemma_link(now, h, bound, l_ptr as int, r_ptr as int, i);
                    }
                    lemma_link(now, h, bound, l_ptr as int, r_ptr as int, 0);
                    lemma_link_classes(now, h, bound, l_ptr as int, r_ptr as int);
                    lemma_class_size(now.update(l_ptr as int, r_ptr), r_ptr as int);
                    assert(is_root(now, r_ptr as int));
                    assert(ranked(now, ranks));
                    assert(ranks[r_ptr as int] < class(now, r_ptr as int).len());
                    assert(now.len() == count);
                    assert(self.ranks()[r_ptr as int] < usize::MAX);
                }
                self.set_parent(l_ptr, r_ptr);
                proof {
                    let changed = now.update(l_ptr as int, r_ptr);
                    let grown = self.ranks();
                    assert forall|x: int| #[trigger] is_root(changed, x) implies grown[x] < class(
                        changed,
                        x,
                    ).len() by {
                        assert(is_root(now, x));
                    }
                }
            }
        }
    }

    fn get_mut(&mut self, idx: usize) -> (e: &mut Entity<T>)
        requires
            idx < old(self).entities@.len(),
        ensures
            *e == old(self).entities@[idx as int],
            final(self).entities@ == old(self).entities@.update(idx as int, *final(e)),
    {
        &mut self.entities[idx]
    }

    fn increase_rank(&mut self, idx: usize)
        requires
            idx < old(self).entities@.len(),
            old(self).ranks()[idx as int] < usize::MAX,
        ensures
            final(self).entities@.len() == old(self).entities@.len(),
            final(self).parents() == old(self).parents(),
            final(self).all_data() == old(self).all_data(),
            final(self).ranks() == old(self).ranks().update(
                idx as int,
                (old(self).ranks()[idx as int] + 1) as usize,
            ),
    {
        let entity = self.get_mut(idx);
        entity.rank = entity.rank + 1;
        proof {
            assert(self.parents() =~= old(self).parents());
            assert(self.all_data() =~= old(self).all_data());
            assert(self.ranks() =~= old(self).ranks().update(
                idx as int,
                (old(self).ranks()[idx as int] + 1) as usize,
            ));
        }
    }

    fn set_parent(&mut self, idx: usize, new_parent: usize)
        requires
            idx < old(self).entities@.len(),
            new_parent < old(self).entities@.len(),
            old(self).ranks()[idx as int] == old(self).ranks()[new_parent as int] ==> old(
                self,
            ).ranks()[new_parent as int] < usize::MAX,
        ensures
            final(self).entities@.len() == old(self).entities@.len(),
            final(self).parents() == old(self).parents().update(idx as int, new_parent),
            final(self).all_data() == old(self).all_data(),
            final(self).ranks() == (if old(self).ranks()[idx as int] == old(self).ranks()[new_parent as int] {
                old(self).ranks().update(
                    new_parent as int,
                    (old(self).ranks()[new_parent as int] + 1) as usize,
                )
            } else {
                old(self).ranks()
            }),
    {
        let entity = self.get_mut(idx);
        entity.parent = new_parent;
        proof {
            assert(self.parents() =~= old(self).parents().update(idx as int, new_parent));
            assert(self.all_data() =~= old(self).all_data());
            assert(self.ranks() =~= old(self).ranks());
        }
        if self.rank(idx) == self.rank(new_parent) {
            self.increase_rank(new_parent);
        }
    }

    fn insert(&mut self, data: T) -> (at: usize)
        requires
            old(self).wf(),
        ensures
            final(self).wf(),
            at == old(self).entities@.len(),
            final(self).parents() == old(self).parents().push(at),
            final(self).ranks() == old(self).ranks().push(0),
            final(self).all_data() == old(self).all_data().push(data),
            forall|i: int| 0 <= i < old(self).entities@.len() ==> final(self).root(i) == old(self).root(i),
            final(self).root(at as int) == at,
    {
        let current_len = self.entities.len();
        let ghost before = self.parents();
        let ghost (h, bound) = choose|h: Seq<nat>, bound: nat| climbs(before, h, bound);
        self.entities.push(Entity::new(data, 0, current_len));
        proof {
            let now = self.parents();
            assert(now =~= before.push(current_len));
            assert(self.ranks() =~= old(self).ranks().push(0));
            assert(self.all_data() =~= old(self).all_data().push(data));
            let taller = h.push(0);
            assert(climbs(now, taller, bound + 1)) by {
                assert forall|j: int| 0 <= j < now.len() implies (#[trigger] now[j]) < now.len()
                    && taller[j] < bound + 1 && (now[j] != j ==> taller[now[j] as int]
                    > taller[j]) by {
                    if j < before.len() {
                        assert(before[j] < before.len());
                    }
                }
            }
            lemma_root_of(now, taller, bound + 1, current_len as int);
            assert forall|i: int| 0 <= i < before.len() implies root_of(now, i) == root_of(
                before,
                i,
            ) by {
                lemma_grown(before, h, bound, i);
            }
            assert forall|r: int| #[trigger] is_root(now, r) implies self.ranks()[r] < class(
                now,
                r,
            ).len() by {
                lemma_class_size(now, r);
                if r < before.len() {
                    assert(is_root(before, r));
                    assert(class(now, r) =~= class(before, r));
                } else {
                    let one = Set::<int>::empty().insert(r);
                    assert(one.subset_of(class(now, r)));
                    vstd::set_lib::lemma_len_subset(one, class(now, r));
                }
            }
        }
        current_len
    }

    fn parent(&self, idx: usize) -> (p: usize)
        requires
            idx < self.entities@.len(),
        ensures
            p == self.parents()[idx as int],
    {
        self.entities[idx].parent
    }

    fn rank(&self, idx: usize) -> (r: usize)
        requires
            idx < self.entities@.len(),
        ensures
            r == self.ranks()[idx as int],
    {
        self.entities[idx].rank
    }

    fn compress(&mut self, idx: usize, parent: usize) -> (p: usize)
        requires
            idx < old(self).entities@.len(),
        ensures
            p == parent,
            final(self).entities@.len() == old(self).entities@.len(),
            final(self).parents() == old(self).parents().update(idx as int, parent),
            final(self).ranks() == old(self).ranks(),
            final(self).all_data() == old(self).all_data(),
    {
        self.entities[idx].parent = parent;
        proof {
            assert(self.parents() =~= old(self).parents().update(idx as int, parent));
            assert(self.ranks() =~= old(self).ranks());
            assert(self.all_data() =~= old(self).all_data());
        }
        parent
    }
}

impl<T: PartialEq> DisjointSet<T> {
    /// Adds an entity with `data`, a set of its own, and returns a pointer to the first
    /// entity whose data equal `data`: the new one if there was none before.
    pub fn make_set(&mut self, data: T) -> (r: EntityPtr)
        requires
            old(self).wf(),
        ensures
            final(self).wf(),
            final(self).parents() == old(self).parents().push(old(self).entities@.len() as usize),
            final(self).ranks() == old(self).ranks().push(0),
            final(self).all_data() == old(self).all_data().push(data),
            forall|i: int|
                0 <= i < old(self).entities@.len() ==> final(self).root(i) == old(self).root(i),
            final(self).root(old(self).entities@.len() as int) == old(self).entities@.len(),
            r.ptr <= old(self).entities@.len(),
            T::obeys_eq_spec() ==> {
                &&& r.ptr < old(self).entities@.len() ==> old(self).all_data()[r.ptr as int].eq_spec(
                    &data,
                )
                &&& forall|j: int| 0 <= j < r.ptr ==> !(#[trigger] old(self).all_data()[j]).eq_spec(&data)
            },
    {
        let found = self.first_with(&data);
        let added = self.insert(data);
        if found < added {
            EntityPtr { ptr: found }
        } else {
            EntityPtr { ptr: added }
        }
    }

    /// The place of the first entity whose data equal `data`, or the number of entities.
    fn first_with(&self, data: &T) -> (at: usize)
        ensures
            at <= self.entities@.len(),
            T::obeys_eq_spec() ==> {
                &&& at < self.entities@.len() ==> self.all_data()[at as int].eq_spec(data)
                &&& forall|j: int| 0 <= j < at ==> !(#[trigger] self.all_data()[j]).eq_spec(data)
            },
    {
        let mut i: usize = 0;
        while i < self.entities.len()
            invariant
                i <= self.entities@.len(),
                T::obeys_eq_spec() ==> forall|j: int|
                    0 <= j < i ==> !(#[trigger] self.all_data()[j]).eq_spec(data),
            decreases self.entities@.len() - i,
        {
            if self.entities[i].data == *data {
                return i;
            }
            i += 1;
        }
        i
    }
}

} // verus!
