//! Enumerating the simple paths that grow out of a vertex until they reach a
//! cost or a length, and the lexicographic order they are handed back in.

use vstd::prelude::*;
use vstd::multiset::Multiset;
use crate::graph::{Edge, Graph, Query, far, steps_from, arc, lemma_steps_in_range, lemma_step_bounds_arc};
use crate::paths::is_path;
use crate::relation::RelationType;

verus! {

broadcast use vstd::seq_lib::group_to_multiset_ensures;

/// `a` sorts before `b`: the first differing entry decides, and a proper
/// prefix sorts first.
pub open spec fn lex_less(a: Seq<usize>, b: Seq<usize>) -> bool
    decreases a.len(),
{
    if a.len() == 0 {
        b.len() > 0
    } else if b.len() == 0 {
        false
    } else if a[0] != b[0] {
        a[0] < b[0]
    } else {
        lex_less(a.drop_first(), b.drop_first())
    }
}

/// No entry sorts before an earlier one.
pub open spec fn lex_sorted(ps: Seq<Seq<usize>>) -> bool {
    forall|i: int, j: int| 0 <= i < j < ps.len() ==> !lex_less(#[trigger] ps[j], #[trigger] ps[i])
}

/// The vertex sequences of a list of paths.
pub open spec fn views(ps: Seq<Vec<usize>>) -> Seq<Seq<usize>> {
    ps.map_values(|p: Vec<usize>| p@)
}

/// Of two sequences, exactly one sorts first, unless they are equal.
pub proof fn lemma_lex_total(a: Seq<usize>, b: Seq<usize>)
    ensures
        lex_less(a, b) || a == b || lex_less(b, a),
        !(lex_less(a, b) && lex_less(b, a)),
        lex_less(a, b) ==> a != b,
    decreases a.len(),
{
    if a.len() == 0 {
        if b.len() == 0 {
            assert(a =~= b);
        }
    } else if b.len() == 0 {
    } else if a[0] != b[0] {
    } else {
        lemma_lex_total(a.drop_first(), b.drop_first());
        if a.drop_first() == b.drop_first() {
            assert forall|k: int| 0 <= k < a.len() implies a[k] == b[k] by {
                if k > 0 {
                    assert(a[k] == a.drop_first()[k - 1]);
                    assert(b[k] == b.drop_first()[k - 1]);
                }
            }
            assert(a =~= b);
        }
    }
}

/// The order is transitive.
pub proof fn lemma_lex_trans(a: Seq<usize>, b: Seq<usize>, c: Seq<usize>)
    requires
        lex_less(a, b),
        lex_less(b, c),
    ensures
        lex_less(a, c),
    decreases a.len(),
{
    if a.len() > 0 && a[0] == b[0] && b[0] == c[0] {
        lemma_lex_trans(a.drop_first(), b.drop_first(), c.drop_first());
    }
}

/// Whether `a` sorts before `b`.
pub fn lex_lt(a: &Vec<usize>, b: &Vec<usize>) -> (r: bool)
    ensures
        r == lex_less(a@, b@),
{
    let mut i: usize = 0;
    assert(a@.skip(0) =~= a@);
    assert(b@.skip(0) =~= b@);
    while i < a.len() && i < b.len()
        invariant
            i <= a@.len(),
            i <= b@.len(),
            lex_less(a@, b@) == lex_less(a@.skip(i as int), b@.skip(i as int)),
        decreases a@.len() - i,
    {
        if a[i] != b[i] {
            return a[i] < b[i];
        }
        assert(a@.skip(i as int).drop_first() =~= a@.skip(i + 1));
        assert(b@.skip(i as int).drop_first() =~= b@.skip(i + 1));
        i = i + 1;
    }
    i == a.len() && i < b.len()
}

/// Puts `p` into an already sorted list, after every entry it does not sort
/// before.
pub fn insert_sorted(out: &mut Vec<Vec<usize>>, p: Vec<usize>)
    requires
        lex_sorted(views(old(out)@)),
    ensures
        lex_sorted(views(final(out)@)),
        views(final(out)@).to_multiset() == views(old(out)@).to_multiset().insert(p@),
{
    let ghost before = views(out@);
    let mut i: usize = 0;
    while i < out.len() && !lex_lt(&p, &out[i])
        invariant
            i <= out@.len(),
            views(out@) == before,
            forall|k: int| 0 <= k < i ==> !lex_less(p@, #[trigger] before[k]),
        decreases out@.len() - i,
    {
        i = i + 1;
    }
    let ghost pv = p@;
    out.insert(i, p);
    proof {
        let after = views(out@);
        assert(after =~= before.insert(i as int, pv));
        assert forall|a: int, b: int| 0 <= a < b < after.len() implies !lex_less(#[trigger] after[b], #[trigger] after[a]) by {
            if b < i {
                assert(after[a] == before[a] && after[b] == before[b]);
            } else if b == i {
                assert(after[b] == pv && after[a] == before[a]);
                lemma_lex_total(pv, before[a]);
            } else if a == i {
                assert(after[a] == pv && after[b] == before[b - 1]);
                assert(lex_less(pv, before[i as int]));
                if b - 1 > i {
                    lemma_lex_total(before[i as int], before[b - 1]);
                    if lex_less(before[i as int], before[b - 1]) {
                        lemma_lex_trans(pv, before[i as int], before[b - 1]);
                    }
                }
                lemma_lex_total(pv, before[b - 1]);
            } else if a < i {
                assert(after[a] == before[a] && after[b] == before[b - 1]);
            } else {
                assert(after[a] == before[a - 1] && after[b] == before[b - 1]);
            }
        }
    }
}

/// A sequence of distinct numbers below `n` has at most `n` entries.
pub proof fn lemma_distinct_bounded(p: Seq<usize>, n: nat)
    requires
        p.no_duplicates(),
        forall|k: int| 0 <= k < p.len() ==> #[trigger] p[k] < n,
    ensures
        p.len() <= n,
    decreases n,
{
    if n == 0 {
        if p.len() > 0 {
            assert(p[0] < n);
        }
    } else if exists|i: int| 0 <= i < p.len() && p[i] == n - 1 {
        let i = choose|i: int| 0 <= i < p.len() && p[i] == n - 1;
        let q = p.subrange(0, i) + p.subrange(i + 1, p.len() as int);
        assert forall|k: int| 0 <= k < q.len() implies #[trigger] q[k] < n - 1 by {
            let j = if k < i { k } else { k + 1 };
            assert(q[k] == p[j]);
            assert(j != i);
        }
        assert forall|a: int, b: int| 0 <= a < q.len() && 0 <= b < q.len() && a != b implies q[a] != q[b] by {
            let ja = if a < i { a } else { a + 1 };
            let jb = if b < i { b } else { b + 1 };
            assert(q[a] == p[ja]);
            assert(q[b] == p[jb]);
        }
        lemma_distinct_bounded(q, (n - 1) as nat);
    } else {
        assert forall|k: int| 0 <= k < p.len() implies #[trigger] p[k] < n - 1 by {
            assert(p[k] != n - 1);
        }
        lemma_distinct_bounded(p, (n - 1) as nat);
    }
}

/// Where growing paths stop. A path grows while its cost is under `max_cost`
/// and its length is under `min_elements`, each where it is set; reaching
/// either makes it a result. With `include_shorter`, a path that runs out of
/// vertices to grow into before that is a result too, unless it is the start
/// alone.
#[derive(Clone, Copy, Debug)]
pub struct Growth {
    pub max_cost: Option<u64>,
    pub min_elements: Option<usize>,
    pub include_shorter: bool,
}

/// A path of `len` vertices that has cost `cost` so far keeps growing.
pub open spec fn keeps_growing(g: Growth, len: nat, cost: u64) -> bool {
    &&& match g.max_cost {
        Some(limit) => cost < limit,
        None => true,
    }
    &&& match g.min_elements {
        Some(limit) => len < limit,
        None => true,
    }
}

/// Costs add up, stopping at the largest cost there is.
pub open spec fn sat_add(a: u64, b: u64) -> u64 {
    if a + b > u64::MAX { u64::MAX } else { (a + b) as u64 }
}

/// Some edge of `es` leads to a vertex not yet on the path.
pub open spec fn fresh_among(q: Query, es: Seq<Edge>, path: Seq<usize>) -> bool
    decreases es.len(),
{
    if es.len() == 0 {
        false
    } else {
        fresh_among(q, es.drop_last(), path) || !path.contains(far(q, es.last()))
    }
}

/// The finished paths that grow out of `path`, which has cost `cost` so far
/// and may take `room` more vertices: one branch per edge the query takes
/// from its last vertex to a vertex not yet on it, each edge adding its cost.
pub open spec fn grown(s: Seq<Edge>, q: Query, g: Growth, path: Seq<usize>, cost: u64, room: nat) -> Seq<Seq<usize>>
    decreases room, 1nat, 0nat,
{
    if !keeps_growing(g, path.len(), cost) {
        seq![path]
    } else {
        let es = steps_from(s, q, path.last());
        let below = grown_each(s, q, g, path, cost, room, es);
        if !fresh_among(q, es, path) && g.include_shorter && path.len() > 1 {
            below.push(path)
        } else {
            below
        }
    }
}

/// The finished paths that grow out of `path` through the edges `es`.
pub open spec fn grown_each(s: Seq<Edge>, q: Query, g: Growth, path: Seq<usize>, cost: u64, room: nat, es: Seq<Edge>) -> Seq<Seq<usize>>
    decreases room, 0nat, es.len(),
{
    if es.len() == 0 {
        seq![]
    } else {
        let before = grown_each(s, q, g, path, cost, room, es.drop_last());
        let w = far(q, es.last());
        if path.contains(w) || room == 0 {
            before
        } else {
            before + grown(s, q, g, path.push(w), sat_add(cost, es.last().cost), (room - 1) as nat)
        }
    }
}

/// Whether `w` is on the path.
fn on_path(path: &Vec<usize>, w: usize) -> (r: bool)
    ensures
        r == path@.contains(w),
{
    let mut i: usize = 0;
    while i < path.len()
        invariant
            i <= path@.len(),
            forall|k: int| 0 <= k < i ==> path@[k] != w,
        decreases path@.len() - i,
    {
        if path[i] == w {
            return true;
        }
        i = i + 1;
    }
    false
}

/// A copy of the path.
fn copy_path(path: &Vec<usize>) -> (r: Vec<usize>)
    ensures
        r@ == path@,
{
    let mut r: Vec<usize> = Vec::new();
    let mut i: usize = 0;
    while i < path.len()
        invariant
            i <= path@.len(),
            r@ == path@.take(i as int),
        decreases path@.len() - i,
    {
        r.push(path[i]);
        assert(path@.take(i + 1) =~= path@.take(i as int).push(path@[i as int]));
        i = i + 1;
    }
    assert(path@.take(path@.len() as int) =~= path@);
    r
}

impl Graph {
    /// Grows `path` depth first, adding every finished path to `out` in order.
    fn grow(&self, q: Query, g: Growth, path: &mut Vec<usize>, cost: u64, room: usize, out: &mut Vec<Vec<usize>>)
        requires
            self.wf(),
            old(path)@.len() >= 1,
            old(path)@.no_duplicates(),
            forall|k: int| 1 <= k < old(path)@.len() ==> #[trigger] old(path)@[k] < self.spec_vertex_count(),
            room + old(path)@.len() == self.spec_vertex_count() + 1,
            lex_sorted(views(old(out)@)),
        ensures
            final(path)@ == old(path)@,
            lex_sorted(views(final(out)@)),
            views(final(out)@).to_multiset() == views(old(out)@).to_multiset().add(
                grown(self.spec_edges(), q, g, old(path)@, cost, room as nat).to_multiset(),
            ),
        decreases room,
    {
        let ghost s = self.spec_edges();
        let ghost n = self.spec_vertex_count();
        let ghost p0 = path@;
        let ghost out0 = views(out@);
        let len = path.len();
        let under_cost = match g.max_cost {
            Some(limit) => cost < limit,
            None => true,
        };
        let under_length = match g.min_elements {
            Some(limit) => len < limit,
            None => true,
        };
        if !(under_cost && under_length) {
            let copy = copy_path(path);
            insert_sorted(out, copy);
            proof {
                assert(seq![p0].to_multiset() =~= Multiset::<Seq<usize>>::empty().insert(p0)) by {
                    assert(seq![p0] =~= Seq::<Seq<usize>>::empty().push(p0));
                }
                assert(views(out@).to_multiset() =~= out0.to_multiset().add(seq![p0].to_multiset()));
            }
            return;
        }
        let v = path[len - 1];
        let es = self.steps(v, q);
        proof {
            self.lemma_edges_in_range();
            assert(es@.take(0) =~= Seq::<Edge>::empty());
            assert(out0.to_multiset().add(Seq::<Seq<usize>>::empty().to_multiset()) =~= out0.to_multiset());
        }
        let mut extended = false;
        let mut i: usize = 0;
        while i < es.len()
            invariant
                self.wf(),
                s == self.spec_edges(),
                n == self.spec_vertex_count(),
                forall|k: int| 0 <= k < s.len() ==> (#[trigger] s[k]).from < n && s[k].to < n,
                es@ == steps_from(s, q, v),
                v == p0.last(),
                len == p0.len(),
                path@ == p0,
                p0.len() >= 1,
                p0.no_duplicates(),
                forall|k: int| 1 <= k < p0.len() ==> #[trigger] p0[k] < n,
                room + p0.len() == n + 1,
                keeps_growing(g, p0.len(), cost),
                i <= es@.len(),
                lex_sorted(views(out@)),
                views(out@).to_multiset() == out0.to_multiset().add(
                    grown_each(s, q, g, p0, cost, room as nat, es@.take(i as int)).to_multiset(),
                ),
                extended == fresh_among(q, es@.take(i as int), p0),
            decreases es@.len() - i,
        {
            let e = es[i];
            let w = if q.backwards { e.from } else { e.to };
            let ghost mid = views(out@);
            proof {
                lemma_steps_in_range(s, q, v, n, i as int);
                assert(w == far(q, es@[i as int]));
                assert(es@.take(i + 1).drop_last() =~= es@.take(i as int));
                assert(es@.take(i + 1).last() == e);
            }
            if !on_path(path, w) {
                proof {
                    let longer = p0.push(w);
                    assert(longer.no_duplicates()) by {
                        assert forall|a: int, b: int| 0 <= a < longer.len() && 0 <= b < longer.len() && a != b
                            implies longer[a] != longer[b] by {
                            if a < p0.len() && b < p0.len() {
                                assert(longer[a] == p0[a] && longer[b] == p0[b]);
                            } else if a < p0.len() {
                                assert(longer[a] == p0[a]);
                            } else if b < p0.len() {
                                assert(longer[b] == p0[b]);
                            }
                        }
                    }
                    let tail = longer.drop_first();
                    assert(tail.no_duplicates()) by {
                        assert forall|a: int, b: int| 0 <= a < tail.len() && 0 <= b < tail.len() && a != b
                            implies tail[a] != tail[b] by {
                            assert(tail[a] == longer[a + 1] && tail[b] == longer[b + 1]);
                        }
                    }
                    assert forall|k: int| 0 <= k < tail.len() implies #[trigger] tail[k] < n by {
                        assert(tail[k] == longer[k + 1]);
                    }
                    lemma_distinct_bounded(tail, n);
                }
                let next = cost.saturating_add(e.cost);
                path.push(w);
                proof {
                    assert forall|k: int| 1 <= k < path@.len() implies #[trigger] path@[k] < n by {
                        if k < p0.len() {
                            assert(path@[k] == p0[k]);
                        }
                    }
                    assert(path@.no_duplicates()) by {
                        assert(path@ == p0.push(w));
                    }
                }
                self.grow(q, g, path, next, room - 1, out);
                path.pop();
                proof {
                    assert(path@ =~= p0);
                    let child = grown(s, q, g, p0.push(w), sat_add(cost, e.cost), (room - 1) as nat);
                    let before = grown_each(s, q, g, p0, cost, room as nat, es@.take(i as int));
                    assert(grown_each(s, q, g, p0, cost, room as nat, es@.take(i + 1)) == before + child);
                    vstd::seq_lib::lemma_multiset_commutative(before, child);
                    assert(views(out@).to_multiset() =~= out0.to_multiset().add((before + child).to_multiset()));
                }
                extended = true;
            }
            i = i + 1;
        }
        proof {
            assert(es@.take(es@.len() as int) =~= es@);
        }
        if !extended && g.include_shorter && len > 1 {
            let copy = copy_path(path);
            let ghost mid = views(out@);
            insert_sorted(out, copy);
            proof {
                let below = grown_each(s, q, g, p0, cost, room as nat, es@);
                assert(below.push(p0).to_multiset() =~= below.to_multiset().insert(p0));
                assert(views(out@).to_multiset() =~= out0.to_multiset().add(below.push(p0).to_multiset()));
            }
        }
    }

    /// Every path from `start` that reaches the given limits, in ascending
    /// order.
    ///
    /// The limits are targets, not ceilings: a path grows until its cost
    /// reaches `max_cost` or its length reaches `min_elements`, and only then
    /// is it a result; with both set, growth continues only while neither is
    /// reached. A path never visits a vertex twice. One that runs out of
    /// vertices to grow into first is a result only with `include_shorter`.
    /// A path branches once per edge it can take, so two parallel edges give
    /// the same path twice.
    pub fn possible_paths(
        &self,
        start: usize,
        max_cost: Option<u64>,
        min_elements: Option<usize>,
        relations: RelationType,
        cost_id: usize,
        include_shorter: bool,
        backwards: bool,
    ) -> (r: Vec<Vec<usize>>)
        requires
            self.wf(),
        ensures
            lex_sorted(views(r@)),
            views(r@).to_multiset() == grown(
                self.spec_edges(),
                Query { relations, cost_id, backwards },
                Growth { max_cost, min_elements, include_shorter },
                seq![start],
                0,
                self.spec_vertex_count(),
            ).to_multiset(),
    {
        let q = Query { relations, cost_id, backwards };
        let g = Growth { max_cost, min_elements, include_shorter };
        let mut out: Vec<Vec<usize>> = Vec::new();
        let mut path: Vec<usize> = Vec::new();
        path.push(start);
        let room = self.vertex_count();
        proof {
            assert(views(out@) =~= Seq::<Seq<usize>>::empty());
            assert(path@ =~= seq![start]);
        }
        self.grow(q, g, &mut path, 0, room, &mut out);
        proof {
            assert(Seq::<Seq<usize>>::empty().to_multiset().add(
                grown(self.spec_edges(), q, g, seq![start], 0, room as nat).to_multiset(),
            ) =~= grown(self.spec_edges(), q, g, seq![start], 0, room as nat).to_multiset());
        }
        out
    }
}

/// Appending a fresh entry keeps a sequence free of repeats.
pub proof fn lemma_push_distinct<A>(s: Seq<A>, x: A)
    requires
        s.no_duplicates(),
        !s.contains(x),
    ensures
        s.push(x).no_duplicates(),
{
    let t = s.push(x);
    assert forall|a: int, b: int| 0 <= a < t.len() && 0 <= b < t.len() && a != b implies t[a] != t[b] by {
        if a < s.len() && b < s.len() {
            assert(t[a] == s[a] && t[b] == s[b]);
        } else if a < s.len() {
            assert(t[a] == s[a]);
        } else if b < s.len() {
            assert(t[b] == s[b]);
        }
    }
}

/// An entry of `a + b` is an entry of one of them.
pub proof fn lemma_concat_contains<A>(a: Seq<A>, b: Seq<A>, x: A)
    requires
        (a + b).contains(x),
    ensures
        a.contains(x) || b.contains(x),
{
    let k = choose|k: int| 0 <= k < (a + b).len() && (a + b)[k] == x;
    if k < a.len() {
        assert(a[k] == x);
    } else {
        assert(b[k - a.len()] == x);
    }
}

/// Each path grown through edges the query takes from the last vertex of
/// `path` is a longer simple path that begins with `path`.
proof fn lemma_grown_each_simple(
    s: Seq<Edge>,
    q: Query,
    g: Growth,
    n: nat,
    path: Seq<usize>,
    cost: u64,
    room: nat,
    es: Seq<Edge>,
    p: Seq<usize>,
)
    requires
        forall|i: int| 0 <= i < s.len() ==> (#[trigger] s[i]).from < n && s[i].to < n,
        is_path(s, q, n, path),
        path.no_duplicates(),
        forall|j: int| 0 <= j < es.len() ==> steps_from(s, q, path.last()).contains(#[trigger] es[j]),
        grown_each(s, q, g, path, cost, room, es).contains(p),
    ensures
        is_path(s, q, n, p),
        p.no_duplicates(),
        p.len() > path.len(),
        p.subrange(0, path.len() as int) == path,
    decreases room, 0nat, es.len(),
{
    let before = grown_each(s, q, g, path, cost, room, es.drop_last());
    let e = es.last();
    let w = far(q, e);
    if path.contains(w) || room == 0 {
        lemma_grown_each_simple(s, q, g, n, path, cost, room, es.drop_last(), p);
    } else {
        let child = path.push(w);
        let deeper = grown(s, q, g, child, sat_add(cost, e.cost), (room - 1) as nat);
        lemma_concat_contains(before, deeper, p);
        if before.contains(p) {
            lemma_grown_each_simple(s, q, g, n, path, cost, room, es.drop_last(), p);
        } else {
            assert(steps_from(s, q, path.last()).contains(es[es.len() - 1]));
            let u = path.last();
            let j = choose|j: int| 0 <= j < steps_from(s, q, u).len() && steps_from(s, q, u)[j] == e;
            lemma_step_bounds_arc(s, q, u, j);
            lemma_steps_in_range(s, q, u, n, j);
            lemma_push_distinct(path, w);
            assert forall|k: int| 0 <= k < child.len() implies (#[trigger] child[k]) < n by {
                if k < path.len() {
                    assert(child[k] == path[k]);
                }
            }
            assert forall|k: int| 0 <= k < child.len() - 1 implies (#[trigger] arc(s, q, child[k], child[k + 1])) is Some by {
                if k < path.len() - 1 {
                    assert(child[k] == path[k] && child[k + 1] == path[k + 1]);
                    assert(arc(s, q, path[k], path[k + 1]) is Some);
                } else {
                    assert(child[k] == u && child[k + 1] == w);
                }
            }
            lemma_grown_simple(s, q, g, n, child, sat_add(cost, e.cost), (room - 1) as nat, p);
            assert(p.subrange(0, path.len() as int) =~= child.subrange(0, path.len() as int));
            assert(child.subrange(0, path.len() as int) =~= path);
        }
    }
}

/// Each path grown out of `path` is a simple path that begins with it.
proof fn lemma_grown_simple(s: Seq<Edge>, q: Query, g: Growth, n: nat, path: Seq<usize>, cost: u64, room: nat, p: Seq<usize>)
    requires
        forall|i: int| 0 <= i < s.len() ==> (#[trigger] s[i]).from < n && s[i].to < n,
        is_path(s, q, n, path),
        path.no_duplicates(),
        grown(s, q, g, path, cost, room).contains(p),
    ensures
        is_path(s, q, n, p),
        p.no_duplicates(),
        p.len() >= path.len(),
        p.subrange(0, path.len() as int) == path,
    decreases room, 1nat, 0nat,
{
    if !keeps_growing(g, path.len(), cost) {
        assert(seq![path][0] == path);
        assert(p == path);
        assert(p.subrange(0, path.len() as int) =~= path);
    } else {
        let es = steps_from(s, q, path.last());
        let below = grown_each(s, q, g, path, cost, room, es);
        if !fresh_among(q, es, path) && g.include_shorter && path.len() > 1 {
            let k = choose|k: int| 0 <= k < below.push(path).len() && below.push(path)[k] == p;
            if k < below.len() {
                assert(below[k] == p);
                lemma_grown_each_simple(s, q, g, n, path, cost, room, es, p);
            } else {
                assert(p == path);
                assert(p.subrange(0, path.len() as int) =~= path);
            }
        } else {
            lemma_grown_each_simple(s, q, g, n, path, cost, room, es, p);
        }
    }
}

/// Every path `possible_paths` finds is a simple path from the start along
/// edges the query takes: it starts at `start`, steps along an edge each
/// time, and never visits a vertex twice.
pub proof fn lemma_possible_paths_are_simple(s: Seq<Edge>, q: Query, g: Growth, n: nat, start: usize, p: Seq<usize>)
    requires
        forall|i: int| 0 <= i < s.len() ==> (#[trigger] s[i]).from < n && s[i].to < n,
        start < n,
        grown(s, q, g, seq![start], 0, n).contains(p),
    ensures
        is_path(s, q, n, p),
        p[0] == start,
        p.no_duplicates(),
{
    let path = seq![start];
    assert(is_path(s, q, n, path));
    assert(path.no_duplicates());
    lemma_grown_simple(s, q, g, n, path, 0, n, p);
    assert(p[0] == p.subrange(0, 1)[0]);
}

proof fn lemma_grown_each_len(s: Seq<Edge>, q: Query, g: Growth, m: usize, path: Seq<usize>, cost: u64, room: nat, es: Seq<Edge>, p: Seq<usize>)
    requires
        g.max_cost is None,
        g.min_elements == Some(m),
        !g.include_shorter,
        path.len() < m,
        grown_each(s, q, g, path, cost, room, es).contains(p),
    ensures
        p.len() == m,
    decreases room, 0nat, es.len(),
{
    let before = grown_each(s, q, g, path, cost, room, es.drop_last());
    let e = es.last();
    let w = far(q, e);
    if path.contains(w) || room == 0 {
        lemma_grown_each_len(s, q, g, m, path, cost, room, es.drop_last(), p);
    } else {
        let deeper = grown(s, q, g, path.push(w), sat_add(cost, e.cost), (room - 1) as nat);
        lemma_concat_contains(before, deeper, p);
        if before.contains(p) {
            lemma_grown_each_len(s, q, g, m, path, cost, room, es.drop_last(), p);
        } else {
            lemma_grown_len(s, q, g, m, path.push(w), sat_add(cost, e.cost), (room - 1) as nat, p);
        }
    }
}

proof fn lemma_grown_len(s: Seq<Edge>, q: Query, g: Growth, m: usize, path: Seq<usize>, cost: u64, room: nat, p: Seq<usize>)
    requires
        g.max_cost is None,
        g.min_elements == Some(m),
        !g.include_shorter,
        path.len() <= m,
        grown(s, q, g, path, cost, room).contains(p),
    ensures
        p.len() == m,
    decreases room, 1nat, 0nat,
{
    if !keeps_growing(g, path.len(), cost) {
        assert(seq![path][0] == path);
    } else {
        let es = steps_from(s, q, path.last());
        lemma_grown_each_len(s, q, g, m, path, cost, room, es, p);
    }
}

/// The element limit is a target, not a ceiling: asked for paths of `m`
/// vertices, with no cost limit and no shorter paths, every path found has
/// exactly `m` vertices.
pub proof fn lemma_element_limit_is_a_target(s: Seq<Edge>, q: Query, m: usize, start: usize, n: nat, p: Seq<usize>)
    requires
        m >= 1,
        grown(s, q, Growth { max_cost: None, min_elements: Some(m), include_shorter: false }, seq![start], 0, n).contains(p),
    ensures
        p.len() == m,
{
    lemma_grown_len(s, q, Growth { max_cost: None, min_elements: Some(m), include_shorter: false }, m, seq![start], 0, n, p);
}


/// What walking the first `k` edges of `ed` costs, adding up as growth does.
pub open spec fn cost_along(ed: Seq<Edge>, k: nat) -> u64
    decreases k,
{
    if k == 0 {
        0
    } else {
        sat_add(cost_along(ed, (k - 1) as nat), ed[k - 1].cost)
    }
}

/// `ed` walks along `p`: edge `k` is one the query takes out of `p[k]`, and
/// it leads to `p[k + 1]`.
pub open spec fn walks_along(s: Seq<Edge>, q: Query, p: Seq<usize>, ed: Seq<Edge>) -> bool {
    &&& ed.len() + 1 == p.len()
    &&& forall|k: int| 0 <= k < ed.len() ==> steps_from(s, q, p[k]).contains(#[trigger] ed[k]) && far(q, ed[k]) == p[k + 1]
}

/// Dead ends are kept when asked for: with `include_shorter`, a simple path
/// from the start of more than one vertex, walked along edges the query
/// takes, still under both limits, whose last vertex has no edge the query
/// takes to a vertex off the path, is among the paths found.
pub proof fn lemma_dead_ends_kept(s: Seq<Edge>, q: Query, g: Growth, n: nat, p: Seq<usize>, ed: Seq<Edge>)
    requires
        forall|i: int| 0 <= i < s.len() ==> (#[trigger] s[i]).from < n && s[i].to < n,
        g.include_shorter,
        p.len() > 1,
        p.no_duplicates(),
        forall|k: int| 0 <= k < p.len() ==> #[trigger] p[k] < n,
        walks_along(s, q, p, ed),
        keeps_growing(g, p.len(), cost_along(ed, ed.len())),
        forall|e: Edge| #[trigger] steps_from(s, q, p.last()).contains(e) ==> p.contains(far(q, e)),
    ensures
        grown(s, q, g, seq![p[0]], 0, n).contains(p),
{
    lemma_distinct_bounded(p, n);
    lemma_dead_end_from(s, q, g, n, p, ed, 1);
    assert(p.take(1) =~= seq![p[0]]);
}

/// A later cost along the walk is never below an earlier one.
proof fn lemma_cost_along_grows(ed: Seq<Edge>, a: nat, b: nat)
    requires
        a <= b,
    ensures
        cost_along(ed, a) <= cost_along(ed, b),
    decreases b,
{
    if a < b {
        lemma_cost_along_grows(ed, a, (b - 1) as nat);
    }
}

/// With no edge to a vertex off the path, growth has nowhere fresh to go.
proof fn lemma_no_fresh(q: Query, es: Seq<Edge>, path: Seq<usize>)
    requires
        forall|j: int| 0 <= j < es.len() ==> path.contains(far(q, #[trigger] es[j])),
    ensures
        !fresh_among(q, es, path),
    decreases es.len(),
{
    if es.len() > 0 {
        lemma_no_fresh(q, es.drop_last(), path);
        assert(path.contains(far(q, es[es.len() - 1])));
    }
}

/// What grows out of a fresh step along edge `es[j]` is among what grows out
/// of `path` through `es`.
proof fn lemma_grown_each_has(s: Seq<Edge>, q: Query, g: Growth, path: Seq<usize>, cost: u64, room: nat, es: Seq<Edge>, j: int, x: Seq<usize>)
    requires
        0 <= j < es.len(),
        !path.contains(far(q, es[j])),
        room > 0,
        grown(s, q, g, path.push(far(q, es[j])), sat_add(cost, es[j].cost), (room - 1) as nat).contains(x),
    ensures
        grown_each(s, q, g, path, cost, room, es).contains(x),
    decreases es.len(),
{
    let before = grown_each(s, q, g, path, cost, room, es.drop_last());
    let e = es.last();
    let w = far(q, e);
    if j == es.len() - 1 {
        let deeper = grown(s, q, g, path.push(w), sat_add(cost, e.cost), (room - 1) as nat);
        let k = choose|k: int| 0 <= k < deeper.len() && deeper[k] == x;
        assert((before + deeper)[before.len() + k] == x);
    } else {
        assert(es.drop_last()[j] == es[j]);
        lemma_grown_each_has(s, q, g, path, cost, room, es.drop_last(), j, x);
        let k = choose|k: int| 0 <= k < before.len() && before[k] == x;
        if !(path.contains(w) || room == 0) {
            let deeper = grown(s, q, g, path.push(w), sat_add(cost, e.cost), (room - 1) as nat);
            assert((before + deeper)[k] == x);
        }
    }
}

/// The prefix of `p` of `k` vertices grows into `p`.
proof fn lemma_dead_end_from(s: Seq<Edge>, q: Query, g: Growth, n: nat, p: Seq<usize>, ed: Seq<Edge>, k: nat)
    requires
        forall|i: int| 0 <= i < s.len() ==> (#[trigger] s[i]).from < n && s[i].to < n,
        g.include_shorter,
        1 <= k <= p.len(),
        p.len() > 1,
        p.len() <= n,
        p.no_duplicates(),
        walks_along(s, q, p, ed),
        keeps_growing(g, p.len(), cost_along(ed, ed.len())),
        forall|e: Edge| #[trigger] steps_from(s, q, p.last()).contains(e) ==> p.contains(far(q, e)),
    ensures
        grown(s, q, g, p.take(k as int), cost_along(ed, (k - 1) as nat), (n + 1 - k) as nat).contains(p),
    decreases p.len() - k,
{
    let path = p.take(k as int);
    let cost = cost_along(ed, (k - 1) as nat);
    let room = (n + 1 - k) as nat;
    lemma_cost_along_grows(ed, (k - 1) as nat, ed.len());
    assert(keeps_growing(g, path.len(), cost));
    let es = steps_from(s, q, path.last());
    let below = grown_each(s, q, g, path, cost, room, es);
    if k == p.len() {
        assert(path =~= p);
        assert forall|j: int| 0 <= j < es.len() implies path.contains(far(q, #[trigger] es[j])) by {
            assert(steps_from(s, q, p.last()).contains(es[j]));
        }
        lemma_no_fresh(q, es, path);
        assert(below.push(path)[below.len() as int] == p);
    } else {
        lemma_dead_end_from(s, q, g, n, p, ed, k + 1);
        let e = ed[k - 1];
        assert(steps_from(s, q, p[k - 1]).contains(e) && far(q, e) == p[k as int]);
        assert(path.last() == p[k - 1]);
        let j = choose|j: int| 0 <= j < es.len() && es[j] == e;
        assert(!path.contains(p[k as int])) by {
            if path.contains(p[k as int]) {
                let i = choose|i: int| 0 <= i < path.len() && path[i] == p[k as int];
                assert(p[i] == p[k as int]);
            }
        }
        assert(path.push(p[k as int]) =~= p.take((k + 1) as int));
        assert(sat_add(cost, e.cost) == cost_along(ed, k));
        lemma_grown_each_has(s, q, g, path, cost, room, es, j, p);
        let t = choose|t: int| 0 <= t < below.len() && below[t] == p;
        if !fresh_among(q, es, path) && g.include_shorter && path.len() > 1 {
            assert(below.push(path)[t] == p);
        }
    }
}


/// `p`, walked along `ed`, is a path growth ends with: every shorter
/// beginning of it was still under both limits, and it has reached one of
/// them, or, asked for dead ends, it is a dead end of more than one vertex,
/// with no edge the query takes from its last vertex to a vertex off it.
pub open spec fn finished(s: Seq<Edge>, q: Query, g: Growth, p: Seq<usize>, ed: Seq<Edge>) -> bool {
    &&& walks_along(s, q, p, ed)
    &&& forall|k: int| 1 <= k < p.len() ==> #[trigger] keeps_growing(g, k as nat, cost_along(ed, (k - 1) as nat))
    &&& (!keeps_growing(g, p.len(), cost_along(ed, ed.len())) || (g.include_shorter && p.len() > 1 && forall|e: Edge|
        #[trigger] steps_from(s, q, p.last()).contains(e) ==> p.contains(far(q, e))))
}

/// Growth stops at the first limit it reaches: every path found is walked
/// along edges the query takes, from the start, and stopped where
/// `finished` says, not earlier and not later.
pub proof fn lemma_found_paths_finished(s: Seq<Edge>, q: Query, g: Growth, n: nat, start: usize, p: Seq<usize>)
    requires
        grown(s, q, g, seq![start], 0, n).contains(p),
    ensures
        p[0] == start,
        exists|ed: Seq<Edge>| #[trigger] finished(s, q, g, p, ed),
{
    let ed0 = Seq::<Edge>::empty();
    assert(walks_along(s, q, seq![start], ed0));
    lemma_grown_finished(s, q, g, seq![start], ed0, n, p);
}

/// Costs along a walk depend only on the edges walked so far.
proof fn lemma_cost_along_prefix(a: Seq<Edge>, b: Seq<Edge>, k: nat)
    requires
        k <= a.len(),
        k <= b.len(),
        forall|i: int| 0 <= i < k ==> a[i] == b[i],
    ensures
        cost_along(a, k) == cost_along(b, k),
    decreases k,
{
    if k > 0 {
        lemma_cost_along_prefix(a, b, (k - 1) as nat);
    }
}

/// Where growth finds nowhere fresh, every edge it could take leads back
/// onto the path.
proof fn lemma_fresh_among_none(q: Query, es: Seq<Edge>, path: Seq<usize>, j: int)
    requires
        !fresh_among(q, es, path),
        0 <= j < es.len(),
    ensures
        path.contains(far(q, es[j])),
    decreases es.len(),
{
    if j < es.len() - 1 {
        assert(es.drop_last()[j] == es[j]);
        lemma_fresh_among_none(q, es.drop_last(), path, j);
    }
}

proof fn lemma_grown_finished(s: Seq<Edge>, q: Query, g: Growth, path: Seq<usize>, ed0: Seq<Edge>, room: nat, p: Seq<usize>)
    requires
        walks_along(s, q, path, ed0),
        forall|k: int| 1 <= k < path.len() ==> #[trigger] keeps_growing(g, k as nat, cost_along(ed0, (k - 1) as nat)),
        grown(s, q, g, path, cost_along(ed0, ed0.len()), room).contains(p),
    ensures
        p.len() >= path.len(),
        p[0] == path[0],
        exists|ed: Seq<Edge>| #[trigger] finished(s, q, g, p, ed),
    decreases room, 1nat, 0nat,
{
    let cost = cost_along(ed0, ed0.len());
    if !keeps_growing(g, path.len(), cost) {
        assert(seq![path][0] == path);
        assert(p == path);
        assert(finished(s, q, g, p, ed0));
    } else {
        let es = steps_from(s, q, path.last());
        let below = grown_each(s, q, g, path, cost, room, es);
        if !fresh_among(q, es, path) && g.include_shorter && path.len() > 1 {
            let k = choose|k: int| 0 <= k < below.push(path).len() && below.push(path)[k] == p;
            if k < below.len() {
                assert(below[k] == p);
                lemma_grown_each_finished(s, q, g, path, ed0, room, es, p);
            } else {
                assert(p == path);
                assert forall|e: Edge| #[trigger] steps_from(s, q, p.last()).contains(e) implies p.contains(far(q, e)) by {
                    let j = choose|j: int| 0 <= j < es.len() && es[j] == e;
                    lemma_fresh_among_none(q, es, path, j);
                }
                assert(finished(s, q, g, p, ed0));
            }
        } else {
            lemma_grown_each_finished(s, q, g, path, ed0, room, es, p);
        }
    }
}

proof fn lemma_grown_each_finished(s: Seq<Edge>, q: Query, g: Growth, path: Seq<usize>, ed0: Seq<Edge>, room: nat, es: Seq<Edge>, p: Seq<usize>)
    requires
        walks_along(s, q, path, ed0),
        forall|k: int| 1 <= k < path.len() ==> #[trigger] keeps_growing(g, k as nat, cost_along(ed0, (k - 1) as nat)),
        keeps_growing(g, path.len(), cost_along(ed0, ed0.len())),
        forall|j: int| 0 <= j < es.len() ==> steps_from(s, q, path.last()).contains(#[trigger] es[j]),
        grown_each(s, q, g, path, cost_along(ed0, ed0.len()), room, es).contains(p),
    ensures
        p.len() >= path.len(),
        p[0] == path[0],
        exists|ed: Seq<Edge>| #[trigger] finished(s, q, g, p, ed),
    decreases room, 0nat, es.len(),
{
    let cost = cost_along(ed0, ed0.len());
    let before = grown_each(s, q, g, path, cost, room, es.drop_last());
    let e = es.last();
    let w = far(q, e);
    if path.contains(w) || room == 0 {
        lemma_grown_each_finished(s, q, g, path, ed0, room, es.drop_last(), p);
    } else {
        let child = path.push(w);
        let ed1 = ed0.push(e);
        let deeper = grown(s, q, g, child, sat_add(cost, e.cost), (room - 1) as nat);
        lemma_concat_contains(before, deeper, p);
        if before.contains(p) {
            lemma_grown_each_finished(s, q, g, path, ed0, room, es.drop_last(), p);
        } else {
            lemma_cost_along_prefix(ed0, ed1, ed0.len());
            assert(cost_along(ed1, ed1.len()) == sat_add(cost, e.cost));
            assert(steps_from(s, q, path.last()).contains(es[es.len() - 1]));
            assert(walks_along(s, q, child, ed1)) by {
                assert forall|k: int| 0 <= k < ed1.len() implies steps_from(s, q, child[k]).contains(#[trigger] ed1[k])
                    && far(q, ed1[k]) == child[k + 1] by {
                    if k < ed0.len() {
                        assert(ed1[k] == ed0[k] && child[k] == path[k] && child[k + 1] == path[k + 1]);
                    } else {
                        assert(ed1[k] == e && child[k] == path.last() && child[k + 1] == w);
                    }
                }
            }
            assert forall|k: int| 1 <= k < child.len() implies #[trigger] keeps_growing(g, k as nat, cost_along(ed1, (k - 1) as nat)) by {
                lemma_cost_along_prefix(ed0, ed1, (k - 1) as nat);
                if k < path.len() {
                    assert(keeps_growing(g, k as nat, cost_along(ed0, (k - 1) as nat)));
                }
            }
            lemma_grown_finished(s, q, g, child, ed1, (room - 1) as nat, p);
        }
    }
}

} // verus!
