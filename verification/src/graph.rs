//! A directed multigraph with insertion-ordered edges, and the searches over it.
//!
//! The order of a vertex's out-edges is part of what callers observe, so every
//! vertex keeps the indices of its edges in the order they were added.
//!
//! Costs are whole numbers. `INFINITE_COST` stands for a cost that cannot be
//! paid: a path that would cost that much or more is treated as no path at all.

use vstd::prelude::*;
use crate::relation::RelationType;
use crate::walks::lemma_distinct_bounded;
use crate::paths::{cost_bound, is_shortest, lemma_search_init, lemma_settle, lemma_relax, search_state, search_core, relaxed_from, path_cost, joins, reachable_within, count_false, lemma_count_false_set, lemma_unsettled_unreachable, lemma_settled_path, lemma_prepend_path};

verus! {

/// The cost that stands for "not routable".
pub const INFINITE_COST: u64 = 0xffff_ffff_ffff_ffff;

/// One directed edge, tagged with which cost model it belongs to.
#[derive(Clone, Copy, Debug, PartialEq, Eq, Structural)]
pub struct Edge {
    pub from: usize,
    pub to: usize,
    pub relation: RelationType,
    pub cost_id: usize,
    pub cost: u64,
}

/// What a search looks at: which relations, which cost model, and whether it
/// follows edges forwards or against their direction.
#[derive(Clone, Copy, Debug, PartialEq, Eq, Structural)]
pub struct Query {
    pub relations: RelationType,
    pub cost_id: usize,
    pub backwards: bool,
}

/// Whether a query's relation mask and cost model take this edge.
pub open spec fn selects(q: Query, e: Edge) -> bool {
    e.cost_id == q.cost_id && q.relations.overlaps(e.relation)
}

/// The vertex an edge leads to when a search walks it.
pub open spec fn far(q: Query, e: Edge) -> usize {
    if q.backwards { e.from } else { e.to }
}

/// The vertex an edge is walked from.
pub open spec fn near(q: Query, e: Edge) -> usize {
    if q.backwards { e.to } else { e.from }
}

/// The edges leaving `v`, in insertion order.
pub open spec fn edges_from(s: Seq<Edge>, v: usize) -> Seq<Edge>
    decreases s.len(),
{
    if s.len() == 0 {
        seq![]
    } else {
        let r = edges_from(s.drop_last(), v);
        if s.last().from == v { r.push(s.last()) } else { r }
    }
}

/// The edges entering `v`, in insertion order.
pub open spec fn edges_into(s: Seq<Edge>, v: usize) -> Seq<Edge>
    decreases s.len(),
{
    if s.len() == 0 {
        seq![]
    } else {
        let r = edges_into(s.drop_last(), v);
        if s.last().to == v { r.push(s.last()) } else { r }
    }
}

/// The edges a query takes out of `v`, in insertion order.
pub open spec fn steps_from(s: Seq<Edge>, q: Query, v: usize) -> Seq<Edge>
    decreases s.len(),
{
    if s.len() == 0 {
        seq![]
    } else {
        let r = steps_from(s.drop_last(), q, v);
        if near(q, s.last()) == v && selects(q, s.last()) { r.push(s.last()) } else { r }
    }
}

/// The cheapest edge a query can take from `u` straight to `w`, if any.
pub open spec fn arc(s: Seq<Edge>, q: Query, u: usize, w: usize) -> Option<u64>
    decreases s.len(),
{
    if s.len() == 0 {
        None
    } else {
        let r = arc(s.drop_last(), q, u, w);
        let e = s.last();
        if near(q, e) == u && far(q, e) == w && selects(q, e) {
            match r {
                Some(c) => Some(if e.cost < c { e.cost } else { c }),
                None => Some(e.cost),
            }
        } else {
            r
        }
    }
}

/// Indices of the edges leaving `v`, ascending.
pub open spec fn ids_from(s: Seq<Edge>, v: usize) -> Seq<usize>
    decreases s.len(),
{
    if s.len() == 0 {
        seq![]
    } else {
        let r = ids_from(s.drop_last(), v);
        if s.last().from == v { r.push((s.len() - 1) as usize) } else { r }
    }
}

/// Indices of the edges entering `v`, ascending.
pub open spec fn ids_into(s: Seq<Edge>, v: usize) -> Seq<usize>
    decreases s.len(),
{
    if s.len() == 0 {
        seq![]
    } else {
        let r = ids_into(s.drop_last(), v);
        if s.last().to == v { r.push((s.len() - 1) as usize) } else { r }
    }
}

/// The edges at the given indices that satisfy the relation mask and cost model.
pub open spec fn pick(s: Seq<Edge>, ids: Seq<usize>, relations: RelationType, cost_id: usize) -> Seq<Edge>
    decreases ids.len(),
{
    if ids.len() == 0 {
        seq![]
    } else {
        let r = pick(s, ids.drop_last(), relations, cost_id);
        let e = s[ids.last() as int];
        if e.cost_id == cost_id && relations.overlaps(e.relation) { r.push(e) } else { r }
    }
}

/// The edges leaving `v` that the mask and cost model select.
pub open spec fn filter_out(s: Seq<Edge>, v: usize, relations: RelationType, cost_id: usize) -> Seq<Edge> {
    steps_from(s, Query { relations, cost_id, backwards: false }, v)
}

/// The edges entering `v` that the mask and cost model select.
pub open spec fn filter_in(s: Seq<Edge>, v: usize, relations: RelationType, cost_id: usize) -> Seq<Edge> {
    steps_from(s, Query { relations, cost_id, backwards: true }, v)
}

pub proof fn lemma_ids_bounded(s: Seq<Edge>, v: usize, back: bool)
    requires
        s.len() <= usize::MAX,
    ensures
        !back ==> forall|k: int| 0 <= k < ids_from(s, v).len() ==> (#[trigger] ids_from(s, v)[k]) < s.len(),
        back ==> forall|k: int| 0 <= k < ids_into(s, v).len() ==> (#[trigger] ids_into(s, v)[k]) < s.len(),
    decreases s.len(),
{
    if s.len() > 0 {
        let t = s.drop_last();
        lemma_ids_bounded(t, v, back);
        if back {
            let r = ids_into(t, v);
            assert forall|k: int| 0 <= k < ids_into(s, v).len() implies (#[trigger] ids_into(s, v)[k]) < s.len() by {
                if k < r.len() {
                    assert(ids_into(s, v)[k] == r[k]);
                }
            }
        } else {
            let r = ids_from(t, v);
            assert forall|k: int| 0 <= k < ids_from(s, v).len() implies (#[trigger] ids_from(s, v)[k]) < s.len() by {
                if k < r.len() {
                    assert(ids_from(s, v)[k] == r[k]);
                }
            }
        }
    }
}

pub proof fn lemma_pick_frame(s: Seq<Edge>, e: Edge, ids: Seq<usize>, relations: RelationType, cost_id: usize)
    requires
        forall|k: int| 0 <= k < ids.len() ==> (#[trigger] ids[k]) < s.len(),
    ensures
        pick(s.push(e), ids, relations, cost_id) == pick(s, ids, relations, cost_id),
    decreases ids.len(),
{
    if ids.len() > 0 {
        lemma_pick_frame(s, e, ids.drop_last(), relations, cost_id);
    }
}

/// Picking from the adjacency indices gives exactly the selected edges.
pub proof fn lemma_pick_ids(s: Seq<Edge>, v: usize, relations: RelationType, cost_id: usize, back: bool)
    requires
        s.len() <= usize::MAX,
    ensures
        !back ==> pick(s, ids_from(s, v), relations, cost_id) == filter_out(s, v, relations, cost_id),
        back ==> pick(s, ids_into(s, v), relations, cost_id) == filter_in(s, v, relations, cost_id),
    decreases s.len(),
{
    if s.len() > 0 {
        let t = s.drop_last();
        let e = s.last();
        assert(t.push(e) =~= s);
        lemma_pick_ids(t, v, relations, cost_id, back);
        lemma_ids_bounded(t, v, back);
        if back {
            lemma_pick_frame(t, e, ids_into(t, v), relations, cost_id);
            if e.to == v {
                let ids = ids_into(t, v).push((s.len() - 1) as usize);
                assert(ids.drop_last() =~= ids_into(t, v));
            }
        } else {
            lemma_pick_frame(t, e, ids_from(t, v), relations, cost_id);
            if e.from == v {
                let ids = ids_from(t, v).push((s.len() - 1) as usize);
                assert(ids.drop_last() =~= ids_from(t, v));
            }
        }
    }
}

/// A vertex past every edge has no selected edges.
pub proof fn lemma_steps_none(s: Seq<Edge>, q: Query, v: usize)
    requires
        forall|i: int| 0 <= i < s.len() ==> near(q, #[trigger] s[i]) != v,
    ensures
        steps_from(s, q, v) == Seq::<Edge>::empty(),
    decreases s.len(),
{
    if s.len() > 0 {
        lemma_steps_none(s.drop_last(), q, v);
    }
}

/// Every step a query takes from `u` is no cheaper than the arc it realises.
pub proof fn lemma_step_bounds_arc(s: Seq<Edge>, q: Query, u: usize, j: int)
    requires
        0 <= j < steps_from(s, q, u).len(),
    ensures
        near(q, steps_from(s, q, u)[j]) == u,
        selects(q, steps_from(s, q, u)[j]),
        arc(s, q, u, far(q, steps_from(s, q, u)[j])) is Some,
        arc(s, q, u, far(q, steps_from(s, q, u)[j])).unwrap() <= steps_from(s, q, u)[j].cost,
    decreases s.len(),
{
    let t = s.drop_last();
    let e = s.last();
    let st = steps_from(t, q, u);
    if j < st.len() {
        lemma_step_bounds_arc(t, q, u, j);
    }
}

/// The cheapest arc from `u` to `w` is realised by one of `u`'s steps.
pub proof fn lemma_arc_has_step(s: Seq<Edge>, q: Query, u: usize, w: usize) -> (j: int)
    requires
        arc(s, q, u, w) is Some,
    ensures
        0 <= j < steps_from(s, q, u).len(),
        far(q, steps_from(s, q, u)[j]) == w,
        steps_from(s, q, u)[j].cost == arc(s, q, u, w).unwrap(),
    decreases s.len(),
{
    let t = s.drop_last();
    let e = s.last();
    let st = steps_from(t, q, u);
    if near(q, e) == u && far(q, e) == w && selects(q, e) {
        assert(steps_from(s, q, u) == st.push(e));
        match arc(t, q, u, w) {
            Some(c) => {
                if e.cost < c {
                    st.len() as int
                } else {
                    let j = lemma_arc_has_step(t, q, u, w);
                    assert(steps_from(s, q, u)[j] == st[j]);
                    j
                }
            },
            None => {
                st.len() as int
            },
        }
    } else {
        let j = lemma_arc_has_step(t, q, u, w);
        if near(q, e) == u && selects(q, e) {
            assert(steps_from(s, q, u) == st.push(e));
            assert(steps_from(s, q, u)[j] == st[j]);
        }
        j
    }
}

/// Every step leads to a vertex that some edge of the list touches.
pub proof fn lemma_steps_in_range(s: Seq<Edge>, q: Query, u: usize, n: nat, j: int)
    requires
        0 <= j < steps_from(s, q, u).len(),
        forall|i: int| 0 <= i < s.len() ==> (#[trigger] s[i]).from < n && s[i].to < n,
    ensures
        far(q, steps_from(s, q, u)[j]) < n,
    decreases s.len(),
{
    let t = s.drop_last();
    if j < steps_from(t, q, u).len() {
        assert forall|i: int| 0 <= i < t.len() implies (#[trigger] t[i]).from < n && t[i].to < n by {
            assert(t[i] == s[i]);
        }
        lemma_steps_in_range(t, q, u, n, j);
    } else {
        assert(s.last() == s[s.len() - 1]);
    }
}

/// The state of the shortest-path search: tentative distances, each reached
/// vertex's predecessor, and which vertices are settled.
pub type SearchView = (Seq<u64>, Seq<usize>, Seq<bool>);

/// The vertex among the first `k` that the search settles next: an unsettled
/// one at the smallest finite distance, the lowest index among equals.
pub open spec fn cheapest_open(dist: Seq<u64>, done: Seq<bool>, k: nat) -> Option<usize>
    decreases k,
{
    if k == 0 {
        None
    } else {
        let b = cheapest_open(dist, done, (k - 1) as nat);
        let j = k - 1;
        if !done[j] && dist[j] != INFINITE_COST && (b is None || dist[j] < dist[b.unwrap() as int]) {
            Some(j as usize)
        } else {
            b
        }
    }
}

/// Distances and predecessors after relaxing the first `j` edges of `nbrs`
/// out of `v`, settled at distance `dv`: an edge improves the vertex it
/// reaches only where it is strictly cheaper and within `bound`.
pub open spec fn relax_along(nbrs: Seq<Edge>, q: Query, bound: u64, v: usize, dv: u64, dist: Seq<u64>, pred: Seq<usize>, j: nat) -> (Seq<u64>, Seq<usize>)
    decreases j,
{
    if j == 0 {
        (dist, pred)
    } else {
        let dp = relax_along(nbrs, q, bound, v, dv, dist, pred, (j - 1) as nat);
        let e = nbrs[j - 1];
        let w = far(q, e);
        if e.cost <= bound && dv + e.cost <= bound && dv + e.cost < dp.0[w as int] {
            (dp.0.update(w as int, (dv + e.cost) as u64), dp.1.update(w as int, v))
        } else {
            dp
        }
    }
}

/// One round of the search: settle the cheapest open vertex and relax its
/// edges in insertion order.
pub open spec fn settle_next(s: Seq<Edge>, q: Query, n: nat, bound: u64, st: SearchView) -> SearchView {
    match cheapest_open(st.0, st.2, n) {
        None => st,
        Some(v) => {
            let nbrs = steps_from(s, q, v);
            let dp = relax_along(nbrs, q, bound, v, st.0[v as int], st.0, st.1, nbrs.len());
            (dp.0, dp.1, st.2.update(v as int, true))
        },
    }
}

/// Rounds of the search until no open vertex is left, at most `rounds` of them.
pub open spec fn settle_rounds(s: Seq<Edge>, q: Query, n: nat, bound: u64, st: SearchView, rounds: nat) -> SearchView
    decreases rounds,
{
    if rounds == 0 || cheapest_open(st.0, st.2, n) is None {
        st
    } else {
        settle_rounds(s, q, n, bound, settle_next(s, q, n, bound, st), (rounds - 1) as nat)
    }
}

/// Where the search begins: only `start` reached, at distance zero.
pub open spec fn search_start(n: nat, start: usize) -> SearchView {
    (
        Seq::new(n, |i: int| if i == start { 0u64 } else { INFINITE_COST }),
        Seq::new(n, |i: int| 0usize),
        Seq::new(n, |i: int| false),
    )
}

/// The search from `start` run to the end: each round settles the cheapest
/// open vertex, the lowest index first among equally cheap ones.
pub open spec fn settled(s: Seq<Edge>, q: Query, n: nat, start: usize, bound: u64) -> SearchView {
    settle_rounds(s, q, n, bound, search_start(n, start), n + 1)
}

/// The predecessors followed back from `v` until `start`, at most `fuel` steps.
pub open spec fn trace_back(pred: Seq<usize>, start: usize, v: usize, fuel: nat) -> Seq<usize>
    decreases fuel,
{
    if v == start || fuel == 0 {
        seq![v]
    } else {
        trace_back(pred, start, pred[v as int], (fuel - 1) as nat).push(v)
    }
}

/// The path the search finds from `start` to `goal`: the predecessors of
/// `goal` followed back, where the search reached it.
pub open spec fn found_path(s: Seq<Edge>, q: Query, n: nat, start: usize, goal: usize) -> Option<Seq<usize>> {
    let st = settled(s, q, n, start, (INFINITE_COST - 1) as u64);
    if st.0[goal as int] == INFINITE_COST {
        None
    } else {
        Some(trace_back(st.1, start, goal, n))
    }
}

proof fn lemma_count_false_none(n: nat)
    ensures
        count_false(Seq::new(n, |i: int| false)) == n,
    decreases n,
{
    if n > 0 {
        assert(Seq::new(n, |i: int| false).drop_last() =~= Seq::new((n - 1) as nat, |i: int| false));
        lemma_count_false_none((n - 1) as nat);
    }
}

/// The directed multigraph.
pub struct Graph {
    edges: Vec<Edge>,
    out: Vec<Vec<usize>>,
    incoming: Vec<Vec<usize>>,
    cost_count: usize,
}

impl Graph {
    /// Every edge, in insertion order.
    pub closed spec fn spec_edges(&self) -> Seq<Edge> {
        self.edges@
    }

    pub closed spec fn spec_vertex_count(&self) -> nat {
        self.out@.len()
    }

    pub closed spec fn spec_cost_count(&self) -> nat {
        self.cost_count as nat
    }

    /// The adjacency lists agree with the edge list, and every edge joins two
    /// vertices of the graph.
    pub closed spec fn wf(&self) -> bool {
        &&& self.out@.len() == self.incoming@.len()
        &&& self.edges@.len() <= usize::MAX
        &&& forall|v: int| 0 <= v < self.out@.len() ==> (#[trigger] self.out@[v])@ == ids_from(self.edges@, v as usize)
        &&& forall|v: int| 0 <= v < self.incoming@.len() ==> (#[trigger] self.incoming@[v])@ == ids_into(self.edges@, v as usize)
        &&& forall|i: int| 0 <= i < self.edges@.len() ==> (#[trigger] self.edges@[i]).from < self.out@.len()
            && self.edges@[i].to < self.out@.len()
    }

    /// An empty graph over `vertex_count` vertices.
    pub fn new(vertex_count: usize, cost_count: usize) -> (g: Graph)
        ensures
            g.wf(),
            g.spec_vertex_count() == vertex_count,
            g.spec_cost_count() == cost_count,
            g.spec_edges() == Seq::<Edge>::empty(),
    {
        let mut out: Vec<Vec<usize>> = Vec::new();
        let mut incoming: Vec<Vec<usize>> = Vec::new();
        let mut i: usize = 0;
        while i < vertex_count
            invariant
                i <= vertex_count,
                out@.len() == i,
                incoming@.len() == i,
                forall|v: int| 0 <= v < i ==> (#[trigger] out@[v])@ == Seq::<usize>::empty(),
                forall|v: int| 0 <= v < i ==> (#[trigger] incoming@[v])@ == Seq::<usize>::empty(),
            decreases vertex_count - i,
        {
            out.push(Vec::new());
            incoming.push(Vec::new());
            i = i + 1;
        }
        let g = Graph { edges: Vec::new(), out, incoming, cost_count };
        assert forall|v: int| 0 <= v < g.out@.len() implies (#[trigger] g.out@[v])@ == ids_from(g.edges@, v as usize) by {
            assert(g.edges@.len() == 0);
        }
        assert forall|v: int| 0 <= v < g.incoming@.len() implies (#[trigger] g.incoming@[v])@ == ids_into(g.edges@, v as usize) by {
            assert(g.edges@.len() == 0);
        }
        g
    }

    pub fn vertex_count(&self) -> (r: usize)
        ensures
            r == self.spec_vertex_count(),
    {
        self.out.len()
    }

    pub fn cost_count(&self) -> (r: usize)
        ensures
            r == self.spec_cost_count(),
    {
        self.cost_count
    }

    /// Appends an edge.
    pub fn add_edge(&mut self, from: usize, to: usize, relation: RelationType, cost_id: usize, cost: u64)
        requires
            old(self).wf(),
            from < old(self).spec_vertex_count(),
            to < old(self).spec_vertex_count(),
            old(self).spec_edges().len() < usize::MAX,
        ensures
            final(self).wf(),
            final(self).spec_vertex_count() == old(self).spec_vertex_count(),
            final(self).spec_cost_count() == old(self).spec_cost_count(),
            final(self).spec_edges() == old(self).spec_edges().push(Edge { from, to, relation, cost_id, cost }),
    {
        let index = self.edges.len();
        let vertices = self.out.len();
        let vertices_in = self.incoming.len();
        let e = Edge { from, to, relation, cost_id, cost };
        let ghost s0 = self.edges@;
        let ghost out0 = self.out@;
        let ghost in0 = self.incoming@;
        self.edges.push(e);
        self.out[from].push(index);
        self.incoming[to].push(index);
        assert(self.out@.len() == out0.len());
        assert(self.out@[from as int]@ == out0[from as int]@.push(index));
        assert(forall|v: int| 0 <= v < out0.len() && v != from ==> self.out@[v] == out0[v]);
        assert(self.incoming@.len() == in0.len());
        assert(self.incoming@[to as int]@ == in0[to as int]@.push(index));
        assert(forall|v: int| 0 <= v < in0.len() && v != to ==> self.incoming@[v] == in0[v]);
        proof {
            let s = self.edges@;
            assert(s.drop_last() =~= s0);
            assert(s.last() == e);
            assert((s.len() - 1) as usize == index);
            assert forall|v: int| 0 <= v < self.out@.len() implies (#[trigger] self.out@[v])@ == ids_from(s, v as usize) by {
                assert(v as usize as int == v);
                assert(out0[v]@ == ids_from(s0, v as usize));
                assert(ids_from(s, v as usize) == (if e.from == v as usize { ids_from(s0, v as usize).push(index) } else { ids_from(s0, v as usize) }));
            }
            assert forall|v: int| 0 <= v < self.incoming@.len() implies (#[trigger] self.incoming@[v])@ == ids_into(s, v as usize) by {
                assert(v as usize as int == v);
                assert(in0[v]@ == ids_into(s0, v as usize));
                assert(ids_into(s, v as usize) == (if e.to == v as usize { ids_into(s0, v as usize).push(index) } else { ids_into(s0, v as usize) }));
            }
        }
    }

    /// Every edge, in insertion order.
    pub fn all_edges(&self) -> (r: Vec<Edge>)
        ensures
            r@ == self.spec_edges(),
    {
        self.edges.clone()
    }

    /// The edges at the given indices that the mask and cost model select.
    fn pick_edges(&self, ids: &Vec<usize>, relations: RelationType, cost_id: usize) -> (r: Vec<Edge>)
        requires
            forall|k: int| 0 <= k < ids@.len() ==> (#[trigger] ids@[k]) < self.edges@.len(),
        ensures
            r@ == pick(self.edges@, ids@, relations, cost_id),
    {
        let mut r: Vec<Edge> = Vec::new();
        let mut k: usize = 0;
        while k < ids.len()
            invariant
                k <= ids@.len(),
                forall|j: int| 0 <= j < ids@.len() ==> (#[trigger] ids@[j]) < self.edges@.len(),
                r@ == pick(self.edges@, ids@.take(k as int), relations, cost_id),
            decreases ids@.len() - k,
        {
            let e = self.edges[ids[k]];
            if e.cost_id == cost_id && relations.contains(e.relation) {
                r.push(e);
            }
            assert(ids@.take(k + 1).drop_last() =~= ids@.take(k as int));
            k = k + 1;
        }
        assert(ids@.take(ids@.len() as int) =~= ids@);
        r
    }

    /// Out-edges matching a relation mask and cost model, in insertion order.
    pub fn out_edges(&self, from: usize, relations: RelationType, cost_id: usize) -> (r: Vec<Edge>)
        requires
            self.wf(),
        ensures
            r@ == filter_out(self.spec_edges(), from, relations, cost_id),
    {
        proof {
            lemma_pick_ids(self.edges@, from, relations, cost_id, false);
        }
        if from >= self.out.len() {
            proof {
                lemma_steps_none(self.edges@, Query { relations, cost_id, backwards: false }, from);
            }
            return Vec::new();
        }
        proof {
            lemma_ids_bounded(self.edges@, from, false);
        }
        self.pick_edges(&self.out[from], relations, cost_id)
    }

    /// In-edges matching a relation mask and cost model, in insertion order.
    pub fn in_edges(&self, to: usize, relations: RelationType, cost_id: usize) -> (r: Vec<Edge>)
        requires
            self.wf(),
        ensures
            r@ == filter_in(self.spec_edges(), to, relations, cost_id),
    {
        proof {
            lemma_pick_ids(self.edges@, to, relations, cost_id, true);
        }
        if to >= self.incoming.len() {
            proof {
                lemma_steps_none(self.edges@, Query { relations, cost_id, backwards: true }, to);
            }
            return Vec::new();
        }
        proof {
            lemma_ids_bounded(self.edges@, to, true);
        }
        self.pick_edges(&self.incoming[to], relations, cost_id)
    }

    /// Every edge joins two vertices of the graph.
    pub proof fn lemma_edges_in_range(&self)
        requires
            self.wf(),
        ensures
            forall|i: int| 0 <= i < self.spec_edges().len() ==> (#[trigger] self.spec_edges()[i]).from < self.spec_vertex_count()
                && self.spec_edges()[i].to < self.spec_vertex_count(),
    {
    }

    /// The edges a query takes out of `v`, in insertion order.
    pub(crate) fn steps(&self, v: usize, q: Query) -> (r: Vec<Edge>)
        requires
            self.wf(),
        ensures
            r@ == steps_from(self.spec_edges(), q, v),
    {
        if q.backwards {
            let r = self.in_edges(v, q.relations, q.cost_id);
            assert(q == Query { relations: q.relations, cost_id: q.cost_id, backwards: true });
            r
        } else {
            let r = self.out_edges(v, q.relations, q.cost_id);
            assert(q == Query { relations: q.relations, cost_id: q.cost_id, backwards: false });
            r
        }
    }

    /// Settles vertices cheapest first until nothing within `bound` is left.
    ///
    /// Returns the distances (`INFINITE_COST` where out of reach) and each
    /// reached vertex's predecessor.
    fn search(&self, start: usize, q: Query, bound: u64) -> (r: (Vec<u64>, Vec<usize>, Ghost<Seq<bool>>, Ghost<Seq<nat>>, Ghost<nat>))
        requires
            self.wf(),
            start < self.spec_vertex_count(),
            bound < INFINITE_COST,
        ensures
            search_state(self.spec_edges(), q, self.spec_vertex_count(), start, bound, r.0@, r.1@, r.2@, r.3@, r.4@),
            forall|v: int| 0 <= v < self.spec_vertex_count() ==> (#[trigger] r.2@[v] <==> r.0@[v] != INFINITE_COST),
            r.0@.len() == self.spec_vertex_count(),
            r.1@.len() == self.spec_vertex_count(),
            r.2@.len() == self.spec_vertex_count(),
            (r.0@, r.1@, r.2@) == settled(self.spec_edges(), q, self.spec_vertex_count(), start, bound),
    {
        let ghost s = self.edges@;
        let n = self.out.len();
        let mut dist: Vec<u64> = Vec::new();
        let mut pred: Vec<usize> = Vec::new();
        let mut done: Vec<bool> = Vec::new();
        let mut i: usize = 0;
        while i < n
            invariant
                i <= n,
                dist@.len() == i && pred@.len() == i && done@.len() == i,
                forall|k: int| 0 <= k < i ==> dist@[k] == INFINITE_COST && !done@[k] && pred@[k] == 0,
            decreases n - i,
        {
            dist.push(INFINITE_COST);
            pred.push(0);
            done.push(false);
            i = i + 1;
        }
        dist.set(start, 0);
        let ghost mut rank: Seq<nat> = Seq::new(n as nat, |k: int| 0nat);
        let ghost mut count: nat = 0;
        proof {
            lemma_search_init(s, q, n as nat, start, bound, dist@, pred@, done@);
            assert(dist@ =~= search_start(n as nat, start).0);
            assert(pred@ =~= search_start(n as nat, start).1);
            assert(done@ =~= search_start(n as nat, start).2);
            lemma_count_false_none(n as nat);
        }
        let mut searching = true;
        while searching
            invariant
                self.wf(),
                s == self.edges@,
                n == self.spec_vertex_count(),
                dist@.len() == n && pred@.len() == n && done@.len() == n,
                search_state(s, q, n as nat, start, bound, dist@, pred@, done@, rank, count),
                !searching ==> forall|w: int| 0 <= w < n && !done@[w] ==> #[trigger] dist@[w] == INFINITE_COST,
                searching ==> settle_rounds(s, q, n as nat, bound, (dist@, pred@, done@), count_false(done@) + 1) == settled(
                    s,
                    q,
                    n as nat,
                    start,
                    bound,
                ),
                !searching ==> (dist@, pred@, done@) == settled(s, q, n as nat, start, bound),
            decreases count_false(done@) + if searching { 1nat } else { 0nat },
        {
            let mut best: usize = n;
            let mut k: usize = 0;
            while k < n
                invariant
                    k <= n,
                    dist@.len() == n && done@.len() == n,
                    best == n || (best < k && !done@[best as int] && dist@[best as int] != INFINITE_COST),
                    best != n ==> forall|j: int|
                        0 <= j < k && !done@[j] && dist@[j] != INFINITE_COST ==> dist@[best as int] <= #[trigger] dist@[j],
                    best == n ==> forall|j: int| 0 <= j < k ==> done@[j] || #[trigger] dist@[j] == INFINITE_COST,
                    best == n <==> cheapest_open(dist@, done@, k as nat) is None,
                    best != n ==> cheapest_open(dist@, done@, k as nat) == Some(best),
                decreases n - k,
            {
                if !done[k] && dist[k] != INFINITE_COST {
                    if best == n || dist[k] < dist[best] {
                        best = k;
                    }
                }
                k = k + 1;
            }
            if best == n {
                searching = false;
            } else {
                let v = best;
                let dv = dist[v];
                let ghost dist0 = dist@;
                let ghost pred0 = pred@;
                proof {
                    assert forall|w: int| 0 <= w < n && !done@[w] implies dist@[v as int] <= #[trigger] dist@[w] by {
                        if dist@[w] != INFINITE_COST {
                        }
                    }
                    lemma_settle(s, q, n as nat, start, bound, dist@, pred@, done@, rank, count, v);
                }
                let ghost done0 = done@;
                done.set(v, true);
                proof {
                    rank = rank.update(v as int, count);
                    count = count + 1;
                }
                let nbrs = self.steps(v, q);
                let mut j: usize = 0;
                while j < nbrs.len()
                    invariant
                        self.wf(),
                        s == self.edges@,
                        n == self.spec_vertex_count(),
                        v < n,
                        dist@.len() == n && pred@.len() == n && done@.len() == n,
                        nbrs@ == steps_from(s, q, v),
                        j <= nbrs@.len(),
                        search_core(s, q, n as nat, start, bound, dist@, pred@, done@, rank, count),
                        done@[v as int],
                        dist@[v as int] == dv,
                        count_false(done@) + 1 == count_false(done0),
                        forall|u: usize| u < n && done@[u as int] && u != v ==> #[trigger] relaxed_from(s, q, n as nat, bound, dist@, u),
                        forall|w: int| 0 <= w < n && #[trigger] done@[w] ==> dist@[w] <= dv,
                        forall|jj: int| 0 <= jj < j && dv + (#[trigger] nbrs@[jj]).cost <= bound
                            ==> dist@[far(q, nbrs@[jj]) as int] <= dv + nbrs@[jj].cost,
                        (dist@, pred@) == relax_along(nbrs@, q, bound, v, dv, dist0, pred0, j as nat),
                        done@ == done0.update(v as int, true),
                    decreases nbrs@.len() - j,
                {
                    let e = nbrs[j];
                    let w = if q.backwards { e.from } else { e.to };
                    let ghost dist_before = dist@;
                    proof {
                        lemma_steps_in_range(s, q, v, n as nat, j as int);
                        lemma_step_bounds_arc(s, q, v, j as int);
                    }
                    if e.cost <= bound && dv <= bound - e.cost {
                        let next = dv + e.cost;
                        if next < dist[w] {
                            proof {
                                lemma_relax(s, q, n as nat, start, bound, dist@, pred@, done@, rank, count, v, w, e.cost);
                            }
                            dist.set(w, next);
                            pred.set(w, v);
                        }
                    }
                    proof {
                        assert(w == far(q, e));
                        assert forall|x: int| 0 <= x < n implies #[trigger] dist@[x] <= dist_before[x] by {
                        }
                        assert forall|jj: int| 0 <= jj < j + 1 && dv + (#[trigger] nbrs@[jj]).cost <= bound
                            implies dist@[far(q, nbrs@[jj]) as int] <= dv + nbrs@[jj].cost by {
                            if jj < j {
                                assert(dist_before[far(q, nbrs@[jj]) as int] <= dv + nbrs@[jj].cost);
                                lemma_steps_in_range(s, q, v, n as nat, jj);
                                assert(dist@[far(q, nbrs@[jj]) as int] <= dist_before[far(q, nbrs@[jj]) as int]);
                            } else {
                                assert(nbrs@[jj] == e);
                            }
                        }
                    }
                    j = j + 1;
                }
                proof {
                    assert forall|w: usize| w < n && #[trigger] arc(s, q, v, w) is Some && dist@[v as int] + arc(s, q, v, w).unwrap() <= bound
                        implies dist@[w as int] <= dist@[v as int] + arc(s, q, v, w).unwrap() by {
                        let jj = lemma_arc_has_step(s, q, v, w);
                        assert(dv + nbrs@[jj].cost <= bound);
                    }
                    assert(relaxed_from(s, q, n as nat, bound, dist@, v));
                    assert(cheapest_open(dist0, done0, n as nat) == Some(v));
                    assert((dist@, pred@, done@) == settle_next(s, q, n as nat, bound, (dist0, pred0, done0)));
                    lemma_count_false_set(done0, v as int);
                }
            }
        }
        proof {
            reveal(search_core);
        }
        (dist, pred, Ghost(done@), Ghost(rank), Ghost(count))
    }

    /// The cheapest path from `start` to `goal` over the given relations and
    /// cost model, inclusive of both ends, or nothing if the goal cannot be
    /// reached at a finite cost. Among equally cheap paths it is the one the
    /// search settles into: cheapest vertex first, the lower index on ties,
    /// a vertex's predecessor changed only by a strictly cheaper way in.
    pub fn shortest_path(&self, start: usize, goal: usize, relations: RelationType, cost_id: usize) -> (r: Option<Vec<usize>>)
        requires
            self.wf(),
            start < self.spec_vertex_count(),
            goal < self.spec_vertex_count(),
        ensures
            r is Some <==> reachable_within(self.spec_edges(), Query { relations, cost_id, backwards: false },
                self.spec_vertex_count(), start, goal, INFINITE_COST - 1),
            r matches Some(p) ==> is_shortest(self.spec_edges(), Query { relations, cost_id, backwards: false },
                self.spec_vertex_count(), p@, start, goal),
            r matches Some(p) ==> p@.no_duplicates(),
            r is Some <==> found_path(self.spec_edges(), Query { relations, cost_id, backwards: false }, self.spec_vertex_count(), start, goal) is Some,
            r matches Some(p) ==> found_path(self.spec_edges(), Query { relations, cost_id, backwards: false }, self.spec_vertex_count(), start, goal)
                == Some(p@),
    {
        let q = Query { relations, cost_id, backwards: false };
        let ghost s = self.edges@;
        let ghost n = self.spec_vertex_count();
        let bound: u64 = INFINITE_COST - 1;
        let (dist, pred, Ghost(done), Ghost(rank), Ghost(count)) = self.search(start, q, bound);
        if dist[goal] == INFINITE_COST {
            proof {
                assert forall|p: Seq<usize>| joins(s, q, n, p, start, goal) implies #[trigger] path_cost(s, q, p) > bound by {
                    lemma_unsettled_unreachable(s, q, n, start, bound, dist@, pred@, done, rank, count, p);
                }
            }
            return None;
        }
        proof {
            reveal(search_core);
        }
        let mut back: Vec<usize> = Vec::new();
        back.push(goal);
        let mut current = goal;
        let ghost mut fwd: Seq<usize> = seq![goal];
        while current != start
            invariant
                search_state(s, q, n, start, bound, dist@, pred@, done, rank, count),
                dist@.len() == n && pred@.len() == n && done.len() == n,
                forall|v: int| 0 <= v < n ==> (#[trigger] done[v] <==> dist@[v] != INFINITE_COST),
                current < n,
                done[current as int],
                joins(s, q, n, fwd, current, goal),
                path_cost(s, q, fwd) + dist@[current as int] <= dist@[goal as int],
                back@.len() == fwd.len(),
                forall|k: int| 0 <= k < fwd.len() ==> #[trigger] back@[k] == fwd[fwd.len() - 1 - k],
                fwd.no_duplicates(),
                forall|k: int| 0 <= k < fwd.len() ==> rank[#[trigger] fwd[k] as int] >= rank[current as int],
                fwd.len() <= n,
                fwd[0] == current,
                trace_back(pred@, start, goal, n) == trace_back(pred@, start, current, (n + 1 - fwd.len()) as nat) + fwd.drop_first(),
            decreases rank[current as int],
        {
            proof {
                reveal(search_core);
                assert(dist@[current as int] != INFINITE_COST);
            }
            let u = pred[current];
            proof {
                assert(rank[u as int] < rank[current as int]);
                lemma_prepend_path(s, q, n, u, fwd);
                let longer = seq![u] + fwd;
                assert forall|a: int, b: int| 0 <= a < longer.len() && 0 <= b < longer.len() && a != b implies longer[a] != longer[b] by {
                    if a > 0 && b > 0 {
                        assert(longer[a] == fwd[a - 1] && longer[b] == fwd[b - 1]);
                    } else if a == 0 {
                        assert(longer[b] == fwd[b - 1]);
                        assert(rank[fwd[b - 1] as int] >= rank[current as int]);
                    } else {
                        assert(longer[a] == fwd[a - 1]);
                        assert(rank[fwd[a - 1] as int] >= rank[current as int]);
                    }
                }
                assert forall|k: int| 0 <= k < longer.len() implies rank[#[trigger] longer[k] as int] >= rank[u as int] by {
                    if k > 0 {
                        assert(longer[k] == fwd[k - 1]);
                    }
                }
                lemma_distinct_bounded(longer, n);
                let f = (n + 1 - fwd.len()) as nat;
                assert(trace_back(pred@, start, current, f) == trace_back(pred@, start, u, (f - 1) as nat).push(current));
                assert(trace_back(pred@, start, u, (f - 1) as nat).push(current) + fwd.drop_first()
                    =~= trace_back(pred@, start, u, (f - 1) as nat) + longer.drop_first());
                fwd = longer;
            }
            back.push(u);
            current = u;
        }
        proof {
            assert(trace_back(pred@, start, current, (n + 1 - fwd.len()) as nat) == seq![current]);
            assert(seq![current] + fwd.drop_first() =~= fwd);
        }
        let mut path: Vec<usize> = Vec::new();
        let mut k = back.len();
        while k > 0
            invariant
                k <= back@.len(),
                back@.len() == fwd.len(),
                path@.len() + k == fwd.len(),
                forall|i: int| 0 <= i < fwd.len() ==> #[trigger] back@[i] == fwd[fwd.len() - 1 - i],
                forall|i: int| 0 <= i < path@.len() ==> #[trigger] path@[i] == fwd[i],
            decreases k,
        {
            k = k - 1;
            path.push(back[k]);
        }
        proof {
            assert(path@ =~= fwd);
            assert(path@.no_duplicates());
            assert(path_cost(s, q, fwd) <= bound);
            assert forall|other: Seq<usize>| joins(s, q, n, other, start, goal)
                implies path_cost(s, q, path@) <= #[trigger] path_cost(s, q, other) by {
            }
        }
        Some(path)
    }

    /// Every vertex within a cost budget, the start included at cost zero, in
    /// ascending order.
    ///
    /// Searching `backwards` follows edges against their direction, which finds
    /// every vertex from which `start` can be reached within the budget.
    pub fn reachable(&self, start: usize, max_cost: u64, relations: RelationType, cost_id: usize, backwards: bool) -> (r: Vec<usize>)
        requires
            self.wf(),
            start < self.spec_vertex_count(),
        ensures
            forall|a: int, b: int| 0 <= a < b < r@.len() ==> r@[a] < r@[b],
            forall|k: int| 0 <= k < r@.len() ==> #[trigger] r@[k] < self.spec_vertex_count(),
            forall|v: usize| v < self.spec_vertex_count() ==> (r@.contains(v) <==> #[trigger] reachable_within(self.spec_edges(),
                Query { relations, cost_id, backwards }, self.spec_vertex_count(), start, v, cost_bound(max_cost) as int)),
    {
        let q = Query { relations, cost_id, backwards };
        let ghost s = self.edges@;
        let ghost nn = self.spec_vertex_count();
        let bound: u64 = if max_cost < INFINITE_COST { max_cost } else { INFINITE_COST - 1 };
        let (dist, pred, Ghost(done), Ghost(rank), Ghost(count)) = self.search(start, q, bound);
        let n = self.out.len();
        let mut r: Vec<usize> = Vec::new();
        let mut v: usize = 0;
        while v < n
            invariant
                v <= n,
                n == nn,
                dist@.len() == n && pred@.len() == n && done.len() == n,
                search_state(s, q, nn, start, bound, dist@, pred@, done, rank, count),
                forall|x: int| 0 <= x < n ==> (#[trigger] done[x] <==> dist@[x] != INFINITE_COST),
                forall|a: int, b: int| 0 <= a < b < r@.len() ==> r@[a] < r@[b],
                forall|k: int| 0 <= k < r@.len() ==> #[trigger] r@[k] < v,
                forall|x: usize| x < v ==> (r@.contains(x) <==> #[trigger] reachable_within(s, q, nn, start, x, bound as int)),
            decreases n - v,
        {
            proof {
                if done[v as int] {
                    let p = lemma_settled_path(s, q, nn, start, bound, dist@, pred@, done, rank, count, v);
                    reveal(search_core);
                    assert(path_cost(s, q, p) <= bound);
                    assert(reachable_within(s, q, nn, start, v, bound as int));
                } else {
                    assert forall|p: Seq<usize>| joins(s, q, nn, p, start, v) implies #[trigger] path_cost(s, q, p) > bound by {
                        lemma_unsettled_unreachable(s, q, nn, start, bound, dist@, pred@, done, rank, count, p);
                    }
                }
            }
            let ghost r0 = r@;
            if dist[v] != INFINITE_COST {
                r.push(v);
            }
            proof {
                assert forall|x: usize| x < v + 1 implies (r@.contains(x) <==> #[trigger] reachable_within(s, q, nn, start, x, bound as int)) by {
                    if x < v {
                        if r0.contains(x) {
                            let i = choose|i: int| 0 <= i < r0.len() && r0[i] == x;
                            assert(r@[i] == x);
                        }
                        if r@.contains(x) {
                            let i = choose|i: int| 0 <= i < r@.len() && r@[i] == x;
                            assert(i < r0.len());
                            assert(r0[i] == x);
                        }
                    } else {
                        if dist@[v as int] != INFINITE_COST {
                            assert(r@[r@.len() - 1] == v);
                        } else {
                            if r@.contains(x) {
                                let i = choose|i: int| 0 <= i < r@.len() && r@[i] == x;
                                assert(r@[i] < v);
                            }
                        }
                    }
                }
            }
            v = v + 1;
        }
        r
    }
}

} // verus!
