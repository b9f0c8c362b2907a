//! The routing graph: which lanelets lead to which, and at what cost.
//!
//! A lanelet that may be driven both ways becomes two vertices, one per
//! direction, and the two conflict with each other. The graph carries a
//! parallel edge per cost model, which is why nearly every query takes a cost
//! id. A lanelet is named here by its id and its direction.

use vstd::prelude::*;
use crate::graph::{Edge, Graph, Query, INFINITE_COST, filter_out, filter_in, steps_from, far, found_path, lemma_steps_in_range};
use crate::paths::{reachable_within, is_shortest, cost_bound};
use crate::relation::{RelationType, SUCCESSOR, LEFT, RIGHT, ADJACENT_LEFT, ADJACENT_RIGHT, CONFLICTING};
use crate::walks::{lemma_distinct_bounded, lemma_push_distinct, lemma_possible_paths_are_simple, grown, Growth, lex_sorted, views};
use crate::paths::joins;
use crate::text::{signed_decimal, push_signed_decimal};

verus! {

/// One direction of a lanelet: the vertex it is in the routing graph.
#[derive(Clone, Copy, Debug, PartialEq, Eq, Structural)]
pub struct LaneletKey {
    pub id: i64,
    pub inverted: bool,
}

/// A lanelet reached from somewhere, how, and at what cost under the queried
/// cost model.
#[derive(Clone, Copy, Debug, PartialEq, Eq, Structural)]
pub struct LaneletRelation {
    pub lanelet: LaneletKey,
    pub relation: RelationType,
    pub cost: u64,
}

/// The relations a vehicle drives along: successors, and with lane changes
/// also the lanelets left and right.
pub open spec fn drivable(with_lane_changes: bool) -> RelationType {
    if with_lane_changes { RelationType(7) } else { RelationType(SUCCESSOR) }
}

pub fn drivable_relations(with_lane_changes: bool) -> (r: RelationType)
    ensures
        r == drivable(with_lane_changes),
{
    if with_lane_changes { RelationType(7) } else { RelationType(SUCCESSOR) }
}

/// The lanelets at the far ends of edges, with each edge's relation and cost.
pub open spec fn related(vs: Seq<LaneletKey>, es: Seq<Edge>, backwards: bool) -> Seq<LaneletRelation> {
    es.map_values(|e: Edge| LaneletRelation {
        lanelet: vs[(if backwards { e.from } else { e.to }) as int],
        relation: e.relation,
        cost: e.cost,
    })
}

/// The lanelets of a list of relations.
pub open spec fn lanelets_of(rs: Seq<LaneletRelation>) -> Seq<LaneletKey> {
    rs.map_values(|r: LaneletRelation| r.lanelet)
}

/// Whether `k` is among `ks`.
pub fn has_key(ks: &Vec<LaneletKey>, k: LaneletKey) -> (r: bool)
    ensures
        r == ks@.contains(k),
{
    let mut i: usize = 0;
    while i < ks.len()
        invariant
            i <= ks@.len(),
            forall|j: int| 0 <= j < i ==> ks@[j] != k,
        decreases ks@.len() - i,
    {
        if ks[i] == k {
            return true;
        }
        i = i + 1;
    }
    false
}

/// Distinct entries, each found in `vs`, are no more than `vs` has.
pub proof fn lemma_distinct_within(vs: Seq<LaneletKey>, ks: Seq<LaneletKey>)
    requires
        vs.len() <= usize::MAX,
        ks.no_duplicates(),
        forall|i: int| 0 <= i < ks.len() ==> vs.contains(#[trigger] ks[i]),
    ensures
        ks.len() <= vs.len(),
{
    let at = Seq::new(ks.len(), |i: int| (choose|j: int| 0 <= j < vs.len() && vs[j] == ks[i]) as usize);
    assert forall|i: int| 0 <= i < at.len() implies #[trigger] at[i] < vs.len() && vs[at[i] as int] == ks[i] by {
        assert(vs.contains(ks[i]));
        let j = choose|j: int| 0 <= j < vs.len() && vs[j] == ks[i];
        assert(at[i] == j as usize);
    }
    assert forall|a: int, b: int| 0 <= a < at.len() && 0 <= b < at.len() && a != b implies at[a] != at[b] by {
        assert(vs[at[a] as int] == ks[a]);
        assert(vs[at[b] as int] == ks[b]);
    }
    lemma_distinct_bounded(at, vs.len());
}

/// The entries of `v`, last first.
pub fn reversed(v: &Vec<LaneletKey>) -> (r: Vec<LaneletKey>)
    ensures
        r@ == v@.reverse(),
{
    let mut out: Vec<LaneletKey> = Vec::new();
    let mut i = v.len();
    while i > 0
        invariant
            i <= v@.len(),
            out@ == v@.subrange(i as int, v@.len() as int).reverse(),
        decreases i,
    {
        i = i - 1;
        out.push(v[i]);
        assert(v@.subrange(i as int, v@.len() as int).reverse() =~= v@.subrange(i + 1, v@.len() as int).reverse().push(v@[i as int]));
    }
    assert(v@.subrange(0, v@.len() as int) =~= v@);
    out
}

/// Appends the entries of `tail`.
pub fn append<T: Copy>(out: &mut Vec<T>, tail: &Vec<T>)
    ensures
        final(out)@ == old(out)@ + tail@,
{
    let ghost front = out@;
    let mut j: usize = 0;
    while j < tail.len()
        invariant
            j <= tail@.len(),
            out@ == front + tail@.take(j as int),
        decreases tail@.len() - j,
    {
        out.push(tail[j]);
        assert(tail@.take(j + 1) =~= tail@.take(j as int).push(tail@[j as int]));
        assert(front + tail@.take(j + 1) =~= (front + tail@.take(j as int)).push(tail@[j as int]));
        j = j + 1;
    }
    assert(tail@.take(tail@.len() as int) =~= tail@);
}


/// The lanelets at the given vertex indices.
pub open spec fn keys_of(vs: Seq<LaneletKey>, idx: Seq<usize>) -> Seq<LaneletKey> {
    idx.map_values(|x: usize| vs[x as int])
}

/// The lanelets of `rs`, each tagged with one relation and cost.
pub open spec fn tagged(ks: Seq<LaneletKey>, relation: RelationType, cost: u64) -> Seq<LaneletRelation> {
    ks.map_values(|k: LaneletKey| LaneletRelation { lanelet: k, relation, cost })
}

/// The first relation in `rs` that leads to `to`.
pub open spec fn first_to(rs: Seq<LaneletRelation>, to: LaneletKey) -> Option<LaneletRelation>
    decreases rs.len(),
{
    if rs.len() == 0 {
        None
    } else if rs[0].lanelet == to {
        Some(rs[0])
    } else {
        first_to(rs.drop_first(), to)
    }
}

/// Appends `ks`, each tagged with one relation and cost.
fn push_tagged(out: &mut Vec<LaneletRelation>, ks: &Vec<LaneletKey>, relation: RelationType, cost: u64)
    ensures
        final(out)@ == old(out)@ + tagged(ks@, relation, cost),
{
    let ghost front = out@;
    let mut j: usize = 0;
    while j < ks.len()
        invariant
            j <= ks@.len(),
            out@ == front + tagged(ks@.take(j as int), relation, cost),
        decreases ks@.len() - j,
    {
        out.push(LaneletRelation { lanelet: ks[j], relation, cost });
        assert(ks@.take(j + 1) =~= ks@.take(j as int).push(ks@[j as int]));
        assert(tagged(ks@.take(j + 1), relation, cost) =~= tagged(ks@.take(j as int), relation, cost).push(
            LaneletRelation { lanelet: ks@[j as int], relation, cost },
        ));
        assert(front + tagged(ks@.take(j + 1), relation, cost) =~= (front + tagged(ks@.take(j as int), relation, cost)).push(
            LaneletRelation { lanelet: ks@[j as int], relation, cost },
        ));
        j = j + 1;
    }
    assert(ks@.take(ks@.len() as int) =~= ks@);
}

/// The lanelets at the given vertex indices.
fn keys_at(vs: &Vec<LaneletKey>, idx: &Vec<usize>) -> (r: Vec<LaneletKey>)
    requires
        forall|i: int| 0 <= i < idx@.len() ==> #[trigger] idx@[i] < vs@.len(),
    ensures
        r@ == keys_of(vs@, idx@),
{
    let mut r: Vec<LaneletKey> = Vec::new();
    let mut j: usize = 0;
    while j < idx.len()
        invariant
            j <= idx@.len(),
            forall|i: int| 0 <= i < idx@.len() ==> #[trigger] idx@[i] < vs@.len(),
            r@ == keys_of(vs@, idx@.take(j as int)),
        decreases idx@.len() - j,
    {
        r.push(vs[idx[j]]);
        assert(idx@.take(j + 1) =~= idx@.take(j as int).push(idx@[j as int]));
        assert(keys_of(vs@, idx@.take(j + 1)) =~= keys_of(vs@, idx@.take(j as int)).push(vs@[idx@[j as int] as int]));
        j = j + 1;
    }
    assert(idx@.take(idx@.len() as int) =~= idx@);
    r
}

/// The debug form of a list of ids, `[1, 2]`.
pub open spec fn id_list(ids: Seq<i64>) -> Seq<char> {
    "["@ + joined(ids) + "]"@
}

/// The ids in decimal, separated by `, `.
pub open spec fn joined(ids: Seq<i64>) -> Seq<char>
    decreases ids.len(),
{
    if ids.len() == 0 {
        seq![]
    } else if ids.len() == 1 {
        signed_decimal(ids[0] as int)
    } else {
        joined(ids.drop_last()) + ", "@ + signed_decimal(ids.last() as int)
    }
}

/// The ids of the lanelets of a list of relations.
pub open spec fn ids_of(rs: Seq<LaneletRelation>) -> Seq<i64> {
    rs.map_values(|r: LaneletRelation| r.lanelet.id)
}

/// The texts of a list of strings.
pub open spec fn texts(v: Seq<String>) -> Seq<Seq<char>> {
    v.map_values(|s: String| s@)
}

/// One edge as callers see it: both ends as lanelets, then the relation,
/// the cost model and the cost.
pub open spec fn edge_row(vs: Seq<LaneletKey>, e: Edge) -> (i64, bool, i64, bool, RelationType, usize, u64) {
    (vs[e.from as int].id, vs[e.from as int].inverted, vs[e.to as int].id, vs[e.to as int].inverted, e.relation, e.cost_id, e.cost)
}

/// Appends the debug form of the ids of `rs`.
fn push_id_list(out: &mut String, rs: &Vec<LaneletRelation>)
    ensures
        final(out)@ == old(out)@ + id_list(ids_of(rs@)),
{
    let ghost front = old(out)@;
    out.append("[");
    let mut j: usize = 0;
    while j < rs.len()
        invariant
            j <= rs@.len(),
            out@ == front + "["@ + joined(ids_of(rs@.take(j as int))),
        decreases rs@.len() - j,
    {
        let ghost before = out@;
        if j > 0 {
            out.append(", ");
        }
        push_signed_decimal(out, rs[j].lanelet.id);
        proof {
            let t = ids_of(rs@.take(j + 1));
            assert(t.drop_last() =~= ids_of(rs@.take(j as int)));
            assert(t.last() == rs@[j as int].lanelet.id);
            if j == 0 {
                assert(t.len() == 1);
                assert(joined(ids_of(rs@.take(0))) =~= Seq::<char>::empty());
            }
            assert(out@ =~= front + "["@ + joined(t));
        }
        j = j + 1;
    }
    out.append("]");
    proof {
        assert(rs@.take(rs@.len() as int) =~= rs@);
        assert(out@ =~= front + id_list(ids_of(rs@)));
    }
}

/// More vertices than any memory can hold.
pub const MAX_VERTICES: u64 = 0x1000_0000_0000_0000;

/// The routing graph over a map's passable lanelets.
pub struct RoutingGraph {
    graph: Graph,
    vertices: Vec<LaneletKey>,
    cost_count: usize,
}

impl RoutingGraph {
    /// The vertices, in construction order.
    pub closed spec fn spec_vertices(&self) -> Seq<LaneletKey> {
        self.vertices@
    }

    /// The edges between them, by vertex index.
    pub closed spec fn spec_edges(&self) -> Seq<Edge> {
        self.graph.spec_edges()
    }

    pub closed spec fn spec_cost_count(&self) -> nat {
        self.cost_count as nat
    }

    /// One vertex per lanelet direction, and every edge between two of them.
    pub closed spec fn wf(&self) -> bool {
        &&& self.graph.wf()
        &&& self.graph.spec_vertex_count() == self.vertices@.len()
        &&& self.vertices@.len() <= usize::MAX
        &&& self.vertices@.len() <= MAX_VERTICES
        &&& self.vertices@.no_duplicates()
    }

    /// The vertices fit in memory and none repeats.
    pub proof fn lemma_vertices_distinct(&self)
        requires
            self.wf(),
        ensures
            self.spec_vertices().len() <= usize::MAX,
            self.spec_vertices().len() <= MAX_VERTICES,
            self.spec_vertices().no_duplicates(),
    {
    }

    /// Every edge joins two vertices.
    pub proof fn lemma_edges_in_range(&self)
        requires
            self.wf(),
        ensures
            forall|i: int| 0 <= i < self.spec_edges().len() ==> (#[trigger] self.spec_edges()[i]).from < self.spec_vertices().len()
                && self.spec_edges()[i].to < self.spec_vertices().len(),
    {
        self.graph.lemma_edges_in_range();
    }

    /// Where `k` stands among the vertices.
    pub open spec fn index_in(&self, k: LaneletKey) -> Option<int> {
        if self.spec_vertices().contains(k) {
            Some(choose|i: int| 0 <= i < self.spec_vertices().len() && self.spec_vertices()[i] == k)
        } else {
            None
        }
    }

    /// The graph's vertices and edges, as built.
    pub fn from_parts(graph: Graph, vertices: Vec<LaneletKey>, cost_count: usize) -> (r: RoutingGraph)
        requires
            graph.wf(),
            graph.spec_vertex_count() == vertices@.len(),
            vertices@.len() <= MAX_VERTICES,
            vertices@.no_duplicates(),
        ensures
            r.wf(),
            r.spec_vertices() == vertices@,
            r.spec_edges() == graph.spec_edges(),
            r.spec_cost_count() == cost_count,
    {
        let _ = vertices.len();
        RoutingGraph { graph, vertices, cost_count }
    }

    pub fn cost_count(&self) -> (r: usize)
        ensures
            r == self.spec_cost_count(),
    {
        self.cost_count
    }

    /// Every vertex, in construction order.
    pub fn vertices(&self) -> (r: &Vec<LaneletKey>)
        ensures
            r@ == self.spec_vertices(),
    {
        &self.vertices
    }

    /// The index of `k`'s vertex.
    fn index_of(&self, k: LaneletKey) -> (r: Option<usize>)
        requires
            self.wf(),
        ensures
            r matches Some(i) ==> self.index_in(k) == Some(i as int),
            r is None ==> self.index_in(k) is None,
    {
        let mut i: usize = 0;
        while i < self.vertices.len()
            invariant
                self.wf(),
                i <= self.vertices@.len(),
                forall|j: int| 0 <= j < i ==> self.vertices@[j] != k,
            decreases self.vertices@.len() - i,
        {
            if self.vertices[i] == k {
                proof {
                    assert(self.spec_vertices()[i as int] == k);
                    assert(self.spec_vertices().contains(k));
                    let c = choose|j: int| 0 <= j < self.spec_vertices().len() && self.spec_vertices()[j] == k;
                    assert(self.vertices@[c] == self.vertices@[i as int]);
                }
                return Some(i);
            }
            i = i + 1;
        }
        None
    }

    /// Whether `k` is a vertex of this graph.
    pub fn contains(&self, k: LaneletKey) -> (r: bool)
        requires
            self.wf(),
        ensures
            r == self.spec_vertices().contains(k),
    {
        self.index_of(k).is_some()
    }

    /// What one edge of the given relations leads to from `k`.
    pub open spec fn spec_neighbours(&self, k: LaneletKey, relations: RelationType, cost_id: usize) -> Seq<LaneletRelation> {
        match self.index_in(k) {
            Some(i) => related(self.spec_vertices(), filter_out(self.spec_edges(), i as usize, relations, cost_id), false),
            None => seq![],
        }
    }

    /// What one edge of the given relations comes from, into `k`.
    pub open spec fn spec_predecessors(&self, k: LaneletKey, relations: RelationType, cost_id: usize) -> Seq<LaneletRelation> {
        match self.index_in(k) {
            Some(i) => related(self.spec_vertices(), filter_in(self.spec_edges(), i as usize, relations, cost_id), true),
            None => seq![],
        }
    }

    /// The lanelets at the far ends of the given edges out of, or into,
    /// vertex `v`.
    fn relate(&self, v: usize, q: Query) -> (r: Vec<LaneletRelation>)
        requires
            self.wf(),
        ensures
            r@ == related(self.spec_vertices(), steps_from(self.spec_edges(), q, v), q.backwards),
    {
        let es = self.graph.steps(v, q);
        let ghost s = self.spec_edges();
        let ghost n = self.spec_vertices().len();
        proof {
            self.lemma_edges_in_range();
        }
        let mut r: Vec<LaneletRelation> = Vec::new();
        let mut j: usize = 0;
        while j < es.len()
            invariant
                self.wf(),
                s == self.spec_edges(),
                n == self.spec_vertices().len(),
                forall|i: int| 0 <= i < s.len() ==> (#[trigger] s[i]).from < n && s[i].to < n,
                es@ == steps_from(s, q, v),
                j <= es@.len(),
                r@ == related(self.spec_vertices(), es@.take(j as int), q.backwards),
            decreases es@.len() - j,
        {
            let e = es[j];
            proof {
                lemma_steps_in_range(s, q, v, n, j as int);
            }
            let w = if q.backwards { e.from } else { e.to };
            r.push(LaneletRelation { lanelet: self.vertices[w], relation: e.relation, cost: e.cost });
            assert(es@.take(j + 1) =~= es@.take(j as int).push(e));
            assert(related(self.spec_vertices(), es@.take(j + 1), q.backwards) =~= related(
                self.spec_vertices(),
                es@.take(j as int),
                q.backwards,
            ).push(LaneletRelation { lanelet: self.vertices@[w as int], relation: e.relation, cost: e.cost }));
            j = j + 1;
        }
        assert(es@.take(es@.len() as int) =~= es@);
        r
    }

    /// Neighbours reachable by one edge of any of the given relations.
    pub fn neighbours(&self, k: LaneletKey, relations: RelationType, cost_id: usize) -> (r: Vec<LaneletRelation>)
        requires
            self.wf(),
        ensures
            r@ == self.spec_neighbours(k, relations, cost_id),
    {
        match self.index_of(k) {
            Some(i) => {
                let q = Query { relations, cost_id, backwards: false };
                let r = self.relate(i, q);
                assert(filter_out(self.spec_edges(), i, relations, cost_id) == steps_from(self.spec_edges(), q, i));
                r
            },
            None => Vec::new(),
        }
    }

    /// Lanelets with one edge of any of the given relations into `k`.
    pub fn predecessors(&self, k: LaneletKey, relations: RelationType, cost_id: usize) -> (r: Vec<LaneletRelation>)
        requires
            self.wf(),
        ensures
            r@ == self.spec_predecessors(k, relations, cost_id),
    {
        match self.index_of(k) {
            Some(i) => {
                let q = Query { relations, cost_id, backwards: true };
                let r = self.relate(i, q);
                assert(filter_in(self.spec_edges(), i, relations, cost_id) == steps_from(self.spec_edges(), q, i));
                r
            },
            None => Vec::new(),
        }
    }

    /// The lanelets of a list of relations.
    fn lanelets(rs: &Vec<LaneletRelation>) -> (r: Vec<LaneletKey>)
        ensures
            r@ == lanelets_of(rs@),
    {
        let mut r: Vec<LaneletKey> = Vec::new();
        let mut j: usize = 0;
        while j < rs.len()
            invariant
                j <= rs@.len(),
                r@ == lanelets_of(rs@.take(j as int)),
            decreases rs@.len() - j,
        {
            r.push(rs[j].lanelet);
            assert(rs@.take(j + 1) =~= rs@.take(j as int).push(rs@[j as int]));
            assert(lanelets_of(rs@.take(j + 1)) =~= lanelets_of(rs@.take(j as int)).push(rs@[j as int].lanelet));
            j = j + 1;
        }
        assert(rs@.take(rs@.len() as int) =~= rs@);
        r
    }

    /// Where one may drive on to from `k`.
    pub fn following_relations(&self, k: LaneletKey, with_lane_changes: bool) -> (r: Vec<LaneletRelation>)
        requires
            self.wf(),
        ensures
            r@ == self.spec_neighbours(k, drivable(with_lane_changes), 0),
    {
        self.neighbours(k, drivable_relations(with_lane_changes), 0)
    }

    pub fn following(&self, k: LaneletKey, with_lane_changes: bool) -> (r: Vec<LaneletKey>)
        requires
            self.wf(),
        ensures
            r@ == lanelets_of(self.spec_neighbours(k, drivable(with_lane_changes), 0)),
    {
        Self::lanelets(&self.following_relations(k, with_lane_changes))
    }

    /// Where one may have come from into `k`.
    pub fn previous_relations(&self, k: LaneletKey, with_lane_changes: bool) -> (r: Vec<LaneletRelation>)
        requires
            self.wf(),
        ensures
            r@ == self.spec_predecessors(k, drivable(with_lane_changes), 0),
    {
        self.predecessors(k, drivable_relations(with_lane_changes), 0)
    }

    pub fn previous(&self, k: LaneletKey, with_lane_changes: bool) -> (r: Vec<LaneletKey>)
        requires
            self.wf(),
        ensures
            r@ == lanelets_of(self.spec_predecessors(k, drivable(with_lane_changes), 0)),
    {
        Self::lanelets(&self.previous_relations(k, with_lane_changes))
    }

    /// The first lanelet one edge of `relation` leads to, if any.
    pub open spec fn spec_single(&self, k: LaneletKey, relation: RelationType, cost_id: usize) -> Option<LaneletKey> {
        let found = self.spec_neighbours(k, relation, cost_id);
        if found.len() > 0 { Some(found[0].lanelet) } else { None }
    }

    fn single(&self, k: LaneletKey, relation: RelationType, cost_id: usize) -> (r: Option<LaneletKey>)
        requires
            self.wf(),
        ensures
            r == self.spec_single(k, relation, cost_id),
            r matches Some(x) ==> self.spec_vertices().contains(x),
    {
        let found = self.neighbours(k, relation, cost_id);
        if found.len() > 0 {
            proof {
                let i = self.index_in(k).unwrap();
                let s = self.spec_edges();
                let q = Query { relations: relation, cost_id, backwards: false };
                self.lemma_edges_in_range();
                lemma_steps_in_range(s, q, i as usize, self.spec_vertices().len(), 0);
                assert(filter_out(s, i as usize, relation, cost_id) == steps_from(s, q, i as usize));
                let e = steps_from(s, q, i as usize)[0];
                assert(found@[0].lanelet == self.spec_vertices()[e.to as int]);
            }
            Some(found[0].lanelet)
        } else {
            None
        }
    }

    pub fn left(&self, k: LaneletKey, cost_id: usize) -> (r: Option<LaneletKey>)
        requires
            self.wf(),
        ensures
            r == self.spec_single(k, RelationType(LEFT), cost_id),
    {
        self.single(k, RelationType(LEFT), cost_id)
    }

    pub fn right(&self, k: LaneletKey, cost_id: usize) -> (r: Option<LaneletKey>)
        requires
            self.wf(),
        ensures
            r == self.spec_single(k, RelationType(RIGHT), cost_id),
    {
        self.single(k, RelationType(RIGHT), cost_id)
    }

    pub fn adjacent_left(&self, k: LaneletKey, cost_id: usize) -> (r: Option<LaneletKey>)
        requires
            self.wf(),
        ensures
            r == self.spec_single(k, RelationType(ADJACENT_LEFT), cost_id),
    {
        self.single(k, RelationType(ADJACENT_LEFT), cost_id)
    }

    pub fn adjacent_right(&self, k: LaneletKey, cost_id: usize) -> (r: Option<LaneletKey>)
        requires
            self.wf(),
        ensures
            r == self.spec_single(k, RelationType(ADJACENT_RIGHT), cost_id),
    {
        self.single(k, RelationType(ADJACENT_RIGHT), cost_id)
    }

    /// `out` is the chain of single steps of `relation` from `k`: each entry is
    /// the step from the one before it (the first, from `k`), none repeats,
    /// and it ends where there is no step or the step would repeat an entry.
    pub open spec fn is_chain(&self, k: LaneletKey, relation: RelationType, cost_id: usize, out: Seq<LaneletKey>) -> bool {
        &&& forall|i: int| 0 <= i < out.len() ==> self.spec_single(
            if i == 0 { k } else { out[i - 1] },
            relation,
            cost_id,
        ) == Some(#[trigger] out[i])
        &&& out.no_duplicates()
        &&& match self.spec_single(if out.len() == 0 { k } else { out.last() }, relation, cost_id) {
            Some(next) => out.contains(next),
            None => true,
        }
    }

    /// `out` starts the chain of single steps of `relation` from `k`, and holds
    /// vertices only.
    pub open spec fn chain_prefix(&self, k: LaneletKey, relation: RelationType, cost_id: usize, out: Seq<LaneletKey>) -> bool {
        &&& forall|i: int| 0 <= i < out.len() ==> self.spec_single(
            if i == 0 { k } else { out[i - 1] },
            relation,
            cost_id,
        ) == Some(#[trigger] out[i])
        &&& out.no_duplicates()
        &&& forall|i: int| 0 <= i < out.len() ==> self.spec_vertices().contains(#[trigger] out[i])
    }

    /// A step to a vertex not yet on the chain extends it.
    #[verifier::spinoff_prover]
    proof fn lemma_chain_step(&self, k: LaneletKey, relation: RelationType, cost_id: usize, out: Seq<LaneletKey>, x: LaneletKey)
        requires
            self.wf(),
            self.chain_prefix(k, relation, cost_id, out),
            self.spec_single(if out.len() == 0 { k } else { out.last() }, relation, cost_id) == Some(x),
            self.spec_vertices().contains(x),
            !out.contains(x),
        ensures
            self.chain_prefix(k, relation, cost_id, out.push(x)),
            out.push(x).len() <= self.spec_vertices().len(),
    {
        let t = out.push(x);
        lemma_push_distinct(out, x);
        assert forall|i: int| 0 <= i < t.len() implies self.spec_single(
            if i == 0 { k } else { t[i - 1] },
            relation,
            cost_id,
        ) == Some(#[trigger] t[i]) by {
            if i < out.len() {
                assert(t[i] == out[i]);
                if i > 0 {
                    assert(t[i - 1] == out[i - 1]);
                }
            } else if i > 0 {
                assert(t[i - 1] == out.last());
            }
        }
        assert forall|i: int| 0 <= i < t.len() implies self.spec_vertices().contains(#[trigger] t[i]) by {
            if i < out.len() {
                assert(t[i] == out[i]);
            }
        }
        lemma_distinct_within(self.spec_vertices(), t);
    }

    /// The chain grown from `out` by at most `fuel` more steps.
    pub open spec fn chain_from(&self, k: LaneletKey, relation: RelationType, cost_id: usize, out: Seq<LaneletKey>, fuel: nat) -> Seq<LaneletKey>
        decreases fuel,
    {
        match self.spec_single(if out.len() == 0 { k } else { out.last() }, relation, cost_id) {
            Some(x) => if out.contains(x) || fuel == 0 {
                out
            } else {
                self.chain_from(k, relation, cost_id, out.push(x), (fuel - 1) as nat)
            },
            None => out,
        }
    }

    /// The chain of single steps of `relation` from `k`.
    pub open spec fn spec_chain(&self, k: LaneletKey, relation: RelationType, cost_id: usize) -> Seq<LaneletKey> {
        self.chain_from(k, relation, cost_id, seq![], self.spec_vertices().len())
    }

    /// Growing a chain prefix until it stops gives the chain.
    proof fn lemma_chain_from(&self, k: LaneletKey, relation: RelationType, cost_id: usize, out: Seq<LaneletKey>, fuel: nat)
        requires
            self.wf(),
            self.chain_prefix(k, relation, cost_id, out),
            out.len() + fuel == self.spec_vertices().len(),
        ensures
            self.is_chain(k, relation, cost_id, self.chain_from(k, relation, cost_id, out, fuel)),
        decreases fuel,
    {
        match self.spec_single(if out.len() == 0 { k } else { out.last() }, relation, cost_id) {
            Some(x) => {
                if !out.contains(x) {
                    self.lemma_single_is_vertex(if out.len() == 0 { k } else { out.last() }, relation, cost_id);
                    self.lemma_chain_step(k, relation, cost_id, out, x);
                    self.lemma_chain_from(k, relation, cost_id, out.push(x), (fuel - 1) as nat);
                }
            },
            None => {},
        }
    }

    /// A single step always lands on a vertex.
    pub proof fn lemma_single_is_vertex(&self, k: LaneletKey, relation: RelationType, cost_id: usize)
        requires
            self.wf(),
        ensures
            self.spec_single(k, relation, cost_id) matches Some(x) ==> self.spec_vertices().contains(x),
    {
        if self.spec_single(k, relation, cost_id) is Some {
            let i = self.index_in(k).unwrap();
            let s = self.spec_edges();
            let q = Query { relations: relation, cost_id, backwards: false };
            self.lemma_edges_in_range();
            lemma_steps_in_range(s, q, i as usize, self.spec_vertices().len(), 0);
            assert(filter_out(s, i as usize, relation, cost_id) == steps_from(s, q, i as usize));
            let e = steps_from(s, q, i as usize)[0];
            assert(self.spec_neighbours(k, relation, cost_id)[0].lanelet == self.spec_vertices()[e.to as int]);
        }
    }

    /// There is only one chain: its definition pins every entry.
    pub proof fn lemma_chain_unique(&self, k: LaneletKey, relation: RelationType, cost_id: usize, a: Seq<LaneletKey>, b: Seq<LaneletKey>)
        requires
            self.is_chain(k, relation, cost_id, a),
            self.is_chain(k, relation, cost_id, b),
        ensures
            a == b,
    {
        let m = if a.len() < b.len() { a.len() } else { b.len() };
        assert forall|i: int| 0 <= i < m implies a[i] == b[i] by {
            self.lemma_chain_agree(k, relation, cost_id, a, b, i);
        }
        self.lemma_chain_not_shorter(k, relation, cost_id, a, b);
        self.lemma_chain_not_shorter(k, relation, cost_id, b, a);
        assert(a =~= b);
    }

    proof fn lemma_chain_agree(&self, k: LaneletKey, relation: RelationType, cost_id: usize, a: Seq<LaneletKey>, b: Seq<LaneletKey>, i: int)
        requires
            self.is_chain(k, relation, cost_id, a),
            self.is_chain(k, relation, cost_id, b),
            0 <= i < a.len(),
            i < b.len(),
        ensures
            a[i] == b[i],
        decreases i,
    {
        if i > 0 {
            self.lemma_chain_agree(k, relation, cost_id, a, b, i - 1);
        }
        assert(self.spec_single(if i == 0 { k } else { a[i - 1] }, relation, cost_id) == Some(a[i]));
        assert(self.spec_single(if i == 0 { k } else { b[i - 1] }, relation, cost_id) == Some(b[i]));
    }

    proof fn lemma_chain_not_shorter(&self, k: LaneletKey, relation: RelationType, cost_id: usize, a: Seq<LaneletKey>, b: Seq<LaneletKey>)
        requires
            self.is_chain(k, relation, cost_id, a),
            self.is_chain(k, relation, cost_id, b),
        ensures
            a.len() >= b.len(),
    {
        if a.len() < b.len() {
            let n = a.len() as int;
            assert forall|i: int| 0 <= i < n implies a[i] == b[i] by {
                self.lemma_chain_agree(k, relation, cost_id, a, b, i);
            }
            let last = if n == 0 { k } else { a.last() };
            assert(last == (if n == 0 { k } else { b[n - 1] }));
            assert(self.spec_single(if n == 0 { k } else { b[n - 1] }, relation, cost_id) == Some(b[n]));
            assert(a.contains(b[n]));
            let j = choose|j: int| 0 <= j < a.len() && a[j] == b[n];
            assert(a[j] == b[j]);
        }
    }

    /// A chain only ever holds vertices.
    pub proof fn lemma_chain_from_vertices(&self, k: LaneletKey, relation: RelationType, cost_id: usize, out: Seq<LaneletKey>, fuel: nat)
        requires
            self.wf(),
            forall|i: int| 0 <= i < out.len() ==> self.spec_vertices().contains(#[trigger] out[i]),
        ensures
            forall|i: int| 0 <= i < self.chain_from(k, relation, cost_id, out, fuel).len() ==>
                self.spec_vertices().contains(#[trigger] self.chain_from(k, relation, cost_id, out, fuel)[i]),
        decreases fuel,
    {
        match self.spec_single(if out.len() == 0 { k } else { out.last() }, relation, cost_id) {
            Some(x) => {
                if out.contains(x) || fuel == 0 {
                    assert(self.chain_from(k, relation, cost_id, out, fuel) == out);
                } else {
                    self.lemma_single_is_vertex(if out.len() == 0 { k } else { out.last() }, relation, cost_id);
                    let t = out.push(x);
                    assert(self.chain_from(k, relation, cost_id, out, fuel) == self.chain_from(k, relation, cost_id, t, (fuel - 1) as nat));
                    assert forall|i: int| 0 <= i < t.len() implies self.spec_vertices().contains(#[trigger] t[i]) by {
                        if i < out.len() {
                            assert(t[i] == out[i]);
                        }
                    }
                    self.lemma_chain_from_vertices(k, relation, cost_id, t, (fuel - 1) as nat);
                }
            },
            None => {
                assert(self.chain_from(k, relation, cost_id, out, fuel) == out);
            },
        }
    }

    /// A side walk only ever reaches vertices.
    pub proof fn lemma_side_walk_vertices(&self, k: LaneletKey, changeable: RelationType, adjacent: RelationType, cost_id: usize, rounds: nat)
        requires
            self.wf(),
        ensures
            forall|i: int| 0 <= i < self.side_walk(k, changeable, adjacent, cost_id, rounds).len() ==>
                self.spec_vertices().contains(#[trigger] self.side_walk(k, changeable, adjacent, cost_id, rounds)[i].lanelet),
        decreases rounds,
    {
        if rounds > 0 {
            let run = self.spec_chain(k, changeable, cost_id);
            let middle = self.run_end(k, changeable, cost_id);
            let beside = self.spec_chain(middle, adjacent, cost_id);
            let end = self.round_end(k, changeable, adjacent, cost_id);
            self.lemma_chain_from_vertices(k, changeable, cost_id, seq![], self.spec_vertices().len());
            self.lemma_chain_from_vertices(middle, adjacent, cost_id, seq![], self.spec_vertices().len());
            self.lemma_side_walk_vertices(end, changeable, adjacent, cost_id, (rounds - 1) as nat);
            let here = self.round(k, changeable, adjacent, cost_id);
            let all = self.side_walk(k, changeable, adjacent, cost_id, rounds);
            let rest = self.side_walk(end, changeable, adjacent, cost_id, (rounds - 1) as nat);
            assert forall|i: int| 0 <= i < all.len() implies self.spec_vertices().contains(#[trigger] all[i].lanelet) by {
                if i < run.len() {
                    assert(all[i] == here[i]);
                    assert(here[i].lanelet == run[i]);
                } else if i < run.len() + beside.len() {
                    assert(all[i] == here[i]);
                    assert(here[i].lanelet == beside[i - run.len()]);
                } else {
                    assert(all[i] == rest[i - here.len()]);
                }
            }
        }
    }

    /// Every lanelet reached by stepping along `relation` again and again.
    fn chain(&self, k: LaneletKey, relation: RelationType, cost_id: usize) -> (r: Vec<LaneletKey>)
        requires
            self.wf(),
        ensures
            self.is_chain(k, relation, cost_id, r@),
            r@ == self.spec_chain(k, relation, cost_id),
    {
        proof {
            self.lemma_chain_from(k, relation, cost_id, seq![], self.spec_vertices().len());
        }
        let mut out: Vec<LaneletKey> = Vec::new();
        let mut next = self.single(k, relation, cost_id);
        while next.is_some() && !has_key(&out, next.unwrap())
            invariant
                self.wf(),
                self.chain_prefix(k, relation, cost_id, out@),
                next == self.spec_single(if out@.len() == 0 { k } else { out@.last() }, relation, cost_id),
                next matches Some(x) ==> self.spec_vertices().contains(x),
            decreases self.spec_vertices().len() - out@.len(),
        {
            let x = next.unwrap();
            proof {
                self.lemma_chain_step(k, relation, cost_id, out@, x);
            }
            out.push(x);
            next = self.single(x, relation, cost_id);
        }
        proof {
            self.lemma_chain_unique(k, relation, cost_id, out@, self.spec_chain(k, relation, cost_id));
        }
        out
    }

    /// Every lanelet to the left, nearest first, that a lane change reaches.
    pub fn lefts(&self, k: LaneletKey, cost_id: usize) -> (r: Vec<LaneletKey>)
        requires
            self.wf(),
        ensures
            self.is_chain(k, RelationType(LEFT), cost_id, r@),
    {
        self.chain(k, RelationType(LEFT), cost_id)
    }

    /// Every lanelet to the right, nearest first, that a lane change reaches.
    pub fn rights(&self, k: LaneletKey, cost_id: usize) -> (r: Vec<LaneletKey>)
        requires
            self.wf(),
        ensures
            self.is_chain(k, RelationType(RIGHT), cost_id, r@),
    {
        self.chain(k, RelationType(RIGHT), cost_id)
    }

    /// Every lanelet lying to the left, nearest first.
    pub fn adjacent_lefts(&self, k: LaneletKey, cost_id: usize) -> (r: Vec<LaneletKey>)
        requires
            self.wf(),
        ensures
            self.is_chain(k, RelationType(ADJACENT_LEFT), cost_id, r@),
    {
        self.chain(k, RelationType(ADJACENT_LEFT), cost_id)
    }

    /// Every lanelet lying to the right, nearest first.
    pub fn adjacent_rights(&self, k: LaneletKey, cost_id: usize) -> (r: Vec<LaneletKey>)
        requires
            self.wf(),
        ensures
            self.is_chain(k, RelationType(ADJACENT_RIGHT), cost_id, r@),
    {
        self.chain(k, RelationType(ADJACENT_RIGHT), cost_id)
    }

    /// Everything alongside, left to right, with `k` itself in the middle.
    pub fn besides(&self, k: LaneletKey, cost_id: usize) -> (r: Vec<LaneletKey>)
        requires
            self.wf(),
        ensures
            exists|ls: Seq<LaneletKey>, rs: Seq<LaneletKey>|
                self.is_chain(k, RelationType(LEFT), cost_id, ls) && self.is_chain(k, RelationType(RIGHT), cost_id, rs)
                    && r@ == ls.reverse().push(k) + rs,
    {
        let ls = self.lefts(k, cost_id);
        let rs = self.rights(k, cost_id);
        let mut out = reversed(&ls);
        out.push(k);
        append(&mut out, &rs);
        assert(self.is_chain(k, RelationType(LEFT), cost_id, ls@) && self.is_chain(k, RelationType(RIGHT), cost_id, rs@)
            && out@ == ls@.reverse().push(k) + rs@);
        out
    }

    /// Where the run of lane changes from `k` ends, or `k` itself.
    pub open spec fn run_end(&self, k: LaneletKey, changeable: RelationType, cost_id: usize) -> LaneletKey {
        let run = self.spec_chain(k, changeable, cost_id);
        if run.len() > 0 { run.last() } else { k }
    }

    /// Where one round on one side ends: the end of the run of merely
    /// adjacent lanelets after the run of lane changes.
    pub open spec fn round_end(&self, k: LaneletKey, changeable: RelationType, adjacent: RelationType, cost_id: usize) -> LaneletKey {
        let middle = self.run_end(k, changeable, cost_id);
        let beside = self.spec_chain(middle, adjacent, cost_id);
        if beside.len() > 0 { beside.last() } else { middle }
    }

    /// What one round from `k` finds: the run of lane changes (cost 0), then
    /// the run of merely adjacent lanelets beyond it (cost 1).
    pub open spec fn round(&self, k: LaneletKey, changeable: RelationType, adjacent: RelationType, cost_id: usize) -> Seq<LaneletRelation> {
        tagged(self.spec_chain(k, changeable, cost_id), changeable, 0) + tagged(
            self.spec_chain(self.run_end(k, changeable, cost_id), adjacent, cost_id),
            adjacent,
            1,
        )
    }

    /// The alternating runs of lane-changeable and merely adjacent neighbours
    /// on one side of `k`, walking at most `rounds` rounds.
    pub open spec fn side_walk(&self, k: LaneletKey, changeable: RelationType, adjacent: RelationType, cost_id: usize, rounds: nat) -> Seq<LaneletRelation>
        decreases rounds,
    {
        if rounds == 0 {
            seq![]
        } else if self.round(k, changeable, adjacent, cost_id).len() == 0 {
            seq![]
        } else {
            self.round(k, changeable, adjacent, cost_id) + self.side_walk(
                self.round_end(k, changeable, adjacent, cost_id),
                changeable,
                adjacent,
                cost_id,
                (rounds - 1) as nat,
            )
        }
    }

    /// Where round `i` of a side walk from `k` starts.
    pub open spec fn walk_start(&self, k: LaneletKey, changeable: RelationType, adjacent: RelationType, cost_id: usize, i: nat) -> LaneletKey
        decreases i,
    {
        if i == 0 {
            k
        } else {
            self.walk_start(self.round_end(k, changeable, adjacent, cost_id), changeable, adjacent, cost_id, (i - 1) as nat)
        }
    }

    /// The side walk from `k` ends by itself, with a round that finds
    /// nothing, within `rounds` rounds.
    pub open spec fn walk_stops(&self, k: LaneletKey, changeable: RelationType, adjacent: RelationType, cost_id: usize, rounds: nat) -> bool
        decreases rounds,
    {
        rounds > 0 && (self.round(k, changeable, adjacent, cost_id).len() == 0 || self.walk_stops(
            self.round_end(k, changeable, adjacent, cost_id),
            changeable,
            adjacent,
            cost_id,
            (rounds - 1) as nat,
        ))
    }

    /// The side walk from `k` ends by itself, after some number of rounds.
    pub open spec fn side_walk_ends(&self, k: LaneletKey, changeable: RelationType, adjacent: RelationType, cost_id: usize) -> bool {
        exists|rounds: nat| #[trigger] self.walk_stops(k, changeable, adjacent, cost_id, rounds)
    }

    /// The side walks from `k` on both sides end by themselves.
    pub open spec fn side_walks_end(&self, k: LaneletKey, cost_id: usize) -> bool {
        &&& self.side_walk_ends(k, RelationType(LEFT), RelationType(ADJACENT_LEFT), cost_id)
        &&& self.side_walk_ends(k, RelationType(RIGHT), RelationType(ADJACENT_RIGHT), cost_id)
    }

    /// A side walk that ends by itself, after however many rounds, ends
    /// within as many rounds as the graph has vertices and one more; and
    /// once it has ended, more rounds add nothing. So the walk of
    /// `left_relations` and `right_relations` is the whole walk wherever the
    /// walk ends at all.
    pub proof fn lemma_side_walk_settles(&self, k: LaneletKey, changeable: RelationType, adjacent: RelationType, cost_id: usize, rounds: nat)
        requires
            self.wf(),
            self.walk_stops(k, changeable, adjacent, cost_id, rounds),
        ensures
            self.walk_stops(k, changeable, adjacent, cost_id, self.spec_vertices().len() + 1),
            self.side_walk(k, changeable, adjacent, cost_id, rounds) == self.side_walk(
                k,
                changeable,
                adjacent,
                cost_id,
                self.spec_vertices().len() + 1,
            ),
    {
        let n = self.spec_vertices().len();
        self.lemma_walk_stops_at(k, changeable, adjacent, cost_id, rounds);
        let i0 = choose|i: nat| i < rounds && #[trigger] self.round(self.walk_start(k, changeable, adjacent, cost_id, i), changeable, adjacent, cost_id).len() == 0;
        let i = self.lemma_empty_round_early(k, changeable, adjacent, cost_id, i0);
        self.lemma_walk_stops_at(k, changeable, adjacent, cost_id, n + 1);
        if rounds <= n + 1 {
            self.lemma_side_walk_more_rounds(k, changeable, adjacent, cost_id, rounds, n + 1);
        } else {
            self.lemma_side_walk_more_rounds(k, changeable, adjacent, cost_id, n + 1, rounds);
        }
    }

    /// A walk ends within `rounds` rounds exactly when one of its first
    /// `rounds` rounds finds nothing.
    proof fn lemma_walk_stops_at(&self, k: LaneletKey, changeable: RelationType, adjacent: RelationType, cost_id: usize, rounds: nat)
        ensures
            self.walk_stops(k, changeable, adjacent, cost_id, rounds) <==> exists|i: nat| i < rounds
                && #[trigger] self.round(self.walk_start(k, changeable, adjacent, cost_id, i), changeable, adjacent, cost_id).len() == 0,
        decreases rounds,
    {
        if rounds > 0 {
            let next = self.round_end(k, changeable, adjacent, cost_id);
            self.lemma_walk_stops_at(next, changeable, adjacent, cost_id, (rounds - 1) as nat);
            if self.walk_stops(k, changeable, adjacent, cost_id, rounds) {
                if self.round(k, changeable, adjacent, cost_id).len() == 0 {
                    assert(self.walk_start(k, changeable, adjacent, cost_id, 0) == k);
                } else {
                    let j = choose|j: nat| j < rounds - 1
                        && #[trigger] self.round(self.walk_start(next, changeable, adjacent, cost_id, j), changeable, adjacent, cost_id).len() == 0;
                    assert(self.walk_start(k, changeable, adjacent, cost_id, j + 1) == self.walk_start(next, changeable, adjacent, cost_id, j));
                }
            }
            if exists|i: nat| i < rounds
                && #[trigger] self.round(self.walk_start(k, changeable, adjacent, cost_id, i), changeable, adjacent, cost_id).len() == 0 {
                let i = choose|i: nat| i < rounds
                    && #[trigger] self.round(self.walk_start(k, changeable, adjacent, cost_id, i), changeable, adjacent, cost_id).len() == 0;
                if i > 0 {
                    assert(self.walk_start(k, changeable, adjacent, cost_id, i) == self.walk_start(next, changeable, adjacent, cost_id, (i - 1) as nat));
                }
            }
        }
    }

    /// Once a walk has ended, more rounds add nothing.
    proof fn lemma_side_walk_more_rounds(&self, k: LaneletKey, changeable: RelationType, adjacent: RelationType, cost_id: usize, rounds: nat, more: nat)
        requires
            self.walk_stops(k, changeable, adjacent, cost_id, rounds),
            rounds <= more,
        ensures
            self.side_walk(k, changeable, adjacent, cost_id, rounds) == self.side_walk(k, changeable, adjacent, cost_id, more),
        decreases rounds,
    {
        if self.round(k, changeable, adjacent, cost_id).len() != 0 {
            self.lemma_side_walk_more_rounds(
                self.round_end(k, changeable, adjacent, cost_id),
                changeable,
                adjacent,
                cost_id,
                (rounds - 1) as nat,
                (more - 1) as nat,
            );
        }
    }

    /// The round after round `i` starts where round `i` ends.
    proof fn lemma_walk_start_next(&self, k: LaneletKey, changeable: RelationType, adjacent: RelationType, cost_id: usize, i: nat)
        ensures
            self.walk_start(k, changeable, adjacent, cost_id, i + 1) == self.round_end(
                self.walk_start(k, changeable, adjacent, cost_id, i),
                changeable,
                adjacent,
                cost_id,
            ),
        decreases i,
    {
        let next = self.round_end(k, changeable, adjacent, cost_id);
        assert(self.walk_start(k, changeable, adjacent, cost_id, i + 1) == self.walk_start(next, changeable, adjacent, cost_id, i));
        if i > 0 {
            self.lemma_walk_start_next(next, changeable, adjacent, cost_id, (i - 1) as nat);
            assert(self.walk_start(k, changeable, adjacent, cost_id, i) == self.walk_start(next, changeable, adjacent, cost_id, (i - 1) as nat));
        } else {
            assert(self.walk_start(next, changeable, adjacent, cost_id, 0) == next);
        }
    }

    /// A round that finds something ends at a vertex.
    proof fn lemma_round_ends_at_vertex(&self, k: LaneletKey, changeable: RelationType, adjacent: RelationType, cost_id: usize)
        requires
            self.wf(),
            self.round(k, changeable, adjacent, cost_id).len() > 0,
        ensures
            self.spec_vertices().contains(self.round_end(k, changeable, adjacent, cost_id)),
    {
        let run = self.spec_chain(k, changeable, cost_id);
        let middle = self.run_end(k, changeable, cost_id);
        let beside = self.spec_chain(middle, adjacent, cost_id);
        self.lemma_chain_from_vertices(k, changeable, cost_id, seq![], self.spec_vertices().len());
        self.lemma_chain_from_vertices(middle, adjacent, cost_id, seq![], self.spec_vertices().len());
        if beside.len() > 0 {
            assert(self.spec_vertices().contains(beside[beside.len() - 1]));
        } else {
            assert(run.len() > 0);
            assert(self.spec_vertices().contains(run[run.len() - 1]));
        }
    }

    /// Where rounds `a` and `b` start alike, every later round starts as one
    /// of those from `a` up to `b` does.
    proof fn lemma_walk_repeats(&self, k: LaneletKey, changeable: RelationType, adjacent: RelationType, cost_id: usize, a: nat, b: nat, i: nat)
        requires
            a < b,
            self.walk_start(k, changeable, adjacent, cost_id, a) == self.walk_start(k, changeable, adjacent, cost_id, b),
            a <= i,
        ensures
            exists|j: nat| a <= j < b && self.walk_start(k, changeable, adjacent, cost_id, j) == self.walk_start(k, changeable, adjacent, cost_id, i),
        decreases i,
    {
        if i < b {
            assert(self.walk_start(k, changeable, adjacent, cost_id, i) == self.walk_start(k, changeable, adjacent, cost_id, i));
        } else {
            let p = (b - a) as nat;
            self.lemma_walk_shift(k, changeable, adjacent, cost_id, a, b, (i - b) as nat);
            assert(self.walk_start(k, changeable, adjacent, cost_id, (i - p) as nat) == self.walk_start(k, changeable, adjacent, cost_id, i));
            self.lemma_walk_repeats(k, changeable, adjacent, cost_id, a, b, (i - p) as nat);
        }
    }

    /// Rounds that start alike are followed by rounds that start alike.
    proof fn lemma_walk_shift(&self, k: LaneletKey, changeable: RelationType, adjacent: RelationType, cost_id: usize, a: nat, b: nat, t: nat)
        requires
            self.walk_start(k, changeable, adjacent, cost_id, a) == self.walk_start(k, changeable, adjacent, cost_id, b),
        ensures
            self.walk_start(k, changeable, adjacent, cost_id, a + t) == self.walk_start(k, changeable, adjacent, cost_id, b + t),
        decreases t,
    {
        if t > 0 {
            self.lemma_walk_shift(k, changeable, adjacent, cost_id, a, b, (t - 1) as nat);
            self.lemma_walk_start_next(k, changeable, adjacent, cost_id, (a + t - 1) as nat);
            self.lemma_walk_start_next(k, changeable, adjacent, cost_id, (b + t - 1) as nat);
        }
    }

    /// A round that finds nothing comes, if at all, among the first
    /// `n + 1` rounds, `n` the number of vertices.
    proof fn lemma_empty_round_early(&self, k: LaneletKey, changeable: RelationType, adjacent: RelationType, cost_id: usize, i0: nat) -> (i: nat)
        requires
            self.wf(),
            self.round(self.walk_start(k, changeable, adjacent, cost_id, i0), changeable, adjacent, cost_id).len() == 0,
        ensures
            i <= self.spec_vertices().len(),
            self.round(self.walk_start(k, changeable, adjacent, cost_id, i), changeable, adjacent, cost_id).len() == 0,
    {
        let n = self.spec_vertices().len();
        if i0 <= n {
            return i0;
        }
        if exists|j: nat| j <= n && #[trigger] self.round(self.walk_start(k, changeable, adjacent, cost_id, j), changeable, adjacent, cost_id).len() == 0 {
            return choose|j: nat| j <= n && #[trigger] self.round(self.walk_start(k, changeable, adjacent, cost_id, j), changeable, adjacent, cost_id).len() == 0;
        }
        let starts = Seq::new(n + 1, |j: int| self.walk_start(k, changeable, adjacent, cost_id, (j + 1) as nat));
        assert forall|j: int| 0 <= j < starts.len() implies self.spec_vertices().contains(#[trigger] starts[j]) by {
            let here = self.walk_start(k, changeable, adjacent, cost_id, j as nat);
            assert(self.round(here, changeable, adjacent, cost_id).len() != 0);
            self.lemma_round_ends_at_vertex(here, changeable, adjacent, cost_id);
            self.lemma_walk_start_next(k, changeable, adjacent, cost_id, j as nat);
        }
        self.lemma_vertices_distinct();
        if starts.no_duplicates() {
            lemma_distinct_within(self.spec_vertices(), starts);
            assert(false);
        }
        let (x, y) = choose|x: int, y: int| 0 <= x < starts.len() && 0 <= y < starts.len() && x != y && starts[x] == starts[y];
        let (a, b) = if x < y { ((x + 1) as nat, (y + 1) as nat) } else { ((y + 1) as nat, (x + 1) as nat) };
        assert(self.walk_start(k, changeable, adjacent, cost_id, a) == self.walk_start(k, changeable, adjacent, cost_id, b));
        self.lemma_walk_repeats(k, changeable, adjacent, cost_id, a, b, i0);
        let j = choose|j: nat| a <= j < b && self.walk_start(k, changeable, adjacent, cost_id, j) == self.walk_start(k, changeable, adjacent, cost_id, i0);
        assert(self.round(self.walk_start(k, changeable, adjacent, cost_id, j), changeable, adjacent, cost_id).len() == 0);
        j
    }

    /// One round of a side walk from `k`, and where it ends.
    fn side_round(&self, k: LaneletKey, changeable: RelationType, adjacent: RelationType, cost_id: usize) -> (r: (Vec<LaneletRelation>, LaneletKey))
        requires
            self.wf(),
        ensures
            r.0@ == self.round(k, changeable, adjacent, cost_id),
            r.1 == self.round_end(k, changeable, adjacent, cost_id),
    {
        let run = self.chain(k, changeable, cost_id);
        let middle = if run.len() > 0 { run[run.len() - 1] } else { k };
        let beside = self.chain(middle, adjacent, cost_id);
        let end = if beside.len() > 0 { beside[beside.len() - 1] } else { middle };
        let mut out: Vec<LaneletRelation> = Vec::new();
        push_tagged(&mut out, &run, changeable, 0);
        push_tagged(&mut out, &beside, adjacent, 1);
        assert(out@ =~= self.round(k, changeable, adjacent, cost_id));
        (out, end)
    }

    /// The neighbours on one side, in alternating runs: first those a lane
    /// change reaches (cost 0), then those merely lying alongside (cost 1),
    /// and so on outwards, for at most as many rounds as the graph has
    /// vertices and one more: where the walk ends by itself, all of it.
    fn side_relations(&self, k: LaneletKey, cost_id: usize, left: bool) -> (r: Vec<LaneletRelation>)
        requires
            self.wf(),
        ensures
            r@ == self.side_walk(
                k,
                RelationType(if left { LEFT } else { RIGHT }),
                RelationType(if left { ADJACENT_LEFT } else { ADJACENT_RIGHT }),
                cost_id,
                self.spec_vertices().len() + 1,
            ),
    {
        let changeable = if left { RelationType(LEFT) } else { RelationType(RIGHT) };
        let adjacent = if left { RelationType(ADJACENT_LEFT) } else { RelationType(ADJACENT_RIGHT) };
        let ghost total = self.side_walk(k, changeable, adjacent, cost_id, self.spec_vertices().len() + 1);
        let mut out: Vec<LaneletRelation> = Vec::new();
        let mut current = k;
        let mut rounds: usize = self.vertices.len();
        let mut going = true;
        proof {
            assert(out@ + self.side_walk(current, changeable, adjacent, cost_id, rounds as nat + 1) =~= total);
        }
        while going
            invariant
                self.wf(),
                going ==> out@ + self.side_walk(current, changeable, adjacent, cost_id, rounds as nat + 1) == total,
                !going ==> out@ == total,
            decreases rounds, if going { 1nat } else { 0nat },
        {
            let ghost before = out@;
            let ghost rest = self.side_walk(current, changeable, adjacent, cost_id, rounds as nat + 1);
            let (here, end) = self.side_round(current, changeable, adjacent, cost_id);
            let ghost step = here@;
            let empty = here.len() == 0;
            append(&mut out, &here);
            if empty {
                going = false;
                proof {
                    assert(rest == Seq::<LaneletRelation>::empty());
                    assert(out@ =~= before + rest);
                }
            } else if rounds == 0 {
                going = false;
                proof {
                    assert(rest == step + self.side_walk(end, changeable, adjacent, cost_id, 0));
                    assert(out@ =~= before + rest);
                }
            } else {
                proof {
                    assert(rest == step + self.side_walk(end, changeable, adjacent, cost_id, rounds as nat));
                    assert(out@ + self.side_walk(end, changeable, adjacent, cost_id, rounds as nat) =~= before + rest);
                }
                rounds = rounds - 1;
                current = end;
            }
        }
        out
    }

    /// The neighbours on the left, in alternating runs of lane changes and
    /// of lanelets merely alongside, for as long as the walk goes on: it must
    /// end by itself.
    pub fn left_relations(&self, k: LaneletKey, cost_id: usize) -> (r: Vec<LaneletRelation>)
        requires
            self.wf(),
            self.side_walk_ends(k, RelationType(LEFT), RelationType(ADJACENT_LEFT), cost_id),
        ensures
            r@ == self.side_walk(k, RelationType(LEFT), RelationType(ADJACENT_LEFT), cost_id, self.spec_vertices().len() + 1),
            forall|rounds: nat| #[trigger] self.walk_stops(k, RelationType(LEFT), RelationType(ADJACENT_LEFT), cost_id, rounds)
                ==> r@ == self.side_walk(k, RelationType(LEFT), RelationType(ADJACENT_LEFT), cost_id, rounds),
    {
        proof {
            assert forall|rounds: nat| #[trigger] self.walk_stops(k, RelationType(LEFT), RelationType(ADJACENT_LEFT), cost_id, rounds)
                implies self.side_walk(k, RelationType(LEFT), RelationType(ADJACENT_LEFT), cost_id, rounds) == self.side_walk(
                k,
                RelationType(LEFT),
                RelationType(ADJACENT_LEFT),
                cost_id,
                self.spec_vertices().len() + 1,
            ) by {
                self.lemma_side_walk_settles(k, RelationType(LEFT), RelationType(ADJACENT_LEFT), cost_id, rounds);
            }
        }
        self.side_relations(k, cost_id, true)
    }

    /// The neighbours on the right, in alternating runs of lane changes and
    /// of lanelets merely alongside, for as long as the walk goes on: it must
    /// end by itself.
    pub fn right_relations(&self, k: LaneletKey, cost_id: usize) -> (r: Vec<LaneletRelation>)
        requires
            self.wf(),
            self.side_walk_ends(k, RelationType(RIGHT), RelationType(ADJACENT_RIGHT), cost_id),
        ensures
            r@ == self.side_walk(k, RelationType(RIGHT), RelationType(ADJACENT_RIGHT), cost_id, self.spec_vertices().len() + 1),
            forall|rounds: nat| #[trigger] self.walk_stops(k, RelationType(RIGHT), RelationType(ADJACENT_RIGHT), cost_id, rounds)
                ==> r@ == self.side_walk(k, RelationType(RIGHT), RelationType(ADJACENT_RIGHT), cost_id, rounds),
    {
        proof {
            assert forall|rounds: nat| #[trigger] self.walk_stops(k, RelationType(RIGHT), RelationType(ADJACENT_RIGHT), cost_id, rounds)
                implies self.side_walk(k, RelationType(RIGHT), RelationType(ADJACENT_RIGHT), cost_id, rounds) == self.side_walk(
                k,
                RelationType(RIGHT),
                RelationType(ADJACENT_RIGHT),
                cost_id,
                self.spec_vertices().len() + 1,
            ) by {
                self.lemma_side_walk_settles(k, RelationType(RIGHT), RelationType(ADJACENT_RIGHT), cost_id, rounds);
            }
        }
        self.side_relations(k, cost_id, false)
    }

    /// How `to` relates to `from`: the first edge out of `from` that leads to
    /// `to`, of any relation. A conflict is left out when conflicts are not
    /// asked for, unless `without_conflicting_is_noop` keeps the upstream
    /// behaviour of reporting it anyway.
    pub open spec fn spec_routing_relation(&self, from: LaneletKey, to: LaneletKey, include_conflicting: bool, without_conflicting_is_noop: bool) -> Option<RelationType> {
        match first_to(self.spec_neighbours(from, RelationType(127), 0), to) {
            Some(found) => if !include_conflicting && found.relation == RelationType(CONFLICTING) && !without_conflicting_is_noop {
                None
            } else {
                Some(found.relation)
            },
            None => None,
        }
    }

    pub fn routing_relation(&self, from: LaneletKey, to: LaneletKey, include_conflicting: bool, without_conflicting_is_noop: bool) -> (r: Option<RelationType>)
        requires
            self.wf(),
        ensures
            r == self.spec_routing_relation(from, to, include_conflicting, without_conflicting_is_noop),
    {
        let found = self.neighbours(from, RelationType::all(), 0);
        let mut i: usize = 0;
        let ghost all = found@;
        proof {
            assert(all.skip(0) =~= all);
        }
        while i < found.len()
            invariant
                i <= all.len(),
                found@ == all,
                all == self.spec_neighbours(from, RelationType(127), 0),
                first_to(all, to) == first_to(all.skip(i as int), to),
            decreases all.len() - i,
        {
            assert(all.skip(i as int)[0] == all[i as int]);
            if found[i].lanelet == to {
                let relation = found[i].relation;
                if !include_conflicting && relation == RelationType(CONFLICTING) && !without_conflicting_is_noop {
                    return None;
                }
                return Some(relation);
            }
            assert(all.skip(i as int).drop_first() =~= all.skip(i + 1));
            i = i + 1;
        }
        None
    }

    /// The vertex path a search over these relations and this cost model
    /// joins `a` to `b` along, at least cost.
    pub open spec fn is_shortest_keys(&self, p: Seq<LaneletKey>, a: LaneletKey, b: LaneletKey, relations: RelationType, cost_id: usize) -> bool {
        exists|idx: Seq<usize>|
            is_shortest(self.spec_edges(), Query { relations, cost_id, backwards: false }, self.spec_vertices().len(),
                idx, self.index_in(a).unwrap() as usize, self.index_in(b).unwrap() as usize)
            && p == #[trigger] keys_of(self.spec_vertices(), idx)
    }

    /// Both lanelets are vertices and a path of finite cost joins them.
    pub open spec fn connects(&self, a: LaneletKey, b: LaneletKey, relations: RelationType, cost_id: usize) -> bool {
        &&& self.index_in(a) is Some
        &&& self.index_in(b) is Some
        &&& reachable_within(self.spec_edges(), Query { relations, cost_id, backwards: false }, self.spec_vertices().len(),
            self.index_in(a).unwrap() as usize, self.index_in(b).unwrap() as usize, INFINITE_COST - 1)
    }

    /// The lanelets along the path the search finds from `a` to `b`, where
    /// both are vertices and the search reaches `b`.
    #[verifier::opaque]
    pub open spec fn found_keys(&self, a: LaneletKey, b: LaneletKey, relations: RelationType, cost_id: usize) -> Option<Seq<LaneletKey>> {
        if self.index_in(a) is Some && self.index_in(b) is Some {
            match found_path(
                self.spec_edges(),
                Query { relations, cost_id, backwards: false },
                self.spec_vertices().len(),
                self.index_in(a).unwrap() as usize,
                self.index_in(b).unwrap() as usize,
            ) {
                Some(p) => Some(keys_of(self.spec_vertices(), p)),
                None => None,
            }
        } else {
            None
        }
    }

    /// The cheapest route between two lanelets, or nothing if none exists.
    pub fn shortest_path(&self, from: LaneletKey, to: LaneletKey, cost_id: usize, with_lane_changes: bool) -> (r: Option<Vec<LaneletKey>>)
        requires
            self.wf(),
        ensures
            r is Some <==> self.connects(from, to, drivable(with_lane_changes), cost_id),
            r matches Some(p) ==> self.is_shortest_keys(p@, from, to, drivable(with_lane_changes), cost_id),
            r matches Some(p) ==> p@.len() <= self.spec_vertices().len(),
            r matches Some(p) ==> p@.no_duplicates(),
            r is Some <==> self.found_keys(from, to, drivable(with_lane_changes), cost_id) is Some,
            r matches Some(p) ==> self.found_keys(from, to, drivable(with_lane_changes), cost_id) == Some(p@),
    {
        proof {
            reveal(RoutingGraph::found_keys);
        }
        let start = match self.index_of(from) {
            Some(i) => i,
            None => return None,
        };
        let goal = match self.index_of(to) {
            Some(i) => i,
            None => return None,
        };
        let relations = drivable_relations(with_lane_changes);
        match self.graph.shortest_path(start, goal, relations, cost_id) {
            Some(idx) => {
                let r = keys_at(&self.vertices, &idx);
                proof {
                    assert forall|k: int| 0 <= k < idx@.len() implies #[trigger] idx@[k] < self.spec_vertices().len() by {
                    }
                    lemma_distinct_bounded(idx@, self.spec_vertices().len());
                    assert(r@ == keys_of(self.spec_vertices(), idx@));
                    assert(self.is_shortest_keys(r@, from, to, relations, cost_id));
                    assert forall|a: int, b: int| 0 <= a < r@.len() && 0 <= b < r@.len() && a != b implies r@[a] != r@[b] by {
                        assert(r@[a] == self.spec_vertices()[idx@[a] as int]);
                        assert(r@[b] == self.spec_vertices()[idx@[b] as int]);
                    }
                }
                Some(r)
            },
            None => None,
        }
    }

    /// The vertices within `max_cost` of vertex `start`, by index, searching
    /// forwards or backwards.
    pub open spec fn within(&self, start: int, idx: Seq<usize>, max_cost: u64, relations: RelationType, cost_id: usize, backwards: bool) -> bool {
        &&& forall|a: int, b: int| 0 <= a < b < idx.len() ==> idx[a] < idx[b]
        &&& forall|i: int| 0 <= i < idx.len() ==> #[trigger] idx[i] < self.spec_vertices().len()
        &&& forall|v: usize| v < self.spec_vertices().len() ==> (idx.contains(v) <==> #[trigger] reachable_within(self.spec_edges(),
            Query { relations, cost_id, backwards }, self.spec_vertices().len(), start as usize, v, cost_bound(max_cost) as int))
    }

    fn reachable_keys(&self, k: LaneletKey, max_cost: u64, cost_id: usize, allow_lane_changes: bool, backwards: bool) -> (r: Vec<LaneletKey>)
        requires
            self.wf(),
        ensures
            self.index_in(k) is None ==> r@ == Seq::<LaneletKey>::empty(),
            self.index_in(k) matches Some(i) ==> exists|idx: Seq<usize>|
                self.within(i, idx, max_cost, drivable(allow_lane_changes), cost_id, backwards)
                && r@ == #[trigger] keys_of(self.spec_vertices(), idx),
    {
        let start = match self.index_of(k) {
            Some(i) => i,
            None => return Vec::new(),
        };
        let relations = drivable_relations(allow_lane_changes);
        let idx = self.graph.reachable(start, max_cost, relations, cost_id, backwards);
        let r = keys_at(&self.vertices, &idx);
        assert(self.within(start as int, idx@, max_cost, relations, cost_id, backwards) && r@ == keys_of(self.spec_vertices(), idx@));
        r
    }

    /// Everything reachable from `from` within a cost budget, the start
    /// included, in vertex order.
    pub fn reachable_set(&self, from: LaneletKey, max_cost: u64, cost_id: usize, allow_lane_changes: bool) -> (r: Vec<LaneletKey>)
        requires
            self.wf(),
        ensures
            self.index_in(from) is None ==> r@ == Seq::<LaneletKey>::empty(),
            self.index_in(from) matches Some(i) ==> exists|idx: Seq<usize>|
                self.within(i, idx, max_cost, drivable(allow_lane_changes), cost_id, false)
                && r@ == #[trigger] keys_of(self.spec_vertices(), idx),
    {
        self.reachable_keys(from, max_cost, cost_id, allow_lane_changes, false)
    }

    /// Everything from which `to` can be reached within a cost budget, `to`
    /// included, in vertex order.
    pub fn reachable_set_towards(&self, to: LaneletKey, max_cost: u64, cost_id: usize, allow_lane_changes: bool) -> (r: Vec<LaneletKey>)
        requires
            self.wf(),
        ensures
            self.index_in(to) is None ==> r@ == Seq::<LaneletKey>::empty(),
            self.index_in(to) matches Some(i) ==> exists|idx: Seq<usize>|
                self.within(i, idx, max_cost, drivable(allow_lane_changes), cost_id, true)
                && r@ == #[trigger] keys_of(self.spec_vertices(), idx),
    {
        self.reachable_keys(to, max_cost, cost_id, allow_lane_changes, true)
    }

    /// A shortest path, as lanelets, starts and ends where it should.
    proof fn lemma_shortest_keys_ends(&self, p: Seq<LaneletKey>, a: LaneletKey, b: LaneletKey, relations: RelationType, cost_id: usize)
        requires
            self.wf(),
            self.index_in(a) is Some,
            self.index_in(b) is Some,
            self.is_shortest_keys(p, a, b, relations, cost_id),
        ensures
            p.len() >= 1,
            p[0] == a,
            p.last() == b,
    {
        let idx = choose|idx: Seq<usize>|
            is_shortest(self.spec_edges(), Query { relations, cost_id, backwards: false }, self.spec_vertices().len(),
                idx, self.index_in(a).unwrap() as usize, self.index_in(b).unwrap() as usize)
            && p == #[trigger] keys_of(self.spec_vertices(), idx);
        assert(self.spec_vertices().contains(a));
        assert(self.spec_vertices().contains(b));
        let ia = self.index_in(a).unwrap();
        let ib = self.index_in(b).unwrap();
        assert(self.spec_vertices()[ia] == a);
        assert(self.spec_vertices()[ib] == b);
        assert(idx[0] == ia as usize);
        assert(idx[idx.len() - 1] == ib as usize);
        assert(p[0] == self.spec_vertices()[idx[0] as int]);
        assert(p[p.len() - 1] == self.spec_vertices()[idx[idx.len() - 1] as int]);
    }

    /// `p` runs through the waypoints in order, cut at `cuts` into legs that
    /// are each a shortest path from one waypoint to the next.
    pub open spec fn cut_into_legs(&self, p: Seq<LaneletKey>, waypoints: Seq<LaneletKey>, cuts: Seq<int>, relations: RelationType, cost_id: usize) -> bool {
        &&& cuts.len() == waypoints.len()
        &&& cuts[0] == 0
        &&& cuts.last() == p.len() - 1
        &&& forall|i: int| 0 <= i < cuts.len() - 1 ==> 0 <= #[trigger] cuts[i] <= cuts[i + 1] < p.len()
        &&& forall|i: int| 0 <= i < cuts.len() - 1 ==> self.is_shortest_keys(
            p.subrange(#[trigger] cuts[i], cuts[i + 1] + 1),
            waypoints[i],
            waypoints[i + 1],
            relations,
            cost_id,
        )
        &&& forall|i: int| 0 <= i < cuts.len() - 1 ==> self.found_keys(waypoints[i], waypoints[i + 1], relations, cost_id) == Some(
            p.subrange(#[trigger] cuts[i], cuts[i + 1] + 1),
        )
    }

    /// The legs the single-pair search finds between consecutive stops fix a
    /// route through them: any two paths cut into those legs are the same
    /// path, each leg joined to the next at the stop they share.
    pub proof fn lemma_legs_fix_path(
        &self,
        p1: Seq<LaneletKey>,
        p2: Seq<LaneletKey>,
        waypoints: Seq<LaneletKey>,
        c1: Seq<int>,
        c2: Seq<int>,
        relations: RelationType,
        cost_id: usize,
    )
        requires
            waypoints.len() >= 2,
            self.cut_into_legs(p1, waypoints, c1, relations, cost_id),
            self.cut_into_legs(p2, waypoints, c2, relations, cost_id),
        ensures
            p1 == p2,
    {
        let k = (waypoints.len() - 1) as nat;
        self.lemma_same_cuts(p1, p2, waypoints, c1, c2, relations, cost_id, k);
        assert forall|i: int| 0 <= i < c1.len() - 1 implies 0 <= #[trigger] c1[i] <= c1[i + 1] < p1.len() && c1[i + 1] < p2.len() by {
            assert(c1[i] == c2[i] && c1[i + 1] == c2[i + 1]);
            assert(0 <= c2[i] <= c2[i + 1] < p2.len());
        }
        assert forall|i: int| 0 <= i < c1.len() - 1 implies p1.subrange(#[trigger] c1[i], c1[i + 1] + 1) == p2.subrange(c1[i], c1[i + 1] + 1) by {
            assert(c1[i] == c2[i] && c1[i + 1] == c2[i + 1]);
            assert(self.found_keys(waypoints[i], waypoints[i + 1], relations, cost_id) == Some(p1.subrange(c1[i], c1[i + 1] + 1)));
            assert(self.found_keys(waypoints[i], waypoints[i + 1], relations, cost_id) == Some(p2.subrange(c2[i], c2[i + 1] + 1)));
        }
        Self::lemma_same_prefix(p1, p2, c1, k);
        assert(p1.subrange(0, c1[k as int] + 1) =~= p1);
        assert(p2.subrange(0, c2[k as int] + 1) =~= p2);
    }

    proof fn lemma_same_cuts(
        &self,
        p1: Seq<LaneletKey>,
        p2: Seq<LaneletKey>,
        waypoints: Seq<LaneletKey>,
        c1: Seq<int>,
        c2: Seq<int>,
        relations: RelationType,
        cost_id: usize,
        m: nat,
    )
        requires
            m < waypoints.len(),
            self.cut_into_legs(p1, waypoints, c1, relations, cost_id),
            self.cut_into_legs(p2, waypoints, c2, relations, cost_id),
        ensures
            forall|i: int| 0 <= i <= m ==> c1[i] == c2[i],
        decreases m,
    {
        if m > 0 {
            let i = m - 1;
            self.lemma_same_cuts(p1, p2, waypoints, c1, c2, relations, cost_id, (m - 1) as nat);
            assert(self.found_keys(waypoints[i], waypoints[i + 1], relations, cost_id) == Some(p1.subrange(c1[i], c1[i + 1] + 1)));
            assert(self.found_keys(waypoints[i], waypoints[i + 1], relations, cost_id) == Some(p2.subrange(c2[i], c2[i + 1] + 1)));
            assert(0 <= c1[i] <= c1[i + 1] < p1.len());
            assert(0 <= c2[i] <= c2[i + 1] < p2.len());
            assert(p1.subrange(c1[i], c1[i + 1] + 1).len() == p2.subrange(c2[i], c2[i + 1] + 1).len());
        }
    }

    proof fn lemma_same_prefix(p1: Seq<LaneletKey>, p2: Seq<LaneletKey>, c: Seq<int>, m: nat)
        requires
            m < c.len(),
            c.len() >= 2,
            c[0] == 0,
            p1.len() >= 1,
            p2.len() >= 1,
            forall|i: int| 0 <= i < c.len() - 1 ==> 0 <= #[trigger] c[i] <= c[i + 1] < p1.len() && c[i + 1] < p2.len(),
            forall|i: int| 0 <= i < c.len() - 1 ==> p1.subrange(#[trigger] c[i], c[i + 1] + 1) == p2.subrange(c[i], c[i + 1] + 1),
        ensures
            p1.subrange(0, c[m as int] + 1) == p2.subrange(0, c[m as int] + 1),
        decreases m,
    {
        if m == 0 {
            assert(0 <= c[0] <= c[1] < p1.len() && c[1] < p2.len());
            assert(p1.subrange(c[0], c[1] + 1)[0] == p2.subrange(c[0], c[1] + 1)[0]);
            assert(p1.subrange(c[0], c[1] + 1)[0] == p1[0]);
            assert(p2.subrange(c[0], c[1] + 1)[0] == p2[0]);
            assert(p1.subrange(0, 1) =~= p2.subrange(0, 1));
        } else {
            let i: int = m - 1;
            Self::lemma_same_prefix(p1, p2, c, (m - 1) as nat);
            let leg = p1.subrange(c[i], c[i + 1] + 1);
            assert(leg == p2.subrange(c[i], c[i + 1] + 1));
            assert forall|x: int| 0 <= x < c[m as int] + 1 implies p1[x] == p2[x] by {
                if x < c[i] + 1 {
                    assert(p1.subrange(0, c[i] + 1)[x] == p2.subrange(0, c[i] + 1)[x]);
                } else {
                    assert(p1[x] == leg[x - c[i]]);
                    assert(p2[x] == p2.subrange(c[i], c[i + 1] + 1)[x - c[i]]);
                }
            }
            assert(p1.subrange(0, c[m as int] + 1) =~= p2.subrange(0, c[m as int] + 1));
        }
    }

    /// The stops of a route: the start, the intermediate lanelets, the goal.
    pub open spec fn waypoints(from: LaneletKey, via: Seq<LaneletKey>, to: LaneletKey) -> Seq<LaneletKey> {
        seq![from] + via + seq![to]
    }

    /// A route through intermediate lanelets, one leg at a time: each leg is
    /// the path `shortest_path` finds between its two stops, and the legs are
    /// joined at the stops they share, so the whole need not be the cheapest.
    pub fn shortest_path_via(&self, from: LaneletKey, via: &Vec<LaneletKey>, to: LaneletKey, cost_id: usize, with_lane_changes: bool) -> (r: Option<Vec<LaneletKey>>)
        requires
            self.wf(),
        ensures
            r is Some <==> forall|i: int| 0 <= i < via@.len() + 1 ==> self.connects(
                #[trigger] Self::waypoints(from, via@, to)[i],
                Self::waypoints(from, via@, to)[i + 1],
                drivable(with_lane_changes),
                cost_id,
            ),
            r matches Some(p) ==> exists|cuts: Seq<int>| #[trigger] self.cut_into_legs(p@, Self::waypoints(from, via@, to), cuts, drivable(with_lane_changes), cost_id),
            r matches Some(p) ==> p@.len() <= 1 + (via@.len() + 1) * self.spec_vertices().len(),
    {
        let ghost wps = Self::waypoints(from, via@, to);
        let ghost relations = drivable(with_lane_changes);
        let mut stops: Vec<LaneletKey> = Vec::new();
        stops.push(from);
        append(&mut stops, via);
        stops.push(to);
        assert(stops@ =~= wps);
        let mut path: Vec<LaneletKey> = Vec::new();
        let ghost mut cuts: Seq<int> = seq![0];
        let mut i: usize = 0;
        while i + 1 < stops.len()
            invariant
                self.wf(),
                wps == Self::waypoints(from, via@, to),
                stops@ == wps,
                wps.len() == via@.len() + 2,
                relations == drivable(with_lane_changes),
                i + 1 <= stops@.len(),
                forall|j: int| 0 <= j < i ==> self.connects(#[trigger] Self::waypoints(from, via@, to)[j], Self::waypoints(from, via@, to)[j + 1],
                    drivable(with_lane_changes), cost_id),
                i == 0 ==> path@.len() == 0,
                i > 0 ==> path@.len() >= 1 && path@.last() == wps[i as int],
                path@.len() <= 1 + i * self.spec_vertices().len(),
                cuts.len() == i + 1,
                cuts[0] == 0,
                i > 0 ==> cuts.last() == path@.len() - 1,
                forall|j: int| 0 <= j < i ==> 0 <= #[trigger] cuts[j] <= cuts[j + 1] < path@.len(),
                forall|j: int| 0 <= j < i ==> self.is_shortest_keys(
                    path@.subrange(#[trigger] cuts[j], cuts[j + 1] + 1),
                    wps[j],
                    wps[j + 1],
                    relations,
                    cost_id,
                ),
                forall|j: int| 0 <= j < i ==> self.found_keys(wps[j], wps[j + 1], relations, cost_id) == Some(
                    path@.subrange(#[trigger] cuts[j], cuts[j + 1] + 1),
                ),
            decreases stops@.len() - i,
        {
            let leg = self.shortest_path(stops[i], stops[i + 1], cost_id, with_lane_changes);
            let segment = match leg {
                Some(segment) => segment,
                None => {
                    proof {
                        assert(!self.connects(Self::waypoints(from, via@, to)[i as int], Self::waypoints(from, via@, to)[i + 1],
                            drivable(with_lane_changes), cost_id));
                    }
                    return None;
                },
            };
            proof {
                self.lemma_shortest_keys_ends(segment@, wps[i as int], wps[i + 1], relations, cost_id);
            }
            let ghost old_path = path@;
            proof {
                let nv = self.spec_vertices().len();
                assert((i + 1) * nv == i * nv + nv) by (nonlinear_arith);
                assert(i * nv >= 0) by (nonlinear_arith);
            }
            if i == 0 {
                append(&mut path, &segment);
                proof {
                    assert(path@ =~= segment@);
                    assert(path@.subrange(0, segment@.len() as int) =~= segment@);
                    cuts = cuts.push(path@.len() - 1);
                }
            } else {
                let mut k: usize = 1;
                while k < segment.len()
                    invariant
                        1 <= k <= segment@.len(),
                        path@ == old_path + segment@.subrange(1, k as int),
                    decreases segment@.len() - k,
                {
                    path.push(segment[k]);
                    assert(segment@.subrange(1, k + 1) =~= segment@.subrange(1, k as int).push(segment@[k as int]));
                    assert(old_path + segment@.subrange(1, k + 1) =~= (old_path + segment@.subrange(1, k as int)).push(segment@[k as int]));
                    k = k + 1;
                }
                proof {
                    let a = old_path.len() - 1;
                    assert(path@.subrange(a, path@.len() as int) =~= segment@) by {
                        assert(old_path.last() == segment@[0]);
                    }
                    assert forall|j: int| 0 <= j < i implies path@.subrange(#[trigger] cuts[j], cuts[j + 1] + 1) == old_path.subrange(cuts[j], cuts[j + 1] + 1) by {
                        assert(path@.subrange(cuts[j], cuts[j + 1] + 1) =~= old_path.subrange(cuts[j], cuts[j + 1] + 1));
                    }
                    cuts = cuts.push(path@.len() - 1);
                }
            }
            proof {
                assert forall|j: int| 0 <= j < i + 1 implies 0 <= #[trigger] cuts[j] <= cuts[j + 1] < path@.len() by {
                    if j < i {
                    }
                }
                assert forall|j: int| 0 <= j < i + 1 implies self.is_shortest_keys(
                    path@.subrange(#[trigger] cuts[j], cuts[j + 1] + 1),
                    wps[j],
                    wps[j + 1],
                    relations,
                    cost_id,
                ) by {
                    if j == i {
                        assert(path@.subrange(cuts[j], cuts[j + 1] + 1) =~= segment@);
                    }
                }
                assert forall|j: int| 0 <= j < i + 1 implies self.found_keys(wps[j], wps[j + 1], relations, cost_id) == Some(
                    path@.subrange(#[trigger] cuts[j], cuts[j + 1] + 1),
                ) by {
                    if j == i {
                        assert(path@.subrange(cuts[j], cuts[j + 1] + 1) =~= segment@);
                    }
                }
            }
            i = i + 1;
        }
        proof {
            assert(self.cut_into_legs(path@, Self::waypoints(from, via@, to), cuts, drivable(with_lane_changes), cost_id));
            assert(exists|c: Seq<int>| #[trigger] self.cut_into_legs(path@, Self::waypoints(from, via@, to), c, drivable(with_lane_changes), cost_id));
        }
        let r = Some(path);
        assert(r matches Some(p) && p@ == path@);
        r
    }

    /// The paths of a search, as lanelets.
    fn paths_at(&self, idx: &Vec<Vec<usize>>, reverse: bool) -> (r: Vec<Vec<LaneletKey>>)
        requires
            self.wf(),
            forall|i: int, j: int| 0 <= i < idx@.len() && 0 <= j < idx@[i]@.len() ==> #[trigger] idx@[i]@[j] < self.spec_vertices().len(),
        ensures
            r@.len() == idx@.len(),
            forall|i: int| 0 <= i < idx@.len() ==> (#[trigger] r@[i])@ == if reverse {
                keys_of(self.spec_vertices(), idx@[i]@).reverse()
            } else {
                keys_of(self.spec_vertices(), idx@[i]@)
            },
    {
        let mut r: Vec<Vec<LaneletKey>> = Vec::new();
        let mut i: usize = 0;
        while i < idx.len()
            invariant
                i <= idx@.len(),
                r@.len() == i,
                forall|a: int, j: int| 0 <= a < idx@.len() && 0 <= j < idx@[a]@.len() ==> #[trigger] idx@[a]@[j] < self.spec_vertices().len(),
                forall|a: int| 0 <= a < i ==> (#[trigger] r@[a])@ == if reverse {
                    keys_of(self.spec_vertices(), idx@[a]@).reverse()
                } else {
                    keys_of(self.spec_vertices(), idx@[a]@)
                },
            decreases idx@.len() - i,
        {
            assert forall|j: int| 0 <= j < idx@[i as int]@.len() implies #[trigger] idx@[i as int]@[j] < self.vertices@.len() by {
            }
            let keys = keys_at(&self.vertices, &idx[i]);
            if reverse {
                r.push(reversed(&keys));
            } else {
                r.push(keys);
            }
            i = i + 1;
        }
        r
    }

    /// The lanelet paths `possible_paths` gives from vertex `start`.
    pub open spec fn found_paths(
        &self,
        start: int,
        ps: Seq<Seq<usize>>,
        max_cost: Option<u64>,
        min_elements: Option<usize>,
        cost_id: usize,
        allow_lane_changes: bool,
        include_shorter: bool,
        backwards: bool,
    ) -> bool {
        &&& lex_sorted(ps)
        &&& ps.to_multiset() == grown(
            self.spec_edges(),
            Query { relations: drivable(allow_lane_changes), cost_id, backwards },
            Growth { max_cost, min_elements, include_shorter },
            seq![start as usize],
            0,
            self.spec_vertices().len(),
        ).to_multiset()
    }

    fn paths_from(
        &self,
        k: LaneletKey,
        max_cost: Option<u64>,
        min_elements: Option<usize>,
        cost_id: usize,
        allow_lane_changes: bool,
        include_shorter: bool,
        backwards: bool,
    ) -> (r: Vec<Vec<LaneletKey>>)
        requires
            self.wf(),
        ensures
            self.index_in(k) is None ==> r@.len() == 0,
            self.index_in(k) matches Some(i) ==> exists|ps: Seq<Seq<usize>>|
                #[trigger] self.found_paths(i, ps, max_cost, min_elements, cost_id, allow_lane_changes, include_shorter, backwards)
                && r@.len() == ps.len()
                && forall|j: int| 0 <= j < ps.len() ==> (#[trigger] r@[j])@ == if backwards {
                    keys_of(self.spec_vertices(), ps[j]).reverse()
                } else {
                    keys_of(self.spec_vertices(), ps[j])
                },
    {
        let start = match self.index_of(k) {
            Some(i) => i,
            None => return Vec::new(),
        };
        let relations = drivable_relations(allow_lane_changes);
        let idx = self.graph.possible_paths(start, max_cost, min_elements, relations, cost_id, include_shorter, backwards);
        let ghost ps = views(idx@);
        let ghost q = Query { relations, cost_id, backwards };
        let ghost g = Growth { max_cost, min_elements, include_shorter };
        proof {
            self.lemma_edges_in_range();
            assert forall|i: int, j: int| 0 <= i < idx@.len() && 0 <= j < idx@[i]@.len() implies #[trigger] idx@[i]@[j] < self.spec_vertices().len() by {
                let p = ps[i];
                assert(ps.contains(p));
                vstd::seq_lib::to_multiset_contains(ps, p);
                vstd::seq_lib::to_multiset_contains(grown(self.spec_edges(), q, g, seq![start], 0, self.spec_vertices().len()), p);
                lemma_possible_paths_are_simple(self.spec_edges(), q, g, self.spec_vertices().len(), start, p);
                assert(p[j] < self.spec_vertices().len());
            }
        }
        let r = self.paths_at(&idx, backwards);
        proof {
            assert(self.index_in(k) == Some(start as int));
            assert forall|j: int| 0 <= j < ps.len() implies (#[trigger] r@[j])@ == if backwards {
                keys_of(self.spec_vertices(), ps[j]).reverse()
            } else {
                keys_of(self.spec_vertices(), ps[j])
            } by {
                assert(ps[j] == idx@[j]@);
            }
            let i = self.index_in(k).unwrap();
            assert(self.found_paths(i, ps, max_cost, min_elements, cost_id, allow_lane_changes, include_shorter, backwards)
                && r@.len() == ps.len());
        }
        r
    }

    /// Every path from `from` that reaches the given limits, in ascending
    /// order of their vertices; see `Graph::possible_paths`.
    pub fn possible_paths(
        &self,
        from: LaneletKey,
        max_cost: Option<u64>,
        min_elements: Option<usize>,
        cost_id: usize,
        allow_lane_changes: bool,
        include_shorter: bool,
    ) -> (r: Vec<Vec<LaneletKey>>)
        requires
            self.wf(),
        ensures
            self.index_in(from) is None ==> r@.len() == 0,
            self.index_in(from) matches Some(i) ==> exists|ps: Seq<Seq<usize>>|
                #[trigger] self.found_paths(i, ps, max_cost, min_elements, cost_id, allow_lane_changes, include_shorter, false)
                && r@.len() == ps.len()
                && forall|j: int| 0 <= j < ps.len() ==> (#[trigger] r@[j])@ == keys_of(self.spec_vertices(), ps[j]),
    {
        self.paths_from(from, max_cost, min_elements, cost_id, allow_lane_changes, include_shorter, false)
    }

    /// Every path into `to` that reaches the given limits, each read in
    /// driving order, ending at `to`.
    pub fn possible_paths_towards(
        &self,
        to: LaneletKey,
        max_cost: Option<u64>,
        min_elements: Option<usize>,
        cost_id: usize,
        allow_lane_changes: bool,
        include_shorter: bool,
    ) -> (r: Vec<Vec<LaneletKey>>)
        requires
            self.wf(),
        ensures
            self.index_in(to) is None ==> r@.len() == 0,
            self.index_in(to) matches Some(i) ==> exists|ps: Seq<Seq<usize>>|
                #[trigger] self.found_paths(i, ps, max_cost, min_elements, cost_id, allow_lane_changes, include_shorter, true)
                && r@.len() == ps.len()
                && forall|j: int| 0 <= j < ps.len() ==> (#[trigger] r@[j])@ == keys_of(self.spec_vertices(), ps[j]).reverse(),
    {
        self.paths_from(to, max_cost, min_elements, cost_id, allow_lane_changes, include_shorter, true)
    }

    /// Every edge, for inspection: both ends, the relation, the cost model
    /// and the cost.
    pub fn edges(&self) -> (r: Vec<(i64, bool, i64, bool, RelationType, usize, u64)>)
        requires
            self.wf(),
        ensures
            r@ == self.spec_edges().map_values(|e: Edge| edge_row(self.spec_vertices(), e)),
    {
        let all = self.graph.all_edges();
        proof {
            self.lemma_edges_in_range();
        }
        let mut r: Vec<(i64, bool, i64, bool, RelationType, usize, u64)> = Vec::new();
        let mut j: usize = 0;
        while j < all.len()
            invariant
                self.wf(),
                all@ == self.spec_edges(),
                forall|i: int| 0 <= i < all@.len() ==> (#[trigger] all@[i]).from < self.spec_vertices().len()
                    && all@[i].to < self.spec_vertices().len(),
                j <= all@.len(),
                r@ == all@.take(j as int).map_values(|e: Edge| edge_row(self.spec_vertices(), e)),
            decreases all@.len() - j,
        {
            let e = all[j];
            let from = self.vertices[e.from];
            let to = self.vertices[e.to];
            r.push((from.id, from.inverted, to.id, to.inverted, e.relation, e.cost_id, e.cost));
            assert(all@.take(j + 1) =~= all@.take(j as int).push(e));
            assert(all@.take(j + 1).map_values(|e: Edge| edge_row(self.spec_vertices(), e)) =~= all@.take(j as int).map_values(
                |e: Edge| edge_row(self.spec_vertices(), e),
            ).push(edge_row(self.spec_vertices(), e)));
            j = j + 1;
        }
        assert(all@.take(all@.len() as int) =~= all@);
        r
    }

    /// What `check_validity` reports of one side of `k`.
    pub open spec fn side_messages(&self, k: LaneletKey, side: Seq<char>, changeable: RelationType, adjacent: RelationType) -> Seq<Seq<char>> {
        let c = self.spec_neighbours(k, changeable, 0);
        let a = self.spec_neighbours(k, adjacent, 0);
        (if c.len() > 0 && a.len() > 0 {
            seq!["Lanelet "@ + signed_decimal(k.id as int) + " has both a "@ + side + " and an adjacent "@ + side + " neighbour"@]
        } else {
            seq![]
        }) + (if c.len() > 1 {
            seq!["More than one neighboring lanelet to "@ + signed_decimal(k.id as int) + " with this relation: "@ + id_list(ids_of(c))]
        } else {
            seq![]
        })
    }

    /// What `check_validity` reports of `k`: its left side, then its right.
    pub open spec fn messages_for(&self, k: LaneletKey) -> Seq<Seq<char>> {
        self.side_messages(k, "left"@, RelationType(LEFT), RelationType(ADJACENT_LEFT)) + self.side_messages(
            k,
            "right"@,
            RelationType(RIGHT),
            RelationType(ADJACENT_RIGHT),
        )
    }

    /// What `check_validity` reports of the given vertices, in order.
    pub open spec fn validity_messages(&self, vs: Seq<LaneletKey>) -> Seq<Seq<char>>
        decreases vs.len(),
    {
        if vs.len() == 0 {
            seq![]
        } else {
            self.validity_messages(vs.drop_last()) + self.messages_for(vs.last())
        }
    }

    fn check_side(&self, k: LaneletKey, left: bool, out: &mut Vec<String>)
        requires
            self.wf(),
        ensures
            texts(final(out)@) == texts(old(out)@) + if left {
                self.side_messages(k, "left"@, RelationType(LEFT), RelationType(ADJACENT_LEFT))
            } else {
                self.side_messages(k, "right"@, RelationType(RIGHT), RelationType(ADJACENT_RIGHT))
            },
    {
        let ghost front = texts(out@);
        let side = if left { "left" } else { "right" };
        let changeable = if left { RelationType(LEFT) } else { RelationType(RIGHT) };
        let adjacent = if left { RelationType(ADJACENT_LEFT) } else { RelationType(ADJACENT_RIGHT) };
        let changeables = self.neighbours(k, changeable, 0);
        let adjacents = self.neighbours(k, adjacent, 0);
        let ghost first: Seq<Seq<char>> = seq![];
        if changeables.len() > 0 && adjacents.len() > 0 {
            let mut message = String::from_str("Lanelet ");
            push_signed_decimal(&mut message, k.id);
            message.append(" has both a ");
            message.append(side);
            message.append(" and an adjacent ");
            message.append(side);
            message.append(" neighbour");
            proof {
                first = seq![message@];
            }
            out.push(message);
        }
        proof {
            assert(texts(out@) =~= front + first);
        }
        let ghost second: Seq<Seq<char>> = seq![];
        if changeables.len() > 1 {
            let mut message = String::from_str("More than one neighboring lanelet to ");
            push_signed_decimal(&mut message, k.id);
            message.append(" with this relation: ");
            push_id_list(&mut message, &changeables);
            proof {
                second = seq![message@];
            }
            out.push(message);
        }
        proof {
            assert(texts(out@) =~= front + first + second);
            assert(side@ == (if left { "left"@ } else { "right"@ }));
            assert(first + second =~= if left {
                self.side_messages(k, "left"@, RelationType(LEFT), RelationType(ADJACENT_LEFT))
            } else {
                self.side_messages(k, "right"@, RelationType(RIGHT), RelationType(ADJACENT_RIGHT))
            });
        }
    }

    /// Problems with the graph's structure: a side with both a lane-change
    /// neighbour and a merely adjacent one, or more than one lane-change
    /// neighbour on a side.
    pub fn check_validity(&self) -> (r: Vec<String>)
        requires
            self.wf(),
        ensures
            texts(r@) == self.validity_messages(self.spec_vertices()),
    {
        let mut out: Vec<String> = Vec::new();
        let mut i: usize = 0;
        proof {
            assert(self.spec_vertices().take(0) =~= Seq::<LaneletKey>::empty());
            assert(texts(out@) =~= Seq::<Seq<char>>::empty());
        }
        while i < self.vertices.len()
            invariant
                self.wf(),
                i <= self.spec_vertices().len(),
                texts(out@) == self.validity_messages(self.spec_vertices().take(i as int)),
            decreases self.spec_vertices().len() - i,
        {
            let k = self.vertices[i];
            self.check_side(k, true, &mut out);
            self.check_side(k, false, &mut out);
            proof {
                let t = self.spec_vertices().take(i + 1);
                assert(t.drop_last() =~= self.spec_vertices().take(i as int));
                assert(t.last() == k);
                assert(texts(out@) =~= self.validity_messages(t));
            }
            i = i + 1;
        }
        assert(self.spec_vertices().take(self.spec_vertices().len() as int) =~= self.spec_vertices());
        out
    }

    /// The lanelets that conflict with `k`.
    pub fn conflicting(&self, k: LaneletKey) -> (r: Vec<LaneletKey>)
        requires
            self.wf(),
        ensures
            r@ == lanelets_of(self.spec_neighbours(k, RelationType(CONFLICTING), 0)),
    {
        Self::lanelets(&self.neighbours(k, RelationType(CONFLICTING), 0))
    }
}

} // verus!
