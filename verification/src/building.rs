//! Building the routing graph from a map's lanelets.
//!
//! Only lanelets the participant may use become vertices, and one that may be
//! used both ways becomes two. Edges come in three passes over every ordered
//! pair of vertices: successors, then sideways neighbours, then conflicts,
//! each pair getting one edge per cost model. What the map's geometry says of
//! a pair, and what each cost model charges, comes in as `PairFacts`.

use vstd::prelude::*;
use crate::graph::{Edge, Graph, INFINITE_COST};
use crate::relation::{RelationType, SUCCESSOR, LEFT, RIGHT, ADJACENT_LEFT, ADJACENT_RIGHT, CONFLICTING};
use crate::routing::{LaneletKey, RoutingGraph, MAX_VERTICES};
use crate::traffic_rules::{LaneletTags, Side, TrafficRules};

verus! {

/// A lanelet of the map: its id, and its tags seen in its own direction and
/// seen backwards.
pub struct MapLanelet {
    pub id: i64,
    pub forward: LaneletTags,
    pub backward: LaneletTags,
}

/// What the map's geometry says of one ordered pair of lanelet directions,
/// and what each cost model charges between them.
#[derive(Clone, Debug)]
pub struct PairFacts {
    pub from: LaneletKey,
    pub to: LaneletKey,
    /// `to` continues `from`.
    pub follows: bool,
    /// `from` lies to the left of `to`.
    pub left_of: bool,
    /// `from` lies to the right of `to`.
    pub right_of: bool,
    /// Their outlines overlap.
    pub overlaps: bool,
    /// What driving on from `from` into `to` costs, per cost model.
    pub succeed_costs: Vec<u64>,
    /// What changing lanes from `from` to `to` costs, per cost model;
    /// `INFINITE_COST` where the change is too short to make.
    pub change_costs: Vec<u64>,
}

/// The facts the list gives first for the pair, if any.
pub open spec fn facts_between(geo: Seq<PairFacts>, a: LaneletKey, b: LaneletKey) -> Option<PairFacts>
    decreases geo.len(),
{
    if geo.len() == 0 {
        None
    } else if geo[0].from == a && geo[0].to == b {
        Some(geo[0])
    } else {
        facts_between(geo.drop_first(), a, b)
    }
}

pub open spec fn follows_of(geo: Seq<PairFacts>, a: LaneletKey, b: LaneletKey) -> bool {
    match facts_between(geo, a, b) {
        Some(f) => f.follows,
        None => false,
    }
}

pub open spec fn left_of(geo: Seq<PairFacts>, a: LaneletKey, b: LaneletKey) -> bool {
    match facts_between(geo, a, b) {
        Some(f) => f.left_of,
        None => false,
    }
}

pub open spec fn right_of(geo: Seq<PairFacts>, a: LaneletKey, b: LaneletKey) -> bool {
    match facts_between(geo, a, b) {
        Some(f) => f.right_of,
        None => false,
    }
}

pub open spec fn overlaps(geo: Seq<PairFacts>, a: LaneletKey, b: LaneletKey) -> bool {
    match facts_between(geo, a, b) {
        Some(f) => f.overlaps,
        None => false,
    }
}

pub open spec fn succeed_cost(geo: Seq<PairFacts>, a: LaneletKey, b: LaneletKey, c: nat) -> u64 {
    match facts_between(geo, a, b) {
        Some(f) => f.succeed_costs@[c as int],
        None => INFINITE_COST,
    }
}

pub open spec fn change_cost(geo: Seq<PairFacts>, a: LaneletKey, b: LaneletKey, c: nat) -> u64 {
    match facts_between(geo, a, b) {
        Some(f) => f.change_costs@[c as int],
        None => INFINITE_COST,
    }
}

/// The vertices the builder makes, as (lanelet, backwards) pairs: each
/// lanelet the rules let the participant use, followed by its backward view
/// where that may be used too.
pub open spec fn vertex_plan(rules: TrafficRules, ls: Seq<MapLanelet>) -> Seq<(usize, bool)>
    decreases ls.len(),
{
    if ls.len() == 0 {
        seq![]
    } else {
        let before = vertex_plan(rules, ls.drop_last());
        let j = (ls.len() - 1) as usize;
        let l = ls.last();
        if !rules.spec_can_pass(l.forward.attributes.spec_entries(), l.forward.inverted) {
            before
        } else if rules.spec_can_pass(l.backward.attributes.spec_entries(), l.backward.inverted) {
            before.push((j, false)).push((j, true))
        } else {
            before.push((j, false))
        }
    }
}

/// The vertex each planned view becomes.
pub open spec fn plan_keys(ls: Seq<MapLanelet>, plan: Seq<(usize, bool)>) -> Seq<LaneletKey> {
    plan.map_values(|p: (usize, bool)| LaneletKey { id: ls[p.0 as int].id, inverted: p.1 })
}

/// The tags of a planned view.
pub open spec fn view_tags(ls: Seq<MapLanelet>, p: (usize, bool)) -> LaneletTags {
    if p.1 { ls[p.0 as int].backward } else { ls[p.0 as int].forward }
}

/// One edge per cost model, made by `f`.
pub open spec fn per_cost(count: nat, f: spec_fn(nat) -> Seq<Edge>) -> Seq<Edge>
    decreases count,
{
    if count == 0 { seq![] } else { per_cost((count - 1) as nat, f) + f((count - 1) as nat) }
}

/// The edges of the cells `(a, 0)` to `(a, cols - 1)`.
pub open spec fn row(a: nat, cols: nat, cell: spec_fn(nat, nat) -> Seq<Edge>) -> Seq<Edge>
    decreases cols,
{
    if cols == 0 { seq![] } else { row(a, (cols - 1) as nat, cell) + cell(a, (cols - 1) as nat) }
}

/// The edges of the first `rows` rows of `n` cells each.
pub open spec fn cells(n: nat, rows: nat, cell: spec_fn(nat, nat) -> Seq<Edge>) -> Seq<Edge>
    decreases rows,
{
    if rows == 0 { seq![] } else { cells(n, (rows - 1) as nat, cell) + row((rows - 1) as nat, n, cell) }
}

/// What the builder reads: the rules, the lanelets, the geometry, the plan
/// of vertices and the number of cost models.
pub struct Plan {
    pub rules: TrafficRules,
    pub ls: Seq<MapLanelet>,
    pub geo: Seq<PairFacts>,
    pub plan: Seq<(usize, bool)>,
    pub costs: nat,
}

impl Plan {
    pub open spec fn key(self, a: nat) -> LaneletKey {
        plan_keys(self.ls, self.plan)[a as int]
    }

    pub open spec fn tags(self, a: nat) -> LaneletTags {
        view_tags(self.ls, self.plan[a as int])
    }

    pub open spec fn passable(self, a: nat) -> bool {
        self.rules.spec_can_pass(self.tags(a).attributes.spec_entries(), self.tags(a).inverted)
    }

    /// The successor edge from `a` to `b` under each cost model.
    pub open spec fn successor_edges(self, a: nat, b: nat) -> spec_fn(nat) -> Seq<Edge> {
        |c: nat| seq![Edge {
            from: a as usize,
            to: b as usize,
            relation: RelationType(SUCCESSOR),
            cost_id: c as usize,
            cost: succeed_cost(self.geo, self.key(a), self.key(b), c),
        }]
    }

    /// Vertex `b` continues vertex `a`, and both may be used.
    pub open spec fn follows(self, a: nat, b: nat) -> bool {
        a != b && follows_of(self.geo, self.key(a), self.key(b)) && self.passable(a) && self.passable(b)
    }

    pub open spec fn successor_cell(self, a: nat, b: nat) -> Seq<Edge> {
        if self.follows(a, b) { per_cost(self.costs, self.successor_edges(a, b)) } else { seq![] }
    }

    /// Where vertex `a` lies relative to vertex `b`.
    pub open spec fn side(self, a: nat, b: nat) -> Side {
        if left_of(self.geo, self.key(a), self.key(b)) {
            Side::LeftOf
        } else if right_of(self.geo, self.key(a), self.key(b)) {
            Side::RightOf
        } else {
            Side::Apart
        }
    }

    /// The sideways edge from `a` to `b` under cost model `c`: a lane change
    /// where the rules allow one and the model can pay for it, else mere
    /// adjacency at cost one.
    pub open spec fn sideways_edge(self, a: nat, b: nat, c: nat) -> Edge {
        let to_the_left = left_of(self.geo, self.key(b), self.key(a));
        let changeable = self.rules.spec_can_change_lane(&self.tags(a), &self.tags(b), self.side(a, b));
        let change = change_cost(self.geo, self.key(a), self.key(b), c);
        if changeable && change != INFINITE_COST {
            Edge {
                from: a as usize,
                to: b as usize,
                relation: RelationType(if to_the_left { LEFT } else { RIGHT }),
                cost_id: c as usize,
                cost: change,
            }
        } else {
            Edge {
                from: a as usize,
                to: b as usize,
                relation: RelationType(if to_the_left { ADJACENT_LEFT } else { ADJACENT_RIGHT }),
                cost_id: c as usize,
                cost: 1,
            }
        }
    }

    pub open spec fn sideways_edges(self, a: nat, b: nat) -> spec_fn(nat) -> Seq<Edge> {
        |c: nat| seq![self.sideways_edge(a, b, c)]
    }

    /// Vertex `b` lies to the left or right of vertex `a`.
    pub open spec fn beside(self, a: nat, b: nat) -> bool {
        a != b && (left_of(self.geo, self.key(b), self.key(a)) || right_of(self.geo, self.key(b), self.key(a)))
    }

    pub open spec fn sideways_cell(self, a: nat, b: nat) -> Seq<Edge> {
        if self.beside(a, b) { per_cost(self.costs, self.sideways_edges(a, b)) } else { seq![] }
    }

    /// The two directions of one lanelet conflict, and so do lanelets whose
    /// outlines overlap.
    pub open spec fn conflict(self, a: nat, b: nat) -> bool {
        if self.plan[a as int].0 == self.plan[b as int].0 {
            true
        } else {
            overlaps(self.geo, self.key(a), self.key(b))
        }
    }

    pub open spec fn conflict_edges(self, a: nat, b: nat) -> spec_fn(nat) -> Seq<Edge> {
        |c: nat| seq![
            Edge { from: a as usize, to: b as usize, relation: RelationType(CONFLICTING), cost_id: c as usize, cost: 1 },
            Edge { from: b as usize, to: a as usize, relation: RelationType(CONFLICTING), cost_id: c as usize, cost: 1 },
        ]
    }

    /// Conflicting vertices get an edge each way, per cost model.
    pub open spec fn conflict_cell(self, a: nat, b: nat) -> Seq<Edge> {
        if a < b && self.conflict(a, b) { per_cost(self.costs, self.conflict_edges(a, b)) } else { seq![] }
    }

    pub open spec fn successors(self) -> spec_fn(nat, nat) -> Seq<Edge> {
        |a: nat, b: nat| self.successor_cell(a, b)
    }

    pub open spec fn sideways(self) -> spec_fn(nat, nat) -> Seq<Edge> {
        |a: nat, b: nat| self.sideways_cell(a, b)
    }

    pub open spec fn conflicts(self) -> spec_fn(nat, nat) -> Seq<Edge> {
        |a: nat, b: nat| self.conflict_cell(a, b)
    }

    /// Every edge the builder adds, in order: the successor pass, the
    /// sideways pass, the conflict pass.
    pub open spec fn all_edges(self) -> Seq<Edge> {
        let n = self.plan.len();
        cells(n, n, self.successors()) + cells(n, n, self.sideways()) + cells(n, n, self.conflicts())
    }
}

/// Each lanelet plans at most two vertices, all of them within range.
proof fn lemma_plan_bounds(rules: TrafficRules, ls: Seq<MapLanelet>)
    requires
        ls.len() <= usize::MAX,
    ensures
        vertex_plan(rules, ls).len() <= 2 * ls.len(),
        forall|i: int| 0 <= i < vertex_plan(rules, ls).len() ==> (#[trigger] vertex_plan(rules, ls)[i]).0 < ls.len(),
        forall|i: int, j: int| 0 <= i < j < vertex_plan(rules, ls).len() ==>
            (#[trigger] vertex_plan(rules, ls)[i]).0 <= (#[trigger] vertex_plan(rules, ls)[j]).0
            && (vertex_plan(rules, ls)[i].0 == vertex_plan(rules, ls)[j].0 ==> !vertex_plan(rules, ls)[i].1 && vertex_plan(rules, ls)[j].1),
    decreases ls.len(),
{
    if ls.len() > 0 {
        lemma_plan_bounds(rules, ls.drop_last());
        let p = vertex_plan(rules, ls);
        let b = vertex_plan(rules, ls.drop_last());
        assert forall|i: int| 0 <= i < b.len() implies #[trigger] p[i] == b[i] by {
        }
        assert forall|i: int, j: int| 0 <= i < j < p.len() implies
            (#[trigger] p[i]).0 <= (#[trigger] p[j]).0 && (p[i].0 == p[j].0 ==> !p[i].1 && p[j].1) by {
            let l = ls.last();
            let jj = (ls.len() - 1) as usize;
            if rules.spec_can_pass(l.forward.attributes.spec_entries(), l.forward.inverted) {
                if rules.spec_can_pass(l.backward.attributes.spec_entries(), l.backward.inverted) {
                    assert(p == b.push((jj, false)).push((jj, true)));
                    assert(p[b.len() as int] == (jj, false));
                    assert(p[b.len() as int + 1] == (jj, true));
                } else {
                    assert(p == b.push((jj, false)));
                    assert(p[b.len() as int] == (jj, false));
                }
            }
            if j < b.len() {
                assert(p[i] == b[i] && p[j] == b[j]);
            } else if i < b.len() {
                assert(p[i] == b[i]);
                assert(b[i].0 < ls.len() - 1);
            }
        }
    }
}

/// Lengths of partial rows and partial tables never exceed the whole.
proof fn lemma_row_mono(a: nat, b: nat, cols: nat, cell: spec_fn(nat, nat) -> Seq<Edge>)
    requires
        b <= cols,
    ensures
        row(a, b, cell).len() <= row(a, cols, cell).len(),
    decreases cols,
{
    if b < cols {
        lemma_row_mono(a, b, (cols - 1) as nat, cell);
    }
}

proof fn lemma_cells_mono(n: nat, a: nat, rows: nat, cell: spec_fn(nat, nat) -> Seq<Edge>)
    requires
        a <= rows,
    ensures
        cells(n, a, cell).len() <= cells(n, rows, cell).len(),
    decreases rows,
{
    if a < rows {
        lemma_cells_mono(n, a, (rows - 1) as nat, cell);
    }
}

/// The edges added so far in a pass, plus one more cell, stay within the
/// whole pass.
proof fn lemma_prefix_within(n: nat, a: nat, b: nat, cell: spec_fn(nat, nat) -> Seq<Edge>)
    requires
        a < n,
        b < n,
    ensures
        cells(n, a, cell).len() + row(a, b, cell).len() + cell(a, b).len() <= cells(n, n, cell).len(),
{
    lemma_row_mono(a, b + 1, n, cell);
    lemma_cells_mono(n, a + 1, n, cell);
}

/// A cost row of edges each at most `m` long is at most `count * m` long.
proof fn lemma_per_cost_len(count: nat, f: spec_fn(nat) -> Seq<Edge>, m: nat)
    requires
        forall|c: nat| (#[trigger] f(c)).len() <= m,
    ensures
        per_cost(count, f).len() <= count * m,
    decreases count,
{
    if count > 0 {
        lemma_per_cost_len((count - 1) as nat, f, m);
        assert((count - 1) * m + m == count * m) by (nonlinear_arith);
    }
}

/// A table of `rows` rows of `n` cells, each at most `m` edges, has at most
/// `rows * n * m` edges.
proof fn lemma_cells_len(n: nat, rows: nat, cell: spec_fn(nat, nat) -> Seq<Edge>, m: nat)
    requires
        forall|a: nat, b: nat| (#[trigger] cell(a, b)).len() <= m,
    ensures
        cells(n, rows, cell).len() <= rows * n * m,
    decreases rows,
{
    if rows > 0 {
        lemma_cells_len(n, (rows - 1) as nat, cell, m);
        lemma_row_len((rows - 1) as nat, n, cell, m);
        assert((rows - 1) * n * m + n * m == rows * n * m) by (nonlinear_arith);
    }
}

proof fn lemma_row_len(a: nat, cols: nat, cell: spec_fn(nat, nat) -> Seq<Edge>, m: nat)
    requires
        forall|a: nat, b: nat| (#[trigger] cell(a, b)).len() <= m,
    ensures
        row(a, cols, cell).len() <= cols * m,
    decreases cols,
{
    if cols > 0 {
        lemma_row_len(a, (cols - 1) as nat, cell, m);
        assert((cols - 1) * m + m == cols * m) by (nonlinear_arith);
    }
}

impl Plan {
    /// The whole edge list is at most six times the number of vertex pairs
    /// times the number of cost models.
    proof fn lemma_total(self)
        ensures
            self.all_edges().len() <= 6 * self.plan.len() * self.plan.len() * self.costs,
    {
        let n = self.plan.len();
        let m = 2 * self.costs;
        let f1 = self.successors();
        let f2 = self.sideways();
        let f3 = self.conflicts();
        assert forall|a: nat, b: nat| (#[trigger] f1(a, b)).len() <= m by {
            lemma_per_cost_len(self.costs, self.successor_edges(a, b), 1);
        }
        assert forall|a: nat, b: nat| (#[trigger] f2(a, b)).len() <= m by {
            lemma_per_cost_len(self.costs, self.sideways_edges(a, b), 1);
        }
        assert forall|a: nat, b: nat| (#[trigger] f3(a, b)).len() <= m by {
            lemma_per_cost_len(self.costs, self.conflict_edges(a, b), 2);
        }
        lemma_cells_len(n, n, f1, m);
        lemma_cells_len(n, n, f2, m);
        lemma_cells_len(n, n, f3, m);
        assert(n * n * m == 2 * n * n * self.costs) by (nonlinear_arith)
            requires
                m == 2 * self.costs,
        ;
        assert(6 * n * n * self.costs == 3 * (2 * n * n * self.costs)) by (nonlinear_arith);
    }
}

/// Each cost row of a cell lies within the whole cell.
proof fn lemma_per_cost_mono(c: nat, count: nat, f: spec_fn(nat) -> Seq<Edge>)
    requires
        c < count,
    ensures
        per_cost(c, f).len() + f(c).len() <= per_cost(count, f).len(),
    decreases count,
{
    if c + 1 < count {
        lemma_per_cost_mono(c, (count - 1) as nat, f);
    }
}

/// Where the list holds facts for the pair, the first such entry.
fn find_facts(geo: &Vec<PairFacts>, a: LaneletKey, b: LaneletKey) -> (r: Option<usize>)
    ensures
        r matches Some(i) ==> i < geo@.len() && facts_between(geo@, a, b) == Some(geo@[i as int]),
        r is None ==> facts_between(geo@, a, b) is None,
{
    let ghost all = geo@;
    assert(all.skip(0) =~= all);
    let mut i: usize = 0;
    while i < geo.len()
        invariant
            i <= all.len(),
            geo@ == all,
            facts_between(all, a, b) == facts_between(all.skip(i as int), a, b),
        decreases all.len() - i,
    {
        assert(all.skip(i as int)[0] == all[i as int]);
        if geo[i].from == a && geo[i].to == b {
            return Some(i);
        }
        assert(all.skip(i as int).drop_first() =~= all.skip(i + 1));
        i = i + 1;
    }
    None
}

/// The tags of a planned view.
fn tags_at<'a>(ls: &'a Vec<MapLanelet>, p: (usize, bool)) -> (r: &'a LaneletTags)
    requires
        p.0 < ls@.len(),
    ensures
        *r == view_tags(ls@, p),
{
    if p.1 { &ls[p.0].backward } else { &ls[p.0].forward }
}

/// The vertices the rules allow, in map order, with each lanelet's backward
/// view right after it where that is allowed too.
fn plan_vertices(rules: &TrafficRules, ls: &Vec<MapLanelet>) -> (r: (Vec<(usize, bool)>, Vec<LaneletKey>))
    ensures
        r.0@ == vertex_plan(*rules, ls@),
        r.1@ == plan_keys(ls@, r.0@),
{
    let mut plan: Vec<(usize, bool)> = Vec::new();
    let mut keys: Vec<LaneletKey> = Vec::new();
    let mut j: usize = 0;
    while j < ls.len()
        invariant
            j <= ls@.len(),
            plan@ == vertex_plan(*rules, ls@.take(j as int)),
            forall|i: int| 0 <= i < plan@.len() ==> (#[trigger] plan@[i]).0 < j,
            keys@ == plan_keys(ls@, plan@),
        decreases ls@.len() - j,
    {
        let ghost before = plan@;
        proof {
            assert(ls@.take(j + 1).drop_last() =~= ls@.take(j as int));
            assert(ls@.take(j + 1).last() == ls@[j as int]);
        }
        let l = &ls[j];
        if rules.can_pass(&l.forward) {
            plan.push((j, false));
            keys.push(LaneletKey { id: l.id, inverted: false });
            if rules.can_pass(&l.backward) {
                plan.push((j, true));
                keys.push(LaneletKey { id: l.id, inverted: true });
            }
        }
        proof {
            assert(plan@ == vertex_plan(*rules, ls@.take(j + 1)));
            assert(keys@ =~= plan_keys(ls@, plan@)) by {
                assert forall|i: int| 0 <= i < plan@.len() implies #[trigger] keys@[i] == (LaneletKey {
                    id: ls@[plan@[i].0 as int].id,
                    inverted: plan@[i].1,
                }) by {
                    if i < before.len() {
                        assert(plan@[i] == before[i]);
                    }
                }
            }
        }
        j = j + 1;
    }
    assert(ls@.take(ls@.len() as int) =~= ls@);
    (plan, keys)
}

/// What every pass reads, and what it may assume of it.
pub open spec fn pass_ready(
    graph: Graph,
    pl: Plan,
    rules: TrafficRules,
    ls: Seq<MapLanelet>,
    geo: Seq<PairFacts>,
    plan: Seq<(usize, bool)>,
    keys: Seq<LaneletKey>,
    cost_count: usize,
) -> bool {
    &&& graph.wf()
    &&& graph.spec_vertex_count() == plan.len()
    &&& pl == Plan { rules, ls, geo, plan, costs: cost_count as nat }
    &&& keys == plan_keys(ls, plan)
    &&& forall|i: int| 0 <= i < plan.len() ==> (#[trigger] plan[i]).0 < ls.len()
    &&& forall|i: int| 0 <= i < geo.len() ==> (#[trigger] geo[i]).succeed_costs@.len() == cost_count
        && geo[i].change_costs@.len() == cost_count
}

/// Adds the successor edges of every pair of vertices.
fn successor_pass(
    graph: &mut Graph,
    rules: &TrafficRules,
    ls: &Vec<MapLanelet>,
    geo: &Vec<PairFacts>,
    plan: &Vec<(usize, bool)>,
    keys: &Vec<LaneletKey>,
    cost_count: usize,
    Ghost(pl): Ghost<Plan>,
)
    requires
        pass_ready(*old(graph), pl, *rules, ls@, geo@, plan@, keys@, cost_count),
        old(graph).spec_edges().len() + cells(plan@.len(), plan@.len(), pl.successors()).len() < usize::MAX,
    ensures
        pass_ready(*final(graph), pl, *rules, ls@, geo@, plan@, keys@, cost_count),
        final(graph).spec_edges() == old(graph).spec_edges() + cells(plan@.len(), plan@.len(), pl.successors()),
{
    let n = plan.len();
    let ghost f = pl.successors();
    let ghost base = graph.spec_edges();
    assert(base + cells(n as nat, 0, f) =~= base);
    let mut a: usize = 0;
    while a < n
        invariant
            pass_ready(*graph, pl, *rules, ls@, geo@, plan@, keys@, cost_count),
            n == plan@.len(),
            f == pl.successors(),
            base.len() + cells(n as nat, n as nat, f).len() < usize::MAX,
            a <= n,
            graph.spec_edges() == base + cells(n as nat, a as nat, f),
        decreases n - a,
    {
        let mut b: usize = 0;
        assert(base + cells(n as nat, a as nat, f) + row(a as nat, 0, f) =~= base + cells(n as nat, a as nat, f));
        while b < n
            invariant
                pass_ready(*graph, pl, *rules, ls@, geo@, plan@, keys@, cost_count),
                n == plan@.len(),
                f == pl.successors(),
                base.len() + cells(n as nat, n as nat, f).len() < usize::MAX,
                a < n,
                b <= n,
                graph.spec_edges() == base + cells(n as nat, a as nat, f) + row(a as nat, b as nat, f),
            decreases n - b,
        {
            let ghost start = graph.spec_edges();
            proof {
                lemma_prefix_within(n as nat, a as nat, b as nat, f);
            }
            let found = find_facts(geo, keys[a], keys[b]);
            let follows = match found {
                Some(i) => geo[i].follows,
                None => false,
            };
            let ta = tags_at(ls, plan[a]);
            let tb = tags_at(ls, plan[b]);
            if a != b && follows && rules.can_pass_between(ta, tb, follows) {
                let i = found.unwrap();
                let ghost g = pl.successor_edges(a as nat, b as nat);
                assert(start + per_cost(0, g) =~= start);
                let mut c: usize = 0;
                while c < cost_count
                    invariant
                        pass_ready(*graph, pl, *rules, ls@, geo@, plan@, keys@, cost_count),
                        n == plan@.len(),
                        a < n && b < n,
                        i < geo@.len(),
                        facts_between(geo@, keys@[a as int], keys@[b as int]) == Some(geo@[i as int]),
                        g == pl.successor_edges(a as nat, b as nat),
                        start.len() + per_cost(cost_count as nat, g).len() < usize::MAX,
                        c <= cost_count,
                        graph.spec_edges() == start + per_cost(c as nat, g),
                    decreases cost_count - c,
                {
                    proof {
                        lemma_per_cost_mono(c as nat, cost_count as nat, g);
                    }
                    graph.add_edge(a, b, RelationType(SUCCESSOR), c, geo[i].succeed_costs[c]);
                    proof {
                        assert(g(c as nat) =~= seq![Edge {
                            from: a,
                            to: b,
                            relation: RelationType(SUCCESSOR),
                            cost_id: c,
                            cost: geo@[i as int].succeed_costs@[c as int],
                        }]);
                        assert(graph.spec_edges() =~= start + per_cost((c + 1) as nat, g));
                    }
                    c = c + 1;
                }
                proof {
                    assert(pl.follows(a as nat, b as nat));
                }
            } else {
                proof {
                    assert(!pl.follows(a as nat, b as nat));
                    assert(f(a as nat, b as nat) =~= Seq::<Edge>::empty());
                }
            }
            proof {
                assert(f(a as nat, b as nat) == pl.successor_cell(a as nat, b as nat));
                assert(graph.spec_edges() =~= base + cells(n as nat, a as nat, f) + row(a as nat, (b + 1) as nat, f));
            }
            b = b + 1;
        }
        proof {
            assert(graph.spec_edges() =~= base + cells(n as nat, (a + 1) as nat, f));
        }
        a = a + 1;
    }
}

/// Where vertex `a` lies relative to vertex `b`, and whether they overlap.
fn geometry_of(geo: &Vec<PairFacts>, keys: &Vec<LaneletKey>, a: usize, b: usize) -> (r: (bool, bool, bool))
    requires
        a < keys@.len(),
        b < keys@.len(),
    ensures
        r.0 == left_of(geo@, keys@[a as int], keys@[b as int]),
        r.1 == right_of(geo@, keys@[a as int], keys@[b as int]),
        r.2 == overlaps(geo@, keys@[a as int], keys@[b as int]),
{
    match find_facts(geo, keys[a], keys[b]) {
        Some(i) => (geo[i].left_of, geo[i].right_of, geo[i].overlaps),
        None => (false, false, false),
    }
}

/// Adds the sideways edges of every pair of vertices.
fn sideways_pass(
    graph: &mut Graph,
    rules: &TrafficRules,
    ls: &Vec<MapLanelet>,
    geo: &Vec<PairFacts>,
    plan: &Vec<(usize, bool)>,
    keys: &Vec<LaneletKey>,
    cost_count: usize,
    Ghost(pl): Ghost<Plan>,
)
    requires
        pass_ready(*old(graph), pl, *rules, ls@, geo@, plan@, keys@, cost_count),
        old(graph).spec_edges().len() + cells(plan@.len(), plan@.len(), pl.sideways()).len() < usize::MAX,
    ensures
        pass_ready(*final(graph), pl, *rules, ls@, geo@, plan@, keys@, cost_count),
        final(graph).spec_edges() == old(graph).spec_edges() + cells(plan@.len(), plan@.len(), pl.sideways()),
{
    let n = plan.len();
    let ghost f = pl.sideways();
    let ghost base = graph.spec_edges();
    assert(base + cells(n as nat, 0, f) =~= base);
    let mut a: usize = 0;
    while a < n
        invariant
            pass_ready(*graph, pl, *rules, ls@, geo@, plan@, keys@, cost_count),
            n == plan@.len(),
            f == pl.sideways(),
            base.len() + cells(n as nat, n as nat, f).len() < usize::MAX,
            a <= n,
            graph.spec_edges() == base + cells(n as nat, a as nat, f),
        decreases n - a,
    {
        let mut b: usize = 0;
        assert(base + cells(n as nat, a as nat, f) + row(a as nat, 0, f) =~= base + cells(n as nat, a as nat, f));
        while b < n
            invariant
                pass_ready(*graph, pl, *rules, ls@, geo@, plan@, keys@, cost_count),
                n == plan@.len(),
                f == pl.sideways(),
                base.len() + cells(n as nat, n as nat, f).len() < usize::MAX,
                a < n,
                b <= n,
                graph.spec_edges() == base + cells(n as nat, a as nat, f) + row(a as nat, b as nat, f),
            decreases n - b,
        {
            let ghost start = graph.spec_edges();
            proof {
                lemma_prefix_within(n as nat, a as nat, b as nat, f);
            }
            let (to_the_left, to_the_right, _) = geometry_of(geo, keys, b, a);
            if a != b && (to_the_left || to_the_right) {
                let (a_left, a_right, _) = geometry_of(geo, keys, a, b);
                let side = if a_left {
                    Side::LeftOf
                } else if a_right {
                    Side::RightOf
                } else {
                    Side::Apart
                };
                let ta = tags_at(ls, plan[a]);
                let tb = tags_at(ls, plan[b]);
                let changeable = rules.can_change_lane(ta, tb, side);
                let found = find_facts(geo, keys[a], keys[b]);
                let ghost g = pl.sideways_edges(a as nat, b as nat);
                assert(start + per_cost(0, g) =~= start);
                let mut c: usize = 0;
                while c < cost_count
                    invariant
                        pass_ready(*graph, pl, *rules, ls@, geo@, plan@, keys@, cost_count),
                        n == plan@.len(),
                        a < n && b < n,
                        found matches Some(i) ==> i < geo@.len() && facts_between(geo@, keys@[a as int], keys@[b as int]) == Some(geo@[i as int]),
                        found is None ==> facts_between(geo@, keys@[a as int], keys@[b as int]) is None,
                        to_the_left == left_of(geo@, keys@[b as int], keys@[a as int]),
                        side == pl.side(a as nat, b as nat),
                        changeable == rules.spec_can_change_lane(&pl.tags(a as nat), &pl.tags(b as nat), side),
                        g == pl.sideways_edges(a as nat, b as nat),
                        start.len() + per_cost(cost_count as nat, g).len() < usize::MAX,
                        c <= cost_count,
                        graph.spec_edges() == start + per_cost(c as nat, g),
                    decreases cost_count - c,
                {
                    proof {
                        lemma_per_cost_mono(c as nat, cost_count as nat, g);
                    }
                    let change = match found {
                        Some(i) => geo[i].change_costs[c],
                        None => INFINITE_COST,
                    };
                    if changeable && change != INFINITE_COST {
                        graph.add_edge(a, b, RelationType(if to_the_left { LEFT } else { RIGHT }), c, change);
                    } else {
                        graph.add_edge(a, b, RelationType(if to_the_left { ADJACENT_LEFT } else { ADJACENT_RIGHT }), c, 1);
                    }
                    proof {
                        assert(change == change_cost(geo@, pl.key(a as nat), pl.key(b as nat), c as nat));
                        assert(g(c as nat) =~= seq![pl.sideways_edge(a as nat, b as nat, c as nat)]);
                        assert(graph.spec_edges() =~= start + per_cost((c + 1) as nat, g));
                    }
                    c = c + 1;
                }
                proof {
                    assert(pl.beside(a as nat, b as nat));
                }
            } else {
                proof {
                    assert(!pl.beside(a as nat, b as nat));
                    assert(f(a as nat, b as nat) =~= Seq::<Edge>::empty());
                }
            }
            proof {
                assert(f(a as nat, b as nat) == pl.sideways_cell(a as nat, b as nat));
                assert(graph.spec_edges() =~= base + cells(n as nat, a as nat, f) + row(a as nat, (b + 1) as nat, f));
            }
            b = b + 1;
        }
        proof {
            assert(graph.spec_edges() =~= base + cells(n as nat, (a + 1) as nat, f));
        }
        a = a + 1;
    }
}

/// Adds the conflict edges of every pair of vertices.
fn conflict_pass(
    graph: &mut Graph,
    rules: &TrafficRules,
    ls: &Vec<MapLanelet>,
    geo: &Vec<PairFacts>,
    plan: &Vec<(usize, bool)>,
    keys: &Vec<LaneletKey>,
    cost_count: usize,
    Ghost(pl): Ghost<Plan>,
)
    requires
        pass_ready(*old(graph), pl, *rules, ls@, geo@, plan@, keys@, cost_count),
        old(graph).spec_edges().len() + cells(plan@.len(), plan@.len(), pl.conflicts()).len() < usize::MAX,
    ensures
        pass_ready(*final(graph), pl, *rules, ls@, geo@, plan@, keys@, cost_count),
        final(graph).spec_edges() == old(graph).spec_edges() + cells(plan@.len(), plan@.len(), pl.conflicts()),
{
    let n = plan.len();
    let ghost f = pl.conflicts();
    let ghost base = graph.spec_edges();
    assert(base + cells(n as nat, 0, f) =~= base);
    let mut a: usize = 0;
    while a < n
        invariant
            pass_ready(*graph, pl, *rules, ls@, geo@, plan@, keys@, cost_count),
            n == plan@.len(),
            f == pl.conflicts(),
            base.len() + cells(n as nat, n as nat, f).len() < usize::MAX,
            a <= n,
            graph.spec_edges() == base + cells(n as nat, a as nat, f),
        decreases n - a,
    {
        let mut b: usize = 0;
        assert(base + cells(n as nat, a as nat, f) + row(a as nat, 0, f) =~= base + cells(n as nat, a as nat, f));
        while b < n
            invariant
                pass_ready(*graph, pl, *rules, ls@, geo@, plan@, keys@, cost_count),
                n == plan@.len(),
                f == pl.conflicts(),
                base.len() + cells(n as nat, n as nat, f).len() < usize::MAX,
                a < n,
                b <= n,
                graph.spec_edges() == base + cells(n as nat, a as nat, f) + row(a as nat, b as nat, f),
            decreases n - b,
        {
            let ghost start = graph.spec_edges();
            proof {
                lemma_prefix_within(n as nat, a as nat, b as nat, f);
            }
            let conflict = if a < b {
                if plan[a].0 == plan[b].0 {
                    true
                } else {
                    let (_, _, overlapping) = geometry_of(geo, keys, a, b);
                    overlapping
                }
            } else {
                false
            };
            if conflict {
                let ghost g = pl.conflict_edges(a as nat, b as nat);
                assert(start + per_cost(0, g) =~= start);
                let mut c: usize = 0;
                while c < cost_count
                    invariant
                        pass_ready(*graph, pl, *rules, ls@, geo@, plan@, keys@, cost_count),
                        n == plan@.len(),
                        a < n && b < n,
                        g == pl.conflict_edges(a as nat, b as nat),
                        start.len() + per_cost(cost_count as nat, g).len() < usize::MAX,
                        c <= cost_count,
                        graph.spec_edges() == start + per_cost(c as nat, g),
                    decreases cost_count - c,
                {
                    proof {
                        lemma_per_cost_mono(c as nat, cost_count as nat, g);
                    }
                    graph.add_edge(a, b, RelationType(CONFLICTING), c, 1);
                    graph.add_edge(b, a, RelationType(CONFLICTING), c, 1);
                    proof {
                        assert(graph.spec_edges() =~= start + per_cost((c + 1) as nat, g));
                    }
                    c = c + 1;
                }
                proof {
                    assert(a < b && pl.conflict(a as nat, b as nat));
                }
            } else {
                proof {
                    assert(!(a < b && pl.conflict(a as nat, b as nat)));
                    assert(f(a as nat, b as nat) =~= Seq::<Edge>::empty());
                }
            }
            proof {
                assert(f(a as nat, b as nat) == pl.conflict_cell(a as nat, b as nat));
                assert(graph.spec_edges() =~= base + cells(n as nat, a as nat, f) + row(a as nat, (b + 1) as nat, f));
            }
            b = b + 1;
        }
        proof {
            assert(graph.spec_edges() =~= base + cells(n as nat, (a + 1) as nat, f));
        }
        a = a + 1;
    }
}

/// Distinct lanelet ids give distinct vertices.
proof fn lemma_keys_distinct(rules: TrafficRules, ls: Seq<MapLanelet>)
    requires
        ls.len() <= usize::MAX,
        forall|i: int, j: int| 0 <= i < j < ls.len() ==> (#[trigger] ls[i]).id != (#[trigger] ls[j]).id,
    ensures
        plan_keys(ls, vertex_plan(rules, ls)).no_duplicates(),
{
    let p = vertex_plan(rules, ls);
    let k = plan_keys(ls, p);
    lemma_plan_bounds(rules, ls);
    assert forall|a: int, b: int| 0 <= a < k.len() && 0 <= b < k.len() && a != b implies k[a] != k[b] by {
        let (lo, hi) = if a < b { (a, b) } else { (b, a) };
        assert(p[lo].0 <= p[hi].0);
        if p[lo].0 < p[hi].0 {
            assert(ls[p[lo].0 as int].id != ls[p[hi].0 as int].id);
        }
    }
}

impl RoutingGraph {
    /// Builds the graph over the lanelets `rules` let the participant use.
    ///
    /// A lanelet drivable both ways gets a second vertex for its backward
    /// view, right after the first, and the two conflict. Every ordered pair
    /// of vertices then gets, per cost model: a successor edge where the
    /// second continues the first and both may be used; a sideways edge
    /// where the second lies left or right of the first, a lane change where
    /// the rules allow one and the cost model can pay for it, mere adjacency
    /// at cost one otherwise; and conflict edges both ways where the two are
    /// one lanelet's two directions or overlap.
    pub fn build(rules: &TrafficRules, lanelets: &Vec<MapLanelet>, geometry: &Vec<PairFacts>, cost_count: usize) -> (r: RoutingGraph)
        requires
            forall|i: int, j: int| 0 <= i < j < lanelets@.len() ==> (#[trigger] lanelets@[i]).id != (#[trigger] lanelets@[j]).id,
            forall|i: int| 0 <= i < geometry@.len() ==> (#[trigger] geometry@[i]).succeed_costs@.len() == cost_count
                && geometry@[i].change_costs@.len() == cost_count,
            24 * lanelets@.len() * lanelets@.len() * cost_count < usize::MAX,
            2 * lanelets@.len() <= MAX_VERTICES,
        ensures
            r.wf(),
            r.spec_vertices() == plan_keys(lanelets@, vertex_plan(*rules, lanelets@)),
            r.spec_edges() == (Plan {
                rules: *rules,
                ls: lanelets@,
                geo: geometry@,
                plan: vertex_plan(*rules, lanelets@),
                costs: cost_count as nat,
            }).all_edges(),
            r.spec_cost_count() == cost_count,
    {
        let (plan, keys) = plan_vertices(rules, lanelets);
        let _ = lanelets.len();
        let ghost pl = Plan { rules: *rules, ls: lanelets@, geo: geometry@, plan: plan@, costs: cost_count as nat };
        proof {
            lemma_plan_bounds(*rules, lanelets@);
            lemma_keys_distinct(*rules, lanelets@);
            pl.lemma_total();
            let n = plan@.len();
            let l = lanelets@.len();
            assert(6 * n * n * cost_count <= 24 * l * l * cost_count) by (nonlinear_arith)
                requires
                    n <= 2 * l,
            ;
        }
        let mut graph = Graph::new(plan.len(), cost_count);
        let ghost n = plan@.len();
        proof {
            assert(Seq::<Edge>::empty() + cells(n, n, pl.successors()) =~= cells(n, n, pl.successors()));
        }
        successor_pass(&mut graph, rules, lanelets, geometry, &plan, &keys, cost_count, Ghost(pl));
        sideways_pass(&mut graph, rules, lanelets, geometry, &plan, &keys, cost_count, Ghost(pl));
        conflict_pass(&mut graph, rules, lanelets, geometry, &plan, &keys, cost_count, Ghost(pl));
        proof {
            assert(graph.spec_edges() =~= pl.all_edges());
        }
        RoutingGraph::from_parts(graph, keys, cost_count)
    }
}

/// What a sequence holds, a longer one built on it holds too.
proof fn lemma_in_concat(x: Seq<Edge>, y: Seq<Edge>, e: Edge)
    requires
        x.contains(e) || y.contains(e),
    ensures
        (x + y).contains(e),
{
    if x.contains(e) {
        let i = choose|i: int| 0 <= i < x.len() && x[i] == e;
        assert((x + y)[i] == e);
    } else {
        let i = choose|i: int| 0 <= i < y.len() && y[i] == e;
        assert((x + y)[x.len() + i] == e);
    }
}

proof fn lemma_per_cost_has(count: nat, f: spec_fn(nat) -> Seq<Edge>, c: nat, e: Edge)
    requires
        c < count,
        f(c).contains(e),
    ensures
        per_cost(count, f).contains(e),
    decreases count,
{
    if c + 1 < count {
        lemma_per_cost_has((count - 1) as nat, f, c, e);
    }
    lemma_in_concat(per_cost((count - 1) as nat, f), f((count - 1) as nat), e);
}

proof fn lemma_row_has(a: nat, cols: nat, cell: spec_fn(nat, nat) -> Seq<Edge>, b: nat, e: Edge)
    requires
        b < cols,
        cell(a, b).contains(e),
    ensures
        row(a, cols, cell).contains(e),
    decreases cols,
{
    if b + 1 < cols {
        lemma_row_has(a, (cols - 1) as nat, cell, b, e);
    }
    lemma_in_concat(row(a, (cols - 1) as nat, cell), cell(a, (cols - 1) as nat), e);
}

proof fn lemma_cells_has(n: nat, rows: nat, cell: spec_fn(nat, nat) -> Seq<Edge>, a: nat, e: Edge)
    requires
        a < rows,
        row(a, n, cell).contains(e),
    ensures
        cells(n, rows, cell).contains(e),
    decreases rows,
{
    if a + 1 < rows {
        lemma_cells_has(n, (rows - 1) as nat, cell, a, e);
    }
    lemma_in_concat(cells(n, (rows - 1) as nat, cell), row((rows - 1) as nat, n, cell), e);
}

/// The two directions of a lanelet drivable both ways conflict: for every
/// cost model there is a conflict edge each way between its two vertices.
pub proof fn lemma_two_way_conflicts(pl: Plan, a: nat, c: nat)
    requires
        a + 1 < pl.plan.len(),
        pl.plan[a as int].0 == pl.plan[a as int + 1].0,
        c < pl.costs,
    ensures
        pl.all_edges().contains(Edge { from: a as usize, to: (a + 1) as usize, relation: RelationType(CONFLICTING), cost_id: c as usize, cost: 1 }),
        pl.all_edges().contains(Edge { from: (a + 1) as usize, to: a as usize, relation: RelationType(CONFLICTING), cost_id: c as usize, cost: 1 }),
{
    let n = pl.plan.len();
    let g = pl.conflict_edges(a, a + 1);
    let there = Edge { from: a as usize, to: (a + 1) as usize, relation: RelationType(CONFLICTING), cost_id: c as usize, cost: 1 };
    let back = Edge { from: (a + 1) as usize, to: a as usize, relation: RelationType(CONFLICTING), cost_id: c as usize, cost: 1 };
    assert(g(c)[0] == there && g(c)[1] == back);
    assert(pl.conflict(a, a + 1));
    assert(pl.conflicts()(a, a + 1) == per_cost(pl.costs, g));
    let f = pl.conflicts();
    lemma_per_cost_has(pl.costs, g, c, there);
    lemma_per_cost_has(pl.costs, g, c, back);
    lemma_row_has(a, n, f, a + 1, there);
    lemma_row_has(a, n, f, a + 1, back);
    lemma_cells_has(n, n, f, a, there);
    lemma_cells_has(n, n, f, a, back);
    lemma_in_concat(cells(n, n, pl.successors()) + cells(n, n, pl.sideways()), cells(n, n, f), there);
    lemma_in_concat(cells(n, n, pl.successors()) + cells(n, n, pl.sideways()), cells(n, n, f), back);
}

/// Lanelets whose outlines overlap conflict: where the geometry facts for a
/// pair of vertices of different lanelets, the earlier vertex first, say the
/// outlines overlap, there is a conflict edge each way between them for every
/// cost model.
pub proof fn lemma_overlaps_conflict(pl: Plan, a: nat, b: nat, f: PairFacts, c: nat)
    requires
        a < b < pl.plan.len(),
        pl.plan[a as int].0 != pl.plan[b as int].0,
        facts_between(pl.geo, pl.key(a), pl.key(b)) == Some(f),
        f.overlaps,
        c < pl.costs,
    ensures
        pl.all_edges().contains(Edge { from: a as usize, to: b as usize, relation: RelationType(CONFLICTING), cost_id: c as usize, cost: 1 }),
        pl.all_edges().contains(Edge { from: b as usize, to: a as usize, relation: RelationType(CONFLICTING), cost_id: c as usize, cost: 1 }),
{
    let n = pl.plan.len();
    let g = pl.conflict_edges(a, b);
    let there = Edge { from: a as usize, to: b as usize, relation: RelationType(CONFLICTING), cost_id: c as usize, cost: 1 };
    let back = Edge { from: b as usize, to: a as usize, relation: RelationType(CONFLICTING), cost_id: c as usize, cost: 1 };
    assert(g(c)[0] == there && g(c)[1] == back);
    assert(pl.conflict(a, b));
    assert(pl.conflicts()(a, b) == per_cost(pl.costs, g));
    let fc = pl.conflicts();
    lemma_per_cost_has(pl.costs, g, c, there);
    lemma_per_cost_has(pl.costs, g, c, back);
    lemma_row_has(a, n, fc, b, there);
    lemma_row_has(a, n, fc, b, back);
    lemma_cells_has(n, n, fc, a, there);
    lemma_cells_has(n, n, fc, a, back);
    lemma_in_concat(cells(n, n, pl.successors()) + cells(n, n, pl.sideways()), cells(n, n, fc), there);
    lemma_in_concat(cells(n, n, pl.successors()) + cells(n, n, pl.sideways()), cells(n, n, fc), back);
}

/// A conflict edge is due between two vertices where they are the two
/// directions of one lanelet, or where the geometry facts for the pair, the
/// earlier vertex first, say their outlines overlap.
pub open spec fn conflict_due(pl: Plan, x: nat, y: nat) -> bool {
    let lo = if x < y { x } else { y };
    let hi = if x < y { y } else { x };
    &&& x != y
    &&& x < pl.plan.len() && y < pl.plan.len()
    &&& (pl.plan[lo as int].0 == pl.plan[hi as int].0 || (facts_between(pl.geo, pl.key(lo), pl.key(hi)) matches Some(f)
        && f.overlaps))
}

/// Conflict edges are only where they are due: every conflict edge of the
/// graph joins two vertices of one lanelet, or two whose outlines overlap,
/// at cost one, under one of the cost models.
pub proof fn lemma_conflicts_only_where_due(pl: Plan, e: Edge)
    requires
        pl.plan.len() <= usize::MAX,
        pl.costs <= usize::MAX,
        pl.all_edges().contains(e),
        e.relation == RelationType(CONFLICTING),
    ensures
        conflict_due(pl, e.from as nat, e.to as nat),
        e.cost == 1,
        e.cost_id < pl.costs,
{
    let n = pl.plan.len();
    let ok = |x: Edge| x.relation == RelationType(CONFLICTING) ==> conflict_due(pl, x.from as nat, x.to as nat) && x.cost == 1
        && x.cost_id < pl.costs;
    assert forall|a: nat, b: nat, x: Edge| a < n && b < n && #[trigger] pl.successors()(a, b).contains(x) implies ok(x) by {
        if pl.follows(a, b) {
            lemma_per_cost_only(pl.costs, pl.successor_edges(a, b), ok);
        }
    }
    assert forall|a: nat, b: nat, x: Edge| a < n && b < n && #[trigger] pl.sideways()(a, b).contains(x) implies ok(x) by {
        if pl.beside(a, b) {
            assert forall|c: nat, y: Edge| c < pl.costs && #[trigger] pl.sideways_edges(a, b)(c).contains(y) implies ok(y) by {
                assert(y == pl.sideways_edge(a, b, c));
            }
            lemma_per_cost_only(pl.costs, pl.sideways_edges(a, b), ok);
        }
    }
    assert forall|a: nat, b: nat, x: Edge| a < n && b < n && #[trigger] pl.conflicts()(a, b).contains(x) implies ok(x) by {
        if a < b && pl.conflict(a, b) {
            assert forall|c: nat, y: Edge| c < pl.costs && #[trigger] pl.conflict_edges(a, b)(c).contains(y) implies ok(y) by {
                let es = pl.conflict_edges(a, b)(c);
                let k = choose|k: int| 0 <= k < es.len() && #[trigger] es[k] == y;
                assert(k == 0 || k == 1);
                assert(conflict_due(pl, a, b));
                assert(conflict_due(pl, b, a));
                if k == 0 {
                    assert(y.from as nat == a && y.to as nat == b);
                } else {
                    assert(y.from as nat == b && y.to as nat == a);
                }
                assert(y.cost == 1 && y.cost_id as nat == c);
            }
            lemma_per_cost_only(pl.costs, pl.conflict_edges(a, b), ok);
        }
    }
    lemma_cells_only(n, n, pl.successors(), ok);
    lemma_cells_only(n, n, pl.sideways(), ok);
    lemma_cells_only(n, n, pl.conflicts(), ok);
    crate::walks::lemma_concat_contains(cells(n, n, pl.successors()) + cells(n, n, pl.sideways()), cells(n, n, pl.conflicts()), e);
    if (cells(n, n, pl.successors()) + cells(n, n, pl.sideways())).contains(e) {
        crate::walks::lemma_concat_contains(cells(n, n, pl.successors()), cells(n, n, pl.sideways()), e);
    }
    assert(ok(e));
}

proof fn lemma_per_cost_only(count: nat, f: spec_fn(nat) -> Seq<Edge>, ok: spec_fn(Edge) -> bool)
    requires
        forall|c: nat, x: Edge| c < count && #[trigger] f(c).contains(x) ==> ok(x),
    ensures
        forall|x: Edge| #[trigger] per_cost(count, f).contains(x) ==> ok(x),
    decreases count,
{
    if count > 0 {
        lemma_per_cost_only((count - 1) as nat, f, ok);
        assert forall|x: Edge| #[trigger] per_cost(count, f).contains(x) implies ok(x) by {
            crate::walks::lemma_concat_contains(per_cost((count - 1) as nat, f), f((count - 1) as nat), x);
        }
    }
}

proof fn lemma_row_only(a: nat, cols: nat, cell: spec_fn(nat, nat) -> Seq<Edge>, ok: spec_fn(Edge) -> bool)
    requires
        forall|b: nat, x: Edge| b < cols && #[trigger] cell(a, b).contains(x) ==> ok(x),
    ensures
        forall|x: Edge| #[trigger] row(a, cols, cell).contains(x) ==> ok(x),
    decreases cols,
{
    if cols > 0 {
        lemma_row_only(a, (cols - 1) as nat, cell, ok);
        assert forall|x: Edge| #[trigger] row(a, cols, cell).contains(x) implies ok(x) by {
            crate::walks::lemma_concat_contains(row(a, (cols - 1) as nat, cell), cell(a, (cols - 1) as nat), x);
        }
    }
}

proof fn lemma_cells_only(n: nat, rows: nat, cell: spec_fn(nat, nat) -> Seq<Edge>, ok: spec_fn(Edge) -> bool)
    requires
        forall|a: nat, b: nat, x: Edge| a < rows && b < n && #[trigger] cell(a, b).contains(x) ==> ok(x),
    ensures
        forall|x: Edge| #[trigger] cells(n, rows, cell).contains(x) ==> ok(x),
    decreases rows,
{
    if rows > 0 {
        lemma_cells_only(n, (rows - 1) as nat, cell, ok);
        lemma_row_only((rows - 1) as nat, n, cell, ok);
        assert forall|x: Edge| #[trigger] cells(n, rows, cell).contains(x) implies ok(x) by {
            crate::walks::lemma_concat_contains(cells(n, (rows - 1) as nat, cell), row((rows - 1) as nat, n, cell), x);
        }
    }
}

/// Every cost model gets its own edge: where one vertex continues another,
/// there is a successor edge between them for each cost model.
pub proof fn lemma_successor_per_cost(pl: Plan, a: nat, b: nat, c: nat)
    requires
        a < pl.plan.len(),
        b < pl.plan.len(),
        pl.follows(a, b),
        c < pl.costs,
    ensures
        pl.all_edges().contains(Edge {
            from: a as usize,
            to: b as usize,
            relation: RelationType(SUCCESSOR),
            cost_id: c as usize,
            cost: succeed_cost(pl.geo, pl.key(a), pl.key(b), c),
        }),
{
    let n = pl.plan.len();
    let g = pl.successor_edges(a, b);
    let e = Edge { from: a as usize, to: b as usize, relation: RelationType(SUCCESSOR), cost_id: c as usize, cost: succeed_cost(pl.geo, pl.key(a), pl.key(b), c) };
    assert(g(c)[0] == e);
    let f = pl.successors();
    assert(f(a, b) == per_cost(pl.costs, g));
    lemma_per_cost_has(pl.costs, g, c, e);
    lemma_row_has(a, n, f, b, e);
    lemma_cells_has(n, n, f, a, e);
    lemma_in_concat(cells(n, n, f), cells(n, n, pl.sideways()), e);
    lemma_in_concat(cells(n, n, f) + cells(n, n, pl.sideways()), cells(n, n, pl.conflicts()), e);
}

/// Only what the participant may use becomes a vertex: every planned view is
/// passable, and a backward view comes right after its forward one.
pub proof fn lemma_vertices_passable(rules: TrafficRules, ls: Seq<MapLanelet>, i: int)
    requires
        ls.len() <= usize::MAX,
        0 <= i < vertex_plan(rules, ls).len(),
    ensures
        rules.spec_can_pass(view_tags(ls, vertex_plan(rules, ls)[i]).attributes.spec_entries(), view_tags(
            ls,
            vertex_plan(rules, ls)[i],
        ).inverted),
        vertex_plan(rules, ls)[i].1 ==> i > 0 && vertex_plan(rules, ls)[i - 1] == (vertex_plan(rules, ls)[i].0, false),
    decreases ls.len(),
{
    let p = vertex_plan(rules, ls);
    let b = vertex_plan(rules, ls.drop_last());
    lemma_plan_bounds(rules, ls.drop_last());
    if i < b.len() {
        assert(p[i] == b[i]);
        lemma_vertices_passable(rules, ls.drop_last(), i);
        assert(view_tags(ls, p[i]) == view_tags(ls.drop_last(), b[i]));
        if p[i].1 {
            assert(p[i - 1] == b[i - 1]);
        }
    } else {
        let l = ls.last();
        let jj = (ls.len() - 1) as usize;
        if rules.spec_can_pass(l.backward.attributes.spec_entries(), l.backward.inverted) {
            assert(p == b.push((jj, false)).push((jj, true)));
        } else {
            assert(p == b.push((jj, false)));
        }
    }
}

} // verus!
