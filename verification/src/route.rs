//! A route: the corridor a driver may use between two lanelets.
//!
//! Not just the shortest path: a route also holds every lanelet a driver
//! could change lanes onto and still reach the goal. Lanes within the
//! corridor are numbered from 1000 upwards, and a new number starts wherever
//! the corridor branches or merges rather than simply continuing.

use vstd::prelude::*;
use crate::relation::{RelationType, LEFT, RIGHT, ADJACENT_LEFT, ADJACENT_RIGHT, CONFLICTING};
use crate::routing::{LaneletKey, LaneletRelation, RoutingGraph, MAX_VERTICES, drivable, has_key, append, lanelets_of, related, texts};
use crate::graph::{Edge, Query, filter_in, filter_out, near, selects, steps_from};

verus! {

/// The first lane number a route hands out.
pub const FIRST_LANE_ID: i64 = 1000;

/// A relation one may change lanes along.
pub open spec fn is_change(relation: RelationType) -> bool {
    relation == RelationType(LEFT) || relation == RelationType(RIGHT)
}

/// The neighbours to the left and then to the right of `m`, in the runs the
/// graph reports them in.
pub open spec fn sides(g: RoutingGraph, m: LaneletKey, cost_id: usize) -> Seq<LaneletRelation> {
    g.side_walk(m, RelationType(LEFT), RelationType(ADJACENT_LEFT), cost_id, g.spec_vertices().len() + 1) + g.side_walk(
        m,
        RelationType(RIGHT),
        RelationType(ADJACENT_RIGHT),
        cost_id,
        g.spec_vertices().len() + 1,
    )
}

/// From `m` a lane change, direct or across further lanes, reaches `x`.
pub open spec fn changes_to(g: RoutingGraph, m: LaneletKey, x: LaneletKey, cost_id: usize) -> bool {
    exists|i: int| 0 <= i < sides(g, m, cost_id).len() && #[trigger] sides(g, m, cost_id)[i].lanelet == x
        && is_change(sides(g, m, cost_id)[i].relation)
}

/// The goal can be reached from `x`, lane changes allowed.
pub open spec fn reaches(g: RoutingGraph, x: LaneletKey, goal: LaneletKey, cost_id: usize) -> bool {
    g.connects(x, goal, drivable(true), cost_id)
}

/// `ls` is the corridor grown from `path` towards `goal`: the path first,
/// then lanelets each reached by lane changes from an earlier one, each new
/// and able to reach the goal; and nothing a lane change from the corridor
/// reaches that could still get to the goal is left out.
pub open spec fn is_corridor(g: RoutingGraph, path: Seq<LaneletKey>, goal: LaneletKey, cost_id: usize, ls: Seq<LaneletKey>) -> bool {
    &&& ls.len() >= path.len()
    &&& ls.subrange(0, path.len() as int) == path
    &&& forall|k: int| path.len() <= k < ls.len() ==> grown_from(g, goal, cost_id, ls, k)
    &&& forall|m: LaneletKey, x: LaneletKey| ls.contains(m) && #[trigger] changes_to(g, m, x, cost_id) && reaches(g, x, goal, cost_id)
        ==> ls.contains(x)
}

/// Entry `k` of `ls` is new there, reaches the goal, and is reached by lane
/// changes from an earlier entry.
pub open spec fn grown_from(g: RoutingGraph, goal: LaneletKey, cost_id: usize, ls: Seq<LaneletKey>, k: int) -> bool {
    &&& !ls.subrange(0, k).contains(ls[k])
    &&& reaches(g, ls[k], goal, cost_id)
    &&& exists|j: int| 0 <= j < k && #[trigger] changes_to(g, ls[j], ls[k], cost_id)
}

/// `ls` after walking `around` in order and adding each lanelet that a lane
/// change reaches, that is not there yet, and that can reach the goal.
pub open spec fn add_sides(g: RoutingGraph, goal: LaneletKey, cost_id: usize, ls: Seq<LaneletKey>, around: Seq<LaneletRelation>) -> Seq<LaneletKey>
    decreases around.len(),
{
    if around.len() == 0 {
        ls
    } else {
        let acc = add_sides(g, goal, cost_id, ls, around.drop_last());
        let r = around.last();
        if is_change(r.relation) && !acc.contains(r.lanelet) && reaches(g, r.lanelet, goal, cost_id) {
            acc.push(r.lanelet)
        } else {
            acc
        }
    }
}

/// `ls` after adding the sides of the first `i` entries of `snapshot`, one
/// entry after the other.
pub open spec fn add_round(g: RoutingGraph, goal: LaneletKey, cost_id: usize, ls: Seq<LaneletKey>, snapshot: Seq<LaneletKey>, i: nat) -> Seq<LaneletKey>
    decreases i,
{
    if i == 0 {
        ls
    } else {
        add_sides(g, goal, cost_id, add_round(g, goal, cost_id, ls, snapshot, (i - 1) as nat), sides(g, snapshot[i - 1], cost_id))
    }
}

/// One round of growth: the sides of every lanelet of `ls`, in order.
pub open spec fn grow_round(g: RoutingGraph, goal: LaneletKey, cost_id: usize, ls: Seq<LaneletKey>) -> Seq<LaneletKey> {
    add_round(g, goal, cost_id, ls, ls, ls.len())
}

/// Rounds of growth from `ls` until one adds nothing, at most `rounds` of them.
pub open spec fn grow_rounds(g: RoutingGraph, goal: LaneletKey, cost_id: usize, ls: Seq<LaneletKey>, rounds: nat) -> Seq<LaneletKey>
    decreases rounds,
{
    if rounds == 0 {
        ls
    } else {
        let next = grow_round(g, goal, cost_id, ls);
        if next.len() == ls.len() { ls } else { grow_rounds(g, goal, cost_id, next, (rounds - 1) as nat) }
    }
}

/// The corridor grown from `path`, in the order its lanelets join it: round
/// after round, each round taking the lanelets as they stood at its start.
pub open spec fn grown_corridor(g: RoutingGraph, path: Seq<LaneletKey>, goal: LaneletKey, cost_id: usize) -> Seq<LaneletKey> {
    grow_rounds(g, goal, cost_id, path, g.spec_vertices().len() + 1)
}

/// `b` begins with `a`.
pub open spec fn begins_with(b: Seq<LaneletKey>, a: Seq<LaneletKey>) -> bool {
    a.len() <= b.len() && forall|i: int| 0 <= i < a.len() ==> #[trigger] b[i] == a[i]
}

proof fn lemma_add_sides_extends(g: RoutingGraph, goal: LaneletKey, cost_id: usize, ls: Seq<LaneletKey>, around: Seq<LaneletRelation>)
    ensures
        begins_with(add_sides(g, goal, cost_id, ls, around), ls),
    decreases around.len(),
{
    if around.len() > 0 {
        lemma_add_sides_extends(g, goal, cost_id, ls, around.drop_last());
        let acc = add_sides(g, goal, cost_id, ls, around.drop_last());
        assert forall|i: int| 0 <= i < ls.len() implies #[trigger] add_sides(g, goal, cost_id, ls, around)[i] == ls[i] by {
            assert(acc[i] == ls[i]);
            assert(acc.push(around.last().lanelet)[i] == acc[i]);
        }
    }
}

proof fn lemma_add_round_extends(g: RoutingGraph, goal: LaneletKey, cost_id: usize, ls: Seq<LaneletKey>, snapshot: Seq<LaneletKey>, i: nat)
    ensures
        begins_with(add_round(g, goal, cost_id, ls, snapshot, i), ls),
    decreases i,
{
    if i > 0 {
        lemma_add_round_extends(g, goal, cost_id, ls, snapshot, (i - 1) as nat);
        let before = add_round(g, goal, cost_id, ls, snapshot, (i - 1) as nat);
        lemma_add_sides_extends(g, goal, cost_id, before, sides(g, snapshot[i - 1], cost_id));
        assert forall|j: int| 0 <= j < ls.len() implies #[trigger] add_round(g, goal, cost_id, ls, snapshot, i)[j] == ls[j] by {
            assert(before[j] == ls[j]);
        }
    }
}

/// Growth only ever adds to the end: the lanelets grown from `ls` begin with `ls`.
proof fn lemma_grow_rounds_extends(g: RoutingGraph, goal: LaneletKey, cost_id: usize, ls: Seq<LaneletKey>, rounds: nat)
    ensures
        begins_with(grow_rounds(g, goal, cost_id, ls, rounds), ls),
    decreases rounds,
{
    if rounds > 0 {
        let next = grow_round(g, goal, cost_id, ls);
        lemma_add_round_extends(g, goal, cost_id, ls, ls, ls.len());
        if next.len() != ls.len() {
            lemma_grow_rounds_extends(g, goal, cost_id, next, (rounds - 1) as nat);
            assert forall|j: int| 0 <= j < ls.len() implies #[trigger] grow_rounds(g, goal, cost_id, ls, rounds)[j] == ls[j] by {
                assert(next[j] == ls[j]);
            }
        }
    }
}

/// Every lanelet the corridor grown from `path` takes has side walks that end
/// by themselves: the inputs on which growing the corridor comes to an end.
pub open spec fn corridor_walks_end(g: RoutingGraph, path: Seq<LaneletKey>, goal: LaneletKey, cost_id: usize) -> bool {
    forall|m: LaneletKey| #[trigger] grown_corridor(g, path, goal, cost_id).contains(m) ==> g.side_walks_end(m, cost_id)
}

/// The lanelets of `ls` past the first `from`, without repeats, are at most
/// as many as the graph has vertices.
proof fn lemma_growth_bounded(g: RoutingGraph, goal: LaneletKey, cost_id: usize, ls: Seq<LaneletKey>, from: int)
    requires
        g.wf(),
        0 <= from <= ls.len(),
        forall|k: int| from <= k < ls.len() ==> !ls.subrange(0, k).contains(#[trigger] ls[k]),
        forall|k: int| from <= k < ls.len() ==> g.spec_vertices().contains(#[trigger] ls[k]),
    ensures
        ls.len() - from <= g.spec_vertices().len(),
{
    let tail = ls.subrange(from, ls.len() as int);
    assert forall|a: int, b: int| 0 <= a < tail.len() && 0 <= b < tail.len() && a != b implies tail[a] != tail[b] by {
        let (lo, hi) = if a < b { (a, b) } else { (b, a) };
        assert(tail[lo] == ls[from + lo]);
        assert(tail[hi] == ls[from + hi]);
        assert(ls.subrange(0, from + hi)[from + lo] == ls[from + lo]);
    }
    assert forall|i: int| 0 <= i < tail.len() implies g.spec_vertices().contains(#[trigger] tail[i]) by {
        assert(tail[i] == ls[from + i]);
    }
    g.lemma_vertices_distinct();
    crate::routing::lemma_distinct_within(g.spec_vertices(), tail);
}

/// The corridor a driver may use between two lanelets.
pub struct Route {
    shortest_path: Vec<LaneletKey>,
    lanelets: Vec<LaneletKey>,
    lane_ids: Vec<i64>,
    cost_id: usize,
}

/// A copy of a list of lanelets.
fn copy_keys(v: &Vec<LaneletKey>) -> (r: Vec<LaneletKey>)
    ensures
        r@ == v@,
{
    let mut r: Vec<LaneletKey> = Vec::new();
    append(&mut r, v);
    assert(r@ =~= v@);
    r
}

/// Grows the corridor outwards from `path` until nothing more can be added.
/// Each lanelet it takes is asked for its neighbours on both sides, a walk
/// that must end by itself: the caller vouches for that.
pub fn corridor(graph: &RoutingGraph, path: &Vec<LaneletKey>, goal: LaneletKey, cost_id: usize) -> (r: Vec<LaneletKey>)
    requires
        graph.wf(),
        corridor_walks_end(*graph, path@, goal, cost_id),
    ensures
        is_corridor(*graph, path@, goal, cost_id, r@),
        r@ == grown_corridor(*graph, path@, goal, cost_id),
{
    let ghost g = *graph;
    let ghost n = graph.spec_vertices().len();
    let mut lanelets = copy_keys(path);
    let mut growing = true;
    let ghost mut rounds: nat = 0;
    proof {
        assert(lanelets@.subrange(0, path@.len() as int) =~= path@);
    }
    while growing
        invariant
            graph.wf(),
            g == *graph,
            n == g.spec_vertices().len(),
            lanelets@.len() >= path@.len(),
            lanelets@.subrange(0, path@.len() as int) == path@,
            forall|k: int| path@.len() <= k < lanelets@.len() ==> grown_from(g, goal, cost_id, lanelets@, k),
            forall|k: int| path@.len() <= k < lanelets@.len() ==> g.spec_vertices().contains(#[trigger] lanelets@[k]),
            !growing ==> forall|m: LaneletKey, x: LaneletKey| lanelets@.contains(m) && #[trigger] changes_to(g, m, x, cost_id)
                && reaches(g, x, goal, cost_id) ==> lanelets@.contains(x),
            rounds <= lanelets@.len() - path@.len(),
            growing ==> grow_rounds(g, goal, cost_id, lanelets@, (n + 1 - rounds) as nat) == grown_corridor(g, path@, goal, cost_id),
            !growing ==> lanelets@ == grown_corridor(g, path@, goal, cost_id),
            corridor_walks_end(g, path@, goal, cost_id),
        decreases n + path@.len() - lanelets@.len() + if growing { 1int } else { 0int },
    {
        proof {
            assert forall|k: int| path@.len() <= k < lanelets@.len() implies !lanelets@.subrange(0, k).contains(#[trigger] lanelets@[k]) by {
                assert(grown_from(g, goal, cost_id, lanelets@, k));
            }
            lemma_growth_bounded(g, goal, cost_id, lanelets@, path@.len() as int);
        }
        let ghost start_len = lanelets@.len();
        let snapshot = copy_keys(&lanelets);
        proof {
            let whole = grown_corridor(g, path@, goal, cost_id);
            lemma_grow_rounds_extends(g, goal, cost_id, lanelets@, (n + 1 - rounds) as nat);
            assert forall|j: int| 0 <= j < snapshot@.len() implies g.side_walks_end(#[trigger] snapshot@[j], cost_id) by {
                assert(whole[j] == snapshot@[j]);
                assert(whole.contains(snapshot@[j]));
            }
        }
        let mut added = false;
        let mut i: usize = 0;
        while i < snapshot.len()
            invariant
                graph.wf(),
                g == *graph,
                n == g.spec_vertices().len(),
                snapshot@.len() == start_len,
                start_len >= path@.len(),
                lanelets@.len() >= start_len,
                lanelets@.subrange(0, start_len as int) == snapshot@,
                lanelets@.len() >= path@.len(),
                lanelets@.subrange(0, path@.len() as int) == path@,
                forall|k: int| path@.len() <= k < lanelets@.len() ==> grown_from(g, goal, cost_id, lanelets@, k),
                forall|k: int| path@.len() <= k < lanelets@.len() ==> g.spec_vertices().contains(#[trigger] lanelets@[k]),
                i <= snapshot@.len(),
                added == (lanelets@.len() > start_len),
                forall|j: int, x: LaneletKey| 0 <= j < i && #[trigger] changes_to(g, snapshot@[j], x, cost_id) && reaches(g, x, goal, cost_id)
                    ==> lanelets@.contains(x),
                lanelets@ == add_round(g, goal, cost_id, snapshot@, snapshot@, i as nat),
                forall|j: int| 0 <= j < snapshot@.len() ==> g.side_walks_end(#[trigger] snapshot@[j], cost_id),
            decreases snapshot@.len() - i,
        {
            let m = snapshot[i];
            let mut around = graph.left_relations(m, cost_id);
            let rights = graph.right_relations(m, cost_id);
            append(&mut around, &rights);
            proof {
                assert(around@ == sides(g, m, cost_id));
            }
            let ghost before = lanelets@;
            let mut j: usize = 0;
            proof {
                assert(around@.take(0) =~= Seq::<LaneletRelation>::empty());
            }
            while j < around.len()
                invariant
                    graph.wf(),
                    g == *graph,
                    n == g.spec_vertices().len(),
                    around@ == sides(g, m, cost_id),
                    m == snapshot@[i as int],
                    i < snapshot@.len(),
                    snapshot@.len() == start_len,
                    lanelets@.len() >= before.len(),
                    lanelets@.subrange(0, before.len() as int) == before,
                    before.len() >= start_len,
                    before.subrange(0, start_len as int) == snapshot@,
                    lanelets@.len() >= path@.len(),
                    lanelets@.subrange(0, path@.len() as int) == path@,
                    start_len >= path@.len(),
                    forall|k: int| path@.len() <= k < lanelets@.len() ==> grown_from(g, goal, cost_id, lanelets@, k),
                    forall|k: int| path@.len() <= k < lanelets@.len() ==> g.spec_vertices().contains(#[trigger] lanelets@[k]),
                    j <= around@.len(),
                    added == (lanelets@.len() > start_len),
                    forall|jj: int, x: LaneletKey| 0 <= jj < i && #[trigger] changes_to(g, snapshot@[jj], x, cost_id) && reaches(g, x, goal, cost_id)
                        ==> lanelets@.contains(x),
                    forall|t: int| 0 <= t < j && is_change(around@[t].relation) && reaches(g, around@[t].lanelet, goal, cost_id)
                        ==> lanelets@.contains(#[trigger] around@[t].lanelet),
                    lanelets@ == add_sides(g, goal, cost_id, before, around@.take(j as int)),
                decreases around@.len() - j,
            {
                proof {
                    assert(around@.take(j + 1).drop_last() =~= around@.take(j as int));
                }
                let relation = around[j];
                let ghost old_ls = lanelets@;
                if (relation.relation == RelationType(LEFT) || relation.relation == RelationType(RIGHT))
                    && !has_key(&lanelets, relation.lanelet) {
                    if graph.shortest_path(relation.lanelet, goal, cost_id, true).is_some() {
                        proof {
                            g.lemma_side_walk_vertices(m, RelationType(LEFT), RelationType(ADJACENT_LEFT), cost_id, n + 1);
                            g.lemma_side_walk_vertices(m, RelationType(RIGHT), RelationType(ADJACENT_RIGHT), cost_id, n + 1);
                            let lw = g.side_walk(m, RelationType(LEFT), RelationType(ADJACENT_LEFT), cost_id, n + 1);
                            if j < lw.len() {
                                assert(around@[j as int] == lw[j as int]);
                            } else {
                                assert(around@[j as int] == g.side_walk(m, RelationType(RIGHT), RelationType(ADJACENT_RIGHT), cost_id, n + 1)[j - lw.len()]);
                            }
                            assert(changes_to(g, m, relation.lanelet, cost_id));
                            assert(snapshot@[i as int] == old_ls[i as int]);
                        }
                        lanelets.push(relation.lanelet);
                        proof {
                            let ls = lanelets@;
                            let k = old_ls.len() as int;
                            assert(ls.subrange(0, k) =~= old_ls);
                            assert(ls.subrange(0, path@.len() as int) =~= old_ls.subrange(0, path@.len() as int));
                            assert(ls.subrange(0, before.len() as int) =~= old_ls.subrange(0, before.len() as int));
                            assert(ls[i as int] == m);
                            assert(changes_to(g, ls[i as int], ls[k], cost_id));
                            assert forall|kk: int| path@.len() <= kk < ls.len() implies grown_from(g, goal, cost_id, ls, kk) by {
                                if kk < k {
                                    assert(ls.subrange(0, kk) =~= old_ls.subrange(0, kk));
                                    assert(ls[kk] == old_ls[kk]);
                                    assert(grown_from(g, goal, cost_id, old_ls, kk));
                                    let jw = choose|jw: int| 0 <= jw < kk && #[trigger] changes_to(g, old_ls[jw], old_ls[kk], cost_id);
                                    assert(ls[jw] == old_ls[jw]);
                                }
                            }
                            assert forall|kk: int| path@.len() <= kk < ls.len() implies g.spec_vertices().contains(#[trigger] ls[kk]) by {
                                if kk < k {
                                    assert(ls[kk] == old_ls[kk]);
                                }
                            }
                            assert forall|jj: int, x: LaneletKey| 0 <= jj < i && #[trigger] changes_to(g, snapshot@[jj], x, cost_id)
                                && reaches(g, x, goal, cost_id) implies ls.contains(x) by {
                                assert(old_ls.contains(x));
                                let w = choose|w: int| 0 <= w < old_ls.len() && old_ls[w] == x;
                                assert(ls[w] == x);
                            }
                            assert forall|t: int| 0 <= t < j + 1 && is_change(around@[t].relation) && reaches(g, around@[t].lanelet, goal, cost_id)
                                implies ls.contains(#[trigger] around@[t].lanelet) by {
                                if t < j {
                                    assert(old_ls.contains(around@[t].lanelet));
                                    let w = choose|w: int| 0 <= w < old_ls.len() && old_ls[w] == around@[t].lanelet;
                                    assert(ls[w] == around@[t].lanelet);
                                } else {
                                    assert(ls[k] == around@[t].lanelet);
                                }
                            }
                        }
                        added = true;
                    }
                }
                j = j + 1;
            }
            proof {
                assert(around@.take(around@.len() as int) =~= around@);
                assert forall|jj: int, x: LaneletKey| 0 <= jj < i + 1 && #[trigger] changes_to(g, snapshot@[jj], x, cost_id)
                    && reaches(g, x, goal, cost_id) implies lanelets@.contains(x) by {
                    if jj == i {
                        let t = choose|t: int| 0 <= t < sides(g, m, cost_id).len() && #[trigger] sides(g, m, cost_id)[t].lanelet == x
                            && is_change(sides(g, m, cost_id)[t].relation);
                        assert(around@[t].lanelet == x);
                    }
                }
                assert(lanelets@.subrange(0, start_len as int) =~= before.subrange(0, start_len as int));
            }
            i = i + 1;
        }
        proof {
            assert forall|k: int| path@.len() <= k < lanelets@.len() implies !lanelets@.subrange(0, k).contains(#[trigger] lanelets@[k]) by {
                assert(grown_from(g, goal, cost_id, lanelets@, k));
            }
            lemma_growth_bounded(g, goal, cost_id, lanelets@, path@.len() as int);
        }
        proof {
            assert(lanelets@ == grow_round(g, goal, cost_id, snapshot@));
        }
        if !added {
            growing = false;
            proof {
                assert(lanelets@ =~= snapshot@);
                assert forall|m: LaneletKey, x: LaneletKey| lanelets@.contains(m) && #[trigger] changes_to(g, m, x, cost_id)
                    && reaches(g, x, goal, cost_id) implies lanelets@.contains(x) by {
                    let w = choose|w: int| 0 <= w < lanelets@.len() && lanelets@[w] == m;
                    assert(snapshot@[w] == m);
                }
                assert(n + 1 - rounds >= 1);
                assert(grow_rounds(g, goal, cost_id, snapshot@, (n + 1 - rounds) as nat) == snapshot@);
            }
        } else {
            proof {
                assert(n + 1 - rounds >= 1);
                assert(grow_rounds(g, goal, cost_id, snapshot@, (n + 1 - rounds) as nat) == grow_rounds(
                    g,
                    goal,
                    cost_id,
                    lanelets@,
                    (n + 1 - (rounds + 1)) as nat,
                ));
                rounds = rounds + 1;
            }
        }
    }
    lanelets
}

/// The entries of `ks` that lie in `ls`, in order.
pub open spec fn kept(ks: Seq<LaneletKey>, ls: Seq<LaneletKey>) -> Seq<LaneletKey>
    decreases ks.len(),
{
    if ks.len() == 0 {
        seq![]
    } else {
        let r = kept(ks.drop_last(), ls);
        if ls.contains(ks.last()) { r.push(ks.last()) } else { r }
    }
}

/// Where `x` first stands in `ls`.
pub open spec fn first_index(ls: Seq<LaneletKey>, x: LaneletKey) -> Option<int>
    decreases ls.len(),
{
    if ls.len() == 0 {
        None
    } else {
        match first_index(ls.drop_last(), x) {
            Some(i) => Some(i),
            None => if ls.last() == x { Some(ls.len() - 1) } else { None },
        }
    }
}

/// The lanelets of `ls` that `x` leads straight on to.
pub open spec fn next_in(g: RoutingGraph, ls: Seq<LaneletKey>, x: LaneletKey) -> Seq<LaneletKey> {
    kept(lanelets_of(g.spec_neighbours(x, drivable(false), 0)), ls)
}

/// The lanelets of `ls` that lead straight on to `x`.
pub open spec fn previous_in(g: RoutingGraph, ls: Seq<LaneletKey>, x: LaneletKey) -> Seq<LaneletKey> {
    kept(lanelets_of(g.spec_predecessors(x, drivable(false), 0)), ls)
}

/// Entry `i` continues the lane of the entry at the returned position: it
/// has one predecessor in `ls`, that predecessor has one successor in `ls`,
/// and the predecessor comes first.
pub open spec fn inherits(g: RoutingGraph, ls: Seq<LaneletKey>, i: int) -> Option<int> {
    let preds = previous_in(g, ls, ls[i]);
    if preds.len() == 1 && next_in(g, ls, preds[0]).len() == 1 {
        match first_index(ls, preds[0]) {
            Some(at) => if at < i { Some(at) } else { None },
            None => None,
        }
    } else {
        None
    }
}

/// How many of the first `i` entries start a lane of their own.
pub open spec fn fresh_before(g: RoutingGraph, ls: Seq<LaneletKey>, i: nat) -> nat
    decreases i,
{
    if i == 0 {
        0
    } else {
        fresh_before(g, ls, (i - 1) as nat) + if inherits(g, ls, i - 1) is None { 1nat } else { 0nat }
    }
}

/// The lane number of entry `i`: that of the lane it continues, or the next
/// unused number from 1000 up.
pub open spec fn lane_id(g: RoutingGraph, ls: Seq<LaneletKey>, i: nat) -> int
    decreases i,
{
    match inherits(g, ls, i as int) {
        Some(at) => if 0 <= at < i { lane_id(g, ls, at as nat) } else { 0 },
        None => FIRST_LANE_ID + fresh_before(g, ls, i),
    }
}

/// The entries of `ks` that lie in `ls`, in order.
fn keep_in(ks: &Vec<LaneletKey>, ls: &Vec<LaneletKey>) -> (r: Vec<LaneletKey>)
    ensures
        r@ == kept(ks@, ls@),
{
    let mut r: Vec<LaneletKey> = Vec::new();
    let mut j: usize = 0;
    while j < ks.len()
        invariant
            j <= ks@.len(),
            r@ == kept(ks@.take(j as int), ls@),
        decreases ks@.len() - j,
    {
        assert(ks@.take(j + 1).drop_last() =~= ks@.take(j as int));
        assert(ks@.take(j + 1).last() == ks@[j as int]);
        if has_key(ls, ks[j]) {
            r.push(ks[j]);
        }
        j = j + 1;
    }
    assert(ks@.take(ks@.len() as int) =~= ks@);
    r
}

/// Where `x` first stands in `ls`.
fn position(ls: &Vec<LaneletKey>, x: LaneletKey) -> (r: Option<usize>)
    ensures
        r matches Some(i) ==> first_index(ls@, x) == Some(i as int),
        r is None ==> first_index(ls@, x) is None,
{
    let mut i: usize = 0;
    while i < ls.len()
        invariant
            i <= ls@.len(),
            first_index(ls@.take(i as int), x) is None,
        decreases ls@.len() - i,
    {
        assert(ls@.take(i + 1).drop_last() =~= ls@.take(i as int));
        if ls[i] == x {
            proof {
                lemma_first_index_prefix(ls@, x, i as int + 1);
            }
            return Some(i);
        }
        i = i + 1;
    }
    assert(ls@.take(ls@.len() as int) =~= ls@);
    None
}

/// Where `x` is first found in a prefix that holds it, it is first found in
/// the whole.
proof fn lemma_first_index_prefix(ls: Seq<LaneletKey>, x: LaneletKey, k: int)
    requires
        0 <= k <= ls.len(),
        first_index(ls.take(k), x) is Some,
    ensures
        first_index(ls, x) == first_index(ls.take(k), x),
    decreases ls.len() - k,
{
    if k < ls.len() {
        assert(ls.take(k + 1).drop_last() =~= ls.take(k));
        lemma_first_index_prefix(ls, x, k + 1);
    } else {
        assert(ls.take(k) =~= ls);
    }
}

/// Numbers the lanes of a corridor.
fn assign_lane_ids(graph: &RoutingGraph, lanelets: &Vec<LaneletKey>) -> (r: Vec<i64>)
    requires
        graph.wf(),
        lanelets@.len() <= 2 * MAX_VERTICES,
    ensures
        r@.len() == lanelets@.len(),
        forall|i: int| 0 <= i < lanelets@.len() ==> r@[i] == lane_id(*graph, lanelets@, i as nat),
{
    let ghost g = *graph;
    let ghost ls = lanelets@;
    let mut ids: Vec<i64> = Vec::new();
    let mut next: i64 = FIRST_LANE_ID;
    let mut index: usize = 0;
    while index < lanelets.len()
        invariant
            graph.wf(),
            g == *graph,
            ls == lanelets@,
            index <= ls.len(),
            ids@.len() == index,
            forall|i: int| 0 <= i < index ==> ids@[i] == lane_id(g, ls, i as nat),
            next == FIRST_LANE_ID + fresh_before(g, ls, index as nat),
            fresh_before(g, ls, index as nat) <= index,
            ls.len() <= 2 * MAX_VERTICES,
        decreases ls.len() - index,
    {
        let lanelet = lanelets[index];
        let preds = keep_in(&graph.previous(lanelet, false), lanelets);
        let mut inherited: Option<i64> = None;
        if preds.len() == 1 {
            let previous = preds[0];
            let succs = keep_in(&graph.following(previous, false), lanelets);
            if succs.len() == 1 {
                match position(lanelets, previous) {
                    Some(at) => {
                        if at < index {
                            inherited = Some(ids[at]);
                        }
                    },
                    None => {},
                }
            }
        }
        proof {
            assert(preds@ == previous_in(g, ls, ls[index as int]));
            match inherits(g, ls, index as int) {
                Some(at) => {
                    assert(inherited == Some(lane_id(g, ls, at as nat) as i64));
                },
                None => {
                    assert(inherited is None);
                },
            }
        }
        match inherited {
            Some(id) => {
                ids.push(id);
            },
            None => {
                ids.push(next);
                next = next + 1;
            },
        }
        proof {
            assert(ids@[index as int] == lane_id(g, ls, index as nat));
            assert forall|i: int| 0 <= i < index + 1 implies ids@[i] == lane_id(g, ls, i as nat) by {
            }
        }
        index = index + 1;
    }
    ids
}

/// The lanelet a lane run steps on to from `x`: the one lanelet of `ls`
/// that `x` leads straight on to, where that has no other way in from `ls`.
pub open spec fn lane_step(g: RoutingGraph, ls: Seq<LaneletKey>, x: LaneletKey) -> Option<LaneletKey> {
    let ahead = next_in(g, ls, x);
    if ahead.len() == 1 && previous_in(g, ls, ahead[0]).len() == 1 { Some(ahead[0]) } else { None }
}

/// `lane` is the run of lane steps from `start`: each entry the step from
/// the one before, none repeating, ending where there is no step or the
/// step would repeat an entry.
pub open spec fn is_lane_from(g: RoutingGraph, ls: Seq<LaneletKey>, start: LaneletKey, lane: Seq<LaneletKey>) -> bool {
    &&& lane.len() >= 1
    &&& lane[0] == start
    &&& forall|i: int| 1 <= i < lane.len() ==> lane_step(g, ls, lane[i - 1]) == Some(#[trigger] lane[i])
    &&& lane.no_duplicates()
    &&& match lane_step(g, ls, lane.last()) {
        Some(next) => lane.contains(next),
        None => true,
    }
}

/// Where a walk back along the lane from `current` stops: at a lanelet with
/// other than one way in from `ls`, or whose way in has other than one way
/// out, or that would lead back to `origin`, or after `fuel` steps.
pub open spec fn back_from(g: RoutingGraph, ls: Seq<LaneletKey>, origin: LaneletKey, current: LaneletKey, fuel: nat) -> LaneletKey
    decreases fuel,
{
    let back = previous_in(g, ls, current);
    if fuel == 0 || back.len() != 1 {
        current
    } else if next_in(g, ls, back[0]).len() != 1 || back[0] == origin {
        current
    } else {
        back_from(g, ls, origin, back[0], (fuel - 1) as nat)
    }
}

/// A walk back along the lane towards the start of `origin`'s lane ends at
/// `x`: `x` has other than one way in from `ls`, or that way in has other
/// than one way out, or it is `origin` itself.
pub open spec fn ends_back(g: RoutingGraph, ls: Seq<LaneletKey>, origin: LaneletKey, x: LaneletKey) -> bool {
    let back = previous_in(g, ls, x);
    back.len() != 1 || next_in(g, ls, back[0]).len() != 1 || back[0] == origin
}

/// The relations of `rs` that lead into `ls`, in order.
pub open spec fn kept_relations(rs: Seq<LaneletRelation>, ls: Seq<LaneletKey>) -> Seq<LaneletRelation>
    decreases rs.len(),
{
    if rs.len() == 0 {
        seq![]
    } else {
        let r = kept_relations(rs.drop_last(), ls);
        if ls.contains(rs.last().lanelet) { r.push(rs.last()) } else { r }
    }
}

/// How many different values `s` holds.
pub open spec fn distinct_count(s: Seq<i64>) -> nat
    decreases s.len(),
{
    if s.len() == 0 {
        0
    } else {
        distinct_count(s.drop_last()) + if s.drop_last().contains(s.last()) { 0nat } else { 1nat }
    }
}

/// Counting the different values one by one gives the size of the set of
/// values, whatever their order.
pub proof fn lemma_distinct_count_is_set_size(s: Seq<i64>)
    ensures
        distinct_count(s) == s.to_set().len(),
    decreases s.len(),
{
    if s.len() == 0 {
        assert(s.to_set() =~= Set::<i64>::empty());
    } else {
        let d = s.drop_last();
        lemma_distinct_count_is_set_size(d);
        vstd::seq_lib::seq_to_set_is_finite(d);
        assert(s.to_set() =~= d.to_set().insert(s.last())) by {
            assert(s =~= d.push(s.last()));
            assert forall|x: i64| s.to_set().contains(x) implies d.to_set().insert(s.last()).contains(x) by {
                let i = choose|i: int| 0 <= i < s.len() && s[i] == x;
                if i < d.len() {
                    assert(d[i] == x);
                }
            }
            assert forall|x: i64| d.to_set().insert(s.last()).contains(x) implies s.to_set().contains(x) by {
                if x == s.last() {
                    assert(s[s.len() - 1] == x);
                } else {
                    let i = choose|i: int| 0 <= i < d.len() && d[i] == x;
                    assert(s[i] == x);
                }
            }
        }
        if d.contains(s.last()) {
            assert(d.to_set().contains(s.last()));
            assert(d.to_set().insert(s.last()) =~= d.to_set());
        } else {
            assert(!d.to_set().contains(s.last()));
        }
    }
}

/// Everything the lanelets of `ls` conflict with, lanelet by lanelet.
pub open spec fn conflicts_of(g: RoutingGraph, ls: Seq<LaneletKey>) -> Seq<LaneletKey>
    decreases ls.len(),
{
    if ls.len() == 0 {
        seq![]
    } else {
        conflicts_of(g, ls.drop_last()) + lanelets_of(g.spec_neighbours(ls.last(), RelationType(CONFLICTING), 0))
    }
}

impl Route {
    pub closed spec fn spec_shortest_path(&self) -> Seq<LaneletKey> {
        self.shortest_path@
    }

    pub closed spec fn spec_lanelets(&self) -> Seq<LaneletKey> {
        self.lanelets@
    }

    pub closed spec fn spec_lane_ids(&self) -> Seq<i64> {
        self.lane_ids@
    }

    pub closed spec fn spec_cost_id(&self) -> usize {
        self.cost_id
    }

    /// Each lanelet of the route carries the lane number its place in the
    /// corridor gives it.
    pub open spec fn numbers_lanes(&self, g: RoutingGraph) -> bool {
        &&& self.spec_lane_ids().len() == self.spec_lanelets().len()
        &&& forall|i: int| 0 <= i < self.spec_lanelets().len() ==> self.spec_lane_ids()[i] == lane_id(g, self.spec_lanelets(), i as nat)
    }

    /// The corridor grown from `path` towards `goal`, its lanes numbered.
    pub fn build(graph: &RoutingGraph, path: Vec<LaneletKey>, goal: LaneletKey, cost_id: usize) -> (r: Route)
        requires
            graph.wf(),
            path@.len() <= MAX_VERTICES,
            corridor_walks_end(*graph, path@, goal, cost_id),
        ensures
            r.spec_shortest_path() == path@,
            is_corridor(*graph, path@, goal, cost_id, r.spec_lanelets()),
            r.spec_lanelets() == grown_corridor(*graph, path@, goal, cost_id),
            r.numbers_lanes(*graph),
            r.spec_cost_id() == cost_id,
    {
        let lanelets = corridor(graph, &path, goal, cost_id);
        proof {
            let ls = lanelets@;
            assert forall|k: int| path@.len() <= k < ls.len() implies !ls.subrange(0, k).contains(#[trigger] ls[k]) by {
                assert(grown_from(*graph, goal, cost_id, ls, k));
            }
            assert forall|k: int| path@.len() <= k < ls.len() implies graph.spec_vertices().contains(#[trigger] ls[k]) by {
                assert(grown_from(*graph, goal, cost_id, ls, k));
                assert(graph.index_in(ls[k]) is Some);
            }
            lemma_growth_bounded(*graph, goal, cost_id, ls, path@.len() as int);
            graph.lemma_vertices_distinct();
        }
        let lane_ids = assign_lane_ids(graph, &lanelets);
        Route { shortest_path: path, lanelets, lane_ids, cost_id }
    }

    pub fn shortest_path(&self) -> (r: &Vec<LaneletKey>)
        ensures
            r@ == self.spec_shortest_path(),
    {
        &self.shortest_path
    }

    pub fn lanelets(&self) -> (r: &Vec<LaneletKey>)
        ensures
            r@ == self.spec_lanelets(),
    {
        &self.lanelets
    }

    pub fn lane_ids(&self) -> (r: &Vec<i64>)
        ensures
            r@ == self.spec_lane_ids(),
    {
        &self.lane_ids
    }

    pub fn size(&self) -> (r: usize)
        ensures
            r == self.spec_lanelets().len(),
    {
        self.lanelets.len()
    }

    pub fn cost_id(&self) -> (r: usize)
        ensures
            r == self.spec_cost_id(),
    {
        self.cost_id
    }

    pub fn contains(&self, k: LaneletKey) -> (r: bool)
        ensures
            r == self.spec_lanelets().contains(k),
    {
        has_key(&self.lanelets, k)
    }

    /// How many lanes the corridor has: the number of different lane
    /// numbers.
    pub fn num_lanes(&self) -> (r: usize)
        ensures
            r == distinct_count(self.spec_lane_ids()),
            r == self.spec_lane_ids().to_set().len(),
    {
        proof {
            lemma_distinct_count_is_set_size(self.spec_lane_ids());
        }
        let mut count: usize = 0;
        let mut i: usize = 0;
        while i < self.lane_ids.len()
            invariant
                i <= self.lane_ids@.len(),
                count == distinct_count(self.lane_ids@.take(i as int)),
                count <= i,
            decreases self.lane_ids@.len() - i,
        {
            let mut seen = false;
            let mut j: usize = 0;
            while j < i
                invariant
                    j <= i,
                    i < self.lane_ids@.len(),
                    seen == self.lane_ids@.take(j as int).contains(self.lane_ids@[i as int]),
                decreases i - j,
            {
                let ghost x = self.lane_ids@[i as int];
                let ghost before = self.lane_ids@.take(j as int);
                let ghost after = self.lane_ids@.take(j + 1);
                proof {
                    assert(after =~= before.push(self.lane_ids@[j as int]));
                    if after.contains(x) {
                        let w = choose|w: int| 0 <= w < after.len() && after[w] == x;
                        if w < j {
                            assert(before[w] == x);
                        }
                    }
                    if before.contains(x) {
                        let w = choose|w: int| 0 <= w < before.len() && before[w] == x;
                        assert(after[w] == x);
                    }
                    if self.lane_ids@[j as int] == x {
                        assert(after[j as int] == x);
                    }
                }
                if self.lane_ids[j] == self.lane_ids[i] {
                    seen = true;
                }
                j = j + 1;
            }
            proof {
                let t = self.lane_ids@.take(i + 1);
                assert(t.drop_last() =~= self.lane_ids@.take(i as int));
                assert(t.last() == self.lane_ids@[i as int]);
            }
            if !seen {
                count = count + 1;
            }
            i = i + 1;
        }
        assert(self.lane_ids@.take(self.lane_ids@.len() as int) =~= self.lane_ids@);
        count
    }

    /// The rest of the shortest path from `k` on, or nothing where `k` is
    /// not on it.
    pub fn remaining_shortest_path(&self, k: LaneletKey) -> (r: Vec<LaneletKey>)
        ensures
            first_index(self.spec_shortest_path(), k) is None ==> r@ == Seq::<LaneletKey>::empty(),
            first_index(self.spec_shortest_path(), k) matches Some(i) ==> r@ == self.spec_shortest_path().subrange(
                i,
                self.spec_shortest_path().len() as int,
            ),
    {
        match position(&self.shortest_path, k) {
            None => Vec::new(),
            Some(i) => {
                proof {
                    lemma_first_index_in_range(self.shortest_path@, k);
                }
                let mut r: Vec<LaneletKey> = Vec::new();
                let mut j = i;
                while j < self.shortest_path.len()
                    invariant
                        i <= j <= self.shortest_path@.len(),
                        r@ == self.shortest_path@.subrange(i as int, j as int),
                    decreases self.shortest_path@.len() - j,
                {
                    r.push(self.shortest_path[j]);
                    assert(self.shortest_path@.subrange(i as int, j + 1) =~= self.shortest_path@.subrange(i as int, j as int).push(
                        self.shortest_path@[j as int],
                    ));
                    j = j + 1;
                }
                r
            },
        }
    }

    /// The stretch from `k` on that continues without a branch or a merge.
    #[verifier::spinoff_prover]
    pub fn remaining_lane(&self, graph: &RoutingGraph, k: LaneletKey) -> (r: Vec<LaneletKey>)
        requires
            graph.wf(),
        ensures
            !self.spec_lanelets().contains(k) ==> r@ == Seq::<LaneletKey>::empty(),
            self.spec_lanelets().contains(k) ==> is_lane_from(*graph, self.spec_lanelets(), k, r@),
    {
        if !self.contains(k) {
            return Vec::new();
        }
        let ghost g = *graph;
        let ghost ls = self.lanelets@;
        let _ = self.lanelets.len();
        let mut lane: Vec<LaneletKey> = Vec::new();
        lane.push(k);
        let mut current = k;
        let mut next = self.step(graph, k);
        while next.is_some() && !has_key(&lane, next.unwrap())
            invariant
                graph.wf(),
                g == *graph,
                ls == self.lanelets@,
                ls.len() <= usize::MAX,
                lane@.len() >= 1,
                lane@[0] == k,
                current == lane@.last(),
                forall|i: int| 1 <= i < lane@.len() ==> lane_step(g, ls, lane@[i - 1]) == Some(#[trigger] lane@[i]),
                lane@.no_duplicates(),
                forall|i: int| 0 <= i < lane@.len() ==> ls.contains(#[trigger] lane@[i]),
                next == lane_step(g, ls, current),
                next matches Some(x) ==> ls.contains(x),
            decreases ls.len() - lane@.len(),
        {
            let x = next.unwrap();
            let ghost before = lane@;
            proof {
                crate::walks::lemma_push_distinct(before, x);
                let t = before.push(x);
                assert forall|i: int| 0 <= i < t.len() implies ls.contains(#[trigger] t[i]) by {
                    if i < before.len() {
                        assert(t[i] == before[i]);
                    }
                }
                crate::routing::lemma_distinct_within(ls, t);
            }
            lane.push(x);
            proof {
                assert forall|i: int| 1 <= i < lane@.len() implies lane_step(g, ls, lane@[i - 1]) == Some(#[trigger] lane@[i]) by {
                    if i < before.len() {
                        assert(lane@[i] == before[i] && lane@[i - 1] == before[i - 1]);
                    } else {
                        assert(lane@[i - 1] == before.last());
                    }
                }
                assert forall|i: int| 0 <= i < lane@.len() implies ls.contains(#[trigger] lane@[i]) by {
                    if i < before.len() {
                        assert(lane@[i] == before[i]);
                    }
                }
            }
            current = x;
            next = self.step(graph, x);
        }
        lane
    }

    /// The lane step from `x` within this route.
    fn step(&self, graph: &RoutingGraph, x: LaneletKey) -> (r: Option<LaneletKey>)
        requires
            graph.wf(),
        ensures
            r == lane_step(*graph, self.spec_lanelets(), x),
            r matches Some(y) ==> self.spec_lanelets().contains(y),
    {
        let ahead = keep_in(&graph.following(x, false), &self.lanelets);
        if ahead.len() != 1 {
            return None;
        }
        let next = ahead[0];
        let back = keep_in(&graph.previous(next, false), &self.lanelets);
        proof {
            lemma_kept_in(graph.spec_neighbours(x, drivable(false), 0), self.lanelets@);
        }
        if back.len() != 1 {
            return None;
        }
        Some(next)
    }

    /// The whole lane `k` lies on, backwards as well as forwards: the walk
    /// back stops where the lane branches or merges, or where it would come
    /// round to `k` again, which it always does before it has taken as many
    /// steps as the route has lanelets.
    pub fn full_lane(&self, graph: &RoutingGraph, k: LaneletKey) -> (r: Vec<LaneletKey>)
        requires
            graph.wf(),
        ensures
            !self.spec_lanelets().contains(k) ==> r@ == Seq::<LaneletKey>::empty(),
            self.spec_lanelets().contains(k) ==> is_lane_from(
                *graph,
                self.spec_lanelets(),
                back_from(*graph, self.spec_lanelets(), k, k, self.spec_lanelets().len()),
                r@,
            ),
            self.spec_lanelets().contains(k) ==> ends_back(
                *graph,
                self.spec_lanelets(),
                k,
                back_from(*graph, self.spec_lanelets(), k, k, self.spec_lanelets().len()),
            ),
    {
        if !self.contains(k) {
            return Vec::new();
        }
        let ghost g = *graph;
        let ghost ls = self.lanelets@;
        let _ = self.lanelets.len();
        let mut start = k;
        let ghost mut path: Seq<LaneletKey> = seq![k];
        loop
            invariant
                graph.wf(),
                g == *graph,
                ls == self.lanelets@,
                ls.len() <= usize::MAX,
                path.len() >= 1,
                path.len() <= ls.len(),
                path[0] == k,
                path.last() == start,
                path.no_duplicates(),
                forall|i: int| 0 <= i < path.len() ==> ls.contains(#[trigger] path[i]),
                forall|i: int| 1 <= i < path.len() ==> next_in(g, ls, #[trigger] path[i]) == seq![path[i - 1]],
                back_from(g, ls, k, start, (ls.len() + 1 - path.len()) as nat) == back_from(g, ls, k, k, ls.len()),
            ensures
                start == back_from(g, ls, k, k, ls.len()),
                ends_back(g, ls, k, start),
            decreases ls.len() - path.len(),
        {
            assert(ls.contains(path[path.len() - 1]));
            let back = keep_in(&graph.previous(start, false), &self.lanelets);
            if back.len() != 1 {
                break;
            }
            let previous = back[0];
            let ahead = keep_in(&graph.following(previous, false), &self.lanelets);
            if ahead.len() != 1 || previous == k {
                break;
            }
            proof {
                let preds = lanelets_of(g.spec_predecessors(start, drivable(false), 0));
                let nexts = lanelets_of(g.spec_neighbours(previous, drivable(false), 0));
                assert(back@.contains(previous)) by {
                    assert(back@[0] == previous);
                }
                lemma_kept_contains(preds, ls, previous);
                lemma_predecessor_leads_on(g, start, previous);
                lemma_kept_contains(nexts, ls, start);
                assert(ahead@ =~= seq![start]) by {
                    let j = choose|j: int| 0 <= j < ahead@.len() && ahead@[j] == start;
                    assert(j == 0);
                }
                if path.contains(previous) {
                    let i = choose|i: int| 0 <= i < path.len() && path[i] == previous;
                    assert(i != 0);
                    assert(next_in(g, ls, path[i]) == seq![path[i - 1]]);
                    assert(path[i - 1] == path[path.len() - 1]);
                    assert(false);
                }
                let longer = path.push(previous);
                assert forall|i: int| 0 <= i < longer.len() implies ls.contains(#[trigger] longer[i]) by {
                    if i < path.len() {
                        assert(longer[i] == path[i]);
                    }
                }
                assert forall|i: int| 1 <= i < longer.len() implies next_in(g, ls, #[trigger] longer[i]) == seq![longer[i - 1]] by {
                    if i < path.len() {
                        assert(longer[i] == path[i]);
                        assert(longer[i - 1] == path[i - 1]);
                    }
                }
                crate::routing::lemma_distinct_within(ls, longer);
                path = longer;
            }
            start = previous;
        }
        self.remaining_lane(graph, start)
    }

    /// Relations to lanelets inside the route, going forwards or backwards;
    /// lane changes are followed where `relations` includes `Left`.
    pub fn relations(&self, graph: &RoutingGraph, k: LaneletKey, relations: RelationType, forwards: bool) -> (r: Vec<LaneletRelation>)
        requires
            graph.wf(),
        ensures
            r@ == kept_relations(
                if forwards {
                    graph.spec_neighbours(k, drivable(relations.overlaps(RelationType(LEFT))), 0)
                } else {
                    graph.spec_predecessors(k, drivable(relations.overlaps(RelationType(LEFT))), 0)
                },
                self.spec_lanelets(),
            ),
    {
        let with_changes = relations.contains(RelationType(LEFT));
        let found = if forwards {
            graph.following_relations(k, with_changes)
        } else {
            graph.previous_relations(k, with_changes)
        };
        let mut r: Vec<LaneletRelation> = Vec::new();
        let mut j: usize = 0;
        while j < found.len()
            invariant
                j <= found@.len(),
                r@ == kept_relations(found@.take(j as int), self.lanelets@),
            decreases found@.len() - j,
        {
            assert(found@.take(j + 1).drop_last() =~= found@.take(j as int));
            assert(found@.take(j + 1).last() == found@[j as int]);
            if self.contains(found[j].lanelet) {
                r.push(found[j]);
            }
            j = j + 1;
        }
        assert(found@.take(found@.len() as int) =~= found@);
        r
    }

    /// The lanelets conflicting with `k` inside the route.
    pub fn conflicting_in_route(&self, graph: &RoutingGraph, k: LaneletKey) -> (r: Vec<LaneletKey>)
        requires
            graph.wf(),
        ensures
            r@ == kept(lanelets_of(graph.spec_neighbours(k, RelationType(CONFLICTING), 0)), self.spec_lanelets()),
    {
        keep_in(&graph.conflicting(k), &self.lanelets)
    }

    /// The lanelets conflicting with `k` anywhere in the map.
    pub fn conflicting_in_map(&self, graph: &RoutingGraph, k: LaneletKey) -> (r: Vec<LaneletKey>)
        requires
            graph.wf(),
        ensures
            r@ == lanelets_of(graph.spec_neighbours(k, RelationType(CONFLICTING), 0)),
    {
        graph.conflicting(k)
    }

    /// Everything the route's lanelets conflict with, lanelet by lanelet.
    pub fn all_conflicting_in_map(&self, graph: &RoutingGraph) -> (r: Vec<LaneletKey>)
        requires
            graph.wf(),
        ensures
            r@ == conflicts_of(*graph, self.spec_lanelets()),
    {
        let mut r: Vec<LaneletKey> = Vec::new();
        let mut i: usize = 0;
        while i < self.lanelets.len()
            invariant
                graph.wf(),
                i <= self.lanelets@.len(),
                r@ == conflicts_of(*graph, self.lanelets@.take(i as int)),
            decreases self.lanelets@.len() - i,
        {
            let found = graph.conflicting(self.lanelets[i]);
            append(&mut r, &found);
            assert(self.lanelets@.take(i + 1).drop_last() =~= self.lanelets@.take(i as int));
            assert(self.lanelets@.take(i + 1).last() == self.lanelets@[i as int]);
            i = i + 1;
        }
        assert(self.lanelets@.take(self.lanelets@.len() as int) =~= self.lanelets@);
        r
    }

    /// Problems with the route: one without a shortest path has one.
    pub fn check_validity(&self) -> (r: Vec<String>)
        ensures
            self.spec_shortest_path().len() == 0 ==> texts(r@) == seq!["Route has no shortest path"@],
            self.spec_shortest_path().len() > 0 ==> r@.len() == 0,
    {
        let mut r: Vec<String> = Vec::new();
        if self.shortest_path.len() == 0 {
            r.push(String::from_str("Route has no shortest path"));
            assert(texts(r@) =~= seq!["Route has no shortest path"@]);
        }
        r
    }
}

/// What `kept` keeps lies in `ls`.
proof fn lemma_kept_in(rs: Seq<LaneletRelation>, ls: Seq<LaneletKey>)
    ensures
        forall|i: int| 0 <= i < kept(lanelets_of(rs), ls).len() ==> ls.contains(#[trigger] kept(lanelets_of(rs), ls)[i]),
{
    lemma_kept_within(lanelets_of(rs), ls);
}

proof fn lemma_kept_within(ks: Seq<LaneletKey>, ls: Seq<LaneletKey>)
    ensures
        forall|i: int| 0 <= i < kept(ks, ls).len() ==> ls.contains(#[trigger] kept(ks, ls)[i]),
    decreases ks.len(),
{
    if ks.len() > 0 {
        lemma_kept_within(ks.drop_last(), ls);
        let r = kept(ks.drop_last(), ls);
        assert forall|i: int| 0 <= i < kept(ks, ls).len() implies ls.contains(#[trigger] kept(ks, ls)[i]) by {
            if i < r.len() {
                assert(kept(ks, ls)[i] == r[i]);
            }
        }
    }
}

/// Where `x` is first found, it stands.
proof fn lemma_first_index_in_range(ls: Seq<LaneletKey>, x: LaneletKey)
    ensures
        first_index(ls, x) matches Some(i) ==> 0 <= i < ls.len() && ls[i] == x,
    decreases ls.len(),
{
    if ls.len() > 0 {
        lemma_first_index_in_range(ls.drop_last(), x);
    }
}

impl RoutingGraph {
    /// The route between two lanelets: the corridor around the shortest
    /// path, or nothing where no path joins them.
    pub fn route(&self, from: LaneletKey, to: LaneletKey, cost_id: usize, with_lane_changes: bool) -> (r: Option<Route>)
        requires
            self.wf(),
            self.found_keys(from, to, drivable(with_lane_changes), cost_id) matches Some(p) ==> corridor_walks_end(*self, p, to, cost_id),
        ensures
            r is Some <==> self.connects(from, to, drivable(with_lane_changes), cost_id),
            r matches Some(route) ==> self.is_shortest_keys(route.spec_shortest_path(), from, to, drivable(with_lane_changes), cost_id)
                && self.found_keys(from, to, drivable(with_lane_changes), cost_id) == Some(route.spec_shortest_path())
                && route.spec_lanelets().no_duplicates()
                && is_corridor(*self, route.spec_shortest_path(), to, cost_id, route.spec_lanelets())
                && route.spec_lanelets() == grown_corridor(*self, route.spec_shortest_path(), to, cost_id)
                && route.numbers_lanes(*self)
                && route.spec_cost_id() == cost_id,
    {
        match self.shortest_path(from, to, cost_id, with_lane_changes) {
            Some(path) => {
                proof {
                    self.lemma_vertices_distinct();
                }
                let route = Route::build(self, path, to, cost_id);
                proof {
                    lemma_corridor_distinct(*self, route.spec_shortest_path(), to, cost_id, route.spec_lanelets());
                }
                Some(route)
            },
            None => None,
        }
    }
}

impl RoutingGraph {
    /// The route through intermediate lanelets: the corridor around a path
    /// made of one shortest leg per pair of consecutive stops.
    pub fn route_via(&self, from: LaneletKey, via: &Vec<LaneletKey>, to: LaneletKey, cost_id: usize, with_lane_changes: bool) -> (r: Option<Route>)
        requires
            self.wf(),
            1 + (via@.len() + 1) * self.spec_vertices().len() <= MAX_VERTICES,
            forall|p: Seq<LaneletKey>, cuts: Seq<int>| #[trigger] self.cut_into_legs(p, Self::waypoints(from, via@, to), cuts,
                drivable(with_lane_changes), cost_id) ==> corridor_walks_end(*self, p, to, cost_id),
        ensures
            r is Some <==> forall|i: int| 0 <= i < via@.len() + 1 ==> self.connects(
                #[trigger] Self::waypoints(from, via@, to)[i],
                Self::waypoints(from, via@, to)[i + 1],
                drivable(with_lane_changes),
                cost_id,
            ),
            r matches Some(route) ==> (exists|cuts: Seq<int>| #[trigger] self.cut_into_legs(route.spec_shortest_path(),
                Self::waypoints(from, via@, to), cuts, drivable(with_lane_changes), cost_id))
                && is_corridor(*self, route.spec_shortest_path(), to, cost_id, route.spec_lanelets())
                && route.spec_lanelets() == grown_corridor(*self, route.spec_shortest_path(), to, cost_id)
                && route.numbers_lanes(*self)
                && route.spec_cost_id() == cost_id,
    {
        match self.shortest_path_via(from, via, to, cost_id, with_lane_changes) {
            Some(path) => {
                proof {
                    let cuts = choose|cuts: Seq<int>| #[trigger] self.cut_into_legs(path@, Self::waypoints(from, via@, to), cuts,
                        drivable(with_lane_changes), cost_id);
                    assert(self.cut_into_legs(path@, Self::waypoints(from, via@, to), cuts, drivable(with_lane_changes), cost_id));
                }
                Some(Route::build(self, path, to, cost_id))
            },
            None => None,
        }
    }
}

/// A corridor grown from a path without repeats holds each lanelet once.
pub proof fn lemma_corridor_distinct(g: RoutingGraph, path: Seq<LaneletKey>, goal: LaneletKey, cost_id: usize, ls: Seq<LaneletKey>)
    requires
        path.no_duplicates(),
        is_corridor(g, path, goal, cost_id, ls),
    ensures
        ls.no_duplicates(),
{
    assert forall|a: int, b: int| 0 <= a < ls.len() && 0 <= b < ls.len() && a != b implies ls[a] != ls[b] by {
        let (i, j) = if a < b { (a, b) } else { (b, a) };
        if j >= path.len() {
            assert(grown_from(g, goal, cost_id, ls, j));
            assert(ls.subrange(0, j)[i] == ls[i]);
        } else {
            assert(ls.subrange(0, path.len() as int)[i] == ls[i]);
            assert(ls.subrange(0, path.len() as int)[j] == ls[j]);
        }
    }
}

/// Lane numbers start at 1000: no entry of a corridor gets a lower one.
pub proof fn lemma_lane_ids_from_first(g: RoutingGraph, ls: Seq<LaneletKey>, i: nat)
    ensures
        lane_id(g, ls, i) >= FIRST_LANE_ID,
    decreases i,
{
    match inherits(g, ls, i as int) {
        Some(at) => {
            lemma_first_index_in_range(ls, previous_in(g, ls, ls[i as int])[0]);
            lemma_lane_ids_from_first(g, ls, at as nat);
        },
        None => {},
    }
}


/// `kept` holds what both lists hold.
proof fn lemma_kept_contains(ks: Seq<LaneletKey>, ls: Seq<LaneletKey>, y: LaneletKey)
    ensures
        kept(ks, ls).contains(y) <==> (ks.contains(y) && ls.contains(y)),
    decreases ks.len(),
{
    if ks.len() > 0 {
        lemma_kept_contains(ks.drop_last(), ls, y);
        let r = kept(ks.drop_last(), ls);
        assert(ks =~= ks.drop_last().push(ks.last()));
        if ks.drop_last().contains(y) {
            let j = choose|j: int| 0 <= j < ks.drop_last().len() && ks.drop_last()[j] == y;
            assert(ks[j] == y);
        }
        if ks.contains(y) && ks.last() != y {
            let j = choose|j: int| 0 <= j < ks.len() && ks[j] == y;
            assert(ks.drop_last()[j] == y);
        }
        if ls.contains(ks.last()) {
            if r.push(ks.last()).contains(y) && ks.last() != y {
                let j = choose|j: int| 0 <= j < r.push(ks.last()).len() && r.push(ks.last())[j] == y;
                assert(r[j] == y);
            }
            if r.contains(y) {
                let j = choose|j: int| 0 <= j < r.len() && r[j] == y;
                assert(r.push(ks.last())[j] == y);
            }
            assert(r.push(ks.last())[r.len() as int] == ks.last());
        }
    }
}

/// What leads straight on to `x` has `x` among what it leads straight on to.
proof fn lemma_predecessor_leads_on(g: RoutingGraph, x: LaneletKey, p: LaneletKey)
    requires
        g.wf(),
        lanelets_of(g.spec_predecessors(x, drivable(false), 0)).contains(p),
    ensures
        lanelets_of(g.spec_neighbours(p, drivable(false), 0)).contains(x),
{
    let vs = g.spec_vertices();
    let s = g.spec_edges();
    let i = g.index_in(x).unwrap();
    let into = filter_in(s, i as usize, drivable(false), 0);
    let j = choose|j: int| 0 <= j < lanelets_of(related(vs, into, true)).len() && lanelets_of(related(vs, into, true))[j] == p;
    let e = into[j];
    let q_in = Query { relations: drivable(false), cost_id: 0, backwards: true };
    let q_out = Query { relations: drivable(false), cost_id: 0, backwards: false };
    assert(into.contains(e));
    lemma_steps_contain(s, q_in, i as usize, e);
    let t = choose|t: int| 0 <= t < s.len() && s[t] == e;
    g.lemma_edges_in_range();
    assert(s[t].from < vs.len());
    g.lemma_vertices_distinct();
    assert(vs[e.from as int] == p);
    let m = g.index_in(p).unwrap();
    assert(m == e.from);
    let out = filter_out(s, m as usize, drivable(false), 0);
    lemma_steps_contain(s, q_out, m as usize, e);
    let u = choose|u: int| 0 <= u < out.len() && out[u] == e;
    assert(lanelets_of(related(vs, out, false))[u] == x);
}

/// The edges a query takes from `v` are those of the list that start at `v`
/// and that it selects.
proof fn lemma_steps_contain(s: Seq<Edge>, q: Query, v: usize, e: Edge)
    ensures
        steps_from(s, q, v).contains(e) <==> (s.contains(e) && near(q, e) == v && selects(q, e)),
    decreases s.len(),
{
    if s.len() > 0 {
        lemma_steps_contain(s.drop_last(), q, v, e);
        let r = steps_from(s.drop_last(), q, v);
        assert(s =~= s.drop_last().push(s.last()));
        if s.drop_last().contains(e) {
            let j = choose|j: int| 0 <= j < s.drop_last().len() && s.drop_last()[j] == e;
            assert(s[j] == e);
        }
        if s.contains(e) && s.last() != e {
            let j = choose|j: int| 0 <= j < s.len() && s[j] == e;
            assert(s.drop_last()[j] == e);
        }
        if near(q, s.last()) == v && selects(q, s.last()) {
            if r.push(s.last()).contains(e) && s.last() != e {
                let j = choose|j: int| 0 <= j < r.push(s.last()).len() && r.push(s.last())[j] == e;
                assert(r[j] == e);
            }
            if r.contains(e) {
                let j = choose|j: int| 0 <= j < r.len() && r[j] == e;
                assert(r.push(s.last())[j] == e);
            }
            assert(r.push(s.last())[r.len() as int] == s.last());
        }
    }
}

} // verus!
