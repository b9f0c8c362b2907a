//! Paths through a graph's edge list as a query sees it, what they cost, and the
//! facts the shortest-path search rests on.

use vstd::prelude::*;
use crate::graph::{Edge, Query, arc, INFINITE_COST};

verus! {

/// `p` is a path the query can walk: at least one vertex, every vertex in
/// range, and an arc between each consecutive pair.
pub open spec fn is_path(s: Seq<Edge>, q: Query, n: nat, p: Seq<usize>) -> bool {
    &&& p.len() >= 1
    &&& forall|k: int| 0 <= k < p.len() ==> (#[trigger] p[k]) < n
    &&& forall|k: int| 0 <= k < p.len() - 1 ==> (#[trigger] arc(s, q, p[k], p[k + 1])) is Some
}

/// The cost of walking `p`, taking the cheapest arc at every step.
pub open spec fn path_cost(s: Seq<Edge>, q: Query, p: Seq<usize>) -> int
    decreases p.len(),
{
    if p.len() <= 1 {
        0
    } else {
        path_cost(s, q, p.drop_last()) + arc(s, q, p[p.len() - 2], p[p.len() - 1]).unwrap()
    }
}

/// `p` leads from `from` to `to`.
pub open spec fn joins(s: Seq<Edge>, q: Query, n: nat, p: Seq<usize>, from: usize, to: usize) -> bool {
    is_path(s, q, n, p) && p[0] == from && p.last() == to
}

/// There is a way from `from` to `to` costing at most `bound`.
pub open spec fn reachable_within(s: Seq<Edge>, q: Query, n: nat, from: usize, to: usize, bound: int) -> bool {
    exists|p: Seq<usize>| joins(s, q, n, p, from, to) && #[trigger] path_cost(s, q, p) <= bound
}

/// The bound a search with budget `max_cost` works to: the budget itself,
/// short of the infinite cost.
pub open spec fn cost_bound(max_cost: u64) -> u64 {
    if max_cost < INFINITE_COST { max_cost } else { (INFINITE_COST - 1) as u64 }
}

/// `p` joins the two vertices and no path between them is cheaper.
pub open spec fn is_shortest(s: Seq<Edge>, q: Query, n: nat, p: Seq<usize>, from: usize, to: usize) -> bool {
    &&& joins(s, q, n, p, from, to)
    &&& forall|other: Seq<usize>| joins(s, q, n, other, from, to) ==> path_cost(s, q, p) <= #[trigger] path_cost(s, q, other)
}

/// Costs are never negative.
pub proof fn lemma_cost_nonneg(s: Seq<Edge>, q: Query, p: Seq<usize>)
    ensures
        path_cost(s, q, p) >= 0,
    decreases p.len(),
{
    if p.len() > 1 {
        lemma_cost_nonneg(s, q, p.drop_last());
    }
}

/// Dropping the last vertex keeps a path.
pub proof fn lemma_drop_last_path(s: Seq<Edge>, q: Query, n: nat, p: Seq<usize>)
    requires
        is_path(s, q, n, p),
        p.len() >= 2,
    ensures
        is_path(s, q, n, p.drop_last()),
        p.drop_last()[0] == p[0],
        p.drop_last().last() == p[p.len() - 2],
        arc(s, q, p[p.len() - 2], p[p.len() - 1]) is Some,
        path_cost(s, q, p) == path_cost(s, q, p.drop_last()) + arc(s, q, p[p.len() - 2], p[p.len() - 1]).unwrap(),
{
    let d = p.drop_last();
    assert forall|k: int| 0 <= k < d.len() - 1 implies (#[trigger] arc(s, q, d[k], d[k + 1])) is Some by {
        assert(arc(s, q, p[k], p[k + 1]) is Some);
    }
    assert(arc(s, q, p[p.len() - 2], p[p.len() - 2 + 1]) is Some);
}

/// Extending a path by one arc.
pub proof fn lemma_push_path(s: Seq<Edge>, q: Query, n: nat, p: Seq<usize>, w: usize)
    requires
        is_path(s, q, n, p),
        w < n,
        arc(s, q, p.last(), w) is Some,
    ensures
        is_path(s, q, n, p.push(w)),
        p.push(w)[0] == p[0],
        p.push(w).last() == w,
        path_cost(s, q, p.push(w)) == path_cost(s, q, p) + arc(s, q, p.last(), w).unwrap(),
{
    let r = p.push(w);
    assert(r.drop_last() =~= p);
    assert forall|k: int| 0 <= k < r.len() - 1 implies (#[trigger] arc(s, q, r[k], r[k + 1])) is Some by {
        if k < p.len() - 1 {
            assert(arc(s, q, p[k], p[k + 1]) is Some);
        }
    }
}

/// Putting a vertex in front of a path.
pub proof fn lemma_prepend_path(s: Seq<Edge>, q: Query, n: nat, u: usize, p: Seq<usize>)
    requires
        is_path(s, q, n, p),
        u < n,
        arc(s, q, u, p[0]) is Some,
    ensures
        is_path(s, q, n, seq![u] + p),
        (seq![u] + p)[0] == u,
        (seq![u] + p).last() == p.last(),
        path_cost(s, q, seq![u] + p) == arc(s, q, u, p[0]).unwrap() + path_cost(s, q, p),
    decreases p.len(),
{
    let r = seq![u] + p;
    assert forall|k: int| 0 <= k < r.len() - 1 implies (#[trigger] arc(s, q, r[k], r[k + 1])) is Some by {
        if k > 0 {
            assert(r[k] == p[k - 1] && r[k + 1] == p[k]);
            assert(arc(s, q, p[k - 1], p[k - 1 + 1]) is Some);
        }
    }
    if p.len() == 1 {
        assert(r.drop_last() =~= seq![u]);
        assert(path_cost(s, q, seq![u]) == 0);
        assert(path_cost(s, q, p) == 0);
        assert(r[0] == u && r[1] == p[0]);
        assert(path_cost(s, q, r) == path_cost(s, q, r.drop_last()) + arc(s, q, r[0], r[1]).unwrap());
    } else {
        lemma_drop_last_path(s, q, n, p);
        lemma_prepend_path(s, q, n, u, p.drop_last());
        assert(r.drop_last() =~= seq![u] + p.drop_last());
        assert(r[r.len() - 2] == p[p.len() - 2]);
        assert(r[r.len() - 1] == p[p.len() - 1]);
        assert(p.drop_last()[0] == p[0]);
        assert(path_cost(s, q, r) == path_cost(s, q, r.drop_last()) + arc(s, q, r[r.len() - 2], r[r.len() - 1]).unwrap());
    }
}

/// How many entries are still `false`.
pub open spec fn count_false(b: Seq<bool>) -> nat
    decreases b.len(),
{
    if b.len() == 0 {
        0
    } else {
        count_false(b.drop_last()) + if b.last() { 0nat } else { 1nat }
    }
}

pub proof fn lemma_count_false_set(b: Seq<bool>, i: int)
    requires
        0 <= i < b.len(),
        !b[i],
    ensures
        count_false(b.update(i, true)) + 1 == count_false(b),
    decreases b.len(),
{
    let c = b.update(i, true);
    if i < b.len() - 1 {
        assert(c.drop_last() =~= b.drop_last().update(i, true));
        lemma_count_false_set(b.drop_last(), i);
    } else {
        assert(c.drop_last() =~= b.drop_last());
    }
}

/// Every arc out of `u` that stays within the bound has been used to relax
/// the vertex it leads to.
pub open spec fn relaxed_from(s: Seq<Edge>, q: Query, n: nat, bound: u64, dist: Seq<u64>, u: usize) -> bool {
    forall|w: usize|
        w < n && #[trigger] arc(s, q, u, w) is Some && dist[u as int] + arc(s, q, u, w).unwrap() <= bound
            ==> dist[w as int] <= dist[u as int] + arc(s, q, u, w).unwrap()
}

/// What the shortest-path search keeps true between rounds, apart from the
/// relaxation of settled vertices.
///
/// `done` vertices have their final distance; `dist` holds `INFINITE_COST` for
/// vertices not reached yet; `pred` gives each reached vertex the settled
/// vertex it was reached from; `rank` is the round in which a vertex settled.
#[verifier::opaque]
pub open spec fn search_core(
    s: Seq<Edge>,
    q: Query,
    n: nat,
    start: usize,
    bound: u64,
    dist: Seq<u64>,
    pred: Seq<usize>,
    done: Seq<bool>,
    rank: Seq<nat>,
    count: nat,
) -> bool {
    &&& dist.len() == n && pred.len() == n && done.len() == n && rank.len() == n
    &&& start < n
    &&& bound < INFINITE_COST
    &&& dist[start as int] == 0
    &&& forall|v: int| 0 <= v < n && dist[v] != INFINITE_COST ==> #[trigger] dist[v] <= bound
    &&& forall|v: int| 0 <= v < n && #[trigger] done[v] ==> dist[v] != INFINITE_COST && rank[v] < count
    &&& forall|u: int, w: int|
        0 <= u < n && 0 <= w < n && #[trigger] done[u] && !#[trigger] done[w] ==> dist[u] <= dist[w]
    &&& forall|p: Seq<usize>|
        is_path(s, q, n, p) && p[0] == start && done[p.last() as int] ==> #[trigger] path_cost(s, q, p)
            >= dist[p.last() as int]
    &&& forall|v: int|
        0 <= v < n && v != start && #[trigger] dist[v] != INFINITE_COST ==> {
            &&& pred[v] < n
            &&& done[pred[v] as int]
            &&& arc(s, q, pred[v], v as usize) is Some
            &&& dist[pred[v] as int] + arc(s, q, pred[v], v as usize).unwrap() <= dist[v]
        }
    &&& forall|v: int| 0 <= v < n && v != start && #[trigger] done[v] ==> rank[pred[v] as int] < rank[v]
}

/// The state of the shortest-path search between rounds.
pub open spec fn search_state(
    s: Seq<Edge>,
    q: Query,
    n: nat,
    start: usize,
    bound: u64,
    dist: Seq<u64>,
    pred: Seq<usize>,
    done: Seq<bool>,
    rank: Seq<nat>,
    count: nat,
) -> bool {
    &&& search_core(s, q, n, start, bound, dist, pred, done, rank, count)
    &&& forall|u: usize| u < n && done[u as int] ==> #[trigger] relaxed_from(s, q, n, bound, dist, u)
}

/// Any path to a vertex not yet settled costs at least the smallest tentative
/// distance among unsettled vertices.
pub proof fn lemma_unsettled_cost(
    s: Seq<Edge>,
    q: Query,
    n: nat,
    start: usize,
    bound: u64,
    dist: Seq<u64>,
    pred: Seq<usize>,
    done: Seq<bool>,
    rank: Seq<nat>,
    count: nat,
    v: usize,
    p: Seq<usize>,
)
    requires
        search_state(s, q, n, start, bound, dist, pred, done, rank, count),
        v < n,
        !done[v as int],
        dist[v as int] != INFINITE_COST,
        forall|w: int| 0 <= w < n && !done[w] ==> dist[v as int] <= #[trigger] dist[w],
        is_path(s, q, n, p),
        p[0] == start,
        !done[p.last() as int],
    ensures
        path_cost(s, q, p) >= dist[v as int],
    decreases p.len(),
{
    reveal(search_core);
    lemma_cost_nonneg(s, q, p);
    if p.len() == 1 {
        assert(dist[start as int] == 0);
    } else {
        let d = p.drop_last();
        lemma_drop_last_path(s, q, n, p);
        let u = p[p.len() - 2];
        let x = p.last();
        let c = arc(s, q, u, x).unwrap();
        if !done[u as int] {
            lemma_unsettled_cost(s, q, n, start, bound, dist, pred, done, rank, count, v, d);
            assert(c >= 0);
        } else {
            assert(path_cost(s, q, d) >= dist[u as int]);
            assert(relaxed_from(s, q, n, bound, dist, u));
            if dist[u as int] + c <= bound {
                assert(dist[x as int] <= dist[u as int] + c);
                assert(dist[v as int] <= dist[x as int]);
            } else {
                assert(dist[v as int] <= bound);
            }
        }
    }
}

/// When the search is over, a vertex still unsettled is out of reach within
/// the bound.
pub proof fn lemma_unsettled_unreachable(
    s: Seq<Edge>,
    q: Query,
    n: nat,
    start: usize,
    bound: u64,
    dist: Seq<u64>,
    pred: Seq<usize>,
    done: Seq<bool>,
    rank: Seq<nat>,
    count: nat,
    p: Seq<usize>,
)
    requires
        search_state(s, q, n, start, bound, dist, pred, done, rank, count),
        forall|w: int| 0 <= w < n && !done[w] ==> #[trigger] dist[w] == INFINITE_COST,
        is_path(s, q, n, p),
        p[0] == start,
        !done[p.last() as int],
    ensures
        path_cost(s, q, p) > bound,
    decreases p.len(),
{
    reveal(search_core);
    if p.len() == 1 {
        assert(dist[start as int] == 0);
    } else {
        let d = p.drop_last();
        lemma_drop_last_path(s, q, n, p);
        let u = p[p.len() - 2];
        let x = p.last();
        let c = arc(s, q, u, x).unwrap();
        if !done[u as int] {
            lemma_unsettled_unreachable(s, q, n, start, bound, dist, pred, done, rank, count, d);
        } else {
            assert(path_cost(s, q, d) >= dist[u as int]);
            assert(relaxed_from(s, q, n, bound, dist, u));
            if dist[u as int] + c <= bound {
                assert(dist[x as int] <= dist[u as int] + c);
                assert(dist[x as int] != INFINITE_COST);
            }
        }
    }
}

/// A settled vertex is reached by a path costing exactly its distance.
pub proof fn lemma_settled_path(
    s: Seq<Edge>,
    q: Query,
    n: nat,
    start: usize,
    bound: u64,
    dist: Seq<u64>,
    pred: Seq<usize>,
    done: Seq<bool>,
    rank: Seq<nat>,
    count: nat,
    v: usize,
) -> (p: Seq<usize>)
    requires
        search_state(s, q, n, start, bound, dist, pred, done, rank, count),
        v < n,
        done[v as int],
    ensures
        joins(s, q, n, p, start, v),
        path_cost(s, q, p) == dist[v as int],
    decreases rank[v as int],
{
    reveal(search_core);
    if v == start {
        let p = seq![start];
        assert(path_cost(s, q, p) == 0);
        p
    } else {
        let u = pred[v as int];
        assert(dist[v as int] != INFINITE_COST);
        let r = lemma_settled_path(s, q, n, start, bound, dist, pred, done, rank, count, u);
        lemma_push_path(s, q, n, r, v);
        let p = r.push(v);
        assert(path_cost(s, q, p) >= dist[v as int]);
        p
    }
}

/// The search state before any vertex has settled.
pub proof fn lemma_search_init(s: Seq<Edge>, q: Query, n: nat, start: usize, bound: u64, dist: Seq<u64>, pred: Seq<usize>, done: Seq<bool>)
    requires
        start < n,
        bound < INFINITE_COST,
        dist.len() == n && pred.len() == n && done.len() == n,
        forall|k: int| 0 <= k < n && k != start ==> dist[k] == INFINITE_COST,
        dist[start as int] == 0,
        forall|k: int| 0 <= k < n ==> !done[k],
    ensures
        search_state(s, q, n, start, bound, dist, pred, done, Seq::new(n, |k: int| 0nat), 0),
{
    reveal(search_core);
    let rank = Seq::new(n, |k: int| 0nat);
    assert forall|p: Seq<usize>|
        is_path(s, q, n, p) && p[0] == start && done[p.last() as int] implies #[trigger] path_cost(s, q, p)
            >= dist[p.last() as int] by {
        assert(!done[p.last() as int]);
    }
    assert(search_core(s, q, n, start, bound, dist, pred, done, rank, 0));
}

/// Settling the cheapest unsettled vertex keeps the search state, apart from
/// relaxing the new vertex's own arcs.
pub proof fn lemma_settle(
    s: Seq<Edge>,
    q: Query,
    n: nat,
    start: usize,
    bound: u64,
    dist: Seq<u64>,
    pred: Seq<usize>,
    done: Seq<bool>,
    rank: Seq<nat>,
    count: nat,
    v: usize,
)
    requires
        search_state(s, q, n, start, bound, dist, pred, done, rank, count),
        v < n,
        !done[v as int],
        dist[v as int] != INFINITE_COST,
        forall|w: int| 0 <= w < n && !done[w] ==> dist[v as int] <= #[trigger] dist[w],
    ensures
        search_core(s, q, n, start, bound, dist, pred, done.update(v as int, true), rank.update(v as int, count), count + 1),
        forall|u: usize|
            u < n && done.update(v as int, true)[u as int] && u != v ==> #[trigger] relaxed_from(s, q, n, bound, dist, u),
        forall|w: int| 0 <= w < n && #[trigger] done.update(v as int, true)[w] ==> dist[w] <= dist[v as int],
        count_false(done.update(v as int, true)) + 1 == count_false(done),
{
    reveal(search_core);
    let done2 = done.update(v as int, true);
    let rank2 = rank.update(v as int, count);
    assert forall|p: Seq<usize>| is_path(s, q, n, p) && p[0] == start && p.last() == v
        implies #[trigger] path_cost(s, q, p) >= dist[v as int] by {
        lemma_unsettled_cost(s, q, n, start, bound, dist, pred, done, rank, count, v, p);
    }
    lemma_count_false_set(done, v as int);
    assert forall|p: Seq<usize>|
        is_path(s, q, n, p) && p[0] == start && done2[p.last() as int] implies #[trigger] path_cost(s, q, p)
            >= dist[p.last() as int] by {
        if p.last() != v {
            assert(done[p.last() as int]);
        }
    }
    assert forall|u: int, w: int|
        0 <= u < n && 0 <= w < n && #[trigger] done2[u] && !#[trigger] done2[w] implies dist[u] <= dist[w] by {
        if u != v {
            assert(done[u] && !done[w]);
        }
    }
    assert forall|x: int| 0 <= x < n && x != start && #[trigger] done2[x] implies rank2[pred[x] as int] < rank2[x] by {
        assert(dist[x] != INFINITE_COST);
        assert(done[pred[x] as int]);
        if x != v {
            assert(done[x]);
        }
    }
    assert forall|x: int| 0 <= x < n && #[trigger] done2[x] implies dist[x] != INFINITE_COST && rank2[x] < count + 1 by {
        if x != v {
            assert(done[x]);
        }
    }
    assert forall|w: int| 0 <= w < n && #[trigger] done2[w] implies dist[w] <= dist[v as int] by {
        if w != v {
            assert(done[w] && !done[v as int]);
        }
    }
    assert forall|u: usize| u < n && done2[u as int] && u != v implies #[trigger] relaxed_from(s, q, n, bound, dist, u) by {
        assert(done[u as int]);
    }
    assert(search_core(s, q, n, start, bound, dist, pred, done2, rank2, count + 1));
}

/// Lowering the distance of an unsettled vertex through an arc from the
/// newest settled vertex keeps the search state.
pub proof fn lemma_relax(
    s: Seq<Edge>,
    q: Query,
    n: nat,
    start: usize,
    bound: u64,
    dist: Seq<u64>,
    pred: Seq<usize>,
    done: Seq<bool>,
    rank: Seq<nat>,
    count: nat,
    v: usize,
    w: usize,
    c: u64,
)
    requires
        search_core(s, q, n, start, bound, dist, pred, done, rank, count),
        v < n,
        w < n,
        done[v as int],
        forall|x: int| 0 <= x < n && #[trigger] done[x] ==> dist[x] <= dist[v as int],
        forall|u: usize| u < n && done[u as int] && u != v ==> #[trigger] relaxed_from(s, q, n, bound, dist, u),
        arc(s, q, v, w) is Some,
        arc(s, q, v, w).unwrap() <= c,
        dist[v as int] + c <= bound,
        dist[v as int] + c < dist[w as int],
    ensures
        !done[w as int],
        search_core(s, q, n, start, bound, dist.update(w as int, (dist[v as int] + c) as u64), pred.update(w as int, v), done, rank, count),
        forall|u: usize|
            u < n && done[u as int] && u != v ==> #[trigger] relaxed_from(s, q, n, bound, dist.update(w as int, (dist[v as int] + c) as u64), u),
        forall|x: int| 0 <= x < n && #[trigger] done[x] ==> dist.update(w as int, (dist[v as int] + c) as u64)[x] == dist[x],
{
    reveal(search_core);
    let next = (dist[v as int] + c) as u64;
    let dist2 = dist.update(w as int, next);
    let pred2 = pred.update(w as int, v);
    assert(!done[w as int]);
    assert(w != start);
    assert forall|u: usize| u < n && done[u as int] && u != v implies #[trigger] relaxed_from(s, q, n, bound, dist2, u) by {
        assert(relaxed_from(s, q, n, bound, dist, u));
        assert(dist2[u as int] == dist[u as int]);
    }
    assert forall|x: int|
        0 <= x < n && x != start && #[trigger] dist2[x] != INFINITE_COST implies {
            &&& pred2[x] < n
            &&& done[pred2[x] as int]
            &&& arc(s, q, pred2[x], x as usize) is Some
            &&& dist2[pred2[x] as int] + arc(s, q, pred2[x], x as usize).unwrap() <= dist2[x]
        } by {
        if x != w {
            assert(dist[x] != INFINITE_COST);
            assert(dist2[pred[x] as int] == dist[pred[x] as int]);
        } else {
            assert(x as usize == w);
        }
    }
    assert forall|p: Seq<usize>|
        is_path(s, q, n, p) && p[0] == start && done[p.last() as int] implies #[trigger] path_cost(s, q, p)
            >= dist2[p.last() as int] by {
        assert(dist2[p.last() as int] == dist[p.last() as int]);
    }
    assert forall|u: int, x: int|
        0 <= u < n && 0 <= x < n && #[trigger] done[u] && !#[trigger] done[x] implies dist2[u] <= dist2[x] by {
        assert(dist[u] <= dist[x]);
    }
    assert(search_core(s, q, n, start, bound, dist2, pred2, done, rank, count));
}

/// The same query walking edges the other way.
pub open spec fn flipped(q: Query) -> Query {
    Query { backwards: !q.backwards, ..q }
}

/// Walking edges the other way turns every arc round.
pub proof fn lemma_arc_flipped(s: Seq<Edge>, q: Query, u: usize, w: usize)
    ensures
        arc(s, flipped(q), u, w) == arc(s, q, w, u),
    decreases s.len(),
{
    if s.len() > 0 {
        lemma_arc_flipped(s.drop_last(), q, u, w);
    }
}

/// Dropping the first vertex keeps a path.
pub proof fn lemma_drop_first_path(s: Seq<Edge>, q: Query, n: nat, p: Seq<usize>)
    requires
        is_path(s, q, n, p),
        p.len() >= 2,
    ensures
        is_path(s, q, n, p.drop_first()),
        arc(s, q, p[0], p[1]) is Some,
{
    let t = p.drop_first();
    assert forall|k: int| 0 <= k < t.len() implies (#[trigger] t[k]) < n by {
        assert(t[k] == p[k + 1]);
    }
    assert forall|k: int| 0 <= k < t.len() - 1 implies (#[trigger] arc(s, q, t[k], t[k + 1])) is Some by {
        assert(t[k] == p[k + 1] && t[k + 1] == p[k + 2]);
        assert(arc(s, q, p[k + 1], p[k + 1 + 1]) is Some);
    }
    assert(arc(s, q, p[0], p[0int + 1]) is Some);
}

/// A path read backwards is a path of the flipped query, and costs the same.
pub proof fn lemma_reverse_path(s: Seq<Edge>, q: Query, n: nat, p: Seq<usize>)
    requires
        is_path(s, q, n, p),
    ensures
        is_path(s, flipped(q), n, p.reverse()),
        path_cost(s, flipped(q), p.reverse()) == path_cost(s, q, p),
        p.reverse()[0] == p.last(),
        p.reverse().last() == p[0],
    decreases p.len(),
{
    let r = p.reverse();
    if p.len() == 1 {
        assert(r =~= p);
        assert(is_path(s, flipped(q), n, r));
    } else {
        let t = p.drop_first();
        lemma_drop_first_path(s, q, n, p);
        lemma_reverse_path(s, q, n, t);
        let rt = t.reverse();
        assert(r =~= rt.push(p[0]));
        lemma_arc_flipped(s, q, p[1], p[0]);
        assert(rt.last() == t[0]);
        assert(t[0] == p[1]);
        lemma_push_path(s, flipped(q), n, rt, p[0]);
        assert(seq![p[0]] + t =~= p);
        lemma_prepend_path(s, q, n, p[0], t);
    }
}

/// Searching backwards finds exactly the vertices from which the start can
/// be reached: `w` is within `bound` of `v` against the edges exactly when
/// `v` is within `bound` of `w` along them.
pub proof fn lemma_backwards_reaches_forwards(s: Seq<Edge>, q: Query, n: nat, v: usize, w: usize, bound: int)
    ensures
        reachable_within(s, flipped(q), n, v, w, bound) <==> reachable_within(s, q, n, w, v, bound),
{
    if reachable_within(s, flipped(q), n, v, w, bound) {
        let p = choose|p: Seq<usize>| joins(s, flipped(q), n, p, v, w) && #[trigger] path_cost(s, flipped(q), p) <= bound;
        lemma_reverse_path(s, flipped(q), n, p);
        assert(flipped(flipped(q)) == q);
        assert(joins(s, q, n, p.reverse(), w, v));
        assert(path_cost(s, q, p.reverse()) <= bound);
    }
    if reachable_within(s, q, n, w, v, bound) {
        let p = choose|p: Seq<usize>| joins(s, q, n, p, w, v) && #[trigger] path_cost(s, q, p) <= bound;
        lemma_reverse_path(s, q, n, p);
        assert(joins(s, flipped(q), n, p.reverse(), v, w));
        assert(path_cost(s, flipped(q), p.reverse()) <= bound);
    }
}

/// Every vertex reaches itself at no cost: a search's start is always among
/// what it reaches.
pub proof fn lemma_start_reachable(s: Seq<Edge>, q: Query, n: nat, start: usize, bound: int)
    requires
        start < n,
        bound >= 0,
    ensures
        reachable_within(s, q, n, start, start, bound),
{
    let p = seq![start];
    assert(joins(s, q, n, p, start, start));
    assert(path_cost(s, q, p) == 0);
}

/// A larger budget reaches everything a smaller one does.
pub proof fn lemma_reachable_monotone(s: Seq<Edge>, q: Query, n: nat, from: usize, to: usize, small: int, large: int)
    requires
        small <= large,
        reachable_within(s, q, n, from, to, small),
    ensures
        reachable_within(s, q, n, from, to, large),
{
    let p = choose|p: Seq<usize>| joins(s, q, n, p, from, to) && #[trigger] path_cost(s, q, p) <= small;
    assert(path_cost(s, q, p) <= large);
}

/// A shortest path fits a budget exactly when its end can be reached within
/// that budget at all.
pub proof fn lemma_shortest_fits_budget(s: Seq<Edge>, q: Query, n: nat, p: Seq<usize>, from: usize, to: usize, bound: int)
    requires
        is_shortest(s, q, n, p, from, to),
    ensures
        reachable_within(s, q, n, from, to, bound) <==> path_cost(s, q, p) <= bound,
{
    if reachable_within(s, q, n, from, to, bound) {
        let other = choose|o: Seq<usize>| joins(s, q, n, o, from, to) && #[trigger] path_cost(s, q, o) <= bound;
        assert(path_cost(s, q, p) <= path_cost(s, q, other));
    }
    if path_cost(s, q, p) <= bound {
        assert(joins(s, q, n, p, from, to));
    }
}

} // verus!
