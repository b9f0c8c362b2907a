use simple_lanelet2::attributes::AttributeMap;
use simple_lanelet2::building::{MapLanelet, PairFacts};
use simple_lanelet2::graph::INFINITE_COST;
use simple_lanelet2::relation::{RelationType, CONFLICTING, LEFT, SUCCESSOR};
use simple_lanelet2::routing::{LaneletKey, RoutingGraph};
use simple_lanelet2::traffic_rules::{LaneletTags, LineTags, TrafficRules};

fn tags(attributes: &[(&str, &str)], inverted: bool) -> LaneletTags {
    let mut map = AttributeMap::new();
    for (key, value) in attributes {
        map.insert(key, value);
    }
    LaneletTags {
        attributes: map,
        inverted,
        left: LineTags { attributes: AttributeMap::new(), inverted },
        right: LineTags { attributes: AttributeMap::new(), inverted },
    }
}

fn forward(id: i64) -> LaneletKey {
    LaneletKey { id, inverted: false }
}

fn backward(id: i64) -> LaneletKey {
    LaneletKey { id, inverted: true }
}

fn lanelet(id: i64, attributes: &[(&str, &str)]) -> MapLanelet {
    MapLanelet { id, forward: tags(attributes, false), backward: tags(attributes, true) }
}

fn facts(from: LaneletKey, to: LaneletKey) -> PairFacts {
    PairFacts {
        from,
        to,
        follows: false,
        left_of: false,
        right_of: false,
        overlaps: false,
        succeed_costs: vec![INFINITE_COST, INFINITE_COST],
        change_costs: vec![INFINITE_COST, INFINITE_COST],
    }
}

/// A straight chain of ten-metre road lanelets, ids 1 to `count`, each
/// continuing the one before; a step costs ten metres, or one second.
fn chain_map(count: i64, attributes: &[(&str, &str)]) -> (Vec<MapLanelet>, Vec<PairFacts>) {
    let mut lanelets = Vec::new();
    let mut geometry = Vec::new();
    for id in 1..=count {
        let mut all = vec![("subtype", "road")];
        all.extend_from_slice(attributes);
        lanelets.push(lanelet(id, &all));
        if id < count {
            let mut ahead = facts(forward(id), forward(id + 1));
            ahead.follows = true;
            ahead.succeed_costs = vec![10, 1];
            geometry.push(ahead);
            let mut back = facts(backward(id + 1), backward(id));
            back.follows = true;
            back.succeed_costs = vec![10, 1];
            geometry.push(back);
        }
    }
    (lanelets, geometry)
}

fn build(lanelets: &Vec<MapLanelet>, geometry: &Vec<PairFacts>) -> RoutingGraph {
    let rules = TrafficRules::create("de", "vehicle").unwrap();
    RoutingGraph::build(&rules, lanelets, geometry, 2)
}

fn ids(keys: &[LaneletKey]) -> Vec<i64> {
    keys.iter().map(|k| k.id).collect()
}

#[test]
fn consecutive_lanelets_become_successors() {
    let (lanelets, geometry) = chain_map(3, &[]);
    let graph = build(&lanelets, &geometry);
    let following = graph.following(forward(1), false);
    assert_eq!(following.len(), 1);
    assert_eq!(following[0].id, 2);
    assert!(graph.following(forward(3), false).is_empty());
    assert_eq!(graph.previous(forward(2), false)[0].id, 1);
}

#[test]
fn the_shortest_path_runs_the_length_of_the_chain() {
    let (lanelets, geometry) = chain_map(4, &[]);
    let graph = build(&lanelets, &geometry);
    let path = graph.shortest_path(forward(1), forward(4), 0, false).unwrap();
    assert_eq!(ids(&path), [1, 2, 3, 4]);
    assert!(graph.shortest_path(forward(4), forward(1), 0, false).is_none());
}

#[test]
fn a_one_way_road_yields_one_vertex_per_lanelet() {
    let (lanelets, geometry) = chain_map(2, &[]);
    let graph = build(&lanelets, &geometry);
    assert!(graph.following(backward(1), false).is_empty());
    assert_eq!(graph.vertices().len(), 2);
}

#[test]
fn a_two_way_lanelet_gets_a_vertex_per_direction_and_they_conflict() {
    let (lanelets, geometry) = chain_map(1, &[("one_way", "no")]);
    let graph = build(&lanelets, &geometry);
    let conflicting = graph.conflicting(forward(1));
    assert_eq!(conflicting.len(), 1);
    assert!(conflicting[0].inverted);
}

#[test]
fn reachability_respects_the_budget() {
    let (lanelets, geometry) = chain_map(4, &[]);
    let graph = build(&lanelets, &geometry);
    assert_eq!(graph.reachable_set(forward(1), 0, 0, false).len(), 1);
    assert_eq!(graph.reachable_set(forward(1), 25, 0, false).len(), 3);
    assert_eq!(graph.reachable_set(forward(1), 1000, 0, false).len(), 4);
    assert_eq!(ids(&graph.reachable_set_towards(forward(4), 10, 0, false)), [3, 4]);
}

#[test]
fn possible_paths_reach_the_end_of_the_chain() {
    let (lanelets, geometry) = chain_map(3, &[]);
    let graph = build(&lanelets, &geometry);
    assert!(graph.possible_paths(forward(1), Some(1000), None, 0, false, false).is_empty());
    let paths = graph.possible_paths(forward(1), Some(1000), None, 0, false, true);
    assert_eq!(paths.len(), 1);
    assert_eq!(paths[0].len(), 3);
    let towards = graph.possible_paths_towards(forward(3), None, Some(2), 0, false, false);
    assert_eq!(towards.len(), 1);
    assert_eq!(ids(&towards[0]), [2, 3]);
}

#[test]
fn a_route_via_a_waypoint_passes_through_it() {
    let (lanelets, geometry) = chain_map(4, &[]);
    let graph = build(&lanelets, &geometry);
    let path = graph.shortest_path_via(forward(1), &vec![forward(3)], forward(4), 0, false).unwrap();
    assert_eq!(ids(&path), [1, 2, 3, 4]);
    assert!(graph.shortest_path_via(forward(3), &vec![forward(1)], forward(4), 0, false).is_none());
}

#[test]
fn every_cost_model_gets_its_own_edge() {
    let (lanelets, geometry) = chain_map(2, &[]);
    let graph = build(&lanelets, &geometry);
    let successors: Vec<_> =
        graph.edges().into_iter().filter(|edge| edge.4 == RelationType(SUCCESSOR)).collect();
    assert_eq!(successors.len(), 2, "one edge per cost model");
    assert_eq!(successors[0].5, 0);
    assert_eq!(successors[1].5, 1);
}

/// Two parallel lanes, 1 and 2, with 2 to the left of 1: a lane change from
/// 1 to 2 is allowed by a dashed boundary, and affordable under the first
/// cost model only.
fn two_lanes() -> RoutingGraph {
    let dashed = |inverted: bool| {
        let mut map = AttributeMap::new();
        map.insert("type", "line_thin");
        map.insert("subtype", "dashed");
        LineTags { attributes: map, inverted }
    };
    let mut one = lanelet(1, &[("subtype", "road")]);
    one.forward.left = dashed(false);
    let mut two = lanelet(2, &[("subtype", "road")]);
    two.forward.right = dashed(false);
    let mut left = facts(forward(2), forward(1));
    left.left_of = true;
    left.change_costs = vec![5, INFINITE_COST];
    let mut right = facts(forward(1), forward(2));
    right.right_of = true;
    right.change_costs = vec![5, INFINITE_COST];
    build(&vec![one, two], &vec![left, right])
}

#[test]
fn an_affordable_lane_change_is_a_neighbour_and_a_costly_one_only_adjacent() {
    let graph = two_lanes();
    assert_eq!(graph.left(forward(1), 0), Some(forward(2)));
    assert_eq!(graph.left(forward(1), 1), None);
    assert_eq!(graph.adjacent_left(forward(1), 1), Some(forward(2)));
    assert_eq!(graph.right(forward(2), 0), Some(forward(1)));
    assert_eq!(ids(&graph.besides(forward(1), 0)), [2, 1]);
    assert_eq!(graph.lefts(forward(1), 0), vec![forward(2)]);
    assert_eq!(graph.routing_relation(forward(1), forward(2), false, false), Some(RelationType(LEFT)));
    assert!(graph.check_validity().is_empty());
    let sideways = graph.left_relations(forward(1), 1);
    assert_eq!(sideways.len(), 1);
    assert_eq!(sideways[0].cost, 1);
}

#[test]
fn a_conflict_is_reported_unless_left_out() {
    let (lanelets, geometry) = chain_map(1, &[("one_way", "no")]);
    let graph = build(&lanelets, &geometry);
    assert_eq!(graph.routing_relation(forward(1), backward(1), true, false), Some(RelationType(CONFLICTING)));
    assert_eq!(graph.routing_relation(forward(1), backward(1), false, false), None);
    assert_eq!(graph.routing_relation(forward(1), backward(1), false, true), Some(RelationType(CONFLICTING)));
    assert_eq!(graph.routing_relation(forward(1), forward(7), true, false), None);
}

/// Two lanes side by side, 1 then 3 on the right and 2 then 4 on the left,
/// with dashed lines between them that a lane change may cross.
fn two_lane_road() -> RoutingGraph {
    let dashed = |inverted: bool| {
        let mut map = AttributeMap::new();
        map.insert("type", "line_thin");
        map.insert("subtype", "dashed");
        LineTags { attributes: map, inverted }
    };
    let mut lanelets = Vec::new();
    for id in 1..=4 {
        let mut l = lanelet(id, &[("subtype", "road")]);
        if id % 2 == 1 {
            l.forward.left = dashed(false);
        } else {
            l.forward.right = dashed(false);
        }
        lanelets.push(l);
    }
    let mut geometry = Vec::new();
    for (from, to) in [(1, 3), (2, 4)] {
        let mut ahead = facts(forward(from), forward(to));
        ahead.follows = true;
        ahead.succeed_costs = vec![10, 1];
        geometry.push(ahead);
    }
    for (right, left) in [(1, 2), (3, 4)] {
        let mut leftwards = facts(forward(left), forward(right));
        leftwards.left_of = true;
        leftwards.change_costs = vec![5, 5];
        geometry.push(leftwards);
        let mut rightwards = facts(forward(right), forward(left));
        rightwards.right_of = true;
        rightwards.change_costs = vec![5, 5];
        geometry.push(rightwards);
    }
    build(&lanelets, &geometry)
}

#[test]
fn a_route_is_a_corridor_of_every_lane_that_still_reaches_the_goal() {
    let graph = two_lane_road();
    let route = graph.route(forward(1), forward(3), 0, false).unwrap();
    assert_eq!(ids(route.shortest_path()), [1, 3]);
    assert_eq!(ids(route.lanelets()), [1, 3, 2, 4]);
    assert_eq!(route.size(), 4);
    assert!(route.contains(forward(4)));
    assert_eq!(route.lane_ids(), &vec![1000, 1000, 1001, 1001]);
    assert_eq!(route.num_lanes(), 2);
    assert_eq!(ids(&route.remaining_shortest_path(forward(3))), [3]);
    assert!(route.remaining_shortest_path(forward(2)).is_empty());
    assert_eq!(ids(&route.remaining_lane(&graph, forward(2))), [2, 4]);
    assert_eq!(ids(&route.full_lane(&graph, forward(4))), [2, 4]);
    assert!(route.full_lane(&graph, forward(9)).is_empty());
    assert!(route.check_validity().is_empty());
    assert_eq!(route.cost_id(), 0);
    let ahead = route.relations(&graph, forward(1), RelationType(LEFT), true);
    assert_eq!(ahead.len(), 2);
    assert!(route.conflicting_in_route(&graph, forward(1)).is_empty());
    assert!(route.all_conflicting_in_map(&graph).is_empty());
}

#[test]
fn no_route_joins_lanelets_without_a_path() {
    let graph = two_lane_road();
    assert!(graph.route(forward(3), forward(1), 0, true).is_none());
    let via = graph.route_via(forward(1), &vec![forward(3)], forward(3), 0, false).unwrap();
    assert_eq!(ids(via.shortest_path()), [1, 3]);
}

#[test]
fn a_lane_round_a_ring_is_walked_back_until_it_would_come_round_again() {
    let lanelets: Vec<MapLanelet> = (1..=3).map(|id| lanelet(id, &[("subtype", "road")])).collect();
    let mut geometry = Vec::new();
    for (from, to) in [(1, 2), (2, 3), (3, 1)] {
        let mut ahead = facts(forward(from), forward(to));
        ahead.follows = true;
        ahead.succeed_costs = vec![10, 1];
        geometry.push(ahead);
    }
    let graph = build(&lanelets, &geometry);
    let route = graph.route(forward(1), forward(3), 0, false).unwrap();
    assert_eq!(ids(route.shortest_path()), [1, 2, 3]);
    assert_eq!(ids(route.lanelets()), [1, 2, 3]);
    assert_eq!(route.lane_ids(), &vec![1000, 1000, 1000]);
    assert_eq!(ids(&route.full_lane(&graph, forward(3))), [1, 2, 3]);
    assert_eq!(ids(&route.full_lane(&graph, forward(2))), [3, 1, 2]);
    assert_eq!(ids(&route.remaining_lane(&graph, forward(2))), [2, 3, 1]);
}

#[test]
fn a_route_via_stops_joins_the_single_legs() {
    let (lanelets, geometry) = chain_map(5, &[]);
    let graph = build(&lanelets, &geometry);
    let via = graph.shortest_path_via(forward(1), &vec![forward(3), forward(4)], forward(5), 1, false).unwrap();
    let mut joined = graph.shortest_path(forward(1), forward(3), 1, false).unwrap();
    for (a, b) in [(3, 4), (4, 5)] {
        let leg = graph.shortest_path(forward(a), forward(b), 1, false).unwrap();
        joined.extend_from_slice(&leg[1..]);
    }
    assert_eq!(via, joined);
    assert_eq!(ids(&via), [1, 2, 3, 4, 5]);
}
