use simple_lanelet2::graph::Graph;
use simple_lanelet2::relation::{RelationType, CONFLICTING, SUCCESSOR};

/// A diamond: 0 -> 1 -> 3 and 0 -> 2 -> 3, the second route cheaper.
fn diamond() -> Graph {
    let mut graph = Graph::new(4, 1);
    graph.add_edge(0, 1, RelationType(SUCCESSOR), 0, 5);
    graph.add_edge(0, 2, RelationType(SUCCESSOR), 0, 1);
    graph.add_edge(1, 3, RelationType(SUCCESSOR), 0, 1);
    graph.add_edge(2, 3, RelationType(SUCCESSOR), 0, 1);
    graph
}

#[test]
fn out_edges_keep_insertion_order() {
    let graph = diamond();
    let edges = graph.out_edges(0, RelationType(SUCCESSOR), 0);
    assert_eq!(edges.iter().map(|e| e.to).collect::<Vec<_>>(), [1, 2]);
}

#[test]
fn the_relation_mask_and_cost_id_both_filter() {
    let mut graph = Graph::new(2, 2);
    graph.add_edge(0, 1, RelationType(SUCCESSOR), 0, 1);
    graph.add_edge(0, 1, RelationType(CONFLICTING), 0, 1);
    graph.add_edge(0, 1, RelationType(SUCCESSOR), 1, 9);

    assert_eq!(graph.out_edges(0, RelationType(SUCCESSOR), 0).len(), 1);
    assert_eq!(graph.out_edges(0, RelationType::all(), 0).len(), 2);
    assert_eq!(graph.out_edges(0, RelationType(SUCCESSOR), 1)[0].cost, 9);
}

#[test]
fn dijkstra_takes_the_cheaper_branch() {
    let graph = diamond();
    let path = graph.shortest_path(0, 3, RelationType(SUCCESSOR), 0).unwrap();
    assert_eq!(path, [0, 2, 3]);
    assert_eq!(graph.shortest_path(0, 0, RelationType(SUCCESSOR), 0).unwrap(), [0]);
    assert!(graph.shortest_path(3, 0, RelationType(SUCCESSOR), 0).is_none());
}

#[test]
fn reachability_is_inclusive_and_includes_the_start() {
    let graph = diamond();
    assert_eq!(graph.reachable(0, 0, RelationType(SUCCESSOR), 0, false), [0]);
    assert_eq!(graph.reachable(0, 1, RelationType(SUCCESSOR), 0, false), [0, 2]);
    assert_eq!(graph.reachable(0, 5, RelationType(SUCCESSOR), 0, false), [0, 1, 2, 3]);
    assert_eq!(graph.reachable(3, 2, RelationType(SUCCESSOR), 0, true), [0, 1, 2, 3]);
    assert_eq!(graph.reachable(3, 1, RelationType(SUCCESSOR), 0, true), [1, 2, 3]);
}

#[test]
fn in_edges_follow_the_mask_too() {
    let graph = diamond();
    let edges = graph.in_edges(3, RelationType(SUCCESSOR), 0);
    assert_eq!(edges.iter().map(|e| e.from).collect::<Vec<_>>(), [1, 2]);
    assert!(graph.in_edges(3, RelationType(CONFLICTING), 0).is_empty());
    assert!(graph.out_edges(7, RelationType(SUCCESSOR), 0).is_empty());
    assert_eq!(graph.all_edges().len(), 4);
    assert_eq!(graph.vertex_count(), 4);
    assert_eq!(graph.cost_count(), 1);
}

#[test]
fn an_infinite_edge_is_no_route() {
    let mut graph = Graph::new(3, 1);
    graph.add_edge(0, 1, RelationType(SUCCESSOR), 0, u64::MAX);
    graph.add_edge(0, 2, RelationType(SUCCESSOR), 0, 3);
    assert!(graph.shortest_path(0, 1, RelationType(SUCCESSOR), 0).is_none());
    assert_eq!(graph.reachable(0, u64::MAX, RelationType(SUCCESSOR), 0, false), [0, 2]);
}

#[test]
fn the_cost_limit_is_a_target_not_a_ceiling() {
    let graph = diamond();
    let paths = graph.possible_paths(0, Some(100), None, RelationType(SUCCESSOR), 0, false, false);
    assert!(paths.is_empty(), "{paths:?}");

    let paths = graph.possible_paths(0, Some(2), None, RelationType(SUCCESSOR), 0, false, false);
    assert_eq!(paths, vec![vec![0, 1], vec![0, 2, 3]]);

    let paths = graph.possible_paths(0, Some(100), None, RelationType(SUCCESSOR), 0, true, false);
    assert_eq!(paths, vec![vec![0, 1, 3], vec![0, 2, 3]]);
}

#[test]
fn the_element_limit_is_a_target_too() {
    let graph = diamond();
    let paths = graph.possible_paths(0, None, Some(2), RelationType(SUCCESSOR), 0, false, false);
    assert_eq!(paths, vec![vec![0, 1], vec![0, 2]]);
    let paths = graph.possible_paths(0, None, Some(3), RelationType(SUCCESSOR), 0, false, false);
    assert_eq!(paths, vec![vec![0, 1, 3], vec![0, 2, 3]]);
}

#[test]
fn a_cycle_does_not_trap_the_search() {
    let mut graph = Graph::new(3, 1);
    graph.add_edge(0, 1, RelationType(SUCCESSOR), 0, 1);
    graph.add_edge(1, 2, RelationType(SUCCESSOR), 0, 1);
    graph.add_edge(2, 0, RelationType(SUCCESSOR), 0, 1);
    let paths = graph.possible_paths(0, None, Some(3), RelationType(SUCCESSOR), 0, false, false);
    assert_eq!(paths, vec![vec![0, 1, 2]]);
}

#[test]
fn possible_paths_can_run_backwards_and_repeat_parallel_edges() {
    let graph = diamond();
    let paths = graph.possible_paths(3, None, Some(3), RelationType(SUCCESSOR), 0, false, true);
    assert_eq!(paths, vec![vec![3, 1, 0], vec![3, 2, 0]]);

    let mut doubled = Graph::new(2, 1);
    doubled.add_edge(0, 1, RelationType(SUCCESSOR), 0, 1);
    doubled.add_edge(0, 1, RelationType(SUCCESSOR), 0, 2);
    let paths = doubled.possible_paths(0, None, Some(2), RelationType(SUCCESSOR), 0, false, false);
    assert_eq!(paths, vec![vec![0, 1], vec![0, 1]]);
}

#[test]
fn a_start_that_already_meets_the_limit_is_its_own_result() {
    let graph = diamond();
    let paths = graph.possible_paths(0, Some(0), None, RelationType(SUCCESSOR), 0, false, false);
    assert_eq!(paths, vec![vec![0]]);
    let paths = graph.possible_paths(3, None, Some(5), RelationType(SUCCESSOR), 0, true, false);
    assert!(paths.is_empty());
}

#[test]
fn the_shortest_path_fits_exactly_the_budgets_that_reach_its_end() {
    let graph = diamond();
    assert_eq!(graph.shortest_path(0, 3, RelationType(SUCCESSOR), 0).unwrap(), [0, 2, 3]);
    assert!(graph.reachable(0, 2, RelationType(SUCCESSOR), 0, false).contains(&3));
    assert!(!graph.reachable(0, 1, RelationType(SUCCESSOR), 0, false).contains(&3));
}

#[test]
fn searching_backwards_finds_where_the_start_is_reached_from() {
    let graph = diamond();
    for budget in [0, 1, 2, 5, 6] {
        let towards = graph.reachable(3, budget, RelationType(SUCCESSOR), 0, true);
        for v in 0..4 {
            let forwards = graph.reachable(v, budget, RelationType(SUCCESSOR), 0, false);
            assert_eq!(towards.contains(&v), forwards.contains(&3), "budget {budget}, vertex {v}");
        }
    }
}

#[test]
fn equally_cheap_branches_go_to_the_lower_vertex() {
    let mut graph = Graph::new(4, 1);
    graph.add_edge(0, 2, RelationType(SUCCESSOR), 0, 1);
    graph.add_edge(0, 1, RelationType(SUCCESSOR), 0, 1);
    graph.add_edge(2, 3, RelationType(SUCCESSOR), 0, 1);
    graph.add_edge(1, 3, RelationType(SUCCESSOR), 0, 1);
    assert_eq!(graph.shortest_path(0, 3, RelationType(SUCCESSOR), 0).unwrap(), [0, 1, 3]);
}
