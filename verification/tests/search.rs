use waterways::db::{Database, SEARCH_ZOOM, STORAGE_ZOOM};
use waterways::node::RouteNode;
use waterways::quadkey::Quadkey;
use waterways::search::{RouteResult, SearchGraph, GOAL_TOLERANCE};

fn node(id: i64) -> RouteNode {
    RouteNode { id, lat: id as i32 * 10, lon: id as i32 * 100 }
}

fn ids(result: &RouteResult) -> Vec<i64> {
    result.linestring.iter().map(|n| n.id).collect()
}

/// A–B–C–D, each link 100 m, and a direct link A–D of 500 m; the goal is D.
fn square() -> SearchGraph {
    let mut graph = SearchGraph::new(&node(4));
    assert!(graph.add(node(1), 300, vec![(node(2), 100), (node(4), 500)]));
    assert!(graph.add(node(2), 200, vec![(node(1), 100), (node(3), 100)]));
    assert!(graph.add(node(3), 100, vec![(node(2), 100), (node(4), 100)]));
    assert!(graph.add(node(4), 0, vec![(node(3), 100), (node(1), 500)]));
    graph
}

#[test]
fn search_takes_the_shorter_way_round() {
    let result = square().search(&node(1));
    assert_eq!(ids(&result), vec![1, 2, 3, 4]);
    assert_eq!(result.distance, 300);
}

#[test]
fn search_takes_the_direct_link_where_it_is_shorter() {
    let mut graph = SearchGraph::new(&node(4));
    graph.add(node(1), 250, vec![(node(2), 100), (node(4), 250)]);
    graph.add(node(2), 200, vec![(node(1), 100), (node(3), 100)]);
    graph.add(node(3), 100, vec![(node(2), 100), (node(4), 100)]);
    graph.add(node(4), 0, vec![(node(3), 100), (node(1), 250)]);
    let result = graph.search(&node(1));
    assert_eq!(ids(&result), vec![1, 4]);
    assert_eq!(result.distance, 250);
}

#[test]
fn result_carries_the_nodes_as_they_were_handed_in() {
    let result = square().search(&RouteNode { id: 1, lat: -1, lon: -1 });
    let first = result.linestring[0];
    assert_eq!((first.id, first.lat, first.lon), (1, 10, 100));
    let last = result.linestring[3];
    assert_eq!((last.id, last.lat, last.lon), (4, 40, 400));
}

#[test]
fn search_from_the_goal_is_the_goal_alone() {
    let result = square().search(&node(4));
    assert_eq!(ids(&result), vec![4]);
    assert_eq!(result.distance, 0);
}

#[test]
fn search_stops_within_tolerance_of_the_goal() {
    assert_eq!(GOAL_TOLERANCE, 100);
    let mut graph = SearchGraph::new(&node(4));
    graph.add(node(1), 299, vec![(node(2), 100)]);
    graph.add(node(2), 199, vec![(node(1), 100), (node(3), 100)]);
    graph.add(node(3), 99, vec![(node(2), 100), (node(4), 100)]);
    graph.add(node(4), 0, vec![(node(3), 100)]);
    let result = graph.search(&node(1));
    assert_eq!(ids(&result), vec![1, 2, 3]);
    assert_eq!(result.distance, 200);
    let near = graph.search(&node(3));
    assert_eq!(ids(&near), vec![3]);
    assert_eq!(near.distance, 0);
}

#[test]
fn node_at_the_tolerance_is_not_the_goal() {
    let graph = square();
    assert!(!graph.is_goal(3));
    assert!(graph.is_goal(4));
    assert!(!graph.is_goal(1));
}

#[test]
fn isolated_node_gives_an_empty_result() {
    let mut graph = SearchGraph::new(&node(4));
    graph.add(node(1), 300, vec![]);
    graph.add(node(4), 0, vec![]);
    let result = graph.search(&node(1));
    assert!(result.linestring.is_empty());
    assert_eq!(result.distance, 0);
}

#[test]
fn goal_in_another_part_of_the_network_gives_an_empty_result() {
    let mut graph = SearchGraph::new(&node(4));
    graph.add(node(1), 300, vec![(node(2), 100)]);
    graph.add(node(2), 200, vec![(node(1), 100)]);
    graph.add(node(3), 100, vec![(node(4), 100)]);
    graph.add(node(4), 0, vec![(node(3), 100)]);
    let result = graph.search(&node(1));
    assert!(result.linestring.is_empty());
    assert_eq!(result.distance, 0);
}

#[test]
fn start_that_was_not_handed_in_gives_an_empty_result() {
    let result = square().search(&node(9));
    assert!(result.linestring.is_empty());
    assert_eq!(result.distance, 0);
    let empty = SearchGraph::new(&node(9)).search(&node(9));
    assert!(empty.linestring.is_empty());
    assert_eq!(empty.distance, 0);
}

#[test]
fn links_to_nodes_that_were_not_handed_in_are_not_walked() {
    let mut graph = SearchGraph::new(&node(4));
    graph.add(node(1), 300, vec![(node(7), 1), (node(2), 100)]);
    graph.add(node(2), 200, vec![(node(4), 200)]);
    assert_eq!(graph.successors(1), vec![(2, 100)]);
    let result = graph.search(&node(1));
    assert!(result.linestring.is_empty());
    graph.add(node(4), 0, vec![]);
    assert_eq!(graph.successors(2), vec![(4, 200)]);
    let result = graph.search(&node(1));
    assert_eq!(ids(&result), vec![1, 2, 4]);
    assert_eq!(result.distance, 300);
}

#[test]
fn negative_length_is_refused() {
    let mut graph = SearchGraph::new(&node(4));
    assert!(graph.add(node(1), 300, vec![(node(2), 100)]));
    assert!(!graph.add(node(1), 1, vec![(node(2), 5), (node(3), -1)]));
    assert!(!graph.add(node(2), 1, vec![(node(3), i32::MIN)]));
    assert_eq!(graph.len(), 1);
    assert_eq!(graph.heuristic(1), 300);
    assert_eq!(graph.successors(2), vec![]);
}

#[test]
fn node_handed_in_again_replaces_the_first() {
    let mut graph = SearchGraph::new(&node(4));
    graph.add(node(1), 300, vec![(node(4), 500)]);
    graph.add(node(4), 0, vec![]);
    assert_eq!(graph.search(&node(1)).distance, 500);
    graph.add(node(1), 300, vec![(node(4), 400)]);
    assert_eq!(graph.len(), 2);
    assert_eq!(graph.search(&node(1)).distance, 400);
}

#[test]
fn heuristic_is_the_measured_distance() {
    let graph = square();
    assert_eq!(graph.heuristic(1), 300);
    assert_eq!(graph.heuristic(4), 0);
    assert_eq!(graph.heuristic(9), 0);
}

#[test]
fn parallel_links_count_at_their_shortest() {
    let mut graph = SearchGraph::new(&node(2));
    graph.add(node(1), 100, vec![(node(2), 300), (node(2), 120), (node(2), 200)]);
    graph.add(node(2), 0, vec![]);
    let result = graph.search(&node(1));
    assert_eq!(ids(&result), vec![1, 2]);
    assert_eq!(result.distance, 120);
}

#[test]
fn result_of_nothing_is_empty() {
    let result = square().result_of(None);
    assert!(result.linestring.is_empty());
    assert_eq!(result.distance, 0);
}

#[test]
fn result_of_a_path_names_its_nodes_and_sums_its_hops() {
    let result = square().result_of(Some(vec![3, 2, 1, 4]));
    assert_eq!(ids(&result), vec![3, 2, 1, 4]);
    assert_eq!(result.linestring[0].lon, 300);
    assert_eq!(result.distance, 100 + 100 + 500);
    let alone = square().result_of(Some(vec![2]));
    assert_eq!(ids(&alone), vec![2]);
    assert_eq!(alone.distance, 0);
}

#[test]
fn hop_length_is_that_of_the_shortest_step() {
    let mut graph = SearchGraph::new(&node(2));
    graph.add(node(1), 100, vec![(node(2), 300), (node(3), 5), (node(2), 120), (node(2), 200)]);
    graph.add(node(2), 0, vec![(node(1), 7)]);
    assert_eq!(graph.hop_length(1, 2), Some(120));
    assert_eq!(graph.hop_length(2, 1), Some(7));
    assert_eq!(graph.hop_length(1, 3), None);
    assert_eq!(graph.hop_length(2, 2), None);
    assert_eq!(graph.hop_length(9, 1), None);
}

#[test]
fn negative_distance_to_the_goal_is_refused() {
    let mut graph = SearchGraph::new(&node(3));
    assert!(graph.add(node(1), 100, vec![(node(3), 1000), (node(2), 200)]));
    assert!(graph.add(node(2), 100, vec![(node(3), 200)]));
    assert!(!graph.add(node(3), -2000, vec![]));
    assert!(!graph.add(node(3), -1, vec![]));
    assert_eq!(graph.len(), 2);
    assert!(graph.add(node(3), 0, vec![]));
    let result = graph.search(&node(1));
    assert_eq!(ids(&result), vec![1, 2, 3]);
    assert_eq!(result.distance, 400);
}

#[test]
fn distance_is_the_sum_of_the_hops_where_a_near_node_stops_the_search() {
    let mut graph = SearchGraph::new(&node(3));
    graph.add(node(1), 1112, vec![(node(2), 1056)]);
    graph.add(node(2), 56, vec![(node(1), 1056)]);
    graph.add(node(3), 0, vec![]);
    let result = graph.search(&node(1));
    assert_eq!(ids(&result), vec![1, 2]);
    assert_eq!(result.distance, 1056);
}

#[test]
fn distance_is_the_sum_of_the_hops_along_the_path() {
    let mut graph = SearchGraph::new(&node(5));
    graph.add(node(1), 400, vec![(node(2), 150), (node(3), 90)]);
    graph.add(node(2), 260, vec![(node(1), 150), (node(4), 170)]);
    graph.add(node(3), 330, vec![(node(1), 90), (node(4), 240)]);
    graph.add(node(4), 120, vec![(node(2), 170), (node(3), 240), (node(5), 120)]);
    graph.add(node(5), 0, vec![(node(4), 120)]);
    let result = graph.search(&node(1));
    let path = ids(&result);
    let hops: i64 = path
        .windows(2)
        .map(|pair| graph.hop_length(pair[0], pair[1]).unwrap())
        .sum();
    assert_eq!(result.distance, hops);
    assert_eq!(path, vec![1, 2, 4, 5]);
    assert_eq!(result.distance, 440);
}

fn project(lat: f64, lon: f64, zoom: u8) -> (u32, u32) {
    let lat_rad = lat.to_radians();
    let n = 2.0_f64.powi(zoom as i32);
    let xtile = ((lon + 180.0) / 360.0 * n).round() as u32;
    let ytile = ((1.0 - lat_rad.tan().asinh() / std::f64::consts::PI) / 2.0 * n).round() as u32;
    (xtile, ytile)
}

fn position(n: &RouteNode) -> (f64, f64) {
    (n.lat as f64 * 1e-7, n.lon as f64 * 1e-7)
}

fn metres_between(a: (f64, f64), b: (f64, f64)) -> i32 {
    let r = 6371e3;
    let phi1 = a.0.to_radians();
    let phi2 = b.0.to_radians();
    let delta_phi = (b.0 - a.0).to_radians();
    let delta_lambda = (b.1 - a.1).to_radians();
    let h = (delta_phi / 2.0).sin().powi(2)
        + phi1.cos() * phi2.cos() * (delta_lambda / 2.0).sin().powi(2);
    (r * 2.0 * h.sqrt().atan2((1.0 - h).sqrt())).round() as i32
}

fn resolve(db: &Database, lat: f64, lon: f64) -> Option<RouteNode> {
    let (xtile, ytile) = project(lat, lon, SEARCH_ZOOM);
    let key = Quadkey::new(xtile, ytile, SEARCH_ZOOM);
    let measured: Vec<(RouteNode, i32)> = db
        .nodes_near(&key)
        .into_iter()
        .map(|n| (n, metres_between(position(&n), (lat, lon))))
        .collect();
    Database::find_near(&measured)
}

fn measure(db: &Database, goal: &RouteNode) -> SearchGraph {
    let mut graph = SearchGraph::new(goal);
    for n in db.nodes() {
        let links = db
            .neighbours(&n)
            .into_iter()
            .map(|m| (m, metres_between(position(&n), position(&m))))
            .collect();
        assert!(graph.add(n, metres_between(position(&n), position(goal)), links));
    }
    graph
}

fn chain() -> Database {
    let mut db = Database::new();
    for step in 0..=10i64 {
        let (lat, lon) = (0.0, 0.001 * step as f64);
        let (xtile, ytile) = project(lat, lon, STORAGE_ZOOM);
        db.update_node(step + 1, (lat * 1e7_f64).round() as i32, (lon * 1e7_f64).round() as i32, xtile, ytile);
    }
    db.update_way(&(1..=11).collect());
    db
}

#[test]
fn route_along_a_chain_near_the_origin() {
    let db = chain();
    let start = resolve(&db, 0.0, 0.0).unwrap();
    let goal = resolve(&db, 0.0, 0.01).unwrap();
    assert_eq!((start.id, goal.id), (1, 11));
    let result = measure(&db, &goal).search(&start);
    assert!(!result.linestring.is_empty());
    let first = result.linestring.first().unwrap();
    let last = result.linestring.last().unwrap();
    assert!(metres_between(position(first), (0.0, 0.0)) < 100);
    assert!(metres_between(position(last), (0.0, 0.01)) < 100);
    let hops: i64 = result
        .linestring
        .windows(2)
        .map(|pair| metres_between(position(&pair[0]), position(&pair[1])) as i64)
        .sum();
    assert_eq!(result.distance, hops);
    assert_eq!(ids(&result), (1..=11).collect::<Vec<i64>>());
    assert_eq!(result.distance, 1110);
}

#[test]
fn route_between_points_that_resolve_to_one_node() {
    let db = chain();
    let start = resolve(&db, 0.0, 0.0031).unwrap();
    let goal = resolve(&db, 0.0, 0.0029).unwrap();
    assert_eq!(start.id, goal.id);
    let result = measure(&db, &goal).search(&start);
    assert_eq!(ids(&result), vec![4]);
    assert_eq!(result.distance, 0);
}

#[test]
fn route_from_a_node_without_links() {
    let mut db = chain();
    let (xtile, ytile) = project(0.002, 0.02, STORAGE_ZOOM);
    db.update_node(50, 20000, 200000, xtile, ytile);
    let start = db.node(50).unwrap();
    let goal = db.node(11).unwrap();
    let result = measure(&db, &goal).search(&start);
    assert!(result.linestring.is_empty());
    assert_eq!(result.distance, 0);
}

#[test]
fn route_that_ends_at_a_node_near_the_goal() {
    let mut db = Database::new();
    for (id, lon) in [(1i64, 0.0), (2, 0.0095), (3, 0.01)] {
        let (xtile, ytile) = project(0.0, lon, STORAGE_ZOOM);
        db.update_node(id, 0, (lon * 1e7_f64).round() as i32, xtile, ytile);
    }
    db.update_link(1, 2);
    let start = resolve(&db, 0.0, 0.0).unwrap();
    let goal = resolve(&db, 0.0, 0.01).unwrap();
    assert_eq!((start.id, goal.id), (1, 3));
    let result = measure(&db, &goal).search(&start);
    let line: Vec<(i32, i32)> = result.linestring.iter().map(|n| (n.lat, n.lon)).collect();
    assert_eq!(line, vec![(0, 0), (0, 95000)]);
    assert_eq!(result.distance, 1056);
}

#[test]
fn search_may_pass_by_a_shorter_walk_to_a_node_near_the_goal() {
    // The goal is 1000 m away by a direct link. A node 99 m from the goal
    // is 950 m away, but ranks behind the goal at 950 + 99.
    let mut graph = SearchGraph::new(&node(3));
    graph.add(node(1), 1000, vec![(node(3), 1000), (node(2), 950)]);
    graph.add(node(2), 99, vec![(node(1), 950)]);
    graph.add(node(3), 0, vec![(node(1), 1000)]);
    assert!(graph.is_goal(2));
    let result = graph.search(&node(1));
    assert_eq!(ids(&result), vec![1, 3]);
    assert_eq!(result.distance, 1000);
}

fn measure_around(db: &Database, start: &RouteNode, goal: &RouteNode) -> SearchGraph {
    let mut graph = SearchGraph::new(goal);
    for n in db.reachable(start) {
        let links = db
            .neighbours(&n)
            .into_iter()
            .map(|m| (m, metres_between(position(&n), position(&m))))
            .collect();
        assert!(graph.add(n, metres_between(position(&n), position(goal)), links));
    }
    graph
}

#[test]
fn search_over_the_reachable_part_is_search_over_the_whole() {
    let mut db = chain();
    for (id, lon) in [(20i64, 0.02), (21, 0.021), (22, 0.022)] {
        let (xtile, ytile) = project(0.001, lon, STORAGE_ZOOM);
        db.update_node(id, 10000, (lon * 1e7_f64).round() as i32, xtile, ytile);
    }
    db.update_way(&vec![20, 21, 22]);
    for (from, to) in [(1i64, 11i64), (11, 1), (3, 8), (1, 21), (20, 22), (21, 5)] {
        let start = db.node(from).unwrap();
        let goal = db.node(to).unwrap();
        let whole = measure(&db, &goal).search(&start);
        let part = measure_around(&db, &start, &goal).search(&start);
        assert_eq!(ids(&whole), ids(&part), "{} to {}", from, to);
        assert_eq!(whole.distance, part.distance, "{} to {}", from, to);
    }
    let start = db.node(20).unwrap();
    assert_eq!(measure_around(&db, &start, &db.node(22).unwrap()).len(), 3);
}
