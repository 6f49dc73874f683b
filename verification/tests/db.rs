use waterways::db::{Database, OsmRecord, SEARCH_ZOOM, STORAGE_ZOOM};
use waterways::node::RouteNode;
use waterways::quadkey::Quadkey;

fn project(lat: f64, lon: f64, zoom: u8) -> (u32, u32) {
    let lat_rad = lat.to_radians();
    let n = 2.0_f64.powi(zoom as i32);
    let xtile = ((lon + 180.0) / 360.0 * n).round() as u32;
    let ytile = ((1.0 - lat_rad.tan().asinh() / std::f64::consts::PI) / 2.0 * n).round() as u32;
    (xtile, ytile)
}

fn scaled(degrees: f64) -> i32 {
    (degrees * 1e7).round() as i32
}

fn degrees(scaled: i32) -> f64 {
    scaled as f64 * 1e-7
}

fn metres_between(a: (f64, f64), b: (f64, f64)) -> i32 {
    let r = 6371e3;
    let phi1 = a.0.to_radians();
    let phi2 = b.0.to_radians();
    let delta_phi = (b.0 - a.0).to_radians();
    let delta_lambda = (b.1 - a.1).to_radians();
    let h = (delta_phi / 2.0).sin().powi(2)
        + phi1.cos() * phi2.cos() * (delta_lambda / 2.0).sin().powi(2);
    (r * 2.0 * h.sqrt().atan2((1.0 - h).sqrt())).round() as i32
}

fn put(db: &mut Database, id: i64, lat: f64, lon: f64) {
    let (xtile, ytile) = project(lat, lon, STORAGE_ZOOM);
    db.update_node(id, scaled(lat), scaled(lon), xtile, ytile);
}

fn node_record(id: i64, lat: f64, lon: f64) -> OsmRecord {
    let (xtile, ytile) = project(lat, lon, STORAGE_ZOOM);
    OsmRecord::Node { id, lat: scaled(lat), lon: scaled(lon), xtile, ytile }
}

fn resolve(db: &Database, lat: f64, lon: f64) -> Option<RouteNode> {
    let (xtile, ytile) = project(lat, lon, SEARCH_ZOOM);
    let key = Quadkey::new(xtile, ytile, SEARCH_ZOOM);
    let measured: Vec<(RouteNode, i32)> = db
        .nodes_near(&key)
        .into_iter()
        .map(|n| (n, metres_between((degrees(n.lat), degrees(n.lon)), (lat, lon))))
        .collect();
    Database::find_near(&measured)
}

fn ids(nodes: &[RouteNode]) -> Vec<i64> {
    nodes.iter().map(|n| n.id).collect()
}

fn sample() -> Vec<OsmRecord> {
    vec![
        node_record(1, 0.0, 0.0),
        node_record(2, 0.0, 0.001),
        OsmRecord::Way { id: 100, nodes: vec![1, 2, 3] },
        node_record(3, 0.0, 0.002),
        OsmRecord::Relation { id: 7 },
        node_record(2, 0.0005, 0.001),
        OsmRecord::Way { id: 101, nodes: vec![3, 4, 1, 2] },
    ]
}

#[test]
fn new_store_is_empty() {
    let db = Database::new();
    assert_eq!(db.node_count(), 0);
    assert_eq!(db.link_count(), 0);
    assert!(db.nodes().is_empty());
    assert!(db.links().is_empty());
    assert!(db.node(1).is_none());
    assert!(db.key_of(1).is_none());
}

#[test]
fn node_is_stored_with_its_storage_key() {
    let mut db = Database::new();
    db.update_node(5, 488566000, 23522000, 4150, 2818);
    assert_eq!(db.node_count(), 1);
    let node = db.node(5).unwrap();
    assert_eq!((node.id, node.lat, node.lon), (5, 488566000, 23522000));
    assert_eq!(db.key_of(5).unwrap().to_string(), "1202200110130");
}

#[test]
fn writing_a_stored_id_overwrites_in_place() {
    let mut db = Database::new();
    db.update_node(1, 10, 20, 1, 1);
    db.update_node(2, 30, 40, 2, 2);
    db.update_node(1, 50, 60, 3, 3);
    assert_eq!(db.node_count(), 2);
    assert_eq!(ids(&db.nodes()), vec![1, 2]);
    let node = db.node(1).unwrap();
    assert_eq!((node.lat, node.lon), (50, 60));
    assert_eq!(db.key_of(1).unwrap().to_string(), Quadkey::new(3, 3, 13).to_string());
    let other = db.node(2).unwrap();
    assert_eq!((other.lat, other.lon), (30, 40));
}

#[test]
fn writing_a_node_twice_is_writing_it_once() {
    let mut once = Database::new();
    once.update_node(1, 10, 20, 1, 1);
    let mut twice = Database::new();
    twice.update_node(1, 10, 20, 1, 1);
    twice.update_node(1, 10, 20, 1, 1);
    assert_eq!(once.node_count(), twice.node_count());
    assert_eq!(ids(&once.nodes()), ids(&twice.nodes()));
}

#[test]
fn link_is_stored_once() {
    let mut db = Database::new();
    db.update_link(1, 2);
    db.update_link(1, 2);
    db.update_link(2, 1);
    assert_eq!(db.link_count(), 2);
    assert_eq!(db.links(), vec![(1, 2), (2, 1)]);
}

#[test]
fn way_gives_one_link_per_consecutive_pair() {
    let mut db = Database::new();
    db.update_way(&vec![1, 2, 3, 4]);
    assert_eq!(db.links(), vec![(1, 2), (2, 3), (3, 4)]);
    assert_eq!(db.link_count(), 3);
}

#[test]
fn way_with_fewer_than_two_members_gives_no_link() {
    let mut db = Database::new();
    db.update_way(&vec![]);
    db.update_way(&vec![9]);
    assert_eq!(db.link_count(), 0);
}

#[test]
fn way_that_repeats_a_pair_stores_it_once() {
    let mut db = Database::new();
    db.update_way(&vec![1, 2, 1, 2, 3]);
    assert_eq!(db.links(), vec![(1, 2), (2, 1), (2, 3)]);
}

#[test]
fn links_may_name_nodes_that_are_not_stored() {
    let mut db = Database::new();
    db.update_way(&vec![1, 2]);
    assert_eq!(db.link_count(), 1);
    assert_eq!(db.node_count(), 0);
    put(&mut db, 1, 0.0, 0.0);
    let from = db.node(1).unwrap();
    assert!(db.neighbours(&from).is_empty());
    put(&mut db, 2, 0.0, 0.001);
    assert_eq!(ids(&db.neighbours(&from)), vec![2]);
}

#[test]
fn import_takes_nodes_and_ways_in_any_order() {
    let mut db = Database::new();
    db.import(&sample());
    assert_eq!(db.node_count(), 3);
    assert_eq!(ids(&db.nodes()), vec![1, 2, 3]);
    assert_eq!(db.links(), vec![(1, 2), (2, 3), (3, 4), (4, 1)]);
    let moved = db.node(2).unwrap();
    assert_eq!((moved.lat, moved.lon), (scaled(0.0005), scaled(0.001)));
}

#[test]
fn importing_twice_is_importing_once() {
    let mut once = Database::new();
    once.import(&sample());
    let mut twice = Database::new();
    twice.import(&sample());
    twice.import(&sample());
    assert_eq!(once.node_count(), twice.node_count());
    assert_eq!(once.link_count(), twice.link_count());
    assert_eq!(twice.node_count(), 3);
    assert_eq!(twice.link_count(), 4);
    assert_eq!(once.links(), twice.links());
    let before: Vec<(i64, i32, i32)> = once.nodes().iter().map(|n| (n.id, n.lat, n.lon)).collect();
    let after: Vec<(i64, i32, i32)> = twice.nodes().iter().map(|n| (n.id, n.lat, n.lon)).collect();
    assert_eq!(before, after);
}

#[test]
fn import_of_nothing_changes_nothing() {
    let mut db = Database::new();
    db.import(&sample());
    db.import(&vec![]);
    assert_eq!(db.node_count(), 3);
    assert_eq!(db.link_count(), 4);
}

#[test]
fn nodes_near_are_those_in_the_tile_in_stored_order() {
    let mut db = Database::new();
    db.update_node(1, 0, 0, 4096, 4096);
    db.update_node(2, 0, 0, 4150, 2818);
    db.update_node(3, 0, 0, 4097, 4097);
    db.update_node(4, 0, 0, 4151, 2819);
    db.update_node(5, 0, 0, 4152, 2818);
    let paris = Quadkey::new(2075, 1409, 12);
    assert_eq!(ids(&db.nodes_near(&paris)), vec![2, 4]);
    let origin = Quadkey::new(2048, 2048, 12);
    assert_eq!(ids(&db.nodes_near(&origin)), vec![1, 3]);
    let everything = Quadkey::new(0, 0, 0);
    assert_eq!(ids(&db.nodes_near(&everything)), vec![1, 2, 3, 4, 5]);
    let exact = Quadkey::new(4151, 2819, 13);
    assert_eq!(ids(&db.nodes_near(&exact)), vec![4]);
    let deeper = Quadkey::new(8302, 5638, 14);
    assert!(db.nodes_near(&deeper).is_empty());
    let elsewhere = Quadkey::new(7, 7, 12);
    assert!(db.nodes_near(&elsewhere).is_empty());
}

#[test]
fn find_near_picks_the_least_distance() {
    let node = |id: i64| RouteNode { id, lat: 0, lon: 0 };
    let measured = vec![(node(1), 40), (node(2), 7), (node(3), 19)];
    assert_eq!(Database::find_near(&measured).unwrap().id, 2);
}

#[test]
fn find_near_picks_the_first_of_equals() {
    let node = |id: i64| RouteNode { id, lat: 0, lon: 0 };
    let measured = vec![(node(1), 40), (node(2), 7), (node(3), 7), (node(4), 7)];
    assert_eq!(Database::find_near(&measured).unwrap().id, 2);
    let level = vec![(node(8), 0), (node(9), 0)];
    assert_eq!(Database::find_near(&level).unwrap().id, 8);
}

#[test]
fn find_near_of_nothing_is_none() {
    assert!(Database::find_near(&vec![]).is_none());
}

#[test]
fn find_near_of_one_is_that_one() {
    let measured = vec![(RouteNode { id: 3, lat: 1, lon: 2 }, i32::MAX)];
    let found = Database::find_near(&measured).unwrap();
    assert_eq!((found.id, found.lat, found.lon), (3, 1, 2));
}

#[test]
fn node_stored_at_a_point_is_resolved_from_that_point() {
    let mut db = Database::new();
    put(&mut db, 1, 48.8600, 2.3500);
    put(&mut db, 2, 48.8566, 2.3522);
    put(&mut db, 3, 48.8570, 2.3530);
    let found = resolve(&db, 48.8566, 2.3522).unwrap();
    assert_eq!(found.id, 2);
    assert_eq!((found.lat, found.lon), (scaled(48.8566), scaled(2.3522)));
}

#[test]
fn point_in_an_empty_tile_resolves_to_nothing() {
    let mut db = Database::new();
    put(&mut db, 2, 48.8566, 2.3522);
    assert!(resolve(&db, 0.0, 0.0).is_none());
    assert!(resolve(&Database::new(), 48.8566, 2.3522).is_none());
}

#[test]
fn neighbours_follow_links_both_ways() {
    let mut db = Database::new();
    for id in 1..=5 {
        put(&mut db, id, 0.0, 0.001 * id as f64);
    }
    db.update_link(1, 2);
    db.update_link(3, 1);
    db.update_link(1, 4);
    db.update_link(5, 2);
    db.update_link(1, 9);
    let one = db.node(1).unwrap();
    assert_eq!(ids(&db.neighbours(&one)), vec![2, 4, 3]);
    let two = db.node(2).unwrap();
    assert_eq!(ids(&db.neighbours(&two)), vec![1, 5]);
    let neighbour = db.neighbours(&db.node(3).unwrap())[0];
    assert_eq!((neighbour.id, neighbour.lat, neighbour.lon), (1, 0, scaled(0.001)));
}

#[test]
fn neighbours_of_a_node_linked_both_ways_name_it_twice() {
    let mut db = Database::new();
    put(&mut db, 1, 0.0, 0.0);
    put(&mut db, 2, 0.0, 0.001);
    db.update_link(1, 2);
    db.update_link(2, 1);
    assert_eq!(ids(&db.neighbours(&db.node(1).unwrap())), vec![2, 2]);
}

#[test]
fn neighbours_of_an_isolated_node_are_none() {
    let mut db = Database::new();
    put(&mut db, 1, 0.0, 0.0);
    put(&mut db, 2, 0.0, 0.001);
    db.update_link(2, 3);
    assert!(db.neighbours(&db.node(1).unwrap()).is_empty());
    let unknown = RouteNode { id: 77, lat: 0, lon: 0 };
    assert!(db.neighbours(&unknown).is_empty());
}

#[test]
fn nodes_are_the_same_when_their_ids_agree() {
    let here = RouteNode { id: 1, lat: 10, lon: 20 };
    let there = RouteNode { id: 1, lat: 30, lon: 40 };
    let other = RouteNode { id: 2, lat: 10, lon: 20 };
    assert!(here == there);
    assert!(here != other);
}

#[test]
fn node_that_moves_to_another_tile_is_found_there() {
    let mut db = Database::new();
    db.update_node(1, 0, 0, 4096, 4096);
    db.update_node(2, 0, 0, 4150, 2818);
    db.update_node(3, 0, 0, 4097, 4097);
    db.update_node(4, 0, 0, 4151, 2819);
    let origin = Quadkey::new(2048, 2048, 12);
    let paris = Quadkey::new(2075, 1409, 12);
    db.update_node(3, 0, 0, 4150, 2819);
    assert_eq!(ids(&db.nodes_near(&origin)), vec![1]);
    assert_eq!(ids(&db.nodes_near(&paris)), vec![2, 3, 4]);
    db.update_node(1, 0, 0, 4151, 2818);
    assert!(db.nodes_near(&origin).is_empty());
    assert_eq!(ids(&db.nodes_near(&paris)), vec![1, 2, 3, 4]);
    db.update_node(2, 5, 6, 4097, 4096);
    assert_eq!(ids(&db.nodes_near(&origin)), vec![2]);
    assert_eq!(ids(&db.nodes_near(&paris)), vec![1, 3, 4]);
    assert_eq!(ids(&db.nodes()), vec![1, 2, 3, 4]);
    assert_eq!(db.key_of(2).unwrap().to_string(), Quadkey::new(4097, 4096, 13).to_string());
}

#[test]
fn node_written_again_in_its_tile_stays_where_it_is() {
    let mut db = Database::new();
    db.update_node(1, 0, 0, 4096, 4096);
    db.update_node(2, 0, 0, 4097, 4097);
    db.update_node(1, 7, 8, 4097, 4096);
    let origin = Quadkey::new(2048, 2048, 12);
    let found = db.nodes_near(&origin);
    assert_eq!(ids(&found), vec![1, 2]);
    assert_eq!((found[0].lat, found[0].lon), (7, 8));
}

#[test]
fn many_links_are_each_stored_once() {
    let mut db = Database::new();
    for round in 0..3 {
        for a in 0..20i64 {
            for b in 0..20i64 {
                db.update_link(a, b);
            }
        }
        assert_eq!(db.link_count(), 400, "round {}", round);
    }
    for id in 0..20 {
        put(&mut db, id, 0.0, 0.0001 * id as f64);
    }
    let seven = db.node(7).unwrap();
    let around = ids(&db.neighbours(&seven));
    let mut expected: Vec<i64> = (0..20).collect();
    expected.extend(0..20);
    assert_eq!(around, expected);
}

#[test]
fn point_whose_search_tile_misses_its_storage_tile_is_not_resolved() {
    // At longitude 0.05 the nearest column at the search zoom is not the
    // parent of the nearest column at the storage zoom.
    assert_eq!(project(0.0, 0.05, SEARCH_ZOOM).0, 2049);
    assert_eq!(project(0.0, 0.05, STORAGE_ZOOM).0, 4097);
    let mut db = Database::new();
    put(&mut db, 1, 0.0, 0.05);
    assert!(resolve(&db, 0.0, 0.05).is_none());
}

#[test]
fn linked_nodes_are_neighbours_of_each_other() {
    let mut db = Database::new();
    for id in 1..=4 {
        put(&mut db, id, 0.0, 0.001 * id as f64);
    }
    db.update_link(1, 2);
    db.update_link(3, 2);
    for a in 1..=4i64 {
        for b in 1..=4i64 {
            let from_a = ids(&db.neighbours(&db.node(a).unwrap())).contains(&b);
            let from_b = ids(&db.neighbours(&db.node(b).unwrap())).contains(&a);
            assert_eq!(from_a, from_b, "{} and {}", a, b);
        }
    }
    assert!(ids(&db.neighbours(&db.node(2).unwrap())).contains(&1));
    assert!(!ids(&db.neighbours(&db.node(1).unwrap())).contains(&3));
}

#[test]
fn reachable_lists_the_part_of_the_network_around_a_node() {
    let mut db = Database::new();
    for id in 1..=8 {
        put(&mut db, id, 0.0, 0.001 * id as f64);
    }
    db.update_way(&vec![1, 2, 3]);
    db.update_link(4, 2);
    db.update_link(3, 1);
    db.update_way(&vec![5, 6]);
    db.update_link(7, 99);
    let around_one = ids(&db.reachable(&db.node(1).unwrap()));
    assert_eq!(around_one, vec![1, 2, 3, 4]);
    let mut around_four = ids(&db.reachable(&db.node(4).unwrap()));
    assert_eq!(around_four[0], 4);
    around_four.sort();
    assert_eq!(around_four, vec![1, 2, 3, 4]);
    assert_eq!(ids(&db.reachable(&db.node(6).unwrap())), vec![6, 5]);
    assert_eq!(ids(&db.reachable(&db.node(7).unwrap())), vec![7]);
    assert_eq!(ids(&db.reachable(&db.node(8).unwrap())), vec![8]);
}

#[test]
fn reachable_from_a_node_that_is_not_stored_is_empty() {
    let mut db = Database::new();
    put(&mut db, 1, 0.0, 0.0);
    db.update_link(1, 2);
    assert!(db.reachable(&RouteNode { id: 2, lat: 0, lon: 0 }).is_empty());
    assert!(Database::new().reachable(&RouteNode { id: 1, lat: 0, lon: 0 }).is_empty());
}

#[test]
fn reachable_gives_the_stored_node_for_the_start() {
    let mut db = Database::new();
    put(&mut db, 1, 0.0, 0.004);
    let found = db.reachable(&RouteNode { id: 1, lat: -5, lon: -5 });
    assert_eq!(found.len(), 1);
    assert_eq!((found[0].lat, found[0].lon), (0, 40000));
}
