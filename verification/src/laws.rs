//! What holds of the store whatever is written to it: a write never stores
//! an id or a link twice, taking the same records in a second time changes
//! nothing, and a node is found from any point that shares its tile.

use crate::db::{
    is_nearest, pick_inside, pick_source, pick_target, stored, OsmRecord, Store, StoredNode,
    SEARCH_ZOOM, STORAGE_ZOOM,
};
use crate::node::RouteNode;
use crate::quadkey::{lemma_key_prefix_is_parent_key, parent_tile, tile_key};
use vstd::prelude::*;

verus! {

/// The row that the last record for the node `id` writes, if the records
/// hold one.
pub open spec fn last_written(records: Seq<OsmRecord>, id: i64) -> Option<StoredNode>
    decreases records.len(),
{
    if records.len() == 0 {
        None
    } else {
        let earlier = last_written(records.drop_last(), id);
        match records.last() {
            OsmRecord::Node { id: written, lat, lon, xtile, ytile } => if written == id {
                Some(stored(written, lat, lon, xtile, ytile))
            } else {
                earlier
            },
            _ => earlier,
        }
    }
}

/// The pair of members `k` and `k + 1` of a way.
pub open spec fn pair_at(members: Seq<i64>, k: int) -> (i64, i64) {
    (members[k], members[k + 1])
}

/// Whether a way holds `link` as a pair of consecutive members.
pub open spec fn in_way(members: Seq<i64>, link: (i64, i64)) -> bool {
    exists|k: int| 0 <= k < members.len() - 1 && #[trigger] pair_at(members, k) == link
}

/// Whether one of the ways among the records holds `link` as a pair of
/// consecutive members.
pub open spec fn in_ways(records: Seq<OsmRecord>, link: (i64, i64)) -> bool
    decreases records.len(),
{
    if records.len() == 0 {
        false
    } else {
        in_ways(records.drop_last(), link) || match records.last() {
            OsmRecord::Way { id, nodes } => in_way(nodes@, link),
            _ => false,
        }
    }
}

/// Writing a node keeps the store well formed, keeps every stored id where
/// it is, and stores the row under its id.
pub proof fn lemma_put_node(store: Store, row: StoredNode)
    requires
        store.wf(),
    ensures
        store.put_node(row).wf(),
        store.put_node(row).links == store.links,
        store.put_node(row).has_node(row.node.id),
        store.put_node(row).nodes[store.put_node(row).index_of(row.node.id)] == row,
        store.put_node(row).nodes.len() == if store.has_node(row.node.id) {
            store.nodes.len()
        } else {
            store.nodes.len() + 1
        },
        forall|i: int|
            0 <= i < store.nodes.len() ==> (#[trigger] store.put_node(row).nodes[i]).node.id
                == store.nodes[i].node.id,
        forall|i: int|
            0 <= i < store.nodes.len() && store.nodes[i].node.id != row.node.id
                ==> #[trigger] store.put_node(row).nodes[i] == store.nodes[i],
        forall|i: int|
            0 <= i < store.put_node(row).nodes.len() && (#[trigger] store.put_node(
                row,
            ).nodes[i]).node.id == row.node.id ==> store.put_node(row).nodes[i] == row,
{
    let after = store.put_node(row);
    if store.has_node(row.node.id) {
        let at = store.index_of(row.node.id);
        assert(after.nodes[at] == row);
    } else {
        assert(after.nodes[store.nodes.len() as int] == row);
    }
    assert(after.has_node(row.node.id));
}

/// Writing a link keeps the store well formed, keeps the links stored
/// before it where they are, and stores the link.
pub proof fn lemma_put_link(store: Store, source: i64, destination: i64)
    requires
        store.wf(),
    ensures
        store.put_link(source, destination).wf(),
        store.put_link(source, destination).nodes == store.nodes,
        store.links.is_prefix_of(store.put_link(source, destination).links),
        forall|link: (i64, i64)|
            #[trigger] store.put_link(source, destination).links.contains(link)
                <==> store.links.contains(link) || link == (source, destination),
{
    let after = store.put_link(source, destination);
    if store.links.contains((source, destination)) {
    } else {
        assert(after.links[store.links.len() as int] == (source, destination));
        assert forall|link: (i64, i64)| #[trigger]
            after.links.contains(link) <==> store.links.contains(link) || link == (
                source,
                destination,
            ) by {
            if store.links.contains(link) {
                let k = choose|k: int| 0 <= k < store.links.len() && store.links[k] == link;
                assert(after.links[k] == link);
            }
        }
    }
    assert(store.links =~= after.links.subrange(0, store.links.len() as int));
}

/// Writing a way keeps the store well formed and stores exactly the pairs
/// of consecutive members that were not stored before, after the links
/// stored before.
pub proof fn lemma_put_way(store: Store, members: Seq<i64>)
    requires
        store.wf(),
    ensures
        store.put_way(members).wf(),
        store.put_way(members).nodes == store.nodes,
        store.links.is_prefix_of(store.put_way(members).links),
        forall|link: (i64, i64)|
            #[trigger] store.put_way(members).links.contains(link) <==> store.links.contains(link)
                || in_way(members, link),
        (forall|link: (i64, i64)| #[trigger] in_way(members, link) ==> store.links.contains(link))
            ==> store.put_way(members).links == store.links,
    decreases members.len(),
{
    let after = store.put_way(members);
    if members.len() < 2 {
        assert forall|link: (i64, i64)| !#[trigger] in_way(members, link) by {}
        assert(store.links =~= after.links.subrange(0, store.links.len() as int));
    } else {
        let shorter = members.drop_last();
        let middle = store.put_way(shorter);
        let last = members.len() - 2;
        let source = members[last];
        let destination = members[last + 1];
        lemma_put_way(store, shorter);
        lemma_put_link(middle, source, destination);
        assert(pair_at(members, last) == (source, destination));
        assert forall|link: (i64, i64)| #[trigger]
            in_way(members, link) <==> in_way(shorter, link) || link == (source, destination) by {
            if in_way(shorter, link) {
                let k = choose|k: int|
                    0 <= k < shorter.len() - 1 && #[trigger] pair_at(shorter, k) == link;
                assert(pair_at(members, k) == link);
            }
            if in_way(members, link) {
                let k = choose|k: int|
                    0 <= k < members.len() - 1 && #[trigger] pair_at(members, k) == link;
                if k < last {
                    assert(pair_at(shorter, k) == link);
                }
            }
        }
        assert(store.links =~= after.links.subrange(0, store.links.len() as int)) by {
            assert(store.links =~= middle.links.subrange(0, store.links.len() as int));
            assert(middle.links =~= after.links.subrange(0, middle.links.len() as int));
        }
        if forall|link: (i64, i64)| #[trigger] in_way(members, link) ==> store.links.contains(link) {
            assert(in_way(members, (source, destination)));
            assert forall|link: (i64, i64)| #[trigger]
                in_way(shorter, link) implies store.links.contains(link) by {
                assert(in_way(members, link));
            }
            assert(middle.links == store.links);
        }
    }
}

/// Taking one record in keeps the store well formed.
pub proof fn lemma_put_record(store: Store, record: OsmRecord)
    requires
        store.wf(),
    ensures
        store.put_record(record).wf(),
{
    match record {
        OsmRecord::Node { id, lat, lon, xtile, ytile } => {
            lemma_put_node(store, stored(id, lat, lon, xtile, ytile));
        },
        OsmRecord::Way { id, nodes } => {
            lemma_put_way(store, nodes@);
        },
        OsmRecord::Relation { id } => {},
    }
}

/// What the nodes of the store are after the records are taken in: the ids
/// stored before stay where they are, each stored node is what the last
/// record for it wrote, or what it was where no record wrote it, and a node
/// is added only for an id that was not stored.
pub proof fn lemma_import_nodes(store: Store, records: Seq<OsmRecord>)
    requires
        store.wf(),
    ensures
        store.import(records).wf(),
        store.import(records).nodes.len() >= store.nodes.len(),
        forall|i: int|
            0 <= i < store.nodes.len() ==> (#[trigger] store.import(records).nodes[i]).node.id
                == store.nodes[i].node.id,
        forall|i: int|
            0 <= i < store.import(records).nodes.len() ==> match last_written(
                records,
                (#[trigger] store.import(records).nodes[i]).node.id,
            ) {
                Some(row) => store.import(records).nodes[i] == row,
                None => i < store.nodes.len() && store.import(records).nodes[i] == store.nodes[i],
            },
        forall|id: i64| #[trigger]
            last_written(records, id) is Some ==> store.import(records).has_node(id),
        (forall|id: i64| #[trigger] last_written(records, id) is Some ==> store.has_node(id))
            ==> store.import(records).nodes.len() == store.nodes.len(),
    decreases records.len(),
{
    let after = store.import(records);
    if records.len() == 0 {
    } else {
        let earlier = records.drop_last();
        let middle = store.import(earlier);
        lemma_import_nodes(store, earlier);
        lemma_put_record(middle, records.last());
        assert forall|i: int| 0 <= i < store.nodes.len() implies middle.has_node(
            #[trigger] store.nodes[i].node.id,
        ) by {
            assert(middle.nodes[i].node.id == store.nodes[i].node.id);
        }
        match records.last() {
            OsmRecord::Node { id, lat, lon, xtile, ytile } => {
                let row = stored(id, lat, lon, xtile, ytile);
                lemma_put_node(middle, row);
                assert(last_written(records, id) == Some(row));
                assert forall|other: i64| other != id implies last_written(records, other)
                    == last_written(earlier, other) by {}
                assert forall|i: int| 0 <= i < after.nodes.len() implies match last_written(
                    records,
                    (#[trigger] after.nodes[i]).node.id,
                ) {
                    Some(written) => after.nodes[i] == written,
                    None => i < store.nodes.len() && after.nodes[i] == store.nodes[i],
                } by {
                    if after.nodes[i].node.id != id {
                        assert(i < middle.nodes.len());
                        assert(middle.nodes[i].node.id == after.nodes[i].node.id);
                        assert(after.nodes[i] == middle.nodes[i]);
                    }
                }
                assert forall|other: i64| #[trigger]
                    last_written(records, other) is Some implies after.has_node(other) by {
                    if other != id {
                        assert(middle.has_node(other));
                        let at = middle.index_of(other);
                        assert(after.nodes[at].node.id == other);
                    }
                }
                if forall|other: i64| #[trigger]
                    last_written(records, other) is Some ==> store.has_node(other) {
                    assert forall|other: i64| #[trigger]
                        last_written(earlier, other) is Some implies store.has_node(other) by {
                        assert(last_written(records, other) is Some);
                    }
                    assert(store.has_node(id));
                    let at = store.index_of(id);
                    assert(middle.nodes[at].node.id == id);
                    assert(middle.has_node(id));
                }
            },
            OsmRecord::Way { id, nodes } => {
                lemma_put_way(middle, nodes@);
                assert forall|other: i64| last_written(records, other) == last_written(
                    earlier,
                    other,
                ) by {}
            },
            OsmRecord::Relation { id } => {
                assert forall|other: i64| last_written(records, other) == last_written(
                    earlier,
                    other,
                ) by {}
            },
        }
    }
}

/// What the links of the store are after the records are taken in: the
/// links stored before, followed by the pairs of consecutive members of the
/// ways that were not stored before.
pub proof fn lemma_import_links(store: Store, records: Seq<OsmRecord>)
    requires
        store.wf(),
    ensures
        store.import(records).wf(),
        store.links.is_prefix_of(store.import(records).links),
        forall|link: (i64, i64)|
            #[trigger] store.import(records).links.contains(link) <==> store.links.contains(link)
                || in_ways(records, link),
        (forall|link: (i64, i64)| #[trigger] in_ways(records, link) ==> store.links.contains(link))
            ==> store.import(records).links == store.links,
    decreases records.len(),
{
    let after = store.import(records);
    if records.len() == 0 {
        assert(store.links =~= after.links.subrange(0, store.links.len() as int));
    } else {
        let earlier = records.drop_last();
        let middle = store.import(earlier);
        lemma_import_links(store, earlier);
        lemma_put_record(middle, records.last());
        let all_stored = forall|link: (i64, i64)| #[trigger]
            in_ways(records, link) ==> store.links.contains(link);
        if all_stored {
            assert forall|link: (i64, i64)| #[trigger]
                in_ways(earlier, link) implies store.links.contains(link) by {
                assert(in_ways(records, link));
            }
            assert(middle.links == store.links);
        }
        match records.last() {
            OsmRecord::Node { id, lat, lon, xtile, ytile } => {
                lemma_put_node(middle, stored(id, lat, lon, xtile, ytile));
            },
            OsmRecord::Way { id, nodes } => {
                lemma_put_way(middle, nodes@);
                assert(store.links =~= after.links.subrange(0, store.links.len() as int)) by {
                    assert(store.links =~= middle.links.subrange(0, store.links.len() as int));
                    assert(middle.links =~= after.links.subrange(0, middle.links.len() as int));
                }
                if all_stored {
                    assert forall|link: (i64, i64)| #[trigger]
                        in_way(nodes@, link) implies middle.links.contains(link) by {
                        assert(in_ways(records, link));
                    }
                }
            },
            OsmRecord::Relation { id } => {},
        }
    }
}

/// Taking the same records in twice leaves the store as taking them in
/// once does.
pub proof fn lemma_import_is_idempotent(store: Store, records: Seq<OsmRecord>)
    requires
        store.wf(),
    ensures
        store.import(records).import(records) == store.import(records),
{
    let once = store.import(records);
    let twice = once.import(records);
    lemma_import_nodes(store, records);
    lemma_import_links(store, records);
    lemma_import_nodes(once, records);
    lemma_import_links(once, records);
    assert(twice.nodes.len() == once.nodes.len());
    assert forall|i: int| 0 <= i < once.nodes.len() implies twice.nodes[i] == once.nodes[i] by {
        assert(twice.nodes[i].node.id == once.nodes[i].node.id);
    }
    assert(twice.nodes =~= once.nodes);
    assert(twice.links == once.links);
}

/// Taking the same records in twice stores as many nodes and as many links
/// as taking them in once does.
pub proof fn lemma_import_twice_same_counts(store: Store, records: Seq<OsmRecord>)
    requires
        store.wf(),
    ensures
        store.import(records).import(records).nodes.len() == store.import(records).nodes.len(),
        store.import(records).import(records).links.len() == store.import(records).links.len(),
{
    lemma_import_is_idempotent(store, records);
}

/// Writing a node a second time changes nothing, and writing a node under
/// a stored id stores no node more.
pub proof fn lemma_node_write_is_idempotent(store: Store, row: StoredNode)
    requires
        store.wf(),
    ensures
        store.put_node(row).put_node(row) == store.put_node(row),
        store.has_node(row.node.id) ==> store.put_node(row).nodes.len() == store.nodes.len(),
{
    let once = store.put_node(row);
    lemma_put_node(store, row);
    lemma_put_node(once, row);
    assert(once.put_node(row).nodes =~= once.nodes);
}

/// Writing a link a second time changes nothing.
pub proof fn lemma_link_write_is_idempotent(store: Store, source: i64, destination: i64)
    requires
        store.wf(),
    ensures
        store.put_link(source, destination).put_link(source, destination) == store.put_link(
            source,
            destination,
        ),
{
    lemma_put_link(store, source, destination);
}

/// What is picked from an item of a sequence is among what is picked from
/// the sequence.
proof fn lemma_picked_is_kept<A, B>(items: Seq<A>, pick: spec_fn(A) -> Option<B>, place: int)
    requires
        0 <= place < items.len(),
        pick(items[place]) is Some,
    ensures
        items.filter_map(pick).contains(pick(items[place])->0),
    decreases items.len(),
{
    let fewer = items.drop_last();
    let kept = items.filter_map(pick);
    if place == items.len() - 1 {
        assert(kept[kept.len() - 1] == pick(items[place])->0);
    } else {
        lemma_picked_is_kept(fewer, pick, place);
        let before = fewer.filter_map(pick);
        let at = choose|at: int| 0 <= at < before.len() && before[at] == pick(items[place])->0;
        assert(kept[at] == before[at]);
    }
}

/// A stored node is among the nodes near every key that starts its own.
pub proof fn lemma_near_holds_the_tile(store: Store, key: Seq<char>, place: int)
    requires
        0 <= place < store.nodes.len(),
        key.is_prefix_of(store.nodes[place].key),
    ensures
        store.near(key).contains(store.nodes[place].node),
{
    lemma_picked_is_kept(store.nodes, pick_inside(key), place);
}

/// A node stored with the tile `(x, y)` is among the nodes near the key of
/// the tile that contains `(x, y)` at the zoom of a search.
pub proof fn lemma_near_holds_the_parent_tile(store: Store, place: int, x: int, y: int)
    requires
        0 <= place < store.nodes.len(),
        0 <= x,
        0 <= y,
        store.nodes[place].key == tile_key(x, y, STORAGE_ZOOM as nat),
    ensures
        store.near(
            tile_key(parent_tile(x, 1), parent_tile(y, 1), SEARCH_ZOOM as nat),
        ).contains(store.nodes[place].node),
{
    lemma_key_prefix_is_parent_key(x, y, STORAGE_ZOOM as nat, SEARCH_ZOOM as nat);
    let key = tile_key(parent_tile(x, 1), parent_tile(y, 1), SEARCH_ZOOM as nat);
    assert(key.is_prefix_of(store.nodes[place].key));
    lemma_near_holds_the_tile(store, key, place);
}

/// Where no distance is negative and a node was measured at no distance
/// from the point, the nearest node lies at no distance too, and no node
/// before it does.
pub proof fn lemma_nearest_lies_at_the_point(
    measured: Seq<(RouteNode, i32)>,
    nearest: int,
    at_point: int,
)
    requires
        is_nearest(measured, nearest),
        0 <= at_point < measured.len(),
        measured[at_point].1 == 0,
        forall|j: int| 0 <= j < measured.len() ==> (#[trigger] measured[j]).1 >= 0,
    ensures
        measured[nearest].1 == 0,
        nearest <= at_point,
{
    assert(measured[nearest].1 <= measured[at_point].1);
    assert(measured[nearest].1 >= 0);
}

/// Whether a link is stored between two nodes, whichever way it points.
pub open spec fn linked(store: Store, a: i64, b: i64) -> bool {
    store.links.contains((a, b)) || store.links.contains((b, a))
}

/// A stored node is one link away from another exactly where a link is
/// stored between the two, whichever way it points.
pub proof fn lemma_neighbours_are_the_linked(store: Store, a: i64, b: i64)
    requires
        store.has_node(b),
    ensures
        store.neighbours(a).contains(store.node(b)) <==> linked(store, a, b),
{
    let far = store.links.filter_map(pick_target(store, a));
    let near = store.links.filter_map(pick_source(store, a));
    let around = store.neighbours(a);
    let node = store.node(b);
    if linked(store, a, b) {
        if store.links.contains((a, b)) {
            let at = choose|at: int| 0 <= at < store.links.len() && store.links[at] == (a, b);
            lemma_picked_is_kept(store.links, pick_target(store, a), at);
            let k = choose|k: int| 0 <= k < far.len() && far[k] == node;
            assert(around[k] == node);
        } else {
            let at = choose|at: int| 0 <= at < store.links.len() && store.links[at] == (b, a);
            lemma_picked_is_kept(store.links, pick_source(store, a), at);
            let k = choose|k: int| 0 <= k < near.len() && near[k] == node;
            assert(around[far.len() + k] == node);
        }
    }
    if around.contains(node) {
        let k = choose|k: int| 0 <= k < around.len() && around[k] == node;
        if k < far.len() {
            assert(far[k] == node);
            assert(far.contains(node));
            store.links.lemma_filter_map_contains(pick_target(store, a), node);
            let link = choose|link: (i64, i64)| #[trigger]
                store.links.contains(link) && pick_target(store, a)(link) == Some(node);
            assert(store.node(link.1).id == link.1);
            assert(link == (a, b));
        } else {
            assert(near[k - far.len()] == node);
            assert(near.contains(node));
            store.links.lemma_filter_map_contains(pick_source(store, a), node);
            let link = choose|link: (i64, i64)| #[trigger]
                store.links.contains(link) && pick_source(store, a)(link) == Some(node);
            assert(store.node(link.0).id == link.0);
            assert(link == (b, a));
        }
    }
}

/// Links are read without a direction: of two stored nodes, each is one
/// link away from the other, or neither is.
pub proof fn lemma_neighbours_are_mutual(store: Store, a: i64, b: i64)
    requires
        store.has_node(a),
        store.has_node(b),
    ensures
        store.neighbours(a).contains(store.node(b)) <==> store.neighbours(b).contains(
            store.node(a),
        ),
{
    lemma_neighbours_are_the_linked(store, a, b);
    lemma_neighbours_are_the_linked(store, b, a);
}

} // verus!
