//! The graph store: nodes keyed by id, and the links between them.
//!
//! A node is stored with the key of its tile at [`STORAGE_ZOOM`]. Writing a
//! node whose id is already stored overwrites it in place; writing a link
//! that is already stored changes nothing. Links are stored with a direction
//! and read without one.
//!
//! The rows are kept in the order in which they first came. Beside them the
//! store files the place of each node under its id and under its tile at
//! [`SEARCH_ZOOM`], and the place of each link under each of its two ends, so
//! that a lookup by id, by tile or by end walks only the rows filed there.

use crate::index::{
    gather, lemma_gather_is_filter_map, lemma_gather_take_succ, lemma_positions_complete,
    lemma_positions_push, lemma_positions_sound, lemma_positions_update, positions,
};
use crate::node::RouteNode;
use crate::quadkey::{lemma_prefix_spells_the_same, prefix_code, tile_key, Quadkey};
use std::collections::HashMap;
use vstd::prelude::*;
use vstd::std_specs::hash::group_hash_axioms;

verus! {

broadcast use group_hash_axioms;

/// The zoom at which the store keeps the tile key of each node.
pub const STORAGE_ZOOM: u8 = 13;

/// The zoom of the tile in which the node nearest to a point is looked for.
pub const SEARCH_ZOOM: u8 = 12;

/// What the store holds of one node.
pub struct StoredNode {
    pub node: RouteNode,
    pub key: Seq<char>,
}

/// What the store holds: the nodes in the order in which their ids first
/// came, and the links in the order in which they first came.
pub struct Store {
    pub nodes: Seq<StoredNode>,
    pub links: Seq<(i64, i64)>,
}

/// A record of the source data.
pub enum OsmRecord {
    /// A point, with the tile that it projects to at [`STORAGE_ZOOM`].
    Node { id: i64, lat: i32, lon: i32, xtile: u32, ytile: u32 },
    /// A line through the nodes with the given ids, in order.
    Way { id: i64, nodes: Vec<i64> },
    /// Anything else; the store takes nothing from it.
    Relation { id: i64 },
}

/// The row under which a node is stored.
pub open spec fn stored(id: i64, lat: i32, lon: i32, xtile: u32, ytile: u32) -> StoredNode {
    StoredNode {
        node: RouteNode { id, lat, lon },
        key: tile_key(xtile as int, ytile as int, STORAGE_ZOOM as nat),
    }
}

/// Picks the node of a row whose key starts with `key`.
pub open spec fn pick_inside(key: Seq<char>) -> spec_fn(StoredNode) -> Option<RouteNode> {
    |row: StoredNode|
        if key.is_prefix_of(row.key) {
            Some(row.node)
        } else {
            None
        }
}

/// Picks the stored node at the far end of a link that starts at `id`.
pub open spec fn pick_target(store: Store, id: i64) -> spec_fn((i64, i64)) -> Option<RouteNode> {
    |link: (i64, i64)|
        if link.0 == id && store.has_node(link.1) {
            Some(store.node(link.1))
        } else {
            None
        }
}

/// Picks the stored node at the near end of a link that ends at `id`.
pub open spec fn pick_source(store: Store, id: i64) -> spec_fn((i64, i64)) -> Option<RouteNode> {
    |link: (i64, i64)|
        if link.1 == id && store.has_node(link.0) {
            Some(store.node(link.0))
        } else {
            None
        }
}

impl Store {
    /// The store that holds nothing.
    pub open spec fn empty() -> Store {
        Store { nodes: Seq::empty(), links: Seq::empty() }
    }

    /// No id is stored twice and no link is stored twice.
    pub open spec fn wf(self) -> bool {
        &&& forall|i: int, j: int|
            0 <= i < self.nodes.len() && 0 <= j < self.nodes.len() && (
            #[trigger] self.nodes[i]).node.id == (#[trigger] self.nodes[j]).node.id ==> i == j
        &&& self.links.no_duplicates()
    }

    /// Whether a node with this id is stored.
    pub open spec fn has_node(self, id: i64) -> bool {
        exists|i: int| 0 <= i < self.nodes.len() && (#[trigger] self.nodes[i]).node.id == id
    }

    /// Where the node with this id is stored.
    pub open spec fn index_of(self, id: i64) -> int {
        choose|i: int| 0 <= i < self.nodes.len() && (#[trigger] self.nodes[i]).node.id == id
    }

    /// The stored node with this id.
    pub open spec fn node(self, id: i64) -> RouteNode {
        self.nodes[self.index_of(id)].node
    }

    /// The store after a node is written: overwritten in place where its id
    /// is stored, added at the end where it is not.
    pub open spec fn put_node(self, row: StoredNode) -> Store {
        if self.has_node(row.node.id) {
            Store { nodes: self.nodes.update(self.index_of(row.node.id), row), links: self.links }
        } else {
            Store { nodes: self.nodes.push(row), links: self.links }
        }
    }

    /// The store after a link is written: added at the end unless it is
    /// stored already.
    pub open spec fn put_link(self, source: i64, destination: i64) -> Store {
        if self.links.contains((source, destination)) {
            self
        } else {
            Store { nodes: self.nodes, links: self.links.push((source, destination)) }
        }
    }

    /// The store after a way is written: one link for each pair of
    /// consecutive members, first pair first.
    pub open spec fn put_way(self, members: Seq<i64>) -> Store
        decreases members.len(),
    {
        if members.len() < 2 {
            self
        } else {
            self.put_way(members.drop_last()).put_link(
                members[members.len() - 2],
                members[members.len() - 1],
            )
        }
    }

    /// The store after one record is taken in.
    pub open spec fn put_record(self, record: OsmRecord) -> Store {
        match record {
            OsmRecord::Node { id, lat, lon, xtile, ytile } => self.put_node(
                stored(id, lat, lon, xtile, ytile),
            ),
            OsmRecord::Way { id, nodes } => self.put_way(nodes@),
            OsmRecord::Relation { id } => self,
        }
    }

    /// The store after the records are taken in, first record first.
    pub open spec fn import(self, records: Seq<OsmRecord>) -> Store
        decreases records.len(),
    {
        if records.len() == 0 {
            self
        } else {
            self.import(records.drop_last()).put_record(records.last())
        }
    }

    /// The stored nodes whose key starts with `key`, in stored order.
    pub open spec fn near(self, key: Seq<char>) -> Seq<RouteNode> {
        self.nodes.filter_map(pick_inside(key))
    }

    /// The stored nodes one link away from `id`: the far ends of the links
    /// that start at `id`, then the near ends of the links that end at `id`,
    /// each in stored order. A link whose other end is not stored gives
    /// nothing.
    pub open spec fn neighbours(self, id: i64) -> Seq<RouteNode> {
        self.links.filter_map(pick_target(self, id)) + self.links.filter_map(
            pick_source(self, id),
        )
    }
}

/// Whether position `i` holds the nearest of the measured nodes: none is
/// nearer, and all before it are farther.
pub open spec fn is_nearest(measured: Seq<(RouteNode, i32)>, i: int) -> bool {
    &&& 0 <= i < measured.len()
    &&& forall|j: int| 0 <= j < measured.len() ==> measured[i].1 <= (#[trigger] measured[j]).1
    &&& forall|j: int| 0 <= j < i ==> measured[i].1 < (#[trigger] measured[j]).1
}

struct NodeRow {
    node: RouteNode,
    key: Quadkey,
    code: i64,
}

/// The graph store.
pub struct Database {
    nodes: Vec<NodeRow>,
    links: Vec<(i64, i64)>,
    slots: HashMap<i64, usize>,
    tiles: HashMap<i64, Vec<usize>>,
    outgoing: HashMap<i64, Vec<usize>>,
    incoming: HashMap<i64, Vec<usize>>,
}

/// The places filed under a key; none where nothing is filed under it.
spec fn filed(files: Map<i64, Vec<usize>>, key: i64) -> Seq<usize> {
    if files.contains_key(key) {
        files[key]@
    } else {
        Seq::empty()
    }
}

/// What the rows hold, as the store shows it.
spec fn rows_of(nodes: Seq<NodeRow>) -> Seq<StoredNode> {
    Seq::new(nodes.len(), |i: int| StoredNode { node: nodes[i].node, key: nodes[i].key@ })
}

/// The code under which each row is filed.
spec fn codes_of(nodes: Seq<NodeRow>) -> Seq<i64> {
    Seq::new(nodes.len(), |i: int| nodes[i].code)
}

/// The near end of each link.
spec fn sources_of(links: Seq<(i64, i64)>) -> Seq<i64> {
    Seq::new(links.len(), |i: int| links[i].0)
}

/// The far end of each link.
spec fn targets_of(links: Seq<(i64, i64)>) -> Seq<i64> {
    Seq::new(links.len(), |i: int| links[i].1)
}

/// Whether every row has a key of [`STORAGE_ZOOM`] characters and is filed
/// under what the first [`SEARCH_ZOOM`] of them spell.
spec fn rows_coded(nodes: Seq<NodeRow>) -> bool {
    forall|i: int|
        0 <= i < nodes.len() ==> (#[trigger] nodes[i]).key@.len() == STORAGE_ZOOM && nodes[i].code
            == prefix_code(nodes[i].key@, SEARCH_ZOOM as nat)
}

/// Whether `files` holds, under every key, the places at which the key
/// occurs among `keys`.
spec fn files_match(files: Map<i64, Vec<usize>>, keys: Seq<i64>) -> bool {
    forall|key: i64| #[trigger] filed(files, key) == positions(keys, key)
}

/// Whether `slots` holds the place of every node under its id, and nothing
/// else.
spec fn slots_match(slots: Map<i64, usize>, nodes: Seq<NodeRow>) -> bool {
    &&& forall|i: int|
        0 <= i < nodes.len() ==> slots.contains_key((#[trigger] nodes[i]).node.id)
            && slots[nodes[i].node.id] == i
    &&& forall|id: i64|
        slots.contains_key(id) ==> (#[trigger] slots[id]) < nodes.len()
            && nodes[slots[id] as int].node.id == id
}

impl View for Database {
    type V = Store;

    /// What the store holds.
    closed spec fn view(&self) -> Store {
        Store { nodes: rows_of(self.nodes@), links: self.links@ }
    }
}

/// Files one place more under a key.
fn file(files: &mut HashMap<i64, Vec<usize>>, key: i64, place: usize)
    ensures
        forall|other: i64| #[trigger]
            filed(final(files)@, other) == if other == key {
                filed(old(files)@, key).push(place)
            } else {
                filed(old(files)@, other)
            },
{
    let mut bucket = match files.remove(&key) {
        Some(bucket) => bucket,
        None => Vec::new(),
    };
    bucket.push(place);
    files.insert(key, bucket);
}

/// The places of the rows that are filed under a code.
fn places_of(nodes: &Vec<NodeRow>, code: i64) -> (places: Vec<usize>)
    ensures
        places@ == positions(codes_of(nodes@), code),
{
    let ghost codes = codes_of(nodes@);
    let mut places: Vec<usize> = Vec::new();
    let mut i: usize = 0;
    while i < nodes.len()
        invariant
            i <= nodes@.len(),
            codes == codes_of(nodes@),
            places@ == positions(codes.take(i as int), code),
        decreases nodes@.len() - i,
    {
        proof {
            assert(codes.take(i + 1) =~= codes.take(i as int).push(codes[i as int]));
            lemma_positions_push(codes.take(i as int), codes[i as int], code);
        }
        if nodes[i].code == code {
            places.push(i);
        }
        i = i + 1;
    }
    assert(codes.take(i as int) =~= codes);
    places
}

impl Database {
    /// The store is whole: no id and no link is stored twice, and what is
    /// filed beside the rows agrees with the rows.
    pub closed spec fn wf(&self) -> bool {
        &&& self@.wf()
        &&& rows_coded(self.nodes@)
        &&& slots_match(self.slots@, self.nodes@)
        &&& files_match(self.tiles@, codes_of(self.nodes@))
        &&& files_match(self.outgoing@, sources_of(self.links@))
        &&& files_match(self.incoming@, targets_of(self.links@))
    }

    /// In a whole store no id and no link is stored twice.
    pub proof fn lemma_wf(&self)
        requires
            self.wf(),
        ensures
            self@.wf(),
    {
    }

    /// A store that holds nothing.
    pub fn new() -> (db: Database)
        ensures
            db@ == Store::empty(),
            db.wf(),
    {
        let db = Database {
            nodes: Vec::new(),
            links: Vec::new(),
            slots: HashMap::new(),
            tiles: HashMap::new(),
            outgoing: HashMap::new(),
            incoming: HashMap::new(),
        };
        assert(db@.nodes =~= Seq::empty());
        assert(db@.links =~= Seq::empty());
        assert(codes_of(db.nodes@) =~= Seq::empty());
        assert(sources_of(db.links@) =~= Seq::empty());
        assert(targets_of(db.links@) =~= Seq::empty());
        db
    }

    /// The number of nodes stored.
    pub fn node_count(&self) -> (count: usize)
        ensures
            count == self@.nodes.len(),
    {
        self.nodes.len()
    }

    /// The number of links stored.
    pub fn link_count(&self) -> (count: usize)
        ensures
            count == self@.links.len(),
    {
        self.links.len()
    }

    /// Where the node with this id is stored, if it is.
    fn position(&self, id: i64) -> (at: Option<usize>)
        requires
            self.wf(),
        ensures
            match at {
                Some(i) => i < self@.nodes.len() && self@.nodes[i as int].node.id == id
                    && self@.has_node(id) && self@.index_of(id) == i,
                None => !self@.has_node(id),
            },
    {
        match self.slots.get(&id) {
            Some(place) => {
                assert(self@.nodes[*place as int].node.id == id);
                Some(*place)
            },
            None => {
                assert forall|i: int| 0 <= i < self@.nodes.len() implies (
                #[trigger] self@.nodes[i]).node.id != id by {
                    assert(self.slots@.contains_key(self.nodes@[i].node.id));
                }
                None
            },
        }
    }

    /// The stored node with this id, if there is one.
    pub fn node(&self, id: i64) -> (found: Option<RouteNode>)
        requires
            self.wf(),
        ensures
            found == if self@.has_node(id) {
                Some(self@.node(id))
            } else {
                None
            },
    {
        match self.position(id) {
            Some(i) => Some(self.nodes[i].node),
            None => None,
        }
    }

    /// Writes a node: overwrites the node stored under `id`, or adds it.
    /// The node is stored with the key of the tile `(xtile, ytile)` at
    /// [`STORAGE_ZOOM`].
    pub fn update_node(&mut self, id: i64, lat: i32, lon: i32, xtile: u32, ytile: u32)
        requires
            old(self).wf(),
        ensures
            final(self)@ == old(self)@.put_node(stored(id, lat, lon, xtile, ytile)),
            final(self).wf(),
            final(self)@.wf(),
    {
        let key = Quadkey::new(xtile, ytile, STORAGE_ZOOM);
        let code = key.code_of_prefix(SEARCH_ZOOM as usize);
        let row = NodeRow { node: RouteNode { id, lat, lon }, key, code };
        let ghost before = self@;
        let ghost rows = self.nodes@;
        let ghost codes = codes_of(self.nodes@);
        let ghost written = stored(id, lat, lon, xtile, ytile);
        match self.position(id) {
            Some(place) => {
                let filed_under = self.nodes[place].code;
                self.nodes.set(place, row);
                assert(self@.nodes =~= before.nodes.update(place as int, written));
                assert(codes_of(self.nodes@) =~= codes.update(place as int, code));
                assert(slots_match(self.slots@, self.nodes@)) by {
                    assert forall|i: int| 0 <= i < self.nodes@.len() implies self.slots@.contains_key(
                        (#[trigger] self.nodes@[i]).node.id,
                    ) && self.slots@[self.nodes@[i].node.id] == i by {
                        assert(rows[i].node.id == self.nodes@[i].node.id);
                    }
                }
                assert(rows_coded(self.nodes@)) by {
                    assert forall|i: int| 0 <= i < self.nodes@.len() implies (
                    #[trigger] self.nodes@[i]).key@.len() == STORAGE_ZOOM && self.nodes@[i].code
                        == prefix_code(self.nodes@[i].key@, SEARCH_ZOOM as nat) by {
                        if i != place {
                            assert(self.nodes@[i] == rows[i]);
                        }
                    }
                }
                if filed_under != code {
                    let ghost files = self.tiles@;
                    let there = places_of(&self.nodes, filed_under);
                    self.tiles.insert(filed_under, there);
                    let here = places_of(&self.nodes, code);
                    self.tiles.insert(code, here);
                    assert forall|other: i64| #[trigger]
                        filed(self.tiles@, other) == positions(codes_of(self.nodes@), other) by {
                        if other != filed_under && other != code {
                            assert(filed(self.tiles@, other) == filed(files, other));
                            lemma_positions_update(codes, place as int, code, other);
                        }
                    }
                } else {
                    assert(codes.update(place as int, code) =~= codes);
                }
            },
            None => {
                let place = self.nodes.len();
                let ghost files = self.tiles@;
                let ghost held = self.slots@;
                self.nodes.push(row);
                self.slots.insert(id, place);
                file(&mut self.tiles, code, place);
                assert(self@.nodes =~= before.nodes.push(written));
                assert(codes_of(self.nodes@) =~= codes.push(code));
                assert forall|other: i64| #[trigger]
                    filed(self.tiles@, other) == positions(codes_of(self.nodes@), other) by {
                    lemma_positions_push(codes, code, other);
                    assert(filed(files, other) == positions(codes, other));
                }
                assert(slots_match(self.slots@, self.nodes@)) by {
                    assert forall|i: int| 0 <= i < self.nodes@.len() implies self.slots@.contains_key(
                        (#[trigger] self.nodes@[i]).node.id,
                    ) && self.slots@[self.nodes@[i].node.id] == i by {
                        if i < place {
                            assert(rows[i] == self.nodes@[i]);
                            assert(before.nodes[i].node.id != id);
                        }
                    }
                    assert forall|other: i64| self.slots@.contains_key(other) implies (
                    #[trigger] self.slots@[other]) < self.nodes@.len()
                        && self.nodes@[self.slots@[other] as int].node.id == other by {
                        if other != id {
                            assert(held.contains_key(other));
                            assert(rows[held[other] as int] == self.nodes@[held[other] as int]);
                        }
                    }
                }
                assert(rows_coded(self.nodes@)) by {
                    assert forall|i: int| 0 <= i < self.nodes@.len() implies (
                    #[trigger] self.nodes@[i]).key@.len() == STORAGE_ZOOM && self.nodes@[i].code
                        == prefix_code(self.nodes@[i].key@, SEARCH_ZOOM as nat) by {
                        if i < place {
                            assert(self.nodes@[i] == rows[i]);
                        }
                    }
                }
            },
        }
    }

    /// Whether the link is stored.
    fn has_link(&self, source: i64, destination: i64) -> (stored: bool)
        requires
            self.wf(),
        ensures
            stored == self@.links.contains((source, destination)),
    {
        let ghost sources = sources_of(self.links@);
        let count = self.links.len();
        proof {
            lemma_positions_sound(sources, source);
            assert(filed(self.outgoing@, source) == positions(sources, source));
        }
        match self.outgoing.get(&source) {
            Some(places) => {
                let mut j: usize = 0;
                while j < places.len()
                    invariant
                        j <= places@.len(),
                        places@ == positions(sources, source),
                        sources == sources_of(self.links@),
                        forall|k: int|
                            0 <= k < places@.len() ==> (#[trigger] places@[k]) < sources.len()
                                && sources[places@[k] as int] == source,
                        forall|k: int|
                            0 <= k < j ==> self.links@[(#[trigger] places@[k]) as int].1
                                != destination,
                    decreases places@.len() - j,
                {
                    let place = places[j];
                    assert(sources[place as int] == source);
                    if self.links[place].1 == destination {
                        assert(self.links@[place as int] == (source, destination));
                        return true;
                    }
                    j = j + 1;
                }
                proof {
                    if self@.links.contains((source, destination)) {
                        let at = choose|at: int|
                            0 <= at < self.links@.len() && self.links@[at] == (source, destination);
                        lemma_positions_complete(sources, source, at);
                        let k = choose|k: int| 0 <= k < places@.len() && places@[k] == at as usize;
                        assert(self.links@[places@[k] as int].1 != destination);
                    }
                }
                false
            },
            None => {
                proof {
                    if self@.links.contains((source, destination)) {
                        let at = choose|at: int|
                            0 <= at < self.links@.len() && self.links@[at] == (source, destination);
                        lemma_positions_complete(sources, source, at);
                    }
                }
                false
            },
        }
    }

    /// Writes a link, unless it is stored already.
    pub fn update_link(&mut self, source: i64, destination: i64)
        requires
            old(self).wf(),
        ensures
            final(self)@ == old(self)@.put_link(source, destination),
            final(self).wf(),
            final(self)@.wf(),
    {
        if self.has_link(source, destination) {
            return ;
        }
        let ghost before = self@;
        let ghost sources = sources_of(self.links@);
        let ghost targets = targets_of(self.links@);
        let ghost out = self.outgoing@;
        let ghost inc = self.incoming@;
        let place = self.links.len();
        self.links.push((source, destination));
        file(&mut self.outgoing, source, place);
        file(&mut self.incoming, destination, place);
        assert(self@.nodes =~= before.nodes);
        assert(sources_of(self.links@) =~= sources.push(source));
        assert(targets_of(self.links@) =~= targets.push(destination));
        assert forall|other: i64| #[trigger]
            filed(self.outgoing@, other) == positions(sources_of(self.links@), other) by {
            lemma_positions_push(sources, source, other);
            assert(filed(out, other) == positions(sources, other));
        }
        assert forall|other: i64| #[trigger]
            filed(self.incoming@, other) == positions(targets_of(self.links@), other) by {
            lemma_positions_push(targets, destination, other);
            assert(filed(inc, other) == positions(targets, other));
        }
    }

    /// Writes a way: one link for each pair of consecutive members.
    pub fn update_way(&mut self, members: &Vec<i64>)
        requires
            old(self).wf(),
        ensures
            final(self)@ == old(self)@.put_way(members@),
            final(self).wf(),
            final(self)@.wf(),
    {
        if members.len() < 2 {
            return ;
        }
        let ghost before = self@;
        let mut i: usize = 1;
        while i < members.len()
            invariant
                1 <= i <= members@.len(),
                self@ == before.put_way(members@.take(i as int)),
                self.wf(),
            decreases members@.len() - i,
        {
            assert(members@.take(i + 1).drop_last() =~= members@.take(i as int));
            self.update_link(members[i - 1], members[i]);
            i = i + 1;
        }
        assert(members@.take(i as int) =~= members@);
    }

    /// Takes the records in, first record first: each node is written, each
    /// way is written, anything else is passed over.
    pub fn import(&mut self, records: &Vec<OsmRecord>)
        requires
            old(self).wf(),
        ensures
            final(self)@ == old(self)@.import(records@),
            final(self).wf(),
            final(self)@.wf(),
    {
        let ghost before = self@;
        let mut i: usize = 0;
        while i < records.len()
            invariant
                i <= records@.len(),
                self@ == before.import(records@.take(i as int)),
                self.wf(),
            decreases records@.len() - i,
        {
            assert(records@.take(i + 1).drop_last() =~= records@.take(i as int));
            match &records[i] {
                OsmRecord::Node { id, lat, lon, xtile, ytile } => {
                    self.update_node(*id, *lat, *lon, *xtile, *ytile);
                },
                OsmRecord::Way { id, nodes } => {
                    self.update_way(nodes);
                },
                OsmRecord::Relation { id } => {},
            }
            i = i + 1;
        }
        assert(records@.take(i as int) =~= records@);
    }

    /// The stored nodes that lie in the tile named by `key`, in stored
    /// order: those whose stored key starts with `key`.
    ///
    /// A key of [`SEARCH_ZOOM`] characters or more is answered from the rows
    /// filed under its tile; a shorter one from all rows.
    pub fn nodes_near(&self, key: &Quadkey) -> (found: Vec<RouteNode>)
        requires
            self.wf(),
        ensures
            found@ == self@.near(key@),
    {
        let mut found: Vec<RouteNode> = Vec::new();
        if key.zoom() >= SEARCH_ZOOM as usize {
            let code = key.code_of_prefix(SEARCH_ZOOM as usize);
            let ghost codes = codes_of(self.nodes@);
            let count = self.nodes.len();
            proof {
                lemma_positions_sound(codes, code);
                assert(filed(self.tiles@, code) == positions(codes, code));
                assert forall|i: int| 0 <= i < codes.len() && codes[i] != code implies pick_inside(
                    key@,
                )(#[trigger] self@.nodes[i]) is None by {
                    if key@.is_prefix_of(self@.nodes[i].key) {
                        lemma_prefix_spells_the_same(
                            key@,
                            self.nodes@[i].key@,
                            SEARCH_ZOOM as nat,
                        );
                    }
                }
                lemma_gather_is_filter_map(codes, code, self@.nodes, pick_inside(key@));
            }
            match self.tiles.get(&code) {
                Some(places) => {
                    let mut j: usize = 0;
                    while j < places.len()
                        invariant
                            j <= places@.len(),
                            self@.nodes.len() == self.nodes@.len(),
                            forall|k: int|
                                0 <= k < places@.len() ==> (#[trigger] places@[k])
                                    < self.nodes@.len(),
                            forall|i: int|
                                0 <= i < self.nodes@.len() ==> (#[trigger] self@.nodes[i])
                                    == (StoredNode {
                                    node: self.nodes@[i].node,
                                    key: self.nodes@[i].key@,
                                }),
                            found@ == gather(places@.take(j as int), self@.nodes, pick_inside(key@)),
                        decreases places@.len() - j,
                    {
                        proof {
                            lemma_gather_take_succ(places@, self@.nodes, pick_inside(key@), j as int);
                        }
                        let place = places[j];
                        if key.is_prefix_of(&self.nodes[place].key) {
                            found.push(self.nodes[place].node);
                        }
                        j = j + 1;
                    }
                    assert(places@.take(j as int) =~= places@);
                },
                None => {},
            }
        } else {
            let mut i: usize = 0;
            while i < self.nodes.len()
                invariant
                    i <= self.nodes@.len(),
                    self@.nodes.len() == self.nodes@.len(),
                    forall|k: int|
                        0 <= k < self.nodes@.len() ==> (#[trigger] self@.nodes[k]) == (StoredNode {
                            node: self.nodes@[k].node,
                            key: self.nodes@[k].key@,
                        }),
                    found@ == self@.nodes.take(i as int).filter_map(pick_inside(key@)),
                decreases self.nodes@.len() - i,
            {
                proof {
                    self@.nodes.lemma_filter_map_take_succ(pick_inside(key@), i as int);
                }
                if key.is_prefix_of(&self.nodes[i].key) {
                    found.push(self.nodes[i].node);
                }
                i = i + 1;
            }
            assert(self@.nodes.take(i as int) =~= self@.nodes);
        }
        found
    }

    /// The stored nodes, in stored order.
    pub fn nodes(&self) -> (all: Vec<RouteNode>)
        ensures
            all@.len() == self@.nodes.len(),
            forall|i: int| 0 <= i < all@.len() ==> #[trigger] all@[i] == self@.nodes[i].node,
    {
        let mut all: Vec<RouteNode> = Vec::new();
        let mut i: usize = 0;
        while i < self.nodes.len()
            invariant
                i <= self.nodes@.len(),
                self@.nodes.len() == self.nodes@.len(),
                all@.len() == i,
                forall|j: int| 0 <= j < i ==> #[trigger] all@[j] == self@.nodes[j].node,
            decreases self.nodes@.len() - i,
        {
            all.push(self.nodes[i].node);
            i = i + 1;
        }
        all
    }

    /// The stored links, in stored order.
    pub fn links(&self) -> (all: Vec<(i64, i64)>)
        ensures
            all@ == self@.links,
    {
        let mut all: Vec<(i64, i64)> = Vec::new();
        let mut i: usize = 0;
        while i < self.links.len()
            invariant
                i <= self.links@.len(),
                self@.links == self.links@,
                all@ == self.links@.take(i as int),
            decreases self.links@.len() - i,
        {
            all.push(self.links[i]);
            assert(self.links@.take(i + 1) =~= self.links@.take(i as int).push(
                self.links@[i as int],
            ));
            i = i + 1;
        }
        assert(self.links@.take(i as int) =~= self.links@);
        all
    }

    /// The tile key under which the node with this id is stored, if the node
    /// is stored.
    pub fn key_of(&self, id: i64) -> (key: Option<&Quadkey>)
        requires
            self.wf(),
        ensures
            key is Some <==> self@.has_node(id),
            key matches Some(found) ==> found@ == self@.nodes[self@.index_of(id)].key,
    {
        match self.position(id) {
            Some(i) => Some(&self.nodes[i].key),
            None => None,
        }
    }

    /// The nearest of the measured nodes, each given with its distance in
    /// metres from the point asked about: the first of those at the least
    /// distance. None where nothing was measured.
    pub fn find_near(measured: &Vec<(RouteNode, i32)>) -> (nearest: Option<RouteNode>)
        ensures
            nearest is None <==> measured@.len() == 0,
            nearest matches Some(node) ==> exists|i: int|
                is_nearest(measured@, i) && node == measured@[i].0,
    {
        if measured.len() == 0 {
            return None;
        }
        let mut best: usize = 0;
        let mut i: usize = 1;
        while i < measured.len()
            invariant
                1 <= i <= measured@.len(),
                best < i,
                forall|j: int| 0 <= j < i ==> measured@[best as int].1 <= (#[trigger] measured@[j]).1,
                forall|j: int|
                    0 <= j < best ==> measured@[best as int].1 < (#[trigger] measured@[j]).1,
            decreases measured@.len() - i,
        {
            if measured[i].1 < measured[best].1 {
                best = i;
            }
            i = i + 1;
        }
        assert(is_nearest(measured@, best as int));
        Some(measured[best].0)
    }

    /// Adds to `adjacent` the stored nodes at the other end of the links
    /// filed under `end`: the far ends of the links that start there where
    /// `forward`, the near ends of the links that end there where not.
    fn across(
        &self,
        files: &HashMap<i64, Vec<usize>>,
        end: i64,
        forward: bool,
        adjacent: &mut Vec<RouteNode>,
    )
        requires
            self.wf(),
            forward ==> files@ == self.outgoing@,
            !forward ==> files@ == self.incoming@,
        ensures
            final(adjacent)@ == old(adjacent)@ + self@.links.filter_map(
                if forward {
                    pick_target(self@, end)
                } else {
                    pick_source(self@, end)
                },
            ),
    {
        let ghost pick = if forward {
            pick_target(self@, end)
        } else {
            pick_source(self@, end)
        };
        let ghost ends = if forward {
            sources_of(self.links@)
        } else {
            targets_of(self.links@)
        };
        let ghost start = adjacent@;
        let count = self.links.len();
        proof {
            lemma_positions_sound(ends, end);
            assert(filed(files@, end) == positions(ends, end));
            lemma_gather_is_filter_map(ends, end, self@.links, pick);
        }
        match files.get(&end) {
            Some(places) => {
                let mut j: usize = 0;
                while j < places.len()
                    invariant
                        j <= places@.len(),
                        self.wf(),
                        self@.links == self.links@,
                        pick == if forward {
                            pick_target(self@, end)
                        } else {
                            pick_source(self@, end)
                        },
                        forall|k: int|
                            0 <= k < places@.len() ==> (#[trigger] places@[k]) < self.links@.len()
                                && ends[places@[k] as int] == end,
                        ends == if forward {
                            sources_of(self.links@)
                        } else {
                            targets_of(self.links@)
                        },
                        adjacent@ == start + gather(places@.take(j as int), self@.links, pick),
                    decreases places@.len() - j,
                {
                    proof {
                        lemma_gather_take_succ(places@, self@.links, pick, j as int);
                    }
                    let place = places[j];
                    let link = self.links[place];
                    assert(ends[place as int] == end);
                    let other = if forward {
                        link.1
                    } else {
                        link.0
                    };
                    match self.node(other) {
                        Some(node) => {
                            adjacent.push(node);
                            assert(pick(link) == Some(node));
                            assert(adjacent@ =~= start + gather(
                                places@.take(j + 1),
                                self@.links,
                                pick,
                            ));
                        },
                        None => {
                            assert(pick(link) is None);
                        },
                    }
                    j = j + 1;
                }
                assert(places@.take(j as int) =~= places@);
            },
            None => {
                assert(adjacent@ =~= start + self@.links.filter_map(pick));
            },
        }
    }

    /// The stored nodes one link away from `node`, whichever way the link
    /// points.
    pub fn neighbours(&self, node: &RouteNode) -> (adjacent: Vec<RouteNode>)
        requires
            self.wf(),
        ensures
            adjacent@ == self@.neighbours(node.id),
    {
        let mut adjacent: Vec<RouteNode> = Vec::new();
        self.across(&self.outgoing, node.id, true, &mut adjacent);
        self.across(&self.incoming, node.id, false, &mut adjacent);
        adjacent
    }
}

} // verus!
