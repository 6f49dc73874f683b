//! The part of the network that a search from a node can touch.

use crate::db::{pick_source, pick_target, Database, Store};
use crate::node::RouteNode;
use std::collections::HashSet;
use vstd::prelude::*;
use vstd::std_specs::hash::group_hash_axioms;

verus! {

broadcast use group_hash_axioms;

/// Whether `node` is the node that is stored under its id.
pub open spec fn stored_as(store: Store, node: RouteNode) -> bool {
    store.has_node(node.id) && store.node(node.id) == node
}

/// Whether the node at `place` is one link away from a node listed before
/// it.
pub open spec fn comes_after(store: Store, found: Seq<RouteNode>, place: int) -> bool {
    exists|before: int|
        0 <= before < place && #[trigger] store.neighbours(found[before].id).contains(found[place])
}

/// Whether every node one link away from the node at `place` is listed.
pub open spec fn is_closed_at(store: Store, found: Seq<RouteNode>, place: int) -> bool {
    forall|k: int|
        0 <= k < store.neighbours(found[place].id).len() ==> found.contains(
            #[trigger] store.neighbours(found[place].id)[k],
        )
}

/// Whether `found` lists the stored nodes that can be reached from `start`
/// over links, whichever way they point: the node stored under `start`
/// first; each node once; each later node one link away from a node before
/// it; and with each node all nodes one link away from it. Nothing is
/// listed where no node is stored under `start`.
pub open spec fn is_reach(store: Store, start: i64, found: Seq<RouteNode>) -> bool {
    &&& found.len() == 0 <==> !store.has_node(start)
    &&& found.len() > 0 ==> found[0] == store.node(start)
    &&& forall|i: int| 0 <= i < found.len() ==> stored_as(store, #[trigger] found[i])
    &&& forall|i: int, j: int|
        0 <= i < j < found.len() ==> (#[trigger] found[i]).id != (#[trigger] found[j]).id
    &&& forall|i: int| 0 < i < found.len() ==> #[trigger] comes_after(store, found, i)
    &&& forall|i: int| 0 <= i < found.len() ==> #[trigger] is_closed_at(store, found, i)
}

/// A node one link away from a node is the node stored under its id.
pub proof fn lemma_neighbour_is_stored(store: Store, id: i64, k: int)
    requires
        0 <= k < store.neighbours(id).len(),
    ensures
        stored_as(store, store.neighbours(id)[k]),
{
    let far = store.links.filter_map(pick_target(store, id));
    let near = store.links.filter_map(pick_source(store, id));
    let node = store.neighbours(id)[k];
    if k < far.len() {
        assert(far[k] == node);
        assert(far.contains(node));
        store.links.lemma_filter_map_contains(pick_target(store, id), node);
        let link = choose|link: (i64, i64)| #[trigger]
            store.links.contains(link) && pick_target(store, id)(link) == Some(node);
        assert(store.node(link.1).id == link.1);
    } else {
        assert(near[k - far.len()] == node);
        assert(near.contains(node));
        store.links.lemma_filter_map_contains(pick_source(store, id), node);
        let link = choose|link: (i64, i64)| #[trigger]
            store.links.contains(link) && pick_source(store, id)(link) == Some(node);
        assert(store.node(link.0).id == link.0);
    }
}

/// Stored nodes with different ids are no more than the store holds.
pub proof fn lemma_stored_nodes_fit(store: Store, found: Seq<RouteNode>)
    requires
        forall|i: int| 0 <= i < found.len() ==> stored_as(store, #[trigger] found[i]),
        forall|i: int, j: int|
            0 <= i < j < found.len() ==> (#[trigger] found[i]).id != (#[trigger] found[j]).id,
    ensures
        found.len() <= store.nodes.len(),
{
    let listed = Seq::new(found.len(), |i: int| found[i].id);
    let held = Seq::new(store.nodes.len(), |i: int| store.nodes[i].node.id);
    assert(listed.no_duplicates());
    listed.unique_seq_to_set();
    held.lemma_cardinality_of_set();
    assert(listed.to_set().subset_of(held.to_set())) by {
        assert forall|id: i64| listed.to_set().contains(id) implies held.to_set().contains(id) by {
            let at = choose|at: int| 0 <= at < listed.len() && listed[at] == id;
            assert(stored_as(store, found[at]));
            let place = store.index_of(id);
            assert(held[place] == id);
        }
    }
    vstd::seq_lib::seq_to_set_is_finite(held);
    vstd::set_lib::lemma_len_subset(listed.to_set(), held.to_set());
}

impl Database {
    /// The stored nodes that can be reached from `start` over links,
    /// whichever way they point, `start` first. Nodes that a link names but
    /// the store does not hold are passed over.
    pub fn reachable(&self, start: &RouteNode) -> (found: Vec<RouteNode>)
        requires
            self.wf(),
        ensures
            is_reach(self@, start.id, found@),
    {
        let mut found: Vec<RouteNode> = Vec::new();
        let first = match self.node(start.id) {
            Some(node) => node,
            None => {
                return found;
            },
        };
        let mut seen: HashSet<i64> = HashSet::new();
        seen.insert(first.id);
        found.push(first);
        let count = self.node_count();
        proof {
            lemma_stored_nodes_fit(self@, found@);
        }
        let mut i: usize = 0;
        while i < found.len()
            invariant
                self.wf(),
                count == self@.nodes.len(),
                i <= found@.len() <= count,
                self@.has_node(start.id),
                found@.len() > 0,
                found@[0] == self@.node(start.id),
                forall|l: int| 0 <= l < found@.len() ==> stored_as(self@, #[trigger] found@[l]),
                forall|l: int, m: int|
                    0 <= l < m < found@.len() ==> (#[trigger] found@[l]).id != (
                    #[trigger] found@[m]).id,
                forall|l: int| 0 <= l < found@.len() ==> seen@.contains((#[trigger] found@[l]).id),
                forall|id: i64|
                    seen@.contains(id) ==> exists|l: int|
                        0 <= l < found@.len() && (#[trigger] found@[l]).id == id,
                forall|l: int| 0 < l < found@.len() ==> #[trigger] comes_after(self@, found@, l),
                forall|l: int| 0 <= l < i ==> #[trigger] is_closed_at(self@, found@, l),
            decreases count - i,
        {
            let here = found[i];
            let around = self.neighbours(&here);
            let mut k: usize = 0;
            while k < around.len()
                invariant
                    self.wf(),
                    count == self@.nodes.len(),
                    i < found@.len() <= count,
                    here == found@[i as int],
                    around@ == self@.neighbours(here.id),
                    k <= around@.len(),
                    self@.has_node(start.id),
                    found@[0] == self@.node(start.id),
                    forall|l: int| 0 <= l < found@.len() ==> stored_as(self@, #[trigger] found@[l]),
                    forall|l: int, m: int|
                        0 <= l < m < found@.len() ==> (#[trigger] found@[l]).id != (
                        #[trigger] found@[m]).id,
                    forall|l: int|
                        0 <= l < found@.len() ==> seen@.contains((#[trigger] found@[l]).id),
                    forall|id: i64|
                        seen@.contains(id) ==> exists|l: int|
                            0 <= l < found@.len() && (#[trigger] found@[l]).id == id,
                    forall|l: int|
                        0 < l < found@.len() ==> #[trigger] comes_after(self@, found@, l),
                    forall|l: int| 0 <= l < i ==> #[trigger] is_closed_at(self@, found@, l),
                    forall|done: int| 0 <= done < k ==> found@.contains(#[trigger] around@[done]),
                decreases around@.len() - k,
            {
                let next = around[k];
                let ghost before = found@;
                proof {
                    lemma_neighbour_is_stored(self@, here.id, k as int);
                }
                if !seen.contains(&next.id) {
                    seen.insert(next.id);
                    found.push(next);
                    proof {
                        let place = before.len() as int;
                        assert(found@[place] == next);
                        assert forall|l: int| 0 <= l < found@.len() implies stored_as(
                            self@,
                            #[trigger] found@[l],
                        ) by {
                            if l < place {
                                assert(found@[l] == before[l]);
                            }
                        }
                        assert forall|l: int, m: int| 0 <= l < m < found@.len() implies (
                        #[trigger] found@[l]).id != (#[trigger] found@[m]).id by {
                            if m < place {
                                assert(found@[l] == before[l] && found@[m] == before[m]);
                            } else {
                                assert(found@[l] == before[l]);
                            }
                        }
                        lemma_stored_nodes_fit(self@, found@);
                        assert forall|id: i64| seen@.contains(id) implies exists|l: int|
                            0 <= l < found@.len() && (#[trigger] found@[l]).id == id by {
                            if id == next.id {
                                assert(found@[place].id == id);
                            } else {
                                let l = choose|l: int|
                                    0 <= l < before.len() && (#[trigger] before[l]).id == id;
                                assert(found@[l].id == id);
                            }
                        }
                        assert forall|l: int| 0 < l < found@.len() implies #[trigger] comes_after(
                            self@,
                            found@,
                            l,
                        ) by {
                            if l < place {
                                assert(comes_after(self@, before, l));
                                let j = choose|j: int|
                                    0 <= j < l && #[trigger] self@.neighbours(
                                        before[j].id,
                                    ).contains(before[l]);
                                assert(found@[j] == before[j] && found@[l] == before[l]);
                                assert(self@.neighbours(found@[j].id).contains(found@[l]));
                            } else {
                                assert(around@[k as int] == next);
                                assert(self@.neighbours(found@[i as int].id).contains(found@[l]));
                            }
                        }
                        assert forall|l: int| 0 <= l < i implies #[trigger] is_closed_at(
                            self@,
                            found@,
                            l,
                        ) by {
                            assert(is_closed_at(self@, before, l));
                            assert(found@[l] == before[l]);
                            assert forall|n: int|
                                0 <= n < self@.neighbours(found@[l].id).len() implies found@.contains(
                                #[trigger] self@.neighbours(found@[l].id)[n],
                            ) by {
                                let node = self@.neighbours(before[l].id)[n];
                                assert(before.contains(node));
                                let at = choose|at: int| 0 <= at < before.len() && before[at] == node;
                                assert(found@[at] == node);
                            }
                        }
                        assert forall|done: int| 0 <= done <= k implies found@.contains(
                            #[trigger] around@[done],
                        ) by {
                            if done < k {
                                assert(before.contains(around@[done]));
                                let at = choose|at: int|
                                    0 <= at < before.len() && before[at] == around@[done];
                                assert(found@[at] == around@[done]);
                            } else {
                                assert(found@[place] == around@[done]);
                            }
                        }
                    }
                } else {
                    proof {
                        let at = choose|at: int|
                            0 <= at < found@.len() && (#[trigger] found@[at]).id == next.id;
                        assert(stored_as(self@, found@[at]));
                        assert(found@[at] == next);
                    }
                }
                k = k + 1;
            }
            proof {
                assert(is_closed_at(self@, found@, i as int)) by {
                    assert forall|n: int|
                        0 <= n < self@.neighbours(found@[i as int].id).len() implies found@.contains(
                        #[trigger] self@.neighbours(found@[i as int].id)[n],
                    ) by {
                        assert(found@.contains(around@[n]));
                    }
                }
            }
            i = i + 1;
        }
        found
    }
}

} // verus!
