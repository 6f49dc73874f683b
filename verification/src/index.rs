//! Position lists: the places at which a key occurs in a sequence of keys.
//!
//! The store files the places of its rows under what they are looked up by,
//! so that a lookup walks the rows filed under one key and not all rows.
//! What is proved here is that walking a position list gives what walking
//! all rows gives.

use vstd::prelude::*;

verus! {

/// The places at which `key` occurs among `keys`, in rising order.
pub open spec fn positions<K>(keys: Seq<K>, key: K) -> Seq<usize>
    decreases keys.len(),
{
    if keys.len() == 0 {
        Seq::empty()
    } else {
        let before = positions(keys.drop_last(), key);
        if keys.last() == key {
            before.push((keys.len() - 1) as usize)
        } else {
            before
        }
    }
}

/// What `pick` gives for the items at `places`, in the order of `places`.
pub open spec fn gather<A, B>(places: Seq<usize>, items: Seq<A>, pick: spec_fn(A) -> Option<B>)
    -> Seq<B>
    decreases places.len(),
{
    if places.len() == 0 {
        Seq::empty()
    } else {
        let before = gather(places.drop_last(), items, pick);
        match pick(items[places.last() as int]) {
            Some(picked) => before + seq![picked],
            None => before,
        }
    }
}

/// A key added at the end adds its place to the list of that key and to no
/// other.
pub proof fn lemma_positions_push<K>(keys: Seq<K>, added: K, key: K)
    ensures
        positions(keys.push(added), key) == if added == key {
            positions(keys, key).push(keys.len() as usize)
        } else {
            positions(keys, key)
        },
{
    assert(keys.push(added).drop_last() =~= keys);
}

/// Every place in the list of a key holds that key.
pub proof fn lemma_positions_sound<K>(keys: Seq<K>, key: K)
    requires
        keys.len() <= usize::MAX,
    ensures
        forall|j: int|
            0 <= j < positions(keys, key).len() ==> (#[trigger] positions(keys, key)[j])
                < keys.len() && keys[positions(keys, key)[j] as int] == key,
    decreases keys.len(),
{
    if keys.len() > 0 {
        let fewer = keys.drop_last();
        let before = positions(fewer, key);
        lemma_positions_sound(fewer, key);
        assert forall|j: int| 0 <= j < positions(keys, key).len() implies (#[trigger] positions(
            keys,
            key,
        )[j]) < keys.len() && keys[positions(keys, key)[j] as int] == key by {
            if j < before.len() {
                assert(positions(keys, key)[j] == before[j]);
                assert(fewer[before[j] as int] == keys[before[j] as int]);
            }
        }
    }
}

/// Every place that holds a key is in the list of that key.
pub proof fn lemma_positions_complete<K>(keys: Seq<K>, key: K, place: int)
    requires
        0 <= place < keys.len(),
        keys[place] == key,
    ensures
        positions(keys, key).contains(place as usize),
    decreases keys.len(),
{
    let before = positions(keys.drop_last(), key);
    if place == keys.len() - 1 {
        assert(positions(keys, key)[before.len() as int] == place as usize);
    } else {
        lemma_positions_complete(keys.drop_last(), key, place);
        let at = choose|at: int| 0 <= at < before.len() && before[at] == place as usize;
        assert(positions(keys, key)[at] == place as usize);
    }
}

/// A change of one key from one value to another leaves the lists of all
/// other keys as they were.
pub proof fn lemma_positions_update<K>(keys: Seq<K>, place: int, changed: K, key: K)
    requires
        0 <= place < keys.len(),
        keys[place] != key,
        changed != key,
    ensures
        positions(keys.update(place, changed), key) == positions(keys, key),
    decreases keys.len(),
{
    let after = keys.update(place, changed);
    if place == keys.len() - 1 {
        assert(after.drop_last() =~= keys.drop_last());
    } else {
        assert(after.drop_last() =~= keys.drop_last().update(place, changed));
        lemma_positions_update(keys.drop_last(), place, changed, key);
    }
}

/// What is gathered depends on the items at the places alone.
pub proof fn lemma_gather_local<A, B>(
    places: Seq<usize>,
    items: Seq<A>,
    others: Seq<A>,
    pick: spec_fn(A) -> Option<B>,
)
    requires
        forall|j: int| 0 <= j < places.len() ==> items[(#[trigger] places[j]) as int] == others[places[j] as int],
    ensures
        gather(places, items, pick) == gather(places, others, pick),
    decreases places.len(),
{
    if places.len() > 0 {
        assert(places.last() == places[places.len() - 1]);
        assert forall|j: int| 0 <= j < places.drop_last().len() implies items[(
        #[trigger] places.drop_last()[j]) as int] == others[places.drop_last()[j] as int] by {
            assert(places.drop_last()[j] == places[j]);
        }
        lemma_gather_local(places.drop_last(), items, others, pick);
    }
}

/// One place more gathers what `pick` gives for the item at that place.
pub proof fn lemma_gather_take_succ<A, B>(
    places: Seq<usize>,
    items: Seq<A>,
    pick: spec_fn(A) -> Option<B>,
    done: int,
)
    requires
        0 <= done < places.len(),
    ensures
        gather(places.take(done + 1), items, pick) == match pick(items[places[done] as int]) {
            Some(picked) => gather(places.take(done), items, pick) + seq![picked],
            None => gather(places.take(done), items, pick),
        },
{
    assert(places.take(done + 1).drop_last() =~= places.take(done));
}

/// Where `pick` gives nothing for an item filed under another key, walking
/// the places of a key gathers what walking all items gathers.
pub proof fn lemma_gather_is_filter_map<K, A, B>(
    keys: Seq<K>,
    key: K,
    items: Seq<A>,
    pick: spec_fn(A) -> Option<B>,
)
    requires
        keys.len() == items.len(),
        keys.len() <= usize::MAX,
        forall|i: int| 0 <= i < keys.len() && keys[i] != key ==> pick(#[trigger] items[i]) is None,
    ensures
        gather(positions(keys, key), items, pick) == items.filter_map(pick),
    decreases keys.len(),
{
    if keys.len() == 0 {
    } else {
        let fewer_keys = keys.drop_last();
        let fewer_items = items.drop_last();
        let before = positions(fewer_keys, key);
        assert forall|i: int| 0 <= i < fewer_keys.len() && fewer_keys[i] != key implies pick(
            #[trigger] fewer_items[i],
        ) is None by {
            assert(fewer_items[i] == items[i]);
        }
        lemma_gather_is_filter_map(fewer_keys, key, fewer_items, pick);
        lemma_positions_sound(fewer_keys, key);
        lemma_gather_local(before, items, fewer_items, pick);
        if keys.last() == key {
            assert(positions(keys, key).drop_last() =~= before);
        } else {
            assert(pick(items[keys.len() - 1]) is None);
        }
    }
}

} // verus!
