//! Lemmas about storing entries: what it does to the probing invariant, to
//! the count and to the stored entries.

use vstd::prelude::*;
use crate::entries::{
    distinct_keys, lemma_contents_empty, lemma_contents_last, lemma_contents_of_slot,
    lemma_count_bound, lemma_count_empty, lemma_count_update, lemma_distinct_take,
};
use crate::hashable::Hashable;
use crate::model::{
    contents, count, find, grown, holds, home, index_of, inserted, is_capacity, lookup,
    needs_growth, put, rehashed, rehashed_prefix, well_formed,
};
use crate::probing::{
    lemma_probe_after_filling_another, lemma_probe_after_filling_stop, lemma_probe_exhausted,
    lemma_probe_ignores_values, lemma_probe_stops, same_keys,
};

verus! {

/// In a well-formed array no key occupies two slots.
pub proof fn lemma_well_formed_distinct<Key: Hashable, Value>(
    slots: Seq<Option<(Key::V, Value)>>,
)
    requires
        well_formed::<Key, Value>(slots),
    ensures
        distinct_keys(slots),
{
}

/// The scan for a key stops if a slot is empty or a slot holds the key.
pub proof fn lemma_find_stops<Key: Hashable, Value>(
    slots: Seq<Option<(Key::V, Value)>>,
    key: Key::V,
)
    requires
        slots.len() > 0,
        count(slots) < slots.len() || contents(slots).contains_key(key),
    ensures
        find::<Key, Value>(slots, key) matches Some(stop) && 0 <= stop < slots.len() && (
        slots[stop] is None || holds(slots, stop, key)),
{
    let start = home::<Key>(key, slots.len());
    lemma_probe_stops(slots, key, start, slots.len());
    if find::<Key, Value>(slots, key) is None {
        lemma_probe_exhausted(slots, key, start, slots.len());
        lemma_count_bound(slots);
        if contents(slots).contains_key(key) {
            let index = choose|index: int| holds(slots, index, key);
            assert(slots[index] is Some);
        }
    }
}

/// In a well-formed array the scan finds exactly the stored entries.
pub proof fn lemma_lookup_is_contents<Key: Hashable, Value>(
    slots: Seq<Option<(Key::V, Value)>>,
    key: Key::V,
)
    requires
        well_formed::<Key, Value>(slots),
    ensures
        index_of::<Key, Value>(slots, key) is Some <==> contents(slots).contains_key(key),
        lookup::<Key, Value>(slots, key) == if contents(slots).contains_key(key) {
            Some(contents(slots)[key])
        } else {
            None
        },
{
    lemma_probe_stops(slots, key, home::<Key>(key, slots.len()), slots.len());
    if contents(slots).contains_key(key) {
        let index = choose|index: int| holds(slots, index, key);
        assert(slots[index] is Some);
        lemma_contents_of_slot(slots, index);
    }
}

/// Storing an entry keeps the array well formed.
proof fn lemma_put_well_formed<Key: Hashable, Value>(
    slots: Seq<Option<(Key::V, Value)>>,
    key: Key::V,
    value: Value,
)
    requires
        well_formed::<Key, Value>(slots),
    ensures
        well_formed::<Key, Value>(put::<Key, Value>(slots, key, value)),
{
    let after = put::<Key, Value>(slots, key, value);
    let len = slots.len();
    lemma_probe_stops(slots, key, home::<Key>(key, len), len);
    if let Some(stop) = find::<Key, Value>(slots, key) {
        assert forall|index: int|
            0 <= index < len && (#[trigger] after[index]) is Some implies find::<Key, Value>(
            after,
            after[index].unwrap().0,
        ) == Some(index) by {
            let stored = after[index].unwrap().0;
            let start = home::<Key>(stored, len);
            if index == stop {
                lemma_probe_after_filling_stop(slots, key, value, start, len);
            } else if slots[stop] is None {
                assert(slots[index] is Some);
                lemma_probe_after_filling_another(slots, stop, (key, value), stored, start, len);
            } else {
                assert(slots[index] is Some);
                assert(same_keys(slots, after));
                lemma_probe_ignores_values(slots, after, stored, start, len);
            }
        }
    }
}

/// Storing an entry adds it to the stored entries, replacing the value that
/// its key had; the count grows by one if the key is new.
pub proof fn lemma_put<Key: Hashable, Value>(
    slots: Seq<Option<(Key::V, Value)>>,
    key: Key::V,
    value: Value,
)
    requires
        well_formed::<Key, Value>(slots),
        count(slots) < slots.len() || contents(slots).contains_key(key),
    ensures
        well_formed::<Key, Value>(put::<Key, Value>(slots, key, value)),
        put::<Key, Value>(slots, key, value).len() == slots.len(),
        contents(put::<Key, Value>(slots, key, value)) == contents(slots).insert(key, value),
        count(put::<Key, Value>(slots, key, value)) == count(slots) + if contents(
            slots,
        ).contains_key(key) {
            0nat
        } else {
            1nat
        },
{
    let after = put::<Key, Value>(slots, key, value);
    lemma_put_well_formed::<Key, Value>(slots, key, value);
    lemma_find_stops::<Key, Value>(slots, key);
    lemma_lookup_is_contents::<Key, Value>(slots, key);
    let stop = find::<Key, Value>(slots, key).unwrap();
    lemma_count_update(slots, stop, (key, value));
    assert(holds(after, stop, key));
    lemma_contents_of_slot(after, stop);
    let expected = contents(slots).insert(key, value);
    assert forall|other: Key::V| #[trigger]
        contents(after).dom().contains(other) == expected.dom().contains(other) && (
        expected.dom().contains(other) ==> contents(after)[other] == expected[other]) by {
        if other != key {
            if contents(after).contains_key(other) {
                let index = choose|index: int| holds(after, index, other);
                assert(holds(slots, index, other));
            }
            if contents(slots).contains_key(other) {
                let index = choose|index: int| holds(slots, index, other);
                assert(holds(after, index, other));
                lemma_contents_of_slot(slots, index);
                lemma_contents_of_slot(after, index);
            }
        }
    }
    assert(contents(after) =~= expected);
}

/// Growing a capacity gives a capacity.
pub proof fn lemma_grown_is_capacity(len: nat)
    requires
        is_capacity(len),
    ensures
        is_capacity(grown(len)),
        len > 0,
        len % 2 == 1,
{
    assert(((grown(len) - 1) / 2) as nat == len);
}

/// While entries move to the larger array, it stays well formed and holds
/// exactly the entries of the slots that were moved.
pub proof fn lemma_rehashed_prefix<Key: Hashable, Value>(
    slots: Seq<Option<(Key::V, Value)>>,
    upto: nat,
)
    requires
        well_formed::<Key, Value>(slots),
        upto <= slots.len(),
    ensures
        well_formed::<Key, Value>(rehashed_prefix::<Key, Value>(slots, upto)),
        rehashed_prefix::<Key, Value>(slots, upto).len() == grown(slots.len()),
        count(rehashed_prefix::<Key, Value>(slots, upto)) == count(slots.take(upto as int)),
        contents(rehashed_prefix::<Key, Value>(slots, upto)) == contents(
            slots.take(upto as int),
        ),
    decreases upto,
{
    lemma_grown_is_capacity(slots.len());
    let moved = slots.take(upto as int);
    if upto == 0 {
        lemma_count_empty::<Key::V, Value>(grown(slots.len()));
        lemma_contents_empty::<Key::V, Value>(grown(slots.len()));
        assert(contents(moved) =~= Map::<Key::V, Value>::empty());
    } else {
        let before = rehashed_prefix::<Key, Value>(slots, (upto - 1) as nat);
        lemma_rehashed_prefix::<Key, Value>(slots, (upto - 1) as nat);
        assert(moved.drop_last() =~= slots.take(upto - 1));
        assert(moved.last() == slots[upto - 1]);
        lemma_distinct_take(slots, upto as int);
        lemma_contents_last(moved);
        lemma_count_bound(moved.drop_last());
        if let Some(entry) = slots[upto - 1] {
            lemma_put::<Key, Value>(before, entry.0, entry.1);
        }
    }
}

/// Growth keeps the array well formed and keeps every entry.
pub proof fn lemma_rehashed<Key: Hashable, Value>(slots: Seq<Option<(Key::V, Value)>>)
    requires
        well_formed::<Key, Value>(slots),
    ensures
        well_formed::<Key, Value>(rehashed::<Key, Value>(slots)),
        rehashed::<Key, Value>(slots).len() == grown(slots.len()),
        count(rehashed::<Key, Value>(slots)) == count(slots),
        contents(rehashed::<Key, Value>(slots)) == contents(slots),
{
    lemma_rehashed_prefix::<Key, Value>(slots, slots.len());
    assert(slots.take(slots.len() as int) =~= slots);
}

/// Inserting keeps the array well formed, grows it exactly when the key is
/// new and no slot is empty, and adds the entry to the stored entries.
pub proof fn lemma_inserted<Key: Hashable, Value>(
    slots: Seq<Option<(Key::V, Value)>>,
    key: Key::V,
    value: Value,
)
    requires
        well_formed::<Key, Value>(slots),
    ensures
        well_formed::<Key, Value>(inserted::<Key, Value>(slots, key, value)),
        inserted::<Key, Value>(slots, key, value).len() == if needs_growth::<Key, Value>(
            slots,
            key,
        ) {
            grown(slots.len())
        } else {
            slots.len()
        },
        contents(inserted::<Key, Value>(slots, key, value)) == contents(slots).insert(key, value),
        count(inserted::<Key, Value>(slots, key, value)) == count(slots) + if contents(
            slots,
        ).contains_key(key) {
            0nat
        } else {
            1nat
        },
{
    lemma_lookup_is_contents::<Key, Value>(slots, key);
    lemma_count_bound(slots);
    if needs_growth::<Key, Value>(slots, key) {
        lemma_rehashed::<Key, Value>(slots);
        lemma_put::<Key, Value>(rehashed::<Key, Value>(slots), key, value);
    } else {
        lemma_put::<Key, Value>(slots, key, value);
    }
}

} // verus!
