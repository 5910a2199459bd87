//! What holds of every table, stated over the model of the backing array.

use vstd::prelude::*;
use crate::entries::lemma_count_bound;
use crate::hashable::Hashable;
use crate::model::{
    contents, count, empty_slots, holds, inserted, is_capacity, lookup, rehashed, well_formed,
    INITIAL_CAPACITY,
};
use crate::placement::{
    lemma_grown_is_capacity, lemma_inserted, lemma_lookup_is_contents, lemma_rehashed,
    lemma_well_formed_distinct,
};

verus! {

/// The array after the entries of `entries` are inserted one after the
/// other.
pub open spec fn inserted_all<Key: Hashable, Value>(
    slots: Seq<Option<(Key::V, Value)>>,
    entries: Seq<(Key::V, Value)>,
) -> Seq<Option<(Key::V, Value)>>
    decreases entries.len(),
{
    if entries.len() == 0 {
        slots
    } else {
        inserted::<Key, Value>(
            inserted_all::<Key, Value>(slots, entries.drop_last()),
            entries.last().0,
            entries.last().1,
        )
    }
}

/// An array of the initial capacity with no entry is well formed.
pub proof fn lemma_fresh_is_well_formed<Key: Hashable, Value>()
    ensures
        well_formed::<Key, Value>(empty_slots::<Key::V, Value>(INITIAL_CAPACITY as nat)),
{
}

/// A lookup that follows the insertion of a key finds the inserted value.
pub proof fn lemma_insert_then_lookup<Key: Hashable, Value>(
    slots: Seq<Option<(Key::V, Value)>>,
    key: Key::V,
    value: Value,
)
    requires
        well_formed::<Key, Value>(slots),
    ensures
        lookup::<Key, Value>(inserted::<Key, Value>(slots, key, value), key) == Some(value),
{
    lemma_inserted::<Key, Value>(slots, key, value);
    lemma_lookup_is_contents::<Key, Value>(inserted::<Key, Value>(slots, key, value), key);
}

/// Inserting a key a second time replaces its value and occupies no further
/// slot: the key occupies exactly one slot, the count and the capacity stay
/// as they were after the first insertion, and a lookup finds the second
/// value.
pub proof fn lemma_insert_twice<Key: Hashable, Value>(
    slots: Seq<Option<(Key::V, Value)>>,
    key: Key::V,
    first: Value,
    second: Value,
)
    requires
        well_formed::<Key, Value>(slots),
    ensures
        ({
            let once = inserted::<Key, Value>(slots, key, first);
            let twice = inserted::<Key, Value>(once, key, second);
            &&& lookup::<Key, Value>(twice, key) == Some(second)
            &&& count(twice) == count(once)
            &&& twice.len() == once.len()
            &&& exists|index: int| holds(twice, index, key)
            &&& forall|index: int, other: int|
                holds(twice, index, key) && holds(twice, other, key) ==> index == other
        }),
{
    let once = inserted::<Key, Value>(slots, key, first);
    let twice = inserted::<Key, Value>(once, key, second);
    lemma_inserted::<Key, Value>(slots, key, first);
    lemma_inserted::<Key, Value>(once, key, second);
    lemma_lookup_is_contents::<Key, Value>(once, key);
    lemma_lookup_is_contents::<Key, Value>(twice, key);
    lemma_well_formed_distinct::<Key, Value>(twice);
    assert(contents(twice).contains_key(key));
    assert forall|index: int, other: int|
        holds(twice, index, key) && holds(twice, other, key) implies index == other by {
        assert(twice[index] is Some && twice[other] is Some);
    }
}

/// A lookup in a table without entries finds nothing.
pub proof fn lemma_lookup_in_fresh<Key: Hashable, Value>(key: Key::V)
    ensures
        lookup::<Key, Value>(empty_slots::<Key::V, Value>(INITIAL_CAPACITY as nat), key) is None,
{
    lemma_fresh_is_well_formed::<Key, Value>();
    lemma_lookup_is_contents::<Key, Value>(
        empty_slots::<Key::V, Value>(INITIAL_CAPACITY as nat),
        key,
    );
}

/// Inserting a key leaves the lookup of every other key as it was, whether
/// or not the array grows.
pub proof fn lemma_insert_keeps_others<Key: Hashable, Value>(
    slots: Seq<Option<(Key::V, Value)>>,
    key: Key::V,
    value: Value,
    other: Key::V,
)
    requires
        well_formed::<Key, Value>(slots),
        other != key,
    ensures
        lookup::<Key, Value>(inserted::<Key, Value>(slots, key, value), other) == lookup::<
            Key,
            Value,
        >(slots, other),
{
    lemma_inserted::<Key, Value>(slots, key, value);
    lemma_lookup_is_contents::<Key, Value>(slots, other);
    lemma_lookup_is_contents::<Key, Value>(inserted::<Key, Value>(slots, key, value), other);
}

/// Growth leaves the lookup of every key as it was.
pub proof fn lemma_growth_keeps_entries<Key: Hashable, Value>(
    slots: Seq<Option<(Key::V, Value)>>,
    key: Key::V,
)
    requires
        well_formed::<Key, Value>(slots),
    ensures
        lookup::<Key, Value>(rehashed::<Key, Value>(slots), key) == lookup::<Key, Value>(
            slots,
            key,
        ),
{
    lemma_rehashed::<Key, Value>(slots);
    lemma_lookup_is_contents::<Key, Value>(slots, key);
    lemma_lookup_is_contents::<Key, Value>(rehashed::<Key, Value>(slots), key);
}

/// Any number of insertions leaves the array well formed.
pub proof fn lemma_inserted_all_well_formed<Key: Hashable, Value>(
    slots: Seq<Option<(Key::V, Value)>>,
    entries: Seq<(Key::V, Value)>,
)
    requires
        well_formed::<Key, Value>(slots),
    ensures
        well_formed::<Key, Value>(inserted_all::<Key, Value>(slots, entries)),
    decreases entries.len(),
{
    if entries.len() > 0 {
        lemma_inserted_all_well_formed::<Key, Value>(slots, entries.drop_last());
        lemma_inserted::<Key, Value>(
            inserted_all::<Key, Value>(slots, entries.drop_last()),
            entries.last().0,
            entries.last().1,
        );
    }
}

/// After entries with distinct keys are inserted, however many and however
/// often the array grew, a lookup of each key finds its value.
pub proof fn lemma_inserted_all_found<Key: Hashable, Value>(
    slots: Seq<Option<(Key::V, Value)>>,
    entries: Seq<(Key::V, Value)>,
    position: int,
)
    requires
        well_formed::<Key, Value>(slots),
        0 <= position < entries.len(),
        forall|first: int, second: int|
            0 <= first < second < entries.len() ==> entries[first].0 != entries[second].0,
    ensures
        lookup::<Key, Value>(inserted_all::<Key, Value>(slots, entries), entries[position].0)
            == Some(entries[position].1),
    decreases entries.len(),
{
    let before = inserted_all::<Key, Value>(slots, entries.drop_last());
    lemma_inserted_all_well_formed::<Key, Value>(slots, entries.drop_last());
    if position == entries.len() - 1 {
        lemma_insert_then_lookup::<Key, Value>(before, entries.last().0, entries.last().1);
    } else {
        lemma_inserted_all_found::<Key, Value>(slots, entries.drop_last(), position);
        lemma_insert_keeps_others::<Key, Value>(
            before,
            entries.last().0,
            entries.last().1,
            entries[position].0,
        );
    }
}

/// In a well-formed array no more slots are occupied than there are, and
/// the number of slots is odd and is the initial capacity or reached from
/// it by growing.
pub proof fn lemma_capacity_invariant<Key: Hashable, Value>(slots: Seq<Option<(Key::V, Value)>>)
    requires
        well_formed::<Key, Value>(slots),
    ensures
        count(slots) <= slots.len(),
        slots.len() % 2 == 1,
        is_capacity(slots.len()),
        slots.len() >= INITIAL_CAPACITY,
{
    lemma_count_bound(slots);
    lemma_grown_is_capacity(slots.len());
}

/// Keys that are the same have the same digest.
pub proof fn lemma_same_key_same_digest<Key: Hashable>(first: Key, second: Key)
    requires
        first@ == second@,
    ensures
        Key::digest(first@) == Key::digest(second@),
{
}

/// The digest of an integer key is the key itself.
pub proof fn lemma_integer_digest(key: usize)
    ensures
        <usize as Hashable>::digest(key@) == key,
{
}

} // verus!
