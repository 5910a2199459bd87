//! The mathematical model of a backing array and of linear probing in it.
//!
//! A backing array is modelled as a sequence of slots, each either empty or
//! holding the view of a key together with a value. Everything here is
//! specification; the executable table lives in [`crate::table`].

use vstd::prelude::*;
use crate::hashable::Hashable;

verus! {

/// The capacity of a freshly made table.
pub const INITIAL_CAPACITY: usize = 11;

/// The capacity that a table of capacity `len` grows to.
pub open spec fn grown(len: nat) -> nat {
    2 * len + 1
}

/// Whether `len` is the initial capacity or is reached from it by growing
/// some number of times.
pub open spec fn is_capacity(len: nat) -> bool
    decreases len,
{
    len == INITIAL_CAPACITY || (len > INITIAL_CAPACITY && len % 2 == 1 && is_capacity(
        ((len - 1) / 2) as nat,
    ))
}

/// The slot visited after slot `index` in an array of `len` slots.
pub open spec fn step(index: int, len: int) -> int {
    if index + 1 >= len {
        0
    } else {
        index + 1
    }
}

/// The number of steps that lead from slot `from` to slot `to`.
pub open spec fn distance(from: int, to: int, len: int) -> int {
    if to >= from {
        to - from
    } else {
        to - from + len
    }
}

/// Whether slot `index` is occupied by `key`.
pub open spec fn holds<K, V>(slots: Seq<Option<(K, V)>>, index: int, key: K) -> bool {
    &&& 0 <= index < slots.len()
    &&& slots[index] matches Some(entry)
    &&& entry.0 == key
}

/// The slot at which a scan for `key` stops when it starts at `index` and may
/// visit `remaining` slots: the first slot that is empty or occupied by
/// `key`. `None` when every visited slot is occupied by another key.
pub open spec fn probe<K, V>(
    slots: Seq<Option<(K, V)>>,
    key: K,
    index: int,
    remaining: nat,
) -> Option<int>
    decreases remaining,
{
    if remaining == 0 {
        None
    } else if slots[index] is None || holds(slots, index, key) {
        Some(index)
    } else {
        probe(slots, key, step(index, slots.len() as int), (remaining - 1) as nat)
    }
}

/// The slot at which every scan for `key` starts.
pub open spec fn home<Key: Hashable>(key: Key::V, len: nat) -> int {
    Key::digest(key) as int % len as int
}

/// The slot at which the scan for `key` through the whole array stops.
pub open spec fn find<Key: Hashable, Value>(
    slots: Seq<Option<(Key::V, Value)>>,
    key: Key::V,
) -> Option<int> {
    probe(slots, key, home::<Key>(key, slots.len()), slots.len())
}

/// The slot in which the scan for `key` finds it, if it does.
pub open spec fn index_of<Key: Hashable, Value>(
    slots: Seq<Option<(Key::V, Value)>>,
    key: Key::V,
) -> Option<int> {
    match find::<Key, Value>(slots, key) {
        Some(index) => if slots[index] is Some {
            Some(index)
        } else {
            None
        },
        None => None,
    }
}

/// The value that the scan for `key` finds, if it finds the key.
pub open spec fn lookup<Key: Hashable, Value>(
    slots: Seq<Option<(Key::V, Value)>>,
    key: Key::V,
) -> Option<Value> {
    match index_of::<Key, Value>(slots, key) {
        Some(index) => Some(slots[index].unwrap().1),
        None => None,
    }
}

/// The number of occupied slots.
pub open spec fn count<K, V>(slots: Seq<Option<(K, V)>>) -> nat
    decreases slots.len(),
{
    if slots.len() == 0 {
        0
    } else {
        count(slots.drop_last()) + if slots.last() is Some {
            1nat
        } else {
            0nat
        }
    }
}

/// The entries stored in the array, as a map from keys to values.
pub open spec fn contents<K, V>(slots: Seq<Option<(K, V)>>) -> Map<K, V> {
    Map::new(
        |key: K| exists|index: int| holds(slots, index, key),
        |key: K| slots[choose|index: int| holds(slots, index, key)].unwrap().1,
    )
}

/// An array of `len` empty slots.
pub open spec fn empty_slots<K, V>(len: nat) -> Seq<Option<(K, V)>> {
    Seq::new(len, |index: int| None)
}

/// The probing invariant: the length is a capacity, and every stored key is
/// stored where the scan for it stops. So no key is stored twice, and no
/// empty slot lies between a key's home and the slot that holds it.
pub open spec fn well_formed<Key: Hashable, Value>(slots: Seq<Option<(Key::V, Value)>>) -> bool {
    &&& is_capacity(slots.len())
    &&& forall|index: int|
        0 <= index < slots.len() && (#[trigger] slots[index]) is Some ==> find::<Key, Value>(
            slots,
            slots[index].unwrap().0,
        ) == Some(index)
}

/// The array after `key` is stored with `value` in the slot at which the
/// scan for it stops. The array is unchanged if the scan does not stop.
pub open spec fn put<Key: Hashable, Value>(
    slots: Seq<Option<(Key::V, Value)>>,
    key: Key::V,
    value: Value,
) -> Seq<Option<(Key::V, Value)>> {
    match find::<Key, Value>(slots, key) {
        Some(index) => slots.update(index, Some((key, value))),
        None => slots,
    }
}

/// The larger array after the entries in the first `upto` slots of `slots`
/// have been stored in it, in the order of their slots.
pub open spec fn rehashed_prefix<Key: Hashable, Value>(
    slots: Seq<Option<(Key::V, Value)>>,
    upto: nat,
) -> Seq<Option<(Key::V, Value)>>
    decreases upto,
{
    if upto == 0 {
        empty_slots(grown(slots.len()))
    } else {
        let before = rehashed_prefix::<Key, Value>(slots, (upto - 1) as nat);
        match slots[upto - 1] {
            Some(entry) => put::<Key, Value>(before, entry.0, entry.1),
            None => before,
        }
    }
}

/// The larger array that holds the entries of `slots` after growth.
pub open spec fn rehashed<Key: Hashable, Value>(
    slots: Seq<Option<(Key::V, Value)>>,
) -> Seq<Option<(Key::V, Value)>> {
    rehashed_prefix::<Key, Value>(slots, slots.len())
}

/// Whether storing `key` makes the array grow first: the key is new and no
/// slot is empty.
pub open spec fn needs_growth<Key: Hashable, Value>(
    slots: Seq<Option<(Key::V, Value)>>,
    key: Key::V,
) -> bool {
    index_of::<Key, Value>(slots, key) is None && count(slots) >= slots.len()
}

/// The array after `key` is inserted with `value`.
pub open spec fn inserted<Key: Hashable, Value>(
    slots: Seq<Option<(Key::V, Value)>>,
    key: Key::V,
    value: Value,
) -> Seq<Option<(Key::V, Value)>> {
    if needs_growth::<Key, Value>(slots, key) {
        put::<Key, Value>(rehashed::<Key, Value>(slots), key, value)
    } else {
        put::<Key, Value>(slots, key, value)
    }
}

} // verus!
