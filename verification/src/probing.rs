//! Lemmas about scans through a backing array.

use vstd::prelude::*;
use vstd::arithmetic::div_mod::{lemma_mod_self_0, lemma_small_mod};
use crate::model::{distance, holds, probe, step};

verus! {

/// Stepping to the next slot is adding one modulo the length.
pub proof fn lemma_step_wraps(index: int, len: int)
    requires
        0 <= index < len,
    ensures
        (index + 1) % len == step(index, len),
{
    if index + 1 < len {
        lemma_small_mod((index + 1) as nat, len as nat);
    } else {
        lemma_mod_self_0(len);
    }
}

/// A scan stops only at a slot of the array that is empty or occupied by
/// the key it looks for.
pub proof fn lemma_probe_stops<K, V>(
    slots: Seq<Option<(K, V)>>,
    key: K,
    index: int,
    remaining: nat,
)
    requires
        0 <= index < slots.len(),
    ensures
        probe(slots, key, index, remaining) matches Some(stop) ==> {
            &&& 0 <= stop < slots.len()
            &&& distance(index, stop, slots.len() as int) < remaining
            &&& slots[stop] is None || holds(slots, stop, key)
        },
    decreases remaining,
{
    if remaining > 0 && !(slots[index] is None || holds(slots, index, key)) {
        lemma_probe_stops(slots, key, step(index, slots.len() as int), (remaining - 1) as nat);
    }
}

/// A scan that does not stop has seen only slots occupied by other keys.
pub proof fn lemma_probe_exhausted<K, V>(
    slots: Seq<Option<(K, V)>>,
    key: K,
    index: int,
    remaining: nat,
)
    requires
        0 <= index < slots.len(),
        remaining <= slots.len(),
        probe(slots, key, index, remaining) is None,
    ensures
        forall|other: int|
            0 <= other < slots.len() && distance(index, other, slots.len() as int) < remaining
                ==> (#[trigger] slots[other]) is Some && !holds(slots, other, key),
    decreases remaining,
{
    if remaining > 0 {
        let next = step(index, slots.len() as int);
        lemma_probe_exhausted(slots, key, next, (remaining - 1) as nat);
        assert forall|other: int|
            0 <= other < slots.len() && distance(index, other, slots.len() as int)
                < remaining implies (#[trigger] slots[other]) is Some && !holds(
            slots,
            other,
            key,
        ) by {
            if other != index {
                assert(distance(next, other, slots.len() as int) == distance(
                    index,
                    other,
                    slots.len() as int,
                ) - 1);
            }
        }
    }
}

/// Whether two arrays agree on which slots are occupied, and by which keys.
pub open spec fn same_keys<K, V>(first: Seq<Option<(K, V)>>, second: Seq<Option<(K, V)>>) -> bool {
    &&& first.len() == second.len()
    &&& forall|index: int|
        0 <= index < first.len() ==> {
            &&& (#[trigger] first[index]) is Some <==> second[index] is Some
            &&& first[index] is Some ==> first[index].unwrap().0 == second[index].unwrap().0
        }
}

/// A scan looks at occupancy and keys only, never at values.
pub proof fn lemma_probe_ignores_values<K, V>(
    first: Seq<Option<(K, V)>>,
    second: Seq<Option<(K, V)>>,
    key: K,
    index: int,
    remaining: nat,
)
    requires
        same_keys(first, second),
        0 <= index < first.len(),
    ensures
        probe(first, key, index, remaining) == probe(second, key, index, remaining),
    decreases remaining,
{
    if remaining > 0 {
        assert(first[index] is Some <==> second[index] is Some);
        lemma_probe_ignores_values(
            first,
            second,
            key,
            step(index, first.len() as int),
            (remaining - 1) as nat,
        );
    }
}

/// Filling an empty slot leaves a scan alone that stopped at another slot.
pub proof fn lemma_probe_after_filling_another<K, V>(
    slots: Seq<Option<(K, V)>>,
    filled: int,
    entry: (K, V),
    key: K,
    index: int,
    remaining: nat,
)
    requires
        0 <= index < slots.len(),
        0 <= filled < slots.len(),
        slots[filled] is None,
        probe(slots, key, index, remaining) matches Some(stop) && stop != filled,
    ensures
        probe(slots.update(filled, Some(entry)), key, index, remaining) == probe(
            slots,
            key,
            index,
            remaining,
        ),
    decreases remaining,
{
    if !(slots[index] is None || holds(slots, index, key)) {
        lemma_probe_after_filling_another(
            slots,
            filled,
            entry,
            key,
            step(index, slots.len() as int),
            (remaining - 1) as nat,
        );
    }
}

/// Once the slot at which the scan for a key stopped holds that key, the
/// scan stops there still.
pub proof fn lemma_probe_after_filling_stop<K, V>(
    slots: Seq<Option<(K, V)>>,
    key: K,
    value: V,
    index: int,
    remaining: nat,
)
    requires
        0 <= index < slots.len(),
        probe(slots, key, index, remaining) is Some,
    ensures
        probe(
            slots.update(probe(slots, key, index, remaining).unwrap(), Some((key, value))),
            key,
            index,
            remaining,
        ) == probe(slots, key, index, remaining),
    decreases remaining,
{
    let stop = probe(slots, key, index, remaining).unwrap();
    if !(slots[index] is None || holds(slots, index, key)) {
        let next = step(index, slots.len() as int);
        lemma_probe_stops(slots, key, next, (remaining - 1) as nat);
        lemma_probe_after_filling_stop(slots, key, value, next, (remaining - 1) as nat);
        assert(stop != index);
    }
}

} // verus!
