//! Lemmas about the number of occupied slots and about the stored entries.

use vstd::prelude::*;
use crate::model::{contents, count, empty_slots, holds};

verus! {

/// Whether no key occupies two slots.
pub open spec fn distinct_keys<K, V>(slots: Seq<Option<(K, V)>>) -> bool {
    forall|first: int, second: int|
        0 <= first < slots.len() && 0 <= second < slots.len() && (#[trigger] slots[first]) is Some
            && (#[trigger] slots[second]) is Some && slots[first].unwrap().0
            == slots[second].unwrap().0 ==> first == second
}

/// Where no key occupies two slots, none does among the first `upto`.
pub proof fn lemma_distinct_take<K, V>(slots: Seq<Option<(K, V)>>, upto: int)
    requires
        distinct_keys(slots),
        0 <= upto <= slots.len(),
    ensures
        distinct_keys(slots.take(upto)),
{
    let front = slots.take(upto);
    assert forall|first: int, second: int|
        0 <= first < front.len() && 0 <= second < front.len() && (#[trigger] front[first]) is Some
            && (#[trigger] front[second]) is Some && front[first].unwrap().0
            == front[second].unwrap().0 implies first == second by {
        assert(slots[first] is Some && slots[second] is Some);
    }
}

/// An array of empty slots has no occupied slot.
pub proof fn lemma_count_empty<K, V>(len: nat)
    ensures
        count(empty_slots::<K, V>(len)) == 0,
    decreases len,
{
    if len > 0 {
        lemma_count_empty::<K, V>((len - 1) as nat);
        assert(empty_slots::<K, V>(len).drop_last() =~= empty_slots::<K, V>((len - 1) as nat));
    }
}

/// No more slots are occupied than there are, and all are only if each is.
pub proof fn lemma_count_bound<K, V>(slots: Seq<Option<(K, V)>>)
    ensures
        count(slots) <= slots.len(),
        count(slots) == slots.len() <==> forall|index: int|
            0 <= index < slots.len() ==> (#[trigger] slots[index]) is Some,
    decreases slots.len(),
{
    if slots.len() > 0 {
        let front = slots.drop_last();
        lemma_count_bound(front);
        if count(slots) == slots.len() {
            assert forall|index: int| 0 <= index < slots.len() implies (
            #[trigger] slots[index]) is Some by {
                if index < front.len() {
                    assert(front[index] is Some);
                }
            }
        }
        if forall|index: int| 0 <= index < slots.len() ==> (#[trigger] slots[index]) is Some {
            assert forall|index: int| 0 <= index < front.len() implies (
            #[trigger] front[index]) is Some by {
                assert(slots[index] is Some);
            }
        }
    }
}

/// Writing an entry to a slot adds one to the count if the slot was empty.
pub proof fn lemma_count_update<K, V>(slots: Seq<Option<(K, V)>>, index: int, entry: (K, V))
    requires
        0 <= index < slots.len(),
    ensures
        count(slots.update(index, Some(entry))) == count(slots) + if slots[index] is None {
            1nat
        } else {
            0nat
        },
    decreases slots.len(),
{
    let after = slots.update(index, Some(entry));
    if index == slots.len() - 1 {
        assert(after.drop_last() =~= slots.drop_last());
    } else {
        lemma_count_update(slots.drop_last(), index, entry);
        assert(after.drop_last() =~= slots.drop_last().update(index, Some(entry)));
    }
}

/// Where no key occupies two slots, the entries are what the slots hold.
pub proof fn lemma_contents_of_slot<K, V>(slots: Seq<Option<(K, V)>>, index: int)
    requires
        distinct_keys(slots),
        0 <= index < slots.len(),
        slots[index] is Some,
    ensures
        contents(slots).contains_key(slots[index].unwrap().0),
        contents(slots)[slots[index].unwrap().0] == slots[index].unwrap().1,
{
    let key = slots[index].unwrap().0;
    assert(holds(slots, index, key));
    let chosen = choose|other: int| holds(slots, other, key);
    assert(slots[chosen] is Some);
    assert(chosen == index);
}

/// An empty array stores nothing.
pub proof fn lemma_contents_empty<K, V>(len: nat)
    ensures
        contents(empty_slots::<K, V>(len)) == Map::<K, V>::empty(),
{
    assert(contents(empty_slots::<K, V>(len)) =~= Map::<K, V>::empty());
}

/// The entries of an array are those of all its slots but the last, and
/// the entry of the last slot, whose key no other slot holds.
pub proof fn lemma_contents_last<K, V>(slots: Seq<Option<(K, V)>>)
    requires
        distinct_keys(slots),
        slots.len() > 0,
    ensures
        distinct_keys(slots.drop_last()),
        contents(slots) == match slots.last() {
            Some(entry) => contents(slots.drop_last()).insert(entry.0, entry.1),
            None => contents(slots.drop_last()),
        },
        slots.last() matches Some(entry) ==> !contents(slots.drop_last()).contains_key(entry.0),
{
    let front = slots.drop_last();
    let last = slots.len() - 1;
    lemma_distinct_take(slots, last);
    assert(front =~= slots.take(last));
    if let Some(entry) = slots.last() {
        if contents(front).contains_key(entry.0) {
            let index = choose|index: int| holds(front, index, entry.0);
            assert(slots[index] is Some && slots[last] is Some);
        }
    }
    let expected = match slots.last() {
        Some(entry) => contents(front).insert(entry.0, entry.1),
        None => contents(front),
    };
    assert forall|key: K| #[trigger]
        contents(slots).dom().contains(key) == expected.dom().contains(key) && (
        expected.dom().contains(key) ==> contents(slots)[key] == expected[key]) by {
        if contents(slots).contains_key(key) {
            let index = choose|index: int| holds(slots, index, key);
            lemma_contents_of_slot(slots, index);
            if index < last {
                assert(holds(front, index, key));
                lemma_contents_of_slot(front, index);
            }
        }
        if contents(front).contains_key(key) {
            let index = choose|index: int| holds(front, index, key);
            assert(holds(slots, index, key));
        }
        if slots.last() matches Some(entry) && entry.0 == key {
            assert(holds(slots, last, key));
        }
    }
    assert(contents(slots) =~= expected);
}

/// Where no key occupies two slots, there are as many entries as occupied
/// slots.
pub proof fn lemma_contents_len<K, V>(slots: Seq<Option<(K, V)>>)
    requires
        distinct_keys(slots),
    ensures
        contents(slots).dom().finite(),
        contents(slots).len() == count(slots),
    decreases slots.len(),
{
    if slots.len() == 0 {
        assert(contents(slots) =~= Map::<K, V>::empty());
    } else {
        lemma_contents_last(slots);
        lemma_contents_len(slots.drop_last());
    }
}

} // verus!
