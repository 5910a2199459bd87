//! Counting how often each of a run of random keys occurs: the workload by
//! which the table is compared with the hash map of the standard library.

use std::collections::HashMap;
use vstd::prelude::*;
use crate::model::{grown, inserted};
use crate::table::HashTable;

verus! {

broadcast use vstd::std_specs::hash::group_hash_axioms;

/// How often `key` occurs in `keys`.
pub open spec fn occurrences(keys: Seq<usize>, key: usize) -> nat
    decreases keys.len(),
{
    if keys.len() == 0 {
        0
    } else {
        occurrences(keys.drop_last(), key) + if keys.last() == key {
            1nat
        } else {
            0nat
        }
    }
}

/// Whether `tally` maps each key that occurs in `keys`, and no other, to
/// the number of times it occurs.
pub open spec fn tallies(tally: Map<usize, usize>, keys: Seq<usize>) -> bool {
    forall|key: usize|
        {
            &&& #[trigger] tally.contains_key(key) <==> occurrences(keys, key) > 0
            &&& tally.contains_key(key) ==> tally[key] == occurrences(keys, key)
        }
}

/// The count that a tally holds for `key` once the key has occurred once
/// more.
pub open spec fn counted_once_more(tally: Map<usize, usize>, key: usize) -> int {
    if tally.contains_key(key) {
        tally[key] + 1
    } else {
        1
    }
}

/// No key occurs more often than there are keys.
pub proof fn lemma_occurrences_bound(keys: Seq<usize>, key: usize)
    ensures
        occurrences(keys, key) <= keys.len(),
    decreases keys.len(),
{
    if keys.len() > 0 {
        lemma_occurrences_bound(keys.drop_last(), key);
    }
}

/// A tally of `keys` in which the count of `key` is raised by one is a
/// tally of `keys` followed by `key`.
pub proof fn lemma_tallies_push(
    tally: Map<usize, usize>,
    keys: Seq<usize>,
    key: usize,
    raised: Map<usize, usize>,
)
    requires
        tallies(tally, keys),
        counted_once_more(tally, key) <= usize::MAX,
        raised == tally.insert(key, counted_once_more(tally, key) as usize),
    ensures
        tallies(raised, keys.push(key)),
{
    let longer = keys.push(key);
    assert(longer.drop_last() =~= keys);
    assert forall|other: usize|
        {
            &&& #[trigger] raised.contains_key(other) <==> occurrences(longer, other) > 0
            &&& raised.contains_key(other) ==> raised[other] == occurrences(longer, other)
        } by {
        assert(tally.contains_key(other) <==> occurrences(keys, other) > 0);
    }
}

/// Counts one occurrence of `key` in `table`.
pub fn count_key(table: &mut HashTable<usize, usize>, key: usize)
    requires
        old(table).wf(),
        counted_once_more(old(table)@, key) <= usize::MAX,
        old(table).grows_on(key) ==> grown(old(table).spec_capacity()) <= usize::MAX,
    ensures
        final(table).wf(),
        final(table).slots() == inserted::<usize, usize>(
            old(table).slots(),
            key,
            counted_once_more(old(table)@, key) as usize,
        ),
        final(table)@ == old(table)@.insert(key, counted_once_more(old(table)@, key) as usize),
        final(table).spec_len() == old(table).spec_len() + if old(table)@.contains_key(key) {
            0nat
        } else {
            1nat
        },
{
    if let Some(value) = table.get_mut(&key) {
        *value += 1;
    } else {
        table.insert(key, 1);
    }
}

/// A key drawn at random.
///
/// Calls `rand::random::<usize>()`, which draws from the generator of the
/// calling thread. Nothing is claimed of the key: any `usize` may come back.
#[verifier::external_body]
fn random_key() -> usize {
    rand::random::<usize>()
}

/// Draws `n` random keys and counts in a table how often each was drawn.
/// Whatever keys are drawn, the table holds their tally.
pub fn tally_random_keys(n: usize) -> (table: HashTable<usize, usize>)
    requires
        2 * n <= usize::MAX,
    ensures
        table.wf(),
        exists|keys: Seq<usize>| keys.len() == n && tallies(table@, keys),
{
    let mut table = HashTable::<usize, usize>::new();
    let ghost mut keys = Seq::<usize>::empty();
    for drawn in 0..n
        invariant
            2 * n <= usize::MAX,
            table.wf(),
            table.spec_len() <= drawn,
            keys.len() == drawn,
            tallies(table@, keys),
    {
        let key = random_key();
        proof {
            table.lemma_capacity_invariant();
            lemma_occurrences_bound(keys, key);
            assert(table@.contains_key(key) <==> occurrences(keys, key) > 0);
        }
        let ghost before = table@;
        count_key(&mut table, key);
        proof {
            lemma_tallies_push(before, keys, key, table@);
            keys = keys.push(key);
        }
    }
    table
}

/// Draws `n` random keys and counts in a hash map of the standard library
/// how often each was drawn. Whatever keys are drawn, the map holds their
/// tally.
pub fn tally_random_keys_std(n: usize) -> (tally: HashMap<usize, usize>)
    ensures
        exists|keys: Seq<usize>| keys.len() == n && tallies(tally@, keys),
{
    let mut tally = HashMap::<usize, usize>::new();
    let ghost mut keys = Seq::<usize>::empty();
    for drawn in 0..n
        invariant
            keys.len() == drawn,
            tallies(tally@, keys),
    {
        let key = random_key();
        proof {
            lemma_occurrences_bound(keys, key);
            assert(tally@.contains_key(key) <==> occurrences(keys, key) > 0);
        }
        let ghost before = tally@;
        let seen = match tally.get(&key) {
            Some(count) => *count,
            None => 0,
        };
        tally.insert(key, seen + 1);
        proof {
            lemma_tallies_push(before, keys, key, tally@);
            keys = keys.push(key);
        }
    }
    tally
}

} // verus!
