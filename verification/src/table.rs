//! The hash table: a backing array of cells, filled by linear probing.

use vstd::prelude::*;
use crate::entries::{
    lemma_contents_empty, lemma_contents_len, lemma_count_bound, lemma_count_empty,
};
use crate::hashable::Hashable;
use crate::model::{
    contents, count, empty_slots, find, grown, holds, home, index_of, inserted, is_capacity,
    lookup, probe, put, rehashed, rehashed_prefix, well_formed, INITIAL_CAPACITY,
};
use crate::placement::{
    lemma_find_stops, lemma_grown_is_capacity, lemma_inserted, lemma_lookup_is_contents, lemma_put,
    lemma_rehashed, lemma_rehashed_prefix, lemma_well_formed_distinct,
};
use crate::probing::{lemma_probe_exhausted, lemma_step_wraps};

verus! {

/// One slot of the backing array. `key` and `value` mean something only
/// while `taken` is set.
struct HashCell<Key, Value> {
    key: Key,
    value: Value,
    taken: bool,
}

/// An open-addressing hash table with linear probing and no deletion.
pub struct HashTable<Key, Value> {
    cells: Vec<HashCell<Key, Value>>,
    taken_count: usize,
}

impl<Key: Hashable, Value> HashCell<Key, Value> {
    /// The slot that this cell stands for.
    spec fn slot(self) -> Option<(Key::V, Value)> {
        if self.taken {
            Some((self.key@, self.value))
        } else {
            None
        }
    }
}

impl<Key: Hashable + Default, Value: Default> HashTable<Key, Value> {
    /// The backing array, slot by slot.
    pub closed spec fn slots(&self) -> Seq<Option<(Key::V, Value)>> {
        Seq::new(self.cells.len() as nat, |index: int| self.cells[index].slot())
    }

    /// The invariant of the table: its backing array is well formed, and the
    /// table has counted the occupied slots.
    pub closed spec fn wf(&self) -> bool {
        &&& well_formed::<Key, Value>(self.slots())
        &&& self.taken_count == count(self.slots())
    }

    /// The entries of the table.
    pub open spec fn view(&self) -> Map<Key::V, Value> {
        contents(self.slots())
    }

    /// The number of slots of the backing array.
    pub open spec fn spec_capacity(&self) -> nat {
        self.slots().len()
    }

    /// The number of entries.
    pub open spec fn spec_len(&self) -> nat {
        count(self.slots())
    }

    /// Whether inserting `key` makes the table grow: the key is new and no
    /// slot is empty.
    pub open spec fn grows_on(&self, key: Key::V) -> bool {
        !self@.contains_key(key) && self.spec_len() >= self.spec_capacity()
    }

    /// Makes an empty table with `capacity` slots.
    fn with_capacity(capacity: usize) -> (table: Self)
        requires
            is_capacity(capacity as nat),
        ensures
            table.wf(),
            table.slots() == empty_slots::<Key::V, Value>(capacity as nat),
    {
        let mut cells: Vec<HashCell<Key, Value>> = Vec::new();
        while cells.len() < capacity
            invariant
                cells.len() <= capacity,
                forall|index: int| 0 <= index < cells.len() ==> !(#[trigger] cells[index]).taken,
            decreases capacity - cells.len(),
        {
            cells.push(HashCell { key: Key::default(), value: Value::default(), taken: false });
        }
        let table = HashTable { cells, taken_count: 0 };
        proof {
            assert(table.slots() =~= empty_slots::<Key::V, Value>(capacity as nat));
            lemma_count_empty::<Key::V, Value>(capacity as nat);
        }
        table
    }

    /// Makes an empty table of the initial capacity.
    pub fn new() -> (table: Self)
        ensures
            table.wf(),
            table.slots() == empty_slots::<Key::V, Value>(INITIAL_CAPACITY as nat),
            table@ == Map::<Key::V, Value>::empty(),
            table.spec_capacity() == INITIAL_CAPACITY,
            table.spec_len() == 0,
    {
        proof {
            lemma_contents_empty::<Key::V, Value>(INITIAL_CAPACITY as nat);
            lemma_count_empty::<Key::V, Value>(INITIAL_CAPACITY as nat);
        }
        Self::with_capacity(INITIAL_CAPACITY)
    }

    /// The number of slots of the backing array.
    pub fn capacity(&self) -> (capacity: usize)
        ensures
            capacity == self.spec_capacity(),
    {
        self.cells.len()
    }

    /// The number of entries.
    pub fn len(&self) -> (len: usize)
        requires
            self.wf(),
        ensures
            len == self.spec_len(),
    {
        self.taken_count
    }

    /// The entry in slot `index`, if there is such a slot and it is
    /// occupied.
    pub fn entry(&self, index: usize) -> (entry: Option<(&Key, &Value)>)
        ensures
            match entry {
                Some((key, value)) => index < self.spec_capacity() && self.slots()[index as int]
                    == Some((key@, *value)),
                None => index >= self.spec_capacity() || self.slots()[index as int] is None,
            },
    {
        if index < self.cells.len() && self.cells[index].taken {
            Some((&self.cells[index].key, &self.cells[index].value))
        } else {
            None
        }
    }

    /// The slot that holds `key`, found by the scan from the key's home.
    pub fn get_index(&self, key: &Key) -> (found: Option<usize>)
        requires
            self.wf(),
        ensures
            index_of::<Key, Value>(self.slots(), key@) == match found {
                Some(index) => Some(index as int),
                None => None,
            },
            found is Some <==> self@.contains_key(key@),
            found matches Some(index) ==> holds(self.slots(), index as int, key@),
    {
        proof {
            lemma_lookup_is_contents::<Key, Value>(self.slots(), key@);
        }
        let len = self.cells.len();
        let mut index = key.hash() % len;
        let mut visited: usize = 0;
        while visited < len
            invariant
                len == self.cells.len(),
                len == self.slots().len(),
                0 <= index < len,
                visited <= len,
                probe(self.slots(), key@, index as int, (len - visited) as nat) == find::<
                    Key,
                    Value,
                >(self.slots(), key@),
            ensures
                visited == len || self.slots()[index as int] is None || holds(
                    self.slots(),
                    index as int,
                    key@,
                ),
            decreases len - visited,
        {
            assert(self.slots()[index as int] == self.cells[index as int].slot());
            if !self.cells[index].taken {
                break ;
            }
            if self.cells[index].key.same_key(key) {
                break ;
            }
            proof {
                lemma_step_wraps(index as int, len as int);
            }
            index = (index + 1) % len;
            visited += 1;
        }
        proof {
            assert(self.slots()[index as int] == self.cells[index as int].slot());
            if find::<Key, Value>(self.slots(), key@) is None {
                lemma_probe_exhausted(
                    self.slots(),
                    key@,
                    home::<Key>(key@, len as nat),
                    len as nat,
                );
            }
        }
        if self.cells[index].taken && self.cells[index].key.same_key(key) {
            Some(index)
        } else {
            None
        }
    }

    /// The value stored for `key`, if the table holds the key.
    pub fn get(&self, key: &Key) -> (found: Option<&Value>)
        requires
            self.wf(),
        ensures
            match found {
                Some(value) => self@.contains_key(key@) && self@[key@] == *value,
                None => !self@.contains_key(key@),
            },
            match found {
                Some(value) => lookup::<Key, Value>(self.slots(), key@) == Some(*value),
                None => lookup::<Key, Value>(self.slots(), key@) is None,
            },
    {
        proof {
            lemma_lookup_is_contents::<Key, Value>(self.slots(), key@);
        }
        match self.get_index(key) {
            Some(index) => Some(&self.cells[index].value),
            None => None,
        }
    }

    /// The value stored for `key`, for the caller to change, if the table
    /// holds the key. Nothing else in the table changes.
    pub fn get_mut(&mut self, key: &Key) -> (found: Option<&mut Value>)
        requires
            old(self).wf(),
        ensures
            final(self).wf(),
            final(self).spec_capacity() == old(self).spec_capacity(),
            final(self).spec_len() == old(self).spec_len(),
            match found {
                Some(value) => {
                    &&& lookup::<Key, Value>(old(self).slots(), key@) == Some(*value)
                    &&& final(self).slots() == put::<Key, Value>(
                        old(self).slots(),
                        key@,
                        *final(value),
                    )
                    &&& old(self)@.contains_key(key@)
                    &&& old(self)@[key@] == *value
                    &&& final(self)@ == old(self)@.insert(key@, *final(value))
                },
                None => {
                    &&& lookup::<Key, Value>(old(self).slots(), key@) is None
                    &&& !old(self)@.contains_key(key@)
                    &&& final(self).slots() == old(self).slots()
                },
            },
    {
        proof {
            lemma_lookup_is_contents::<Key, Value>(self.slots(), key@);
        }
        match self.get_index(key) {
            Some(index) => {
                let ghost before = self.slots();
                let ghost after = final(self).slots();
                let value = &mut self.cells[index].value;
                proof {
                    lemma_put::<Key, Value>(before, key@, *final(value));
                    assert(after =~= put::<Key, Value>(before, key@, *final(value)));
                }
                Some(value)
            },
            None => None,
        }
    }

    /// Stores `new_value` for `key`: in place of the value that the key
    /// had, or else in the first empty slot that the scan from the key's
    /// home reaches, after growth if no slot is empty.
    pub fn insert(&mut self, key: Key, new_value: Value)
        requires
            old(self).wf(),
            old(self).grows_on(key@) ==> grown(old(self).spec_capacity()) <= usize::MAX,
        ensures
            final(self).wf(),
            final(self).slots() == inserted::<Key, Value>(old(self).slots(), key@, new_value),
            final(self)@ == old(self)@.insert(key@, new_value),
            final(self).spec_len() == old(self).spec_len() + if old(self)@.contains_key(key@) {
                0nat
            } else {
                1nat
            },
            final(self).spec_capacity() == if old(self).grows_on(key@) {
                grown(old(self).spec_capacity())
            } else {
                old(self).spec_capacity()
            },
        decreases
            (if old(self).grows_on(key@) {
                2int
            } else {
                0int
            }),
    {
        let ghost before = self.slots();
        proof {
            lemma_lookup_is_contents::<Key, Value>(before, key@);
            lemma_inserted::<Key, Value>(before, key@, new_value);
        }
        if let Some(old_value) = self.get_mut(&key) {
            *old_value = new_value;
        } else {
            if self.taken_count >= self.cells.len() {
                self.extend();
            }
            let ghost roomy = self.slots();
            proof {
                lemma_count_bound(before);
                lemma_lookup_is_contents::<Key, Value>(roomy, key@);
                lemma_find_stops::<Key, Value>(roomy, key@);
            }
            assert(self.taken_count < self.cells.len());
            let len = self.cells.len();
            let mut index = key.hash() % len;
            let ghost mut visited: nat = 0;
            while self.cells[index].taken
                invariant
                    self.slots() == roomy,
                    len == self.cells.len(),
                    0 <= index < len,
                    !contents(roomy).contains_key(key@),
                    find::<Key, Value>(roomy, key@) is Some,
                    visited < len,
                    probe(roomy, key@, index as int, (len - visited) as nat) == find::<
                        Key,
                        Value,
                    >(roomy, key@),
                decreases len - visited,
            {
                proof {
                    assert(roomy[index as int] == self.cells[index as int].slot());
                    assert(!holds(roomy, index as int, key@));
                    lemma_step_wraps(index as int, len as int);
                    visited = visited + 1;
                }
                index = (index + 1) % len;
            }
            proof {
                assert(roomy[index as int] == self.cells[index as int].slot());
            }
            self.cells[index].taken = true;
            self.cells[index].key = key;
            self.cells[index].value = new_value;
            self.taken_count += 1;
            proof {
                assert(self.slots() =~= put::<Key, Value>(roomy, key@, new_value));
            }
        }
    }

    /// Moves every entry to a new backing array of more than twice the
    /// length, in the order of their slots, each to the slot at which the
    /// scan for its key stops there.
    pub fn extend(&mut self)
        requires
            old(self).wf(),
            grown(old(self).spec_capacity()) <= usize::MAX,
        ensures
            final(self).wf(),
            final(self).slots() == rehashed::<Key, Value>(old(self).slots()),
            final(self).spec_capacity() == grown(old(self).spec_capacity()),
            final(self).spec_len() == old(self).spec_len(),
            final(self)@ == old(self)@,
        decreases 1int,
    {
        let ghost before = self.slots();
        proof {
            lemma_grown_is_capacity(before.len());
            lemma_rehashed::<Key, Value>(before);
        }
        assert(self.cells.len() > 0);
        let mut moved = Self::with_capacity(self.cells.len() * 2 + 1);
        core::mem::swap(self, &mut moved);
        let ghost cells = moved.cells@;
        for cell in iter: moved.cells
            invariant
                iter.seq() == cells,
                before.len() == cells.len(),
                forall|index: int|
                    0 <= index < cells.len() ==> before[index] == (#[trigger] cells[index]).slot(),
                well_formed::<Key, Value>(before),
                self.wf(),
                self.slots() == rehashed_prefix::<Key, Value>(before, iter.index() as nat),
                grown(before.len()) <= usize::MAX,
        {
            proof {
                lemma_rehashed_prefix::<Key, Value>(before, iter.index() as nat);
                lemma_count_bound(before.take(iter.index()));
                lemma_lookup_is_contents::<Key, Value>(self.slots(), cell.key@);
            }
            if cell.taken {
                self.insert(cell.key, cell.value);
            }
        }
    }

    /// What the invariant says of the backing array and of the entries: the
    /// array is well formed, no more slots are occupied than there are, the
    /// number of slots is odd and is the initial capacity or reached from it
    /// by growing, and each occupied slot is one entry.
    pub proof fn lemma_capacity_invariant(&self)
        requires
            self.wf(),
        ensures
            well_formed::<Key, Value>(self.slots()),
            self.spec_len() <= self.spec_capacity(),
            self.spec_capacity() % 2 == 1,
            is_capacity(self.spec_capacity()),
            self@.dom().finite(),
            self@.len() == self.spec_len(),
    {
        lemma_count_bound(self.slots());
        lemma_grown_is_capacity(self.slots().len());
        lemma_well_formed_distinct::<Key, Value>(self.slots());
        lemma_contents_len(self.slots());
    }
}

} // verus!
