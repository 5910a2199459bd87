use h4sh::HashTable;

/// Whether `capacity` is 11 or reached from 11 by `2 * c + 1`.
fn reached_by_growth(capacity: usize) -> bool {
    let mut reached = 11;
    while reached < capacity {
        reached = 2 * reached + 1;
    }
    reached == capacity
}

/// The occupied slots of `table`, in slot order.
fn occupied(table: &HashTable<usize, usize>) -> Vec<(usize, usize, usize)> {
    let mut found = Vec::new();
    for index in 0..table.capacity() {
        if let Some((key, value)) = table.entry(index) {
            found.push((index, *key, *value));
        }
    }
    found
}

#[test]
fn new_table_is_empty_with_eleven_slots() {
    let table = HashTable::<usize, usize>::new();
    assert_eq!(table.capacity(), 11);
    assert_eq!(table.len(), 0);
    assert_eq!(occupied(&table), vec![]);
}

#[test]
fn insert_then_get_returns_the_value() {
    let mut table = HashTable::<usize, usize>::new();
    table.insert(7, 70);
    assert_eq!(table.get(&7), Some(&70));
    assert_eq!(table.len(), 1);
}

#[test]
fn insert_then_get_with_text_keys() {
    let mut table = HashTable::<String, u32>::new();
    table.insert(String::from("apple"), 1);
    table.insert(String::from("pear"), 2);
    table.insert(String::from(""), 3);
    assert_eq!(table.get(&String::from("apple")), Some(&1));
    assert_eq!(table.get(&String::from("pear")), Some(&2));
    assert_eq!(table.get(&String::from("")), Some(&3));
    assert_eq!(table.get(&String::from("plum")), None);
    assert_eq!(table.len(), 3);
}

#[test]
fn second_insert_of_a_key_updates_in_place() {
    let mut table = HashTable::<usize, usize>::new();
    table.insert(5, 1);
    table.insert(5, 2);
    assert_eq!(table.get(&5), Some(&2));
    assert_eq!(table.len(), 1);
    assert_eq!(table.capacity(), 11);
    assert_eq!(occupied(&table), vec![(5, 5, 2)]);
}

#[test]
fn second_insert_of_a_text_key_updates_in_place() {
    let mut table = HashTable::<String, String>::new();
    table.insert(String::from("k"), String::from("first"));
    table.insert(String::from("k"), String::from("second"));
    assert_eq!(table.get(&String::from("k")), Some(&String::from("second")));
    assert_eq!(table.len(), 1);
}

#[test]
fn get_on_fresh_table_finds_nothing() {
    let table = HashTable::<usize, usize>::new();
    assert_eq!(table.get(&0), None);
    assert_eq!(table.get(&11), None);
    assert_eq!(table.get(&usize::MAX), None);
    assert_eq!(table.get_index(&3), None);
}

#[test]
fn get_mut_on_fresh_table_finds_nothing() {
    let mut table = HashTable::<String, usize>::new();
    assert!(table.get_mut(&String::from("missing")).is_none());
    assert_eq!(table.len(), 0);
}

#[test]
fn get_mut_changes_the_stored_value_only() {
    let mut table = HashTable::<usize, usize>::new();
    table.insert(1, 10);
    table.insert(2, 20);
    if let Some(value) = table.get_mut(&1) {
        assert_eq!(*value, 10);
        *value = 11;
    } else {
        panic!("key 1 was inserted");
    }
    assert_eq!(table.get(&1), Some(&11));
    assert_eq!(table.get(&2), Some(&20));
    assert_eq!(table.len(), 2);
    assert_eq!(occupied(&table), vec![(1, 1, 11), (2, 2, 20)]);
}

#[test]
fn fifty_keys_survive_three_growths() {
    let mut table = HashTable::<usize, usize>::new();
    for key in 0..50 {
        table.insert(key * 7 + 3, key * key);
    }
    assert_eq!(table.len(), 50);
    assert_eq!(table.capacity(), 95);
    for key in 0..50 {
        assert_eq!(table.get(&(key * 7 + 3)), Some(&(key * key)));
    }
    assert_eq!(table.get(&0), None);
}

#[test]
fn text_keys_survive_growth() {
    let mut table = HashTable::<String, usize>::new();
    for number in 0..40 {
        table.insert(format!("key-{}", number), number);
    }
    assert_eq!(table.len(), 40);
    assert_eq!(table.capacity(), 47);
    for number in 0..40 {
        assert_eq!(table.get(&format!("key-{}", number)), Some(&number));
    }
}

#[test]
fn capacity_is_odd_and_reached_by_growth_and_holds_the_count() {
    let mut table = HashTable::<usize, usize>::new();
    for step in 0..300 {
        table.insert((step * 37) % 211, step);
        if step % 3 == 0 {
            if let Some(value) = table.get_mut(&((step * 37) % 211)) {
                *value += 1;
            }
        }
        assert!(table.len() <= table.capacity());
        assert_eq!(table.capacity() % 2, 1);
        assert!(reached_by_growth(table.capacity()));
        assert_eq!(occupied(&table).len(), table.len());
    }
    assert_eq!(table.len(), 211);
    assert_eq!(table.capacity(), 383);
}

#[test]
fn capacity_never_shrinks() {
    let mut table = HashTable::<usize, usize>::new();
    let mut last = table.capacity();
    for key in 0..100 {
        table.insert(key, key);
        assert!(table.capacity() >= last);
        last = table.capacity();
    }
}

#[test]
fn colliding_keys_take_consecutive_slots() {
    let mut table = HashTable::<usize, usize>::new();
    table.insert(1, 100);
    table.insert(12, 200);
    table.insert(23, 300);
    assert_eq!(table.get_index(&1), Some(1));
    assert_eq!(table.get_index(&12), Some(2));
    assert_eq!(table.get_index(&23), Some(3));
    assert_eq!(occupied(&table), vec![(1, 1, 100), (2, 12, 200), (3, 23, 300)]);
    assert_eq!(table.get(&12), Some(&200));
    assert_eq!(table.get(&1), Some(&100));
    assert_eq!(table.get(&23), Some(&300));
    assert_eq!(table.get(&34), None);
}

#[test]
fn probing_wraps_round_to_the_first_slot() {
    let mut table = HashTable::<usize, usize>::new();
    table.insert(10, 1);
    table.insert(21, 2);
    table.insert(32, 3);
    assert_eq!(table.get_index(&10), Some(10));
    assert_eq!(table.get_index(&21), Some(0));
    assert_eq!(table.get_index(&32), Some(1));
    assert_eq!(table.get(&21), Some(&2));
    assert_eq!(table.get(&43), None);
}

#[test]
fn twelfth_key_grows_the_table_to_twenty_three_slots() {
    let mut table = HashTable::<usize, usize>::new();
    for key in 0..11 {
        table.insert(key * 5, key);
        assert_eq!(table.capacity(), 11);
    }
    assert_eq!(table.len(), 11);
    table.insert(55, 11);
    assert_eq!(table.capacity(), 23);
    assert_eq!(table.len(), 12);
    for key in 0..12 {
        assert_eq!(table.get(&(key * 5)), Some(&key));
    }
}

#[test]
fn update_in_a_full_table_does_not_grow_it() {
    let mut table = HashTable::<usize, usize>::new();
    for key in 0..11 {
        table.insert(key, key);
    }
    table.insert(4, 44);
    assert_eq!(table.capacity(), 11);
    assert_eq!(table.len(), 11);
    assert_eq!(table.get(&4), Some(&44));
}

#[test]
fn lookup_of_a_missing_key_in_a_full_table_finds_nothing() {
    let mut table = HashTable::<usize, usize>::new();
    for key in 0..11 {
        table.insert(key * 11 + 2, key);
    }
    assert_eq!(table.len(), 11);
    assert_eq!(table.capacity(), 11);
    assert_eq!(table.get(&1), None);
    assert_eq!(table.get_index(&123), None);
    assert!(table.get_mut(&1).is_none());
    assert_eq!(table.get(&(5 * 11 + 2)), Some(&5));
}

#[test]
fn extend_moves_every_entry_to_its_slot_in_the_larger_array() {
    let mut table = HashTable::<usize, usize>::new();
    table.insert(1, 100);
    table.insert(12, 200);
    table.insert(23, 300);
    table.extend();
    assert_eq!(table.capacity(), 23);
    assert_eq!(table.len(), 3);
    assert_eq!(occupied(&table), vec![(0, 23, 300), (1, 1, 100), (12, 12, 200)]);
    table.extend();
    assert_eq!(table.capacity(), 47);
    assert_eq!(occupied(&table), vec![(1, 1, 100), (12, 12, 200), (23, 23, 300)]);
}

#[test]
fn extend_moves_entries_in_the_order_of_their_slots() {
    let mut table = HashTable::<usize, usize>::new();
    table.insert(25, 1);
    table.insert(2, 2);
    assert_eq!(occupied(&table), vec![(2, 2, 2), (3, 25, 1)]);
    table.extend();
    assert_eq!(table.get_index(&2), Some(2));
    assert_eq!(table.get_index(&25), Some(3));
    assert_eq!(table.get(&2), Some(&2));
    assert_eq!(table.get(&25), Some(&1));
}

#[test]
fn extend_of_an_empty_table_leaves_it_empty() {
    let mut table = HashTable::<String, usize>::new();
    table.extend();
    assert_eq!(table.capacity(), 23);
    assert_eq!(table.len(), 0);
    assert_eq!(table.get(&String::from("a")), None);
}

#[test]
fn entry_shows_each_slot() {
    let mut table = HashTable::<usize, usize>::new();
    table.insert(3, 30);
    assert_eq!(table.entry(3), Some((&3, &30)));
    assert_eq!(table.entry(4), None);
    assert_eq!(table.entry(11), None);
    assert_eq!(table.entry(usize::MAX), None);
}

#[test]
fn large_keys_are_placed_by_their_remainder() {
    let mut table = HashTable::<usize, usize>::new();
    table.insert(usize::MAX, 1);
    assert_eq!(table.get_index(&usize::MAX), Some(usize::MAX % 11));
    assert_eq!(table.get(&usize::MAX), Some(&1));
}

#[test]
fn values_need_not_be_copied() {
    let mut table = HashTable::<usize, Vec<String>>::new();
    for key in 0..30 {
        table.insert(key, vec![format!("{}", key); key % 4]);
    }
    for key in 0..30 {
        assert_eq!(table.get(&key), Some(&vec![format!("{}", key); key % 4]));
    }
}
