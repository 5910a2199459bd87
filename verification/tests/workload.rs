use h4sh::workload::{count_key, tally_random_keys, tally_random_keys_std};
use h4sh::HashTable;

#[test]
fn count_key_starts_at_one_and_adds_one() {
    let mut table = HashTable::<usize, usize>::new();
    count_key(&mut table, 9);
    assert_eq!(table.get(&9), Some(&1));
    count_key(&mut table, 9);
    count_key(&mut table, 9);
    assert_eq!(table.get(&9), Some(&3));
    count_key(&mut table, 20);
    assert_eq!(table.get(&20), Some(&1));
    assert_eq!(table.get(&9), Some(&3));
    assert_eq!(table.len(), 2);
}

#[test]
fn count_key_tallies_a_given_run_of_keys() {
    let keys = [4, 15, 4, 26, 15, 4, 0, 11];
    let mut table = HashTable::<usize, usize>::new();
    for key in keys {
        count_key(&mut table, key);
    }
    assert_eq!(table.len(), 5);
    assert_eq!(table.get(&4), Some(&3));
    assert_eq!(table.get(&15), Some(&2));
    assert_eq!(table.get(&26), Some(&1));
    assert_eq!(table.get(&0), Some(&1));
    assert_eq!(table.get(&11), Some(&1));
    assert_eq!(table.get(&1), None);
}

#[test]
fn tally_of_random_keys_counts_every_draw() {
    let table = tally_random_keys(2000);
    let mut total = 0;
    let mut entries = 0;
    for index in 0..table.capacity() {
        if let Some((_, count)) = table.entry(index) {
            assert!(*count >= 1);
            total += *count;
            entries += 1;
        }
    }
    assert_eq!(total, 2000);
    assert_eq!(entries, table.len());
    assert!(table.len() <= 2000);
}

#[test]
fn tally_of_no_keys_is_empty() {
    let table = tally_random_keys(0);
    assert_eq!(table.len(), 0);
    assert_eq!(table.capacity(), 11);
    assert!(tally_random_keys_std(0).is_empty());
}

#[test]
fn std_tally_of_random_keys_counts_every_draw() {
    let tally = tally_random_keys_std(2000);
    let mut total = 0;
    for count in tally.values() {
        assert!(*count >= 1);
        total += *count;
    }
    assert_eq!(total, 2000);
}
