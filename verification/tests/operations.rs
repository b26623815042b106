use indexed_table::{QueryError, Table, TableRecord};
use std::collections::HashSet;

/// A record with a number for a key and any list of numbers for categories.
#[derive(Debug, Clone, PartialEq, Eq, Hash)]
struct Item {
    id: u64,
    tags: Vec<u8>,
}

impl TableRecord for Item {
    type Key = u64;
    type Category = u8;
    fn categories(&self) -> Vec<u8> {
        self.tags.clone()
    }
    fn key(&self) -> u64 {
        self.id
    }
}

fn item(id: u64, tags: &[u8]) -> Item {
    Item { id, tags: tags.to_vec() }
}

fn table(items: &[Item]) -> Table<Item> {
    Table::from_records(items.to_vec()).unwrap()
}

fn ids(found: Vec<&Item>) -> HashSet<u64> {
    let n = found.len();
    let set: HashSet<u64> = found.iter().map(|p| p.id).collect();
    assert_eq!(set.len(), n);
    set
}

fn snapshot(t: &Table<Item>) -> (HashSet<Item>, HashSet<u8>) {
    (t.values().cloned().collect(), t.iter_cats().cloned().collect())
}

#[test]
fn new_table_is_empty() {
    let t: Table<Item> = Table::new();
    assert_eq!(t.len(), 0);
    assert!(!t.contains_key(&0));
    assert!(!t.contains_cat(&0));
    assert_eq!(t.iter().count(), 0);
    assert_eq!(t.iter_cats().count(), 0);
    assert!(t.find(&0).is_empty());
}

#[test]
fn error_messages() {
    assert_eq!(QueryError::KeyCollision.message(), "key is busy");
    assert_eq!(QueryError::KeyNotFound.message(), "key not found");
}

#[test]
fn repeated_categories_count_once() {
    let mut t = table(&[item(1, &[4, 4, 4]), item(2, &[4, 5, 4])]);
    assert_eq!(ids(t.find(&4)), HashSet::from([1, 2]));
    assert_eq!(ids(t.find(&5)), HashSet::from([2]));
    assert_eq!(t.iter_cats().count(), 2);
    assert_eq!(t.remove(&1), Some(item(1, &[4, 4, 4])));
    assert_eq!(ids(t.find(&4)), HashSet::from([2]));
    assert_eq!(t.remove(&2), Some(item(2, &[4, 5, 4])));
    assert_eq!(t.iter_cats().count(), 0);
}

#[test]
fn record_without_categories_is_stored_and_not_listed() {
    let mut t = table(&[item(1, &[])]);
    assert_eq!(t.len(), 1);
    assert_eq!(t.get(&1), Some(&item(1, &[])));
    assert_eq!(t.iter_cats().count(), 0);
    assert!(t.contains_val(&item(1, &[9])));
    assert!(!t.contains_val(&item(2, &[])));
    assert_eq!(t.update_with(1, &|i: &mut Item| i.tags.push(3)), Ok(()));
    assert_eq!(ids(t.find(&3)), HashSet::from([1]));
}

#[test]
fn clear_empties_both_maps() {
    let mut t = table(&[item(1, &[1]), item(2, &[1, 2])]);
    t.clear();
    assert_eq!(t.len(), 0);
    assert!(!t.contains_key(&1));
    assert!(!t.contains_cat(&1));
    assert_eq!(t.iter_cats().count(), 0);
    assert_eq!(t.insert(item(1, &[7])), Ok(()));
    assert_eq!(ids(t.find(&7)), HashSet::from([1]));
}

#[test]
fn clone_is_a_table_of_its_own() {
    let t = table(&[item(1, &[1]), item(2, &[1, 2])]);
    let mut copy = t.clone();
    assert_eq!(snapshot(&t), snapshot(&copy));
    copy.remove(&1);
    assert_eq!(t.len(), 2);
    assert_eq!(copy.len(), 1);
    assert_eq!(ids(t.find(&1)), HashSet::from([1, 2]));
    assert_eq!(ids(copy.find(&1)), HashSet::from([2]));
}

#[test]
fn from_records_stores_every_record() {
    let items = [item(3, &[1]), item(1, &[2]), item(2, &[1, 2])];
    let t = table(&items);
    assert_eq!(t.len(), 3);
    for i in items.iter() {
        assert_eq!(t.get(&i.id), Some(i));
    }
    assert_eq!(ids(t.find(&1)), HashSet::from([3, 2]));
    assert_eq!(ids(t.find(&2)), HashSet::from([1, 2]));
}

#[test]
fn from_records_refuses_a_repeated_key() {
    let res = Table::from_records(vec![item(3, &[1]), item(1, &[2]), item(3, &[5])]);
    assert_eq!(res.err(), Some(QueryError::KeyCollision));
    let none: Table<Item> = Table::from_records(vec![]).unwrap();
    assert_eq!(none.len(), 0);
}

#[test]
fn upsert_of_an_absent_key_stores_under_the_record_key() {
    let mut t = table(&[item(1, &[1])]);
    assert_eq!(t.upsert(10, item(20, &[2])), Ok(()));
    assert!(!t.contains_key(&10));
    assert_eq!(t.get(&20), Some(&item(20, &[2])));
    assert_eq!(t.len(), 2);
    assert_eq!(ids(t.find(&2)), HashSet::from([20]));
}

#[test]
fn upsert_of_an_absent_key_onto_a_taken_key_collides() {
    let mut t = table(&[item(1, &[1])]);
    let before = snapshot(&t);
    assert_eq!(t.upsert(10, item(1, &[2])), Err(QueryError::KeyCollision));
    assert_eq!(snapshot(&t), before);
}

#[test]
fn upsert_in_place_replaces_record_and_categories() {
    let mut t = table(&[item(1, &[1, 2]), item(2, &[2])]);
    assert_eq!(t.upsert(1, item(1, &[2, 3])), Ok(()));
    assert_eq!(t.get(&1), Some(&item(1, &[2, 3])));
    assert!(!t.contains_cat(&1));
    assert_eq!(ids(t.find(&2)), HashSet::from([1, 2]));
    assert_eq!(ids(t.find(&3)), HashSet::from([1]));
    assert_eq!(t.len(), 2);
}

#[test]
fn upsert_rename_moves_record_between_keys() {
    let mut t = table(&[item(1, &[1, 2]), item(2, &[2])]);
    assert_eq!(t.upsert(1, item(9, &[1])), Ok(()));
    assert!(!t.contains_key(&1));
    assert_eq!(t.get(&9), Some(&item(9, &[1])));
    assert_eq!(ids(t.find(&1)), HashSet::from([9]));
    assert_eq!(ids(t.find(&2)), HashSet::from([2]));
    assert_eq!(t.len(), 2);
}

#[test]
fn update_by_cat_counts_the_records_it_replaced() {
    let mut t = table(&[item(1, &[1]), item(2, &[1, 2]), item(3, &[2])]);
    let res = t.update_by_cat(1, |i| i.tags = vec![7]);
    assert_eq!(res, Ok(2));
    assert_eq!(t.get(&1), Some(&item(1, &[7])));
    assert_eq!(t.get(&2), Some(&item(2, &[7])));
    assert_eq!(t.get(&3), Some(&item(3, &[2])));
    assert!(!t.contains_cat(&1));
    assert_eq!(ids(t.find(&7)), HashSet::from([1, 2]));
    assert_eq!(ids(t.find(&2)), HashSet::from([3]));
}

#[test]
fn update_by_cat_of_an_unknown_category_does_nothing() {
    let mut t = table(&[item(1, &[1])]);
    let before = snapshot(&t);
    assert_eq!(t.update_by_cat(9, |i| i.id = 100), Ok(0));
    assert_eq!(snapshot(&t), before);
}

#[test]
fn update_by_cat_renames_every_record() {
    let mut t = table(&[item(1, &[1]), item(2, &[1]), item(3, &[2])]);
    assert_eq!(t.update_by_cat(1, |i| i.id += 10), Ok(2));
    assert!(!t.contains_key(&1));
    assert!(!t.contains_key(&2));
    assert_eq!(t.get(&11), Some(&item(11, &[1])));
    assert_eq!(t.get(&12), Some(&item(12, &[1])));
    assert_eq!(ids(t.find(&1)), HashSet::from([11, 12]));
    assert_eq!(t.len(), 3);
}

#[test]
fn update_by_cat_onto_a_taken_key_changes_nothing() {
    let mut t = table(&[item(1, &[1]), item(2, &[1]), item(3, &[2])]);
    let before = snapshot(&t);
    // 1 would become 2 and 2 would become 3: both keys are taken
    assert_eq!(t.update_by_cat(1, |i| i.id += 1), Err(QueryError::KeyCollision));
    assert_eq!(snapshot(&t), before);
    assert_eq!(ids(t.find(&1)), HashSet::from([1, 2]));
    // a change of the categories alone, with one record that moves onto another
    let res = t.update_by_cat(1, |i| {
        i.tags = vec![5];
        if i.id == 2 {
            i.id = 3;
        }
    });
    assert_eq!(res, Err(QueryError::KeyCollision));
    assert_eq!(snapshot(&t), before);
}

#[test]
fn update_by_cat_with_two_records_for_one_free_key_changes_nothing() {
    let mut t = table(&[item(1, &[1]), item(2, &[1]), item(3, &[2])]);
    let before = snapshot(&t);
    assert_eq!(t.update_by_cat(1, |i| i.id = 50), Err(QueryError::KeyCollision));
    assert_eq!(snapshot(&t), before);
    assert!(!t.contains_key(&50));
    assert_eq!(ids(t.find(&1)), HashSet::from([1, 2]));
}

#[test]
fn remove_cat_returns_the_records_and_cleans_other_buckets() {
    let mut t = table(&[item(1, &[1, 2]), item(2, &[1, 3]), item(3, &[2]), item(4, &[4])]);
    let removed: HashSet<Item> = t.remove_cat(&1).into_iter().collect();
    assert_eq!(removed, HashSet::from([item(1, &[1, 2]), item(2, &[1, 3])]));
    assert_eq!(t.len(), 2);
    assert!(!t.contains_key(&1));
    assert!(!t.contains_key(&2));
    assert!(!t.contains_cat(&1));
    // the bucket of 3 held the key 2 alone, that of 2 held 1 and 3
    assert!(!t.contains_cat(&3));
    assert_eq!(ids(t.find(&2)), HashSet::from([3]));
    assert_eq!(ids(t.find(&4)), HashSet::from([4]));
    let left: HashSet<u8> = t.iter_cats().cloned().collect();
    assert_eq!(left, HashSet::from([2, 4]));
    // a key that was removed can be used again, and is listed once
    assert_eq!(t.insert(item(2, &[3])), Ok(()));
    assert_eq!(ids(t.find(&3)), HashSet::from([2]));
}

#[test]
fn remove_cat_of_an_unknown_category_removes_nothing() {
    let mut t = table(&[item(1, &[1])]);
    assert!(t.remove_cat(&9).is_empty());
    assert_eq!(t.len(), 1);
    assert_eq!(ids(t.find(&1)), HashSet::from([1]));
}

#[test]
fn traversals_visit_everything_once() {
    let t = table(&[item(1, &[1, 2]), item(2, &[2]), item(3, &[])]);
    let pairs: Vec<(u64, Item)> = t.iter().map(|(k, v)| (*k, v.clone())).collect();
    assert_eq!(pairs.len(), 3);
    for (k, v) in pairs.iter() {
        assert_eq!(*k, v.id);
    }
    let keys: HashSet<u64> = t.iter_keys().copied().collect();
    assert_eq!(keys, HashSet::from([1, 2, 3]));
    assert_eq!(t.iter_keys().count(), 3);
    assert_eq!(t.values().count(), 3);
    let cats: Vec<u8> = t.iter_cats().copied().collect();
    assert_eq!(cats.len(), 2);
    assert_eq!(cats.into_iter().collect::<HashSet<u8>>(), HashSet::from([1, 2]));
}
