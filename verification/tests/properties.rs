use indexed_table::{QueryError, Table, TableRecord};
use std::collections::HashSet;

#[derive(Debug, Clone, PartialEq, Eq, Hash)]
enum Tag {
    Science(u32),
    Author(u32),
}

#[derive(Debug, Clone, PartialEq, Eq, Hash)]
struct Paper {
    id: u32,
    title: String,
    science: u32,
    author: u32,
}

impl TableRecord for Paper {
    type Key = u32;
    type Category = Tag;
    fn categories(&self) -> Vec<Tag> {
        vec![Tag::Science(self.science), Tag::Author(self.author)]
    }
    fn key(&self) -> u32 {
        self.id
    }
}

fn paper(id: u32, science: u32, author: u32) -> Paper {
    Paper { id, title: format!("Paper {}", id), science, author }
}

/// Seven papers: 1 to 3 in science 2, 4 to 6 in science 3, 7 alone in science 4;
/// authors 10, 11 and 12 have one paper in each of the first two sciences.
fn library() -> Table<Paper> {
    let mut t = Table::new();
    let papers = vec![
        paper(1, 2, 10),
        paper(2, 2, 11),
        paper(3, 2, 12),
        paper(4, 3, 10),
        paper(5, 3, 11),
        paper(6, 3, 12),
        paper(7, 4, 13),
    ];
    for p in papers {
        t.insert(p).unwrap();
    }
    t
}

fn ids(found: Vec<&Paper>) -> HashSet<u32> {
    let n = found.len();
    let set: HashSet<u32> = found.iter().map(|p| p.id).collect();
    assert_eq!(set.len(), n, "a record was listed twice");
    set
}

fn cats(t: &Table<Paper>) -> HashSet<Tag> {
    t.iter_cats().cloned().collect()
}

/// Holds the index against the records: each category lists the records that name it.
fn check_index(t: &Table<Paper>) {
    let records: Vec<Paper> = t.values().cloned().collect();
    assert_eq!(records.len(), t.len());
    let mut expected_cats: HashSet<Tag> = HashSet::new();
    for r in records.iter() {
        assert_eq!(t.get(&r.id), Some(r));
        for c in r.categories() {
            expected_cats.insert(c);
        }
    }
    assert_eq!(cats(t), expected_cats);
    for c in expected_cats.iter() {
        assert!(t.contains_cat(c));
        let expected: HashSet<u32> =
            records.iter().filter(|r| r.categories().contains(c)).map(|r| r.id).collect();
        assert!(!expected.is_empty());
        assert_eq!(ids(t.find(c)), expected);
    }
}

#[test]
fn insert_then_get_returns_the_record() {
    let mut t: Table<Paper> = Table::new();
    for id in [5u32, 9, 1, 1000] {
        let p = paper(id, id % 3, id % 2);
        assert_eq!(t.insert(p.clone()), Ok(()));
        assert_eq!(t.get(&id), Some(&p));
    }
    assert_eq!(t.len(), 4);
    assert_eq!(t.get(&2), None);
    check_index(&t);
}

#[test]
fn second_insert_under_one_key_collides() {
    let mut t: Table<Paper> = Table::new();
    let first = paper(1, 2, 10);
    let second = Paper { id: 1, title: "another".into(), science: 8, author: 9 };
    assert_eq!(t.insert(first.clone()), Ok(()));
    assert_eq!(t.insert(second), Err(QueryError::KeyCollision));
    assert_eq!(t.len(), 1);
    assert_eq!(t.get(&1), Some(&first));
    assert!(!t.contains_cat(&Tag::Science(8)));
    assert!(!t.contains_cat(&Tag::Author(9)));
    check_index(&t);
}

#[test]
fn remove_unlists_the_key_and_drops_empty_buckets() {
    let mut t = library();
    let gone = t.remove(&7).unwrap();
    assert_eq!(gone, paper(7, 4, 13));
    assert!(!t.contains_key(&7));
    assert!(t.find(&Tag::Science(4)).is_empty());
    assert!(t.find(&Tag::Author(13)).is_empty());
    assert!(!cats(&t).contains(&Tag::Science(4)));
    assert!(!cats(&t).contains(&Tag::Author(13)));
    assert!(!t.contains_cat(&Tag::Science(4)));

    let gone = t.remove(&1).unwrap();
    assert_eq!(gone.id, 1);
    assert_eq!(ids(t.find(&Tag::Science(2))), HashSet::from([2, 3]));
    assert_eq!(ids(t.find(&Tag::Author(10))), HashSet::from([4]));
    assert!(cats(&t).contains(&Tag::Science(2)));
    assert_eq!(t.len(), 5);
    check_index(&t);
}

#[test]
fn remove_of_an_absent_key_changes_nothing() {
    let mut t = library();
    assert_eq!(t.remove(&99), None);
    assert_eq!(t.len(), 7);
    check_index(&t);
}

#[test]
fn rename_onto_a_taken_key_fails_and_keeps_the_record() {
    let mut t = library();
    let before = t.get(&2).cloned();
    let res = t.update_with(2, &|p: &mut Paper| {
        p.id = 5;
        p.author = 77;
    });
    assert_eq!(res, Err(QueryError::KeyCollision));
    assert_eq!(t.get(&2).cloned(), before);
    assert_eq!(t.get(&5), Some(&paper(5, 3, 11)));
    assert!(!t.contains_cat(&Tag::Author(77)));
    assert_eq!(t.len(), 7);
    check_index(&t);
}

#[test]
fn update_of_an_absent_key_is_not_found() {
    let mut t = library();
    let res = t.update_with(99, &|p: &mut Paper| p.author = 1);
    assert_eq!(res, Err(QueryError::KeyNotFound));
    assert_eq!(t.len(), 7);
    check_index(&t);
}

#[test]
fn update_in_place_stores_the_changed_record() {
    let mut t = library();
    let res = t.update_with(2, &|p: &mut Paper| {
        p.author = 10;
        p.title = "changed".into();
    });
    assert_eq!(res, Ok(()));
    assert_eq!(t.get(&2), Some(&Paper { id: 2, title: "changed".into(), science: 2, author: 10 }));
    assert_eq!(ids(t.find(&Tag::Author(10))), HashSet::from([1, 2, 4]));
    assert_eq!(ids(t.find(&Tag::Author(11))), HashSet::from([5]));
    assert_eq!(ids(t.find(&Tag::Science(2))), HashSet::from([1, 2, 3]));
    check_index(&t);
}

#[test]
fn update_that_empties_a_bucket_drops_it() {
    let mut t = library();
    assert_eq!(t.update_with(7, &|p: &mut Paper| p.science = 2), Ok(()));
    assert!(!t.contains_cat(&Tag::Science(4)));
    assert_eq!(ids(t.find(&Tag::Science(2))), HashSet::from([1, 2, 3, 7]));
    check_index(&t);
}

#[test]
fn update_with_rename_moves_the_record() {
    let mut t = library();
    assert_eq!(t.update_with(7, &|p: &mut Paper| p.id = 70), Ok(()));
    assert!(!t.contains_key(&7));
    assert_eq!(t.get(&70), Some(&Paper { id: 70, title: "Paper 7".into(), science: 4, author: 13 }));
    assert_eq!(ids(t.find(&Tag::Science(4))), HashSet::from([70]));
    assert_eq!(t.len(), 7);
    check_index(&t);
}

#[test]
fn find_lists_exactly_the_records_of_a_category() {
    let mut t = library();
    check_index(&t);
    t.insert(paper(8, 4, 10)).unwrap();
    check_index(&t);
    t.update_with(1, &|p: &mut Paper| p.science = 9).unwrap();
    check_index(&t);
    t.remove(&4).unwrap();
    check_index(&t);
    t.upsert(5, paper(50, 9, 12)).unwrap();
    check_index(&t);
    t.update_by_cat(Tag::Author(12), |p| p.author = 10).unwrap();
    check_index(&t);
    t.remove_cat(&Tag::Science(2));
    check_index(&t);
    assert!(t.find(&Tag::Science(1234)).is_empty());
    assert_eq!(ids(t.find(&Tag::Author(10))), HashSet::from([1, 6, 8, 50]));
}

#[test]
fn find_many_is_the_union_of_finds() {
    let t = library();
    let c1 = Tag::Science(2);
    let c2 = Tag::Author(10);
    let both = ids(t.find_many(&[c1.clone(), c2.clone()]));
    let mut union = ids(t.find(&c1));
    union.extend(ids(t.find(&c2)));
    assert_eq!(both, union);
    assert_eq!(both, HashSet::from([1, 2, 3, 4]));
    assert!(t.find_many(&[]).is_empty());
    assert!(t.find_many(&[Tag::Science(99)]).is_empty());
    assert_eq!(ids(t.find_many(&[c1.clone(), c1.clone()])), HashSet::from([1, 2, 3]));
}

#[test]
fn library_scenario() {
    let mut t = library();
    assert_eq!(ids(t.find(&Tag::Author(10))), HashSet::from([1, 4]));

    assert_eq!(t.upsert(2, paper(365, 2, 11)), Ok(()));
    assert!(!t.contains_key(&2));
    assert!(t.contains_key(&365));
    let bucket = ids(t.find(&Tag::Author(11)));
    assert!(bucket.contains(&365));
    assert!(!bucket.contains(&2));
    assert_eq!(bucket, HashSet::from([365, 5]));

    let third = t.get(&3).cloned();
    assert_eq!(t.upsert(3, paper(365, 2, 12)), Err(QueryError::KeyCollision));
    assert!(t.contains_key(&3));
    assert_eq!(t.get(&3).cloned(), third);
    assert_eq!(t.get(&365), Some(&paper(365, 2, 11)));
    assert_eq!(t.len(), 7);
    check_index(&t);
}
