//! Finding records by category.

use vstd::prelude::*;
use vstd::std_specs::hash::{into_iter_hash_keys, obeys_key_model};
use std::collections::HashSet;
use crate::model::{
    belongs, keys_in, keys_in_any, keys_of, lemma_index_buckets, lemma_keys_in_any_insert,
    lemma_take_next, lists, well_keyed,
};
use crate::record::{record_key, TableRecord};
use crate::table::Table;

verus! {

impl<T: TableRecord> Table<T> {
    /// The records that belong to `cat`, each once, in no particular order.
    pub fn find(&self, cat: &T::Category) -> (found: Vec<&T>)
        ensures
            lists(found@.unref(), self@, keys_in(self@, *cat)),
    {
        proof {
            use_type_invariant(self);
            lemma_index_buckets(self.index(), self@, *cat);
        }
        let mut found: Vec<&T> = Vec::new();
        match self.index.get(cat) {
            None => {
                assert(keys_of(found@.unref()).to_set() =~= keys_in(self@, *cat));
            },
            Some(bucket) => {
                let keys = bucket.iter();
                let ghost all = into_iter_hash_keys(keys);
                let ghost mut done: int = 0;
                assert(all.to_set() == keys_in(self@, *cat));
                assert(all.no_duplicates());
                assert forall|k: T::Key| all.contains(k) implies self@.contains_key(k) by {
                    assert(all.to_set().contains(k));
                    assert(belongs(self@, k, *cat));
                }
                for key in it: keys
                    invariant
                        obeys_key_model::<T::Key>(),
                        well_keyed(self@),
                        self@ == self.data@,
                        it.seq().unref() == all,
                        done == it.index(),
                        forall|k: T::Key| all.contains(k) ==> self@.contains_key(k),
                        found@.len() == done,
                        forall|j: int|
                            0 <= j < done ==> self@.contains_key(#[trigger] all[j]) && *found@[j]
                                == self@[all[j]] && record_key(*found@[j]) == all[j],
                {
                    assert(*key == all[done]);
                    assert(all.contains(all[done]));
                    let ghost so_far = found@;
                    // a bucket holds the keys of stored records only
                    if let Some(val) = self.data.get(key) {
                        found.push(val);
                    }
                    proof {
                        assert(found@ == so_far.push(&self@[*key]));
                        assert forall|j: int| 0 <= j < done + 1 implies self@.contains_key(all[j])
                            && *found@[j] == self@[all[j]] && record_key(*found@[j])
                            == all[j] by {
                            if j < done {
                                assert(found@[j] == so_far[j]);
                            }
                        }
                        done = done + 1;
                    }
                }
                proof {
                    let records = found@.unref();
                    assert(keys_of(records) =~= all);
                    assert forall|i: int| 0 <= i < records.len() implies self@.contains_key(
                        #[trigger] record_key(records[i]),
                    ) && self@[record_key(records[i])] == records[i] by {
                        assert(*found@[i] == self@[all[i]]);
                    }
                }
            },
        }
        found
    }

    /// The records that belong to at least one category of `cats`, each once,
    /// in no particular order.
    pub fn find_many(&self, cats: &[T::Category]) -> (found: Vec<&T>)
        ensures
            lists(found@.unref(), self@, keys_in_any(self@, cats@.to_set())),
    {
        proof {
            use_type_invariant(self);
        }
        let mut found: Vec<&T> = Vec::new();
        let mut seen: HashSet<T::Key> = HashSet::new();
        let ghost mut keys: Seq<T::Key> = Seq::empty();
        let mut i: usize = 0;
        proof {
            assert(seen@ =~= keys_in_any(self@, cats@.take(0).to_set()));
        }
        while i < cats.len()
            invariant
                self.wf(),
                i <= cats.len(),
                seen@ == keys_in_any(self@, cats@.take(i as int).to_set()),
                keys.no_duplicates(),
                keys.to_set() == seen@,
                found@.len() == keys.len(),
                forall|j: int|
                    0 <= j < keys.len() ==> self@.contains_key(#[trigger] keys[j]) && *found@[j]
                        == self@[keys[j]],
            decreases cats.len() - i,
        {
            let cat = &cats[i];
            let ghost earlier = seen@;
            proof {
                lemma_index_buckets(self.index(), self@, *cat);
            }
            match self.index.get(cat) {
                None => {},
                Some(bucket) => {
                    let members = bucket.iter();
                    let ghost all = into_iter_hash_keys(members);
                    let ghost mut done: int = 0;
                    proof {
                        assert(all.to_set() == keys_in(self@, *cat));
                        assert(seen@ =~= earlier.union(all.take(0).to_set()));
                    }
                    for key in it: members
                        invariant
                            self.wf(),
                            it.seq().unref() == all,
                            done == it.index(),
                            all.to_set() == keys_in(self@, *cat),
                            seen@ == earlier.union(all.take(done).to_set()),
                            keys.no_duplicates(),
                            keys.to_set() == seen@,
                            found@.len() == keys.len(),
                            forall|j: int|
                                0 <= j < keys.len() ==> self@.contains_key(#[trigger] keys[j])
                                    && *found@[j] == self@[keys[j]],
                    {
                        assert(*key == all[done]);
                        assert(all.to_set().contains(all[done]));
                        assert(belongs(self@, *key, *cat));
                        let copy = key.clone();
                        assert(cloned(*key, copy));
                        let ghost so_far = found@;
                        let ghost listed = keys;
                        if seen.insert(copy) {
                            // a bucket holds the keys of stored records only
                            if let Some(val) = self.data.get(key) {
                                found.push(val);
                            }
                            proof {
                                keys = keys.push(*key);
                                assert(!listed.to_set().contains(*key));
                                listed.lemma_push_to_set_commute(*key);
                                assert forall|j: int| 0 <= j < keys.len() implies self@.contains_key(
                                    #[trigger] keys[j],
                                ) && *found@[j] == self@[keys[j]] by {
                                    if j < listed.len() {
                                        assert(keys[j] == listed[j]);
                                        assert(found@[j] == so_far[j]);
                                    }
                                }
                            }
                        }
                        proof {
                            lemma_take_next(all, done);
                            assert(seen@ =~= earlier.union(all.take(done + 1).to_set()));
                            done = done + 1;
                        }
                    }
                    proof {
                        assert(all.take(done) =~= all);
                    }
                },
            }
            proof {
                lemma_take_next(cats@, i as int);
                assert(seen@ =~= earlier.union(keys_in(self@, *cat)));
                lemma_keys_in_any_insert(self@, cats@.take(i as int).to_set(), *cat);
            }
            i = i + 1;
        }
        proof {
            assert(cats@.take(i as int) =~= cats@);
            let records = found@.unref();
            assert(keys_of(records) =~= keys) by {
                assert forall|j: int| 0 <= j < keys.len() implies record_key(records[j])
                    == keys[j] by {
                    assert(self@.contains_key(keys[j]));
                }
            }
            assert forall|j: int| 0 <= j < records.len() implies self@.contains_key(
                #[trigger] record_key(records[j]),
            ) && self@[record_key(records[j])] == records[j] by {
                assert(self@.contains_key(keys[j]));
            }
        }
        found
    }
}

} // verus!
