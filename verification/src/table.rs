//! The table: records by key, and keys by category.

use vstd::prelude::*;
use std::collections::{HashMap, HashSet};
use crate::error::QueryError;
use crate::index::bucket_keys;
use crate::model::{
    belongs, categories_in, entries, keys_in, keys_of, lemma_index_buckets, lists, memberships,
    pruned, well_keyed, witnessed,
};
use crate::record::{key_of, keyed, record_key, well_behaved, TableRecord};

mod find;
mod store;
mod update;
mod walk;

verus! {

/// A store of records, each under its own key, with an index that tells for
/// each category which records belong to it.
#[derive(Debug)]
pub struct Table<T: TableRecord> {
    data: HashMap<T::Key, T>,
    index: HashMap<T::Category, HashSet<T::Key>>,
}

impl<T: TableRecord> View for Table<T> {
    type V = Map<T::Key, T>;

    /// The records of the table, by key.
    closed spec fn view(&self) -> Map<T::Key, T> {
        self.data@
    }
}

impl<T: TableRecord> Clone for Table<T> {
    /// A table with the same records and the same index.
    fn clone(&self) -> (copy: Self)
        ensures
            copy@ == self@,
            copy.index() == self.index(),
    {
        proof {
            use_type_invariant(self);
        }
        let data = self.data.clone();
        let index = self.index.clone();
        Table { data, index }
    }
}

impl<T: TableRecord> Table<T> {
    /// The index of the table: for each category that has a bucket, the keys in it.
    pub closed spec fn index(&self) -> Map<T::Category, Set<T::Key>> {
        bucket_keys(self.index@)
    }

    /// What holds of every table at all times: the record type is well
    /// behaved, the records are finitely many, each sits under its own key,
    /// the index holds a key under a category exactly when the record under
    /// that key belongs to the category, and no bucket is empty.
    #[verifier::type_invariant]
    pub open spec fn wf(self) -> bool {
        &&& well_behaved::<T>()
        &&& self@.dom().finite()
        &&& well_keyed(self@)
        &&& witnessed(self@)
        &&& pruned(self.index())
        &&& entries(self.index()) == memberships(self@)
    }

    /// The index is the records seen from the categories: it has a bucket for
    /// `c` exactly when some record belongs to `c`, and the bucket holds the
    /// keys of the records that do.
    pub proof fn lemma_index(self, c: T::Category)
        requires
            self.wf(),
        ensures
            self.index().contains_key(c) <==> categories_in(self@).contains(c),
            self.index().contains_key(c) ==> self.index()[c] == keys_in(self@, c),
            self.index().contains_key(c) ==> exists|k: T::Key| belongs(self@, k, c),
            forall|k: T::Key|
                (self.index().contains_key(c) && self.index()[c].contains(k)) <==> #[trigger] belongs(
                    self@,
                    k,
                    c,
                ),
    {
        lemma_index_buckets(self.index(), self@, c);
    }

    /// An empty table.
    pub fn new() -> (table: Self)
        requires
            well_behaved::<T>(),
        ensures
            table@ == Map::<T::Key, T>::empty(),
            table.index() == Map::<T::Category, Set<T::Key>>::empty(),
    {
        let data: HashMap<T::Key, T> = HashMap::new();
        let index: HashMap<T::Category, HashSet<T::Key>> = HashMap::new();
        proof {
            assert(bucket_keys(index@) =~= Map::<T::Category, Set<T::Key>>::empty());
            assert(entries(bucket_keys(index@)) =~= memberships(data@));
        }
        Table { data, index }
    }

    /// The table that holds `records`, stored one after the other. Refused
    /// when two of them have the same key.
    pub fn from_records(records: Vec<T>) -> (res: Result<Self, QueryError>)
        requires
            well_behaved::<T>(),
        ensures
            match res {
                Ok(table) => lists(records@, table@, table@.dom()),
                Err(e) => e == QueryError::KeyCollision && !keys_of(records@).no_duplicates(),
            },
    {
        let mut table: Table<T> = Table::new();
        let ghost all = records@;
        let ghost mut done: int = 0;
        proof {
            assert(keys_of(all.take(0)).to_set() =~= table@.dom());
        }
        for record in it: records.into_iter()
            invariant
                it.seq() == all,
                done == it.index(),
                lists(all.take(done), table@, table@.dom()),
        {
            let ghost before = table@;
            proof {
                assert(keys_of(all.take(done + 1)) =~= keys_of(all.take(done)).push(
                    record_key(record),
                ));
                keys_of(all.take(done)).lemma_push_to_set_commute(record_key(record));
            }
            match table.insert(record) {
                Ok(()) => {
                    proof {
                        assert(!keys_of(all.take(done)).to_set().contains(record_key(record)));
                        assert forall|i: int| 0 <= i < done + 1 implies table@.contains_key(
                            #[trigger] record_key(all.take(done + 1)[i]),
                        ) && table@[record_key(all.take(done + 1)[i])] == all.take(done + 1)[i] by {
                            if i < done {
                                assert(all.take(done + 1)[i] == all.take(done)[i]);
                                assert(keys_of(all.take(done))[i] == record_key(all.take(done)[i]));
                                assert(keys_of(all.take(done)).to_set().contains(
                                    record_key(all.take(done)[i]),
                                ));
                            }
                        }
                    }
                },
                Err(e) => {
                    proof {
                        let keys = keys_of(all);
                        assert(keys_of(all.take(done)).to_set().contains(record_key(record)));
                        let j = choose|j: int|
                            0 <= j < done && keys_of(all.take(done))[j] == record_key(record);
                        assert(keys[j] == keys[done]);
                    }
                    return Err(e);
                },
            }
            proof {
                done = done + 1;
            }
        }
        proof {
            assert(all.take(done) =~= all);
        }
        Ok(table)
    }

    /// Hands out the two maps and leaves the table empty. The maps can then
    /// be changed one after the other, and are put together again when they
    /// agree.
    fn take_apart(&mut self) -> (parts: (HashMap<T::Key, T>, HashMap<T::Category, HashSet<T::Key>>))
        ensures
            parts.0 == old(self).data,
            parts.1 == old(self).index,
    {
        proof {
            use_type_invariant(&*self);
        }
        let mut taken = Table::new();
        std::mem::swap(self, &mut taken);
        let Table { data, index } = taken;
        (data, index)
    }

    /// Empties the table.
    pub fn clear(&mut self)
        ensures
            final(self)@ == Map::<T::Key, T>::empty(),
            final(self).index() == Map::<T::Category, Set<T::Key>>::empty(),
    {
        proof {
            use_type_invariant(&*self);
        }
        let (mut data, mut index) = self.take_apart();
        data.clear();
        index.clear();
        proof {
            assert(bucket_keys(index@) =~= Map::<T::Category, Set<T::Key>>::empty());
            assert(entries(bucket_keys(index@)) =~= memberships(data@));
        }
        *self = Table { data, index };
    }

    /// The number of records.
    pub fn len(&self) -> (n: usize)
        ensures
            n == self@.len(),
    {
        proof {
            use_type_invariant(self);
        }
        self.data.len()
    }

    /// Whether a record is stored under `key`.
    pub fn contains_key(&self, key: &T::Key) -> (found: bool)
        ensures
            found == self@.contains_key(*key),
    {
        proof {
            use_type_invariant(self);
        }
        self.data.contains_key(key)
    }

    /// Whether a record is stored under the key of `val`.
    pub fn contains_val(&self, val: &T) -> (found: bool)
        ensures
            keyed(*val),
            found == self@.contains_key(record_key(*val)),
    {
        proof {
            use_type_invariant(self);
        }
        let key = key_of(val);
        self.data.contains_key(&key)
    }

    /// Whether some record belongs to `cat`.
    pub fn contains_cat(&self, cat: &T::Category) -> (found: bool)
        ensures
            found == categories_in(self@).contains(*cat),
            found == self.index().contains_key(*cat),
    {
        proof {
            use_type_invariant(self);
            lemma_index_buckets(self.index(), self@, *cat);
        }
        self.index.contains_key(cat)
    }

    /// The record under `key`, if there is one.
    pub fn get(&self, key: &T::Key) -> (found: Option<&T>)
        ensures
            found == (if self@.contains_key(*key) {
                Some(&self@[*key])
            } else {
                None
            }),
    {
        proof {
            use_type_invariant(self);
        }
        self.data.get(key)
    }
}

} // verus!
