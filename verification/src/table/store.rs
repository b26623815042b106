//! Storing and removing records.

use vstd::prelude::*;
use vstd::std_specs::hash::into_iter_hash_keys;
use crate::error::QueryError;
use crate::index::{bucket_keys, file_all, unfile_all};
use crate::model::{
    accepted, entries, filed, keys_in, keys_of, lemma_index_buckets, lemma_take_next, lists,
    memberships, pruned, refused, try_insert, well_keyed, witnessed,
};
use crate::record::{
    categories_of, key_of, keyed, record_categories, record_key, well_behaved, TableRecord,
};
use crate::table::Table;

verus! {

impl<T: TableRecord> Table<T> {
    /// Stores `val` under its key, unless a record is there already.
    pub fn insert(&mut self, val: T) -> (res: Result<(), QueryError>)
        ensures
            keyed(val),
            match res {
                Ok(()) => try_insert(old(self)@, val) == accepted(final(self)@),
                Err(e) => try_insert(old(self)@, val) == refused::<T>(e)
                    && *final(self) == *old(self),
            },
    {
        proof {
            use_type_invariant(&*self);
        }
        let key = key_of(&val);
        if self.data.contains_key(&key) {
            return Err(QueryError::KeyCollision);
        }
        let cats = categories_of(&val);
        let (mut data, mut index) = self.take_apart();
        let ghost before = data@;
        file_all(&mut index, cats, &key);
        data.insert(key, val);
        proof {
            assert(memberships(data@) =~= memberships(before).union(
                filed(record_categories(val), record_key(val)),
            ));
        }
        *self = Table { data, index };
        Ok(())
    }

    /// Takes the record under `key` out of the table and out of every bucket
    /// that held its key. A bucket that this leaves empty goes too.
    pub fn remove(&mut self, key: &T::Key) -> (res: Option<T>)
        ensures
            res == (if old(self)@.contains_key(*key) {
                Some(old(self)@[*key])
            } else {
                None
            }),
            final(self)@ == old(self)@.remove(*key),
            res is None ==> *final(self) == *old(self),
    {
        proof {
            use_type_invariant(&*self);
        }
        let cats = match self.data.get(key) {
            Some(val) => categories_of(val),
            None => {
                assert(self@.remove(*key) =~= self@);
                return None;
            },
        };
        let (mut data, mut index) = self.take_apart();
        let ghost before = data@;
        let removed = data.remove(key);
        unfile_all(&mut index, cats, key);
        proof {
            assert(memberships(data@) =~= memberships(before).difference(
                filed(record_categories(before[*key]), *key),
            ));
        }
        *self = Table { data, index };
        removed
    }

    /// Takes every record that belongs to `cat` out of the table, and its key
    /// out of every bucket that held it, so that no bucket is left with the
    /// key of a record that is gone. The records come back in no particular
    /// order.
    pub fn remove_cat(&mut self, cat: &T::Category) -> (removed: Vec<T>)
        ensures
            lists(removed@, old(self)@, keys_in(old(self)@, *cat)),
            final(self)@ == old(self)@.remove_keys(keys_in(old(self)@, *cat)),
    {
        proof {
            use_type_invariant(&*self);
            lemma_index_buckets(self.index(), self@, *cat);
        }
        let mut removed: Vec<T> = Vec::new();
        let (mut data, mut index) = self.take_apart();
        let ghost before = data@;
        let ghost buckets = bucket_keys(index@);
        match index.remove(cat) {
            None => {
                proof {
                    assert(bucket_keys(index@) =~= buckets);
                    assert(keys_of(removed@).to_set() =~= keys_in(before, *cat));
                    assert(data@ =~= before.remove_keys(keys_in(before, *cat)));
                }
            },
            Some(bucket) => {
                let keys = bucket.iter();
                let ghost all = into_iter_hash_keys(keys);
                let ghost mut done: int = 0;
                proof {
                    assert(all.to_set() == keys_in(before, *cat));
                    assert(data@ =~= before.remove_keys(all.take(0).to_set()));
                    assert forall|c: T::Category| #[trigger]
                        bucket_keys(index@).contains_key(c) implies !(bucket_keys(index@)[c]
                        =~= Set::<T::Key>::empty()) by {
                        assert(buckets.contains_key(c) && bucket_keys(index@)[c] == buckets[c]);
                    }
                    assert(entries(bucket_keys(index@)) =~= memberships(data@).filter(
                        |p: (T::Category, T::Key)| p.0 != *cat,
                    ));
                }
                for key in it: keys
                    invariant
                        well_behaved::<T>(),
                        it.seq().unref() == all,
                        done == it.index(),
                        all.no_duplicates(),
                        all.to_set() == keys_in(before, *cat),
                        well_keyed(before),
                        witnessed(before),
                        before.dom().finite(),
                        pruned(bucket_keys(index@)),
                        data@ == before.remove_keys(all.take(done).to_set()),
                        entries(bucket_keys(index@)) == memberships(data@).filter(
                            |p: (T::Category, T::Key)| p.0 != *cat,
                        ),
                        removed@.len() == done,
                        forall|j: int|
                            0 <= j < done ==> before.contains_key(#[trigger] all[j]) && removed@[j]
                                == before[all[j]],
                {
                    assert(*key == all[done]);
                    let ghost now = data@;
                    // the bucket held the keys of stored records only
                    if let Some(val) = data.remove(key) {
                        let cats = categories_of(&val);
                        unfile_all(&mut index, cats, key);
                        removed.push(val);
                    }
                    proof {
                        lemma_take_next(all, done);
                        assert(all.to_set().contains(all[done]));
                        assert(now.contains_key(*key));
                        assert(data@ =~= before.remove_keys(all.take(done + 1).to_set()));
                        assert(entries(bucket_keys(index@)) =~= memberships(data@).filter(
                            |p: (T::Category, T::Key)| p.0 != *cat,
                        ));
                        done = done + 1;
                    }
                }
                proof {
                    assert(all.take(done) =~= all);
                    assert(keys_of(removed@) =~= all);
                    assert forall|i: int| 0 <= i < removed@.len() implies before.contains_key(
                        #[trigger] record_key(removed@[i]),
                    ) && before[record_key(removed@[i])] == removed@[i] by {
                        assert(removed@[i] == before[all[i]]);
                    }
                    assert(memberships(data@).filter(|p: (T::Category, T::Key)| p.0 != *cat)
                        =~= memberships(data@));
                }
            },
        }
        *self = Table { data, index };
        removed
    }
}

} // verus!
