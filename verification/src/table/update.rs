//! Replacing records: one by its key, or all those of a category.

use vstd::prelude::*;
use vstd::std_specs::hash::into_iter_hash_keys;
use std::collections::HashSet;
use crate::batch::{
    arrives, batch_collides, batch_replaced, lemma_batch_empty, lemma_batch_grows,
    lemma_batch_step, try_batch,
};
use crate::error::QueryError;
use crate::index::refile;
use crate::model::{
    accepted, belongs, filed, keys_in, lemma_index_buckets, lemma_take_next, memberships, refused,
    replaced, try_replace, try_update,
};
use crate::record::{categories_of, key_of, keyed, record_categories, TableRecord};
use crate::table::Table;

verus! {

impl<T: TableRecord> Table<T> {
    /// Puts `val` in the place of the record under `old_key`. Where `val` has
    /// another key, it is stored under that key first, and only then does the
    /// old record leave; where the key stays, the record is exchanged and its
    /// key moves between the buckets of the categories that differ.
    fn replace(&mut self, old_key: T::Key, val: T) -> (res: Result<(), QueryError>)
        requires
            old(self)@.contains_key(old_key),
        ensures
            keyed(val),
            match res {
                Ok(()) => try_replace(old(self)@, old_key, val) == accepted(final(self)@),
                Err(e) => try_replace(old(self)@, old_key, val) == refused::<T>(e) && *final(self)
                    == *old(self),
            },
    {
        proof {
            use_type_invariant(&*self);
        }
        let new_key = key_of(&val);
        if new_key != old_key {
            match self.insert(val) {
                Ok(()) => {},
                Err(e) => {
                    return Err(e);
                },
            }
            self.remove(&old_key);
            assert(self@ =~= replaced(old(self)@, old_key, val));
        } else {
            let fresh = categories_of(&val);
            let (mut data, mut index) = self.take_apart();
            let ghost before = data@;
            // a record is under the key, so the map hands it back
            let stale = match data.insert(new_key, val) {
                Some(prev) => categories_of(&prev),
                None => Vec::new(),
            };
            refile(&mut index, stale, fresh, &old_key);
            proof {
                assert(data@ =~= replaced(before, old_key, val));
                assert(memberships(data@) =~= memberships(before).difference(
                    filed(
                        record_categories(before[old_key]).difference(record_categories(val)),
                        old_key,
                    ),
                ).union(
                    filed(
                        record_categories(val).difference(record_categories(before[old_key])),
                        old_key,
                    ),
                ));
            }
            *self = Table { data, index };
        }
        Ok(())
    }

    /// Stores `new_val` under its own key. The record under `key`, if there is
    /// one, makes way for it. Refused when the key of `new_val` is another key
    /// than `key` and is taken.
    pub fn upsert(&mut self, key: T::Key, new_val: T) -> (res: Result<(), QueryError>)
        ensures
            keyed(new_val),
            match res {
                Ok(()) => try_replace(old(self)@, key, new_val) == accepted(final(self)@),
                Err(e) => try_replace(old(self)@, key, new_val) == refused::<T>(e) && *final(self)
                    == *old(self),
            },
    {
        proof {
            use_type_invariant(&*self);
        }
        let new_key = key_of(&new_val);
        if new_key != key && self.data.contains_key(&new_key) {
            return Err(QueryError::KeyCollision);
        }
        if self.data.contains_key(&key) {
            self.replace(key, new_val)
        } else {
            assert(self@.remove(key) =~= self@);
            self.insert(new_val)
        }
    }

    /// Changes the record under `old_key` by `cb`, which works on a copy. The
    /// changed copy then takes the place of the record, under its own key,
    /// unless that key is another key than `old_key` and is taken.
    pub fn update_with(&mut self, old_key: T::Key, cb: &impl Fn(&mut T)) -> (res: Result<
        (),
        QueryError,
    >)
        requires
            old(self)@.contains_key(old_key) ==> forall|t: &mut T|
                cloned(old(self)@[old_key], *t) ==> #[trigger] cb.requires((t,)),
        ensures
            !old(self)@.contains_key(old_key) ==> res == Err::<(), QueryError>(
                QueryError::KeyNotFound,
            ) && *final(self) == *old(self),
            old(self)@.contains_key(old_key) ==> exists|t: &mut T|
                {
                    &&& cloned(old(self)@[old_key], *t)
                    &&& #[trigger] cb.ensures((t,), ())
                    &&& keyed(*final(t))
                    &&& match res {
                        Ok(()) => try_update(old(self)@, old_key, *final(t)) == accepted(
                            final(self)@,
                        ),
                        Err(e) => try_update(old(self)@, old_key, *final(t)) == refused::<T>(e)
                            && *final(self) == *old(self),
                    }
                },
    {
        proof {
            use_type_invariant(&*self);
        }
        let mut val = match self.data.get(&old_key) {
            Some(stored) => stored.clone(),
            None => {
                return Err(QueryError::KeyNotFound);
            },
        };
        cb(&mut val);
        self.replace(old_key, val)
    }

    /// Changes every record that belongs to `cat` by `cb`, which works on
    /// copies. Nothing is stored before every changed copy is known to find
    /// its place: its key is the key of the record it replaces, or is free.
    /// Two changed copies with one key are refused like a copy whose key is
    /// taken, before anything is stored. Returns how many records were
    /// replaced.
    pub fn update_by_cat(&mut self, cat: T::Category, cb: impl Fn(&mut T)) -> (res: Result<
        usize,
        QueryError,
    >)
        requires
            forall|k: T::Key, t: &mut T|
                #![trigger belongs(old(self)@, k, cat), cb.requires((t,))]
                belongs(old(self)@, k, cat) && cloned(old(self)@[k], *t) ==> cb.requires((t,)),
        ensures
            exists|news: Map<T::Key, T>|
                {
                    &&& news.dom().subset_of(keys_in(old(self)@, cat))
                    &&& forall|k: T::Key| #[trigger]
                        news.contains_key(k) ==> keyed(news[k]) && exists|t: &mut T|
                            cloned(old(self)@[k], *t) && #[trigger] cb.ensures((t,), ())
                                && *final(t) == news[k]
                    &&& match res {
                        Ok(n) => news.dom() == keys_in(old(self)@, cat) && n == news.len()
                            && try_batch(old(self)@, news) == accepted(final(self)@),
                        Err(e) => try_batch(old(self)@, news) == refused::<T>(e) && *final(self)
                            == *old(self),
                    }
                },
    {
        proof {
            use_type_invariant(&*self);
            lemma_index_buckets(self.index(), self@, cat);
            lemma_batch_empty(self@);
        }
        let ghost before = self@;
        let ghost mut news: Map<T::Key, T> = Map::empty();
        let ghost mut all: Seq<T::Key> = Seq::empty();
        let mut updates: Vec<(T::Key, T)> = Vec::new();
        let mut taken: HashSet<T::Key> = HashSet::new();
        match self.index.get(&cat) {
            None => {
                proof {
                    assert(news.dom() =~= keys_in(before, cat));
                    assert(news.len() == 0);
                }
                return Ok(0);
            },
            Some(bucket) => {
                let keys = bucket.iter();
                let ghost mut done: int = 0;
                proof {
                    all = into_iter_hash_keys(keys);
                    assert(news.dom() =~= all.take(0).to_set());
                }
                for old_key in it: keys
                    invariant
                        self.wf(),
                        self@ == before,
                        forall|k: T::Key, t: &mut T|
                            #![trigger belongs(before, k, cat), cb.requires((t,))]
                            belongs(before, k, cat) && cloned(before[k], *t) ==> cb.requires((t,)),
                        it.seq().unref() == all,
                        done == it.index(),
                        all.no_duplicates(),
                        all.to_set() == keys_in(before, cat),
                        news.dom() == all.take(done).to_set(),
                        forall|k: T::Key| #[trigger]
                            news.contains_key(k) ==> keyed(news[k]) && exists|t: &mut T|
                                cloned(before[k], *t) && #[trigger] cb.ensures((t,), ())
                                    && *final(t) == news[k],
                        !batch_collides(before, news),
                        forall|to: T::Key| taken@.contains(to) <==> arrives(news, to),
                        updates@.len() == done,
                        forall|j: int|
                            0 <= j < done ==> (#[trigger] updates@[j]).0 == all[j] && updates@[j].1
                                == news[all[j]],
                {
                    proof {
                        lemma_take_next(all, done);
                        assert(belongs(before, *old_key, cat));
                    }
                    // the bucket holds the keys of stored records only
                    if let Some(stored) = self.data.get(old_key) {
                        let mut item = stored.clone();
                        cb(&mut item);
                        let new_key = key_of(&item);
                        let ghost earlier = news;
                        proof {
                            lemma_batch_grows(before, earlier, *old_key, item);
                            news = earlier.insert(*old_key, item);
                        }
                        if new_key != *old_key && self.data.contains_key(&new_key) {
                            return Err(QueryError::KeyCollision);
                        }
                        if !taken.insert(new_key) {
                            return Err(QueryError::KeyCollision);
                        }
                        let copy = old_key.clone();
                        assert(cloned(*old_key, copy));
                        updates.push((copy, item));
                        proof {
                            assert forall|to: T::Key| taken@.contains(to) <==> arrives(
                                news,
                                to,
                            ) by {
                                assert(arrives(news, to) <==> (arrives(earlier, to) || to
                                    == new_key));
                            }
                            assert forall|j: int| 0 <= j < done + 1 implies (
                            #[trigger] updates@[j]).0 == all[j] && updates@[j].1
                                == news[all[j]] by {
                                if j < done {
                                    assert(all.take(done)[j] == all[j]);
                                    assert(earlier.contains_key(all[j]));
                                }
                            }
                        }
                    }
                    proof {
                        done = done + 1;
                    }
                }
                proof {
                    assert(all.take(done) =~= all);
                    all.unique_seq_to_set();
                }
            },
        }
        let count = updates.len();
        let ghost ups = updates@;
        let ghost mut done: int = 0;
        proof {
            assert(news.restrict(all.take(0).to_set()) =~= Map::<T::Key, T>::empty());
            assert forall|k: T::Key| news.contains_key(k) implies before.contains_key(k) by {
                assert(belongs(before, k, cat));
            }
        }
        for update in it: updates.into_iter()
            invariant
                it.seq() == ups,
                done == it.index(),
                ups.len() == all.len(),
                all.no_duplicates(),
                news.dom() == all.to_set(),
                news.dom().subset_of(before.dom()),
                !batch_collides(before, news),
                forall|j: int|
                    0 <= j < ups.len() ==> (#[trigger] ups[j]).0 == all[j] && ups[j].1
                        == news[all[j]],
                self@ == batch_replaced(before, news.restrict(all.take(done).to_set())),
        {
            let (old_key, new_val) = update;
            proof {
                assert(ups[done].0 == all[done]);
                lemma_take_next(all, done);
                lemma_batch_step(before, news, all.take(done).to_set(), old_key);
            }
            // the batch was found free of collisions, so no record is refused here
            match self.upsert(old_key, new_val) {
                Ok(()) => {},
                Err(e) => {
                    return Err(e);
                },
            }
            proof {
                done = done + 1;
            }
        }
        proof {
            assert(all.take(done) =~= all);
            assert(news.restrict(all.to_set()) =~= news);
        }
        Ok(count)
    }
}

} // verus!
