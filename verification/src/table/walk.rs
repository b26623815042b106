//! Walking over a table.

use vstd::prelude::*;
use vstd::std_specs::iter::IteratorSpec;
use crate::model::{categories_in, lemma_index_buckets};
use crate::record::{record_key, TableRecord};
use crate::table::Table;

verus! {

impl<T: TableRecord> Table<T> {
    /// Walks over the keys with their records, each once, in no particular order.
    pub fn iter(&self) -> (pairs: impl Iterator<Item = (&T::Key, &T)>)
        ensures
            pairs.obeys_prophetic_iter_laws(),
            pairs.decrease() is Some,
            pairs.remaining().no_duplicates(),
            pairs.remaining().unref().to_set() == self@.kv_pairs(),
            pairs.remaining().len() == self@.len(),
    {
        proof {
            use_type_invariant(self);
        }
        self.data.iter()
    }

    /// Walks over the records, each once, in no particular order.
    pub fn values(&self) -> (records: impl Iterator<Item = &T>)
        ensures
            records.obeys_prophetic_iter_laws(),
            records.decrease() is Some,
            records.remaining().unref().no_duplicates(),
            records.remaining().unref().to_set() == self@.values(),
            records.remaining().len() == self@.len(),
    {
        proof {
            use_type_invariant(self);
        }
        let records = self.data.values();
        proof {
            assert(self@.is_injective()) by {
                assert forall|j: T::Key, k: T::Key|
                    j != k && self@.contains_key(j) && self@.contains_key(k) implies self@[j]
                    != self@[k] by {
                    assert(record_key(self@[j]) == j && record_key(self@[k]) == k);
                }
            }
            self@.lemma_injective_values_len();
            records.remaining().unref().lemma_no_dup_set_cardinality();
        }
        records
    }

    /// Walks over the keys, each once, in no particular order.
    pub fn iter_keys(&self) -> (keys: impl Iterator<Item = &T::Key>)
        ensures
            keys.obeys_prophetic_iter_laws(),
            keys.decrease() is Some,
            keys.remaining().no_duplicates(),
            keys.remaining().unref().to_set() == self@.dom(),
            keys.remaining().len() == self@.len(),
    {
        proof {
            use_type_invariant(self);
        }
        self.data.keys()
    }

    /// Walks over the categories that some record belongs to, each once, in
    /// no particular order.
    pub fn iter_cats(&self) -> (cats: impl Iterator<Item = &T::Category>)
        ensures
            cats.obeys_prophetic_iter_laws(),
            cats.decrease() is Some,
            cats.remaining().no_duplicates(),
            cats.remaining().unref().to_set() == categories_in(self@),
    {
        proof {
            use_type_invariant(self);
            assert forall|c: T::Category| self.index@.contains_key(c) <==> categories_in(
                self@,
            ).contains(c) by {
                lemma_index_buckets(self.index(), self@, c);
            }
            assert(self.index@.dom() =~= categories_in(self@));
        }
        self.index.keys()
    }
}

} // verus!
