//! What a type must offer to be stored in a table.
//!
//! [`TableRecord`] has no ghost items, so that a type can implement it in
//! ordinary Rust. The model speaks of a record through [`record_key`] and
//! [`record_categories`], which name what the two methods return. A verified
//! implementation that states on `key` what it returns learns from
//! [`keyed`] what `record_key` is for a record; the table states `keyed` of
//! the records it is handed and keeps it of those it stores.

use vstd::prelude::*;
use vstd::std_specs::cmp::PartialEqSpec;
use vstd::std_specs::hash::obeys_key_model;
use std::hash::Hash;
use crate::index::clones_faithfully;

verus! {

/// A record that a table can store: it has a key and belongs to some categories.
///
/// A table relies on both methods being functions of the record: see
/// [`well_behaved`].
pub trait TableRecord: Clone {
    /// The identity of a record within a table.
    type Key: Hash + Eq + Clone;

    /// A classification that records can share.
    type Category: Hash + Eq + Clone;

    /// The categories that the record belongs to now. Repeats do not count.
    fn categories(&self) -> Vec<Self::Category>;

    /// The key of the record.
    fn key(&self) -> Self::Key;
}

/// The key that `key` returns for `r`.
pub open spec fn record_key<T: TableRecord>(r: T) -> T::Key {
    choose|key: T::Key| call_ensures(T::key, (&r,), key)
}

/// What `categories` returns for `r`.
pub open spec fn record_category_list<T: TableRecord>(r: T) -> Vec<T::Category> {
    choose|cats: Vec<T::Category>| call_ensures(T::categories, (&r,), cats)
}

/// The categories that `categories` returns for `r`, as a set.
pub open spec fn record_categories<T: TableRecord>(r: T) -> Set<T::Category> {
    record_category_list(r)@.to_set()
}

/// `key` can return for `r`, and what it returns is then `record_key(r)`.
pub open spec fn keyed<T: TableRecord>(r: T) -> bool {
    call_ensures(T::key, (&r,), record_key(r))
}

/// `categories` can return for `r`, and what it returns then holds the
/// categories of `record_categories(r)`.
pub open spec fn classed<T: TableRecord>(r: T) -> bool {
    call_ensures(T::categories, (&r,), record_category_list(r))
}

/// What a table asks of the record type: keys and categories hash and compare
/// as hash tables need them to, a copy of one is the same key or category,
/// `==` on keys tells whether two keys are the same key, and the key and the
/// set of categories of a record depend on the record alone.
pub open spec fn well_behaved<T: TableRecord>() -> bool {
    &&& obeys_key_model::<T::Key>()
    &&& obeys_key_model::<T::Category>()
    &&& clones_faithfully::<T::Key>()
    &&& clones_faithfully::<T::Category>()
    &&& T::Key::obeys_eq_spec()
    &&& forall|a: T::Key, b: T::Key| #[trigger] a.eq_spec(&b) <==> a == b
    &&& forall|r: T, a: T::Key, b: T::Key|
        #[trigger] call_ensures(T::key, (&r,), a) && #[trigger] call_ensures(T::key, (&r,), b)
            ==> a == b
    &&& forall|r: T, a: Vec<T::Category>, b: Vec<T::Category>|
        #[trigger] call_ensures(T::categories, (&r,), a) && #[trigger] call_ensures(
            T::categories,
            (&r,),
            b,
        ) ==> a@.to_set() == b@.to_set()
}

/// The key of `val`.
pub(crate) fn key_of<T: TableRecord>(val: &T) -> (key: T::Key)
    requires
        well_behaved::<T>(),
    ensures
        key == record_key(*val),
        keyed(*val),
{
    let key = val.key();
    proof {
        assert(call_ensures(T::key, (val,), key));
        assert(call_ensures(T::key, (val,), record_key(*val)));
    }
    key
}

/// The categories of `val`.
pub(crate) fn categories_of<T: TableRecord>(val: &T) -> (cats: Vec<T::Category>)
    requires
        well_behaved::<T>(),
    ensures
        cats@.to_set() == record_categories(*val),
        classed(*val),
{
    let cats = val.categories();
    proof {
        assert(call_ensures(T::categories, (val,), cats));
        assert(call_ensures(T::categories, (val,), record_category_list(*val)));
    }
    cats
}

} // verus!
