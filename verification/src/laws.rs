//! What holds of every table, stated over the model and proved.

use vstd::prelude::*;
use crate::error::QueryError;
use crate::model::{
    belongs, categories_in, keys_in, keys_in_any, lemma_keys_in_any_insert, refused, try_insert,
    try_update,
};
use crate::record::{record_key, TableRecord};

verus! {

/// A record that is stored under a free key is found under that key, as it
/// was stored, and every other key finds what it found before.
pub proof fn law_insert_then_get<T: TableRecord>(m: Map<T::Key, T>, r: T)
    requires
        !m.contains_key(record_key(r)),
    ensures
        try_insert(m, r) is Ok,
        try_insert(m, r)->Ok_0.contains_key(record_key(r)),
        try_insert(m, r)->Ok_0[record_key(r)] == r,
        forall|k: T::Key|
            k != record_key(r) ==> (try_insert(m, r)->Ok_0.contains_key(k) <==> m.contains_key(k)),
        forall|k: T::Key| m.contains_key(k) ==> try_insert(m, r)->Ok_0[k] == m[k],
{
}

/// Of two records with one key, stored one after the other into a table
/// where the key is free, the second is refused as a collision, and the table
/// holds the first under that key.
pub proof fn law_second_insert_collides<T: TableRecord>(m: Map<T::Key, T>, first: T, second: T)
    requires
        !m.contains_key(record_key(first)),
        record_key(second) == record_key(first),
    ensures
        try_insert(m, first) is Ok,
        try_insert(try_insert(m, first)->Ok_0, second) == refused::<T>(
            QueryError::KeyCollision,
        ),
        try_insert(m, first)->Ok_0[record_key(first)] == first,
        try_insert(m, first)->Ok_0.dom() == m.dom().insert(record_key(first)),
{
}

/// After the record under `k` is removed, nothing is under `k`, no category
/// lists `k`, the other records are listed as before, and a category that
/// lists no key any more is no category of the table.
pub proof fn law_remove_unlists<T: TableRecord>(m: Map<T::Key, T>, k: T::Key, c: T::Category)
    requires
        m.contains_key(k),
    ensures
        !m.remove(k).contains_key(k),
        !keys_in(m.remove(k), c).contains(k),
        keys_in(m.remove(k), c) == keys_in(m, c).remove(k),
        keys_in(m.remove(k), c) == Set::<T::Key>::empty() ==> !categories_in(m.remove(k)).contains(
            c,
        ),
{
    let after = m.remove(k);
    assert forall|x: T::Key| keys_in(after, c).contains(x) <==> keys_in(m, c).remove(k).contains(
        x,
    ) by {
        assert(belongs(after, x, c) <==> (belongs(m, x, c) && x != k));
    }
    assert(keys_in(after, c) =~= keys_in(m, c).remove(k));
    if categories_in(after).contains(c) {
        let x = choose|x: T::Key| #[trigger] belongs(after, x, c);
        assert(keys_in(after, c).contains(x));
    }
}

/// A change that gives the record under `k` the key of another record is
/// refused as a collision.
pub proof fn law_rename_onto_other_collides<T: TableRecord>(m: Map<T::Key, T>, k: T::Key, val: T)
    requires
        m.contains_key(k),
        record_key(val) != k,
        m.contains_key(record_key(val)),
    ensures
        try_update(m, k, val) == refused::<T>(QueryError::KeyCollision),
{
}

/// The records that belong to one of two categories are those that belong to
/// the first together with those that belong to the second.
pub proof fn law_find_many_is_union<T: TableRecord>(
    m: Map<T::Key, T>,
    first: T::Category,
    second: T::Category,
)
    ensures
        keys_in_any(m, seq![first, second].to_set()) == keys_in(m, first).union(keys_in(m, second)),
{
    let none = Set::<T::Category>::empty();
    assert(keys_in_any(m, none) =~= Set::<T::Key>::empty());
    lemma_keys_in_any_insert(m, none, first);
    lemma_keys_in_any_insert(m, none.insert(first), second);
    assert(seq![first, second].to_set() =~= none.insert(first).insert(second)) by {
        assert(seq![first, second][0] == first);
        assert(seq![first, second][1] == second);
    }
    assert(keys_in_any(m, seq![first, second].to_set()) =~= keys_in(m, first).union(
        keys_in(m, second),
    ));
}

} // verus!
