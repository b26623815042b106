//! The mathematical model of a table: a map from keys to records, and what
//! that map says about categories.

use vstd::prelude::*;
use crate::error::QueryError;
use crate::record::{classed, keyed, record_categories, record_key, TableRecord};

verus! {

/// Every record of `m` is stored under its own key.
pub open spec fn well_keyed<T: TableRecord>(m: Map<T::Key, T>) -> bool {
    forall|k: T::Key| #[trigger] m.contains_key(k) ==> record_key(m[k]) == k
}

/// The methods of each record of `m` can return, so that `record_key` and
/// `record_categories` speak of what they return.
pub open spec fn witnessed<T: TableRecord>(m: Map<T::Key, T>) -> bool {
    forall|k: T::Key| #[trigger] m.contains_key(k) ==> keyed(m[k]) && classed(m[k])
}

/// Record `k` of `m` belongs to category `c`.
pub open spec fn belongs<T: TableRecord>(m: Map<T::Key, T>, k: T::Key, c: T::Category) -> bool {
    m.contains_key(k) && record_categories(m[k]).contains(c)
}

/// The keys of the records of `m` that belong to category `c`.
pub open spec fn keys_in<T: TableRecord>(m: Map<T::Key, T>, c: T::Category) -> Set<T::Key> {
    Set::new(|k: T::Key| belongs(m, k, c))
}

/// The keys of the records of `m` that belong to at least one category of `cs`.
pub open spec fn keys_in_any<T: TableRecord>(m: Map<T::Key, T>, cs: Set<T::Category>) -> Set<
    T::Key,
> {
    Set::new(|k: T::Key| exists|c: T::Category| cs.contains(c) && #[trigger] belongs(m, k, c))
}

/// The categories that at least one record of `m` belongs to.
pub open spec fn categories_in<T: TableRecord>(m: Map<T::Key, T>) -> Set<T::Category> {
    Set::new(|c: T::Category| exists|k: T::Key| #[trigger] belongs(m, k, c))
}

/// The table `m` after the record under `key`, if there is one, has made way
/// for `val`, which is stored under its own key.
pub open spec fn replaced<T: TableRecord>(m: Map<T::Key, T>, key: T::Key, val: T) -> Map<
    T::Key,
    T,
> {
    m.remove(key).insert(record_key(val), val)
}

/// Storing `val` in place of the record under `key` would put it on top of
/// another record.
pub open spec fn collides<T: TableRecord>(m: Map<T::Key, T>, key: T::Key, val: T) -> bool {
    record_key(val) != key && m.contains_key(record_key(val))
}

/// The outcome of an operation that was carried out and made `m` of the table.
pub open spec fn accepted<T: TableRecord>(m: Map<T::Key, T>) -> Result<
    Map<T::Key, T>,
    QueryError,
> {
    Ok(m)
}

/// The outcome of an operation that was refused for the reason `e`.
pub open spec fn refused<T: TableRecord>(e: QueryError) -> Result<Map<T::Key, T>, QueryError> {
    Err(e)
}

/// What storing `val` under its own key makes of `m`: refused where a record
/// is under that key already.
pub open spec fn try_insert<T: TableRecord>(m: Map<T::Key, T>, val: T) -> Result<
    Map<T::Key, T>,
    QueryError,
> {
    if m.contains_key(record_key(val)) {
        Err(QueryError::KeyCollision)
    } else {
        Ok(m.insert(record_key(val), val))
    }
}

/// What putting `val` in the place of the record under `key` makes of `m`:
/// refused where `val` would land on another record. Where no record is
/// under `key`, `val` is stored all the same.
pub open spec fn try_replace<T: TableRecord>(m: Map<T::Key, T>, key: T::Key, val: T) -> Result<
    Map<T::Key, T>,
    QueryError,
> {
    if collides(m, key, val) {
        Err(QueryError::KeyCollision)
    } else {
        Ok(replaced(m, key, val))
    }
}

/// What changing the record under `key` into `val` makes of `m`: refused
/// where no record is under `key`, and where `val` would land on another
/// record.
pub open spec fn try_update<T: TableRecord>(m: Map<T::Key, T>, key: T::Key, val: T) -> Result<
    Map<T::Key, T>,
    QueryError,
> {
    if !m.contains_key(key) {
        Err(QueryError::KeyNotFound)
    } else {
        try_replace(m, key, val)
    }
}

/// The keys of a sequence of records, in the same order.
pub open spec fn keys_of<T: TableRecord>(records: Seq<T>) -> Seq<T::Key> {
    records.map_values(|r: T| record_key(r))
}

/// `records` holds exactly the records of `m` whose keys are in `keys`, each once.
pub open spec fn lists<T: TableRecord>(
    records: Seq<T>,
    m: Map<T::Key, T>,
    keys: Set<T::Key>,
) -> bool {
    &&& keys_of(records).no_duplicates()
    &&& keys_of(records).to_set() == keys
    &&& forall|i: int|
        0 <= i < records.len() ==> m.contains_key(#[trigger] record_key(records[i]))
            && m[record_key(records[i])] == records[i]
}

/// The pairs of a category and a key that `index` holds.
pub open spec fn entries<K, C>(index: Map<C, Set<K>>) -> Set<(C, K)> {
    Set::new(|p: (C, K)| index.contains_key(p.0) && index[p.0].contains(p.1))
}

/// No bucket of `index` is empty.
pub open spec fn pruned<K, C>(index: Map<C, Set<K>>) -> bool {
    forall|c: C| #[trigger] index.contains_key(c) ==> !(index[c] =~= Set::<K>::empty())
}

/// The pairs of a category and a key for which the record under the key
/// belongs to the category.
pub open spec fn memberships<T: TableRecord>(m: Map<T::Key, T>) -> Set<(T::Category, T::Key)> {
    Set::new(|p: (T::Category, T::Key)| belongs(m, p.1, p.0))
}

/// The pairs that put the one key `k` under each category of `cs`.
pub open spec fn filed<K, C>(cs: Set<C>, k: K) -> Set<(C, K)> {
    Set::new(|p: (C, K)| cs.contains(p.0) && p.1 == k)
}

/// One more element of a sequence adds that element to the set of those
/// seen, which are all elements of the sequence. In a sequence without
/// repeats the element is new.
pub proof fn lemma_take_next<A>(s: Seq<A>, n: int)
    requires
        0 <= n < s.len(),
    ensures
        s.take(n + 1).to_set() == s.take(n).to_set().insert(s[n]),
        s.take(s.len() as int) == s,
        s.take(n).to_set().subset_of(s.to_set()),
        s.to_set().contains(s[n]),
        s.no_duplicates() ==> !s.take(n).to_set().contains(s[n]),
{
    assert(s.take(n + 1) =~= s.take(n).push(s[n]));
    s.take(n).lemma_push_to_set_commute(s[n]);
    assert(s.take(s.len() as int) =~= s);
    assert forall|a: A| s.take(n).to_set().contains(a) implies s.to_set().contains(a) by {
        let j = choose|j: int| 0 <= j < n && s.take(n)[j] == a;
        assert(s[j] == a);
    }
    if s.no_duplicates() && s.take(n).to_set().contains(s[n]) {
        let j = choose|j: int| 0 <= j < n && s.take(n)[j] == s[n];
        assert(s[j] == s[n]);
    }
}

/// An index that holds exactly the memberships of `m`, and no empty bucket,
/// has a bucket for `c` exactly when some record belongs to `c`, and that
/// bucket holds the keys of the records that do.
pub proof fn lemma_index_buckets<T: TableRecord>(
    index: Map<T::Category, Set<T::Key>>,
    m: Map<T::Key, T>,
    c: T::Category,
)
    requires
        pruned(index),
        entries(index) == memberships(m),
    ensures
        index.contains_key(c) <==> categories_in(m).contains(c),
        index.contains_key(c) ==> index[c] == keys_in(m, c),
        !index.contains_key(c) ==> keys_in(m, c) == Set::<T::Key>::empty(),
{
    assert forall|k: T::Key| (index.contains_key(c) && index[c].contains(k)) <==> belongs(
        m,
        k,
        c,
    ) by {
        let p = (c, k);
        assert(entries(index).contains(p) == (index.contains_key(p.0) && index[p.0].contains(p.1)));
        assert(memberships(m).contains(p) == belongs(m, p.1, p.0));
    }
    if index.contains_key(c) {
        assert(index[c] =~= keys_in(m, c));
        assert(!(index[c] =~= Set::<T::Key>::empty()));
        let k = choose|k: T::Key| index[c].contains(k);
        assert(belongs(m, k, c));
    } else {
        assert(keys_in(m, c) =~= Set::<T::Key>::empty());
    }
}

/// One more category adds the keys of the records that belong to it.
pub proof fn lemma_keys_in_any_insert<T: TableRecord>(
    m: Map<T::Key, T>,
    cs: Set<T::Category>,
    c: T::Category,
)
    ensures
        keys_in_any(m, cs.insert(c)) == keys_in_any(m, cs).union(keys_in(m, c)),
{
    assert forall|k: T::Key| keys_in_any(m, cs.insert(c)).contains(k) <==> keys_in_any(
        m,
        cs,
    ).union(keys_in(m, c)).contains(k) by {
        if keys_in_any(m, cs.insert(c)).contains(k) {
            let d = choose|d: T::Category| cs.insert(c).contains(d) && #[trigger] belongs(m, k, d);
            if d != c {
                assert(cs.contains(d) && belongs(m, k, d));
            }
        }
        if keys_in_any(m, cs).contains(k) {
            let d = choose|d: T::Category| cs.contains(d) && #[trigger] belongs(m, k, d);
            assert(cs.insert(c).contains(d) && belongs(m, k, d));
        }
        if keys_in(m, c).contains(k) {
            assert(cs.insert(c).contains(c) && belongs(m, k, c));
        }
    }
    assert(keys_in_any(m, cs.insert(c)) =~= keys_in_any(m, cs).union(keys_in(m, c)));
}

} // verus!
