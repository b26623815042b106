//! Batches: several records replaced at once, and what that makes of a table.

use vstd::prelude::*;
use crate::error::QueryError;
use crate::model::{collides, replaced};
use crate::record::{record_key, TableRecord};

verus! {

/// In the batch `news`, the record that is to take the place of the one
/// under `from` has the key `to`.
pub open spec fn lands<T: TableRecord>(news: Map<T::Key, T>, from: T::Key, to: T::Key) -> bool {
    news.contains_key(from) && record_key(news[from]) == to
}

/// Some record of the batch `news` has the key `to`.
pub open spec fn arrives<T: TableRecord>(news: Map<T::Key, T>, to: T::Key) -> bool {
    exists|from: T::Key| lands(news, from, to)
}

/// The batch `news`, which gives for each of some keys the record that is to
/// take the place of the one under that key, cannot be applied to `m`: one of
/// its records would land on a record of `m` that is not the one it replaces,
/// or two of its records have the same key.
pub open spec fn batch_collides<T: TableRecord>(m: Map<T::Key, T>, news: Map<T::Key, T>) -> bool {
    ||| exists|k: T::Key| news.contains_key(k) && #[trigger] collides(m, k, news[k])
    ||| exists|j: T::Key, k: T::Key|
        j != k && #[trigger] lands(news, j, record_key(news[k])) && news.contains_key(k)
}

/// The table `m` after each record under a key of the batch `news` has made way
/// for the record that `news` gives for it, which is stored under its own key.
pub open spec fn batch_replaced<T: TableRecord>(m: Map<T::Key, T>, news: Map<T::Key, T>) -> Map<
    T::Key,
    T,
> {
    Map::new(
        |k: T::Key| (m.contains_key(k) && !news.contains_key(k)) || arrives(news, k),
        |k: T::Key|
            if arrives(news, k) {
                news[choose|from: T::Key| lands(news, from, k)]
            } else {
                m[k]
            },
    )
}

/// A batch without records changes nothing, and nothing arrives with it.
pub proof fn lemma_batch_empty<T: TableRecord>(m: Map<T::Key, T>)
    ensures
        batch_replaced(m, Map::<T::Key, T>::empty()) == m,
        !batch_collides(m, Map::<T::Key, T>::empty()),
        forall|to: T::Key| !arrives(Map::<T::Key, T>::empty(), to),
{
    let none = Map::<T::Key, T>::empty();
    assert forall|to: T::Key| !arrives(none, to) by {
        if arrives(none, to) {
            let from = choose|from: T::Key| lands(none, from, to);
            assert(lands(none, from, to));
        }
    }
    assert(batch_replaced(m, none) =~= m);
}

/// One more record `val`, for a key `k` of which the batch `news` says
/// nothing yet: its key arrives beside those that did, and the batch can then
/// not be applied exactly when it could not before, or `val` would land on
/// another record of `m`, or on a record of the batch.
pub proof fn lemma_batch_grows<T: TableRecord>(
    m: Map<T::Key, T>,
    news: Map<T::Key, T>,
    k: T::Key,
    val: T,
)
    requires
        !news.contains_key(k),
    ensures
        forall|to: T::Key|
            arrives(news.insert(k, val), to) <==> (arrives(news, to) || to == record_key(val)),
        batch_collides(m, news.insert(k, val)) <==> (batch_collides(m, news) || collides(m, k, val)
            || arrives(news, record_key(val))),
{
    let more = news.insert(k, val);
    let nk = record_key(val);
    assert forall|from: T::Key, to: T::Key| lands(more, from, to) <==> (lands(news, from, to) || (
    from == k && to == nk)) by {}
    assert(lands(more, k, nk));
    assert forall|to: T::Key| arrives(more, to) <==> (arrives(news, to) || to == nk) by {
        if arrives(more, to) {
            let from = choose|from: T::Key| lands(more, from, to);
            assert(lands(news, from, to) || to == nk);
        }
        if arrives(news, to) {
            let from = choose|from: T::Key| lands(news, from, to);
            assert(lands(more, from, to));
        }
    }
    if batch_collides(m, news) {
        if exists|x: T::Key| news.contains_key(x) && #[trigger] collides(m, x, news[x]) {
            let x = choose|x: T::Key| news.contains_key(x) && #[trigger] collides(m, x, news[x]);
            assert(more.contains_key(x) && collides(m, x, more[x]));
        } else {
            let (i, j) = choose|i: T::Key, j: T::Key|
                i != j && #[trigger] lands(news, i, record_key(news[j])) && news.contains_key(j);
            assert(lands(more, i, record_key(more[j])) && more.contains_key(j));
        }
    }
    if collides(m, k, val) {
        assert(more.contains_key(k) && collides(m, k, more[k]));
    }
    if arrives(news, nk) {
        let from = choose|from: T::Key| lands(news, from, nk);
        assert(from != k && lands(more, from, record_key(more[k])) && more.contains_key(k));
    }
    if batch_collides(m, more) && !batch_collides(m, news) && !collides(m, k, val) {
        if exists|x: T::Key| more.contains_key(x) && #[trigger] collides(m, x, more[x]) {
            let x = choose|x: T::Key| more.contains_key(x) && #[trigger] collides(m, x, more[x]);
            assert(x != k);
            assert(news.contains_key(x) && collides(m, x, news[x]));
        } else {
            let (i, j) = choose|i: T::Key, j: T::Key|
                i != j && #[trigger] lands(more, i, record_key(more[j])) && more.contains_key(j);
            if i != k && j != k {
                assert(lands(news, i, record_key(news[j])) && news.contains_key(j));
            } else if i == k {
                assert(lands(news, j, nk));
            } else {
                assert(lands(news, i, nk));
            }
        }
    }
}

/// A batch that can be applied is applied one record at a time: with the
/// records for the keys of `done` in place, the record for one more key `k`
/// finds its place free, and putting it there gives the table with the
/// records for `done` and `k` in place.
pub proof fn lemma_batch_step<T: TableRecord>(
    m: Map<T::Key, T>,
    news: Map<T::Key, T>,
    done: Set<T::Key>,
    k: T::Key,
)
    requires
        !batch_collides(m, news),
        news.dom().subset_of(m.dom()),
        done.subset_of(news.dom()),
        news.contains_key(k),
        !done.contains(k),
    ensures
        !collides(batch_replaced(m, news.restrict(done)), k, news[k]),
        replaced(batch_replaced(m, news.restrict(done)), k, news[k]) == batch_replaced(
            m,
            news.restrict(done.insert(k)),
        ),
{
    let a = news.restrict(done);
    let b = news.restrict(done.insert(k));
    let val = news[k];
    let nk = record_key(val);
    let ra = batch_replaced(m, a);
    let rb = batch_replaced(m, b);
    // two records of the batch with one key are one record
    assert forall|i: T::Key, j: T::Key, to: T::Key| lands(news, i, to) && lands(news, j, to)
        implies i == j by {
        if i != j {
            assert(lands(news, i, record_key(news[j])) && news.contains_key(j));
        }
    }
    // a record of the batch that lands on a record of the table replaces it
    assert forall|j: T::Key, to: T::Key| lands(news, j, to) && m.contains_key(to) implies j
        == to by {
        if j != to {
            assert(collides(m, j, news[j]));
        }
    }
    assert forall|j: T::Key, to: T::Key| lands(a, j, to) implies lands(news, j, to) && done.contains(
        j,
    ) by {}
    assert forall|j: T::Key, to: T::Key| lands(b, j, to) <==> (lands(a, j, to) || (j == k && to
        == nk)) by {}
    assert(lands(b, k, nk));
    assert forall|to: T::Key| arrives(b, to) <==> (arrives(a, to) || to == nk) by {
        if arrives(b, to) {
            let j = choose|j: T::Key| lands(b, j, to);
            assert(lands(a, j, to) || (j == k && to == nk));
        }
        if arrives(a, to) {
            let j = choose|j: T::Key| lands(a, j, to);
            assert(lands(b, j, to));
        }
    }
    if nk != k && ra.contains_key(nk) {
        if arrives(a, nk) {
            let j = choose|j: T::Key| lands(a, j, nk);
            assert(lands(news, j, nk) && lands(news, k, nk));
        } else {
            assert(collides(m, k, val));
        }
    }
    assert forall|x: T::Key| replaced(ra, k, val).contains_key(x) <==> rb.contains_key(x) by {
        if arrives(a, x) && x == k {
            let j = choose|j: T::Key| lands(a, j, x);
            assert(lands(news, j, k) && m.contains_key(k));
        }
    }
    assert forall|x: T::Key| rb.contains_key(x) implies replaced(ra, k, val)[x] == rb[x] by {
        if x == nk {
            let j = choose|j: T::Key| lands(b, j, nk);
            assert(lands(news, j, nk) && lands(news, k, nk));
        } else if arrives(a, x) {
            let i = choose|i: T::Key| lands(a, i, x);
            let j = choose|j: T::Key| lands(b, j, x);
            assert(lands(news, i, x) && lands(news, j, x));
        }
    }
    assert(replaced(ra, k, val) =~= rb);
}

/// What applying the batch `news` makes of `m`: refused where it cannot be
/// applied.
pub open spec fn try_batch<T: TableRecord>(m: Map<T::Key, T>, news: Map<T::Key, T>) -> Result<
    Map<T::Key, T>,
    QueryError,
> {
    if batch_collides(m, news) {
        Err(QueryError::KeyCollision)
    } else {
        Ok(batch_replaced(m, news))
    }
}

} // verus!
