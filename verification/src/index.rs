//! Buckets of keys by category, and the steps that keep them in line with
//! the records.

use vstd::prelude::*;
use vstd::std_specs::hash::{into_iter_hash_keys, obeys_key_model};
use std::collections::{HashMap, HashSet};
use std::collections::hash_map::Entry;
use std::hash::Hash;
use crate::model::{entries, filed, lemma_take_next, pruned};

verus! {

/// A copy of a value of `A` is that value.
pub open spec fn clones_faithfully<A: Clone>() -> bool {
    forall|a: A, b: A| #[trigger] cloned(a, b) ==> a == b
}

/// The keys that each bucket of `index` holds.
pub open spec fn bucket_keys<K, C>(index: Map<C, HashSet<K>>) -> Map<C, Set<K>> {
    index.map_values(|bucket: HashSet<K>| bucket@)
}

/// The elements of `data`, as a set.
pub(crate) fn vec2hashset<A: Hash + Eq>(data: Vec<A>) -> (set: HashSet<A>)
    requires
        obeys_key_model::<A>(),
    ensures
        set@ == data@.to_set(),
{
    let mut set: HashSet<A> = HashSet::new();
    let ghost all = data@;
    let ghost mut done: int = 0;
    assert(all.take(0).to_set() =~= Set::<A>::empty());
    for item in it: data.into_iter()
        invariant
            obeys_key_model::<A>(),
            it.seq() == all,
            done == it.index(),
            set@ == all.take(done).to_set(),
    {
        set.insert(item);
        proof {
            lemma_take_next(all, done);
            done = done + 1;
        }
    }
    proof {
        assert(all.take(done) =~= all);
    }
    set
}

/// Puts `key` into the bucket of `cat`, which is made if there is none.
pub(crate) fn file_key<K: Hash + Eq, C: Hash + Eq>(
    index: &mut HashMap<C, HashSet<K>>,
    cat: C,
    key: K,
)
    requires
        obeys_key_model::<K>(),
        obeys_key_model::<C>(),
        pruned(bucket_keys(old(index)@)),
    ensures
        pruned(bucket_keys(final(index)@)),
        entries(bucket_keys(final(index)@)) == entries(bucket_keys(old(index)@)).insert((cat, key)),
{
    let bucket = index.entry(cat).or_insert(HashSet::new());
    bucket.insert(key);
    proof {
        let before = bucket_keys(old(index)@);
        let after = bucket_keys(final(index)@);
        assert(after[cat].contains(key));
        assert(entries(after) =~= entries(before).insert((cat, key)));
        assert forall|c: C| #[trigger] after.contains_key(c) implies !(after[c] =~= Set::<
            K,
        >::empty()) by {
            if c != cat {
                assert(before.contains_key(c) && after[c] == before[c]);
            }
        }
    }
}

/// Takes `key` out of the bucket of `cat`, and drops the bucket if that leaves it empty.
pub(crate) fn unfile_key<K: Hash + Eq, C: Hash + Eq>(
    index: &mut HashMap<C, HashSet<K>>,
    cat: C,
    key: &K,
)
    requires
        obeys_key_model::<K>(),
        obeys_key_model::<C>(),
        pruned(bucket_keys(old(index)@)),
    ensures
        pruned(bucket_keys(final(index)@)),
        entries(bucket_keys(final(index)@)) == entries(bucket_keys(old(index)@)).remove(
            (cat, *key),
        ),
{
    match index.entry(cat) {
        Entry::Occupied(mut bucket) => {
            bucket.get_mut().remove(key);
            if bucket.get().is_empty() {
                bucket.remove();
            }
        },
        Entry::Vacant(_) => {},
    }
    proof {
        let before = bucket_keys(old(index)@);
        let after = bucket_keys(final(index)@);
        assert(entries(after) =~= entries(before).remove((cat, *key)));
        assert forall|c: C| #[trigger] after.contains_key(c) implies !(after[c] =~= Set::<
            K,
        >::empty()) by {
            if c != cat {
                assert(before.contains_key(c) && after[c] == before[c]);
            }
        }
    }
}

/// Puts `key` into the bucket of each category of `cats`.
pub(crate) fn file_all<K: Hash + Eq + Clone, C: Hash + Eq>(
    index: &mut HashMap<C, HashSet<K>>,
    cats: Vec<C>,
    key: &K,
)
    requires
        obeys_key_model::<K>(),
        obeys_key_model::<C>(),
        clones_faithfully::<K>(),
        pruned(bucket_keys(old(index)@)),
    ensures
        pruned(bucket_keys(final(index)@)),
        entries(bucket_keys(final(index)@)) == entries(bucket_keys(old(index)@)).union(
            filed(cats@.to_set(), *key),
        ),
{
    let ghost before = entries(bucket_keys(index@));
    let ghost all = cats@;
    let ghost mut done: int = 0;
    assert(before =~= before.union(filed(all.take(0).to_set(), *key)));
    for cat in it: cats.into_iter()
        invariant
            obeys_key_model::<K>(),
            obeys_key_model::<C>(),
            clones_faithfully::<K>(),
            it.seq() == all,
            done == it.index(),
            pruned(bucket_keys(index@)),
            entries(bucket_keys(index@)) == before.union(filed(all.take(done).to_set(), *key)),
    {
        let copy = key.clone();
        assert(cloned(*key, copy));
        file_key(index, cat, copy);
        proof {
            lemma_take_next(all, done);
            assert(entries(bucket_keys(index@)) =~= before.union(
                filed(all.take(done + 1).to_set(), *key),
            ));
            done = done + 1;
        }
    }
    proof {
        assert(all.take(done) =~= all);
    }
}

/// Takes `key` out of the bucket of each category of `cats`.
pub(crate) fn unfile_all<K: Hash + Eq, C: Hash + Eq>(
    index: &mut HashMap<C, HashSet<K>>,
    cats: Vec<C>,
    key: &K,
)
    requires
        obeys_key_model::<K>(),
        obeys_key_model::<C>(),
        pruned(bucket_keys(old(index)@)),
    ensures
        pruned(bucket_keys(final(index)@)),
        entries(bucket_keys(final(index)@)) == entries(bucket_keys(old(index)@)).difference(
            filed(cats@.to_set(), *key),
        ),
{
    let ghost before = entries(bucket_keys(index@));
    let ghost all = cats@;
    let ghost mut done: int = 0;
    assert(before =~= before.difference(filed(all.take(0).to_set(), *key)));
    for cat in it: cats.into_iter()
        invariant
            obeys_key_model::<K>(),
            obeys_key_model::<C>(),
            it.seq() == all,
            done == it.index(),
            pruned(bucket_keys(index@)),
            entries(bucket_keys(index@)) == before.difference(
                filed(all.take(done).to_set(), *key),
            ),
    {
        unfile_key(index, cat, key);
        proof {
            lemma_take_next(all, done);
            assert(entries(bucket_keys(index@)) =~= before.difference(
                filed(all.take(done + 1).to_set(), *key),
            ));
            done = done + 1;
        }
    }
    proof {
        assert(all.take(done) =~= all);
    }
}

/// Moves `key` from the categories of `stale` to those of `fresh`: out of each
/// bucket of a category that only `stale` names, into each of one that only
/// `fresh` names. The buckets of categories that both name are left alone.
pub(crate) fn refile<K: Hash + Eq + Clone, C: Hash + Eq + Clone>(
    index: &mut HashMap<C, HashSet<K>>,
    stale: Vec<C>,
    fresh: Vec<C>,
    key: &K,
)
    requires
        obeys_key_model::<K>(),
        obeys_key_model::<C>(),
        clones_faithfully::<K>(),
        clones_faithfully::<C>(),
        pruned(bucket_keys(old(index)@)),
    ensures
        pruned(bucket_keys(final(index)@)),
        entries(bucket_keys(final(index)@)) == entries(bucket_keys(old(index)@)).difference(
            filed(stale@.to_set().difference(fresh@.to_set()), *key),
        ).union(filed(fresh@.to_set().difference(stale@.to_set()), *key)),
{
    let ghost before = entries(bucket_keys(index@));
    let old_cats = vec2hashset(stale);
    let new_cats = vec2hashset(fresh);

    let gone = old_cats.iter();
    let ghost all = into_iter_hash_keys(gone);
    let ghost mut done: int = 0;
    assert(all.to_set() == old_cats@);
    assert(before =~= before.difference(filed(all.take(0).to_set().difference(new_cats@), *key)));
    for cat in it: gone
        invariant
            obeys_key_model::<K>(),
            obeys_key_model::<C>(),
            clones_faithfully::<C>(),
            it.seq().unref() == all,
            done == it.index(),
            pruned(bucket_keys(index@)),
            entries(bucket_keys(index@)) == before.difference(
                filed(all.take(done).to_set().difference(new_cats@), *key),
            ),
    {
        assert(*cat == all[done]);
        if !new_cats.contains(cat) {
            let copy = cat.clone();
            assert(cloned(*cat, copy));
            unfile_key(index, copy, key);
        }
        proof {
            lemma_take_next(all, done);
            assert(entries(bucket_keys(index@)) =~= before.difference(
                filed(all.take(done + 1).to_set().difference(new_cats@), *key),
            ));
            done = done + 1;
        }
    }
    proof {
        assert(all.take(done) =~= all);
    }
    let ghost halfway = entries(bucket_keys(index@));

    let come = new_cats.iter();
    let ghost all = into_iter_hash_keys(come);
    let ghost mut done: int = 0;
    assert(all.to_set() == new_cats@);
    assert(halfway =~= halfway.union(filed(all.take(0).to_set().difference(old_cats@), *key)));
    for cat in it: come
        invariant
            obeys_key_model::<K>(),
            obeys_key_model::<C>(),
            clones_faithfully::<K>(),
            clones_faithfully::<C>(),
            it.seq().unref() == all,
            done == it.index(),
            pruned(bucket_keys(index@)),
            entries(bucket_keys(index@)) == halfway.union(
                filed(all.take(done).to_set().difference(old_cats@), *key),
            ),
    {
        assert(*cat == all[done]);
        if !old_cats.contains(cat) {
            let copy = cat.clone();
            assert(cloned(*cat, copy));
            let key_copy = key.clone();
            assert(cloned(*key, key_copy));
            file_key(index, copy, key_copy);
        }
        proof {
            lemma_take_next(all, done);
            assert(entries(bucket_keys(index@)) =~= halfway.union(
                filed(all.take(done + 1).to_set().difference(old_cats@), *key),
            ));
            done = done + 1;
        }
    }
    proof {
        assert(all.take(done) =~= all);
    }
}

} // verus!
