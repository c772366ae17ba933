//! Ghost view of association lists. The index stores its maps as vectors of
//! key/value pairs with pairwise-distinct keys; `kv_map` is the mathematical
//! map such a list denotes, and the lemmas relate list edits to map edits.

use vstd::prelude::*;

verus! {

/// The map denoted by an association list (later entries win; with distinct
/// keys the order is irrelevant).
pub open spec fn kv_map<K, V>(entries: Seq<(K, V)>) -> Map<K, V>
    decreases entries.len(),
{
    if entries.len() == 0 {
        Map::empty()
    } else {
        kv_map(entries.drop_last()).insert(entries.last().0, entries.last().1)
    }
}

/// No key occurs twice.
pub open spec fn kv_distinct<K, V>(entries: Seq<(K, V)>) -> bool {
    forall|i: int, j: int| 0 <= i < j < entries.len() ==> entries[i].0 != entries[j].0
}

/// A key is in the map exactly when some entry carries it.
pub proof fn lemma_kv_contains<K, V>(entries: Seq<(K, V)>, k: K)
    ensures
        kv_map(entries).contains_key(k) <==> exists|i: int|
            0 <= i < entries.len() && entries[i].0 == k,
    decreases entries.len(),
{
    if entries.len() > 0 {
        lemma_kv_contains(entries.drop_last(), k);
        if entries.last().0 == k {
            assert(entries[entries.len() - 1].0 == k);
        } else if kv_map(entries).contains_key(k) {
            let i = choose|i: int| 0 <= i < entries.drop_last().len() && entries.drop_last()[i].0
                == k;
            assert(entries[i].0 == k);
        } else if exists|i: int| 0 <= i < entries.len() && entries[i].0 == k {
            let i = choose|i: int| 0 <= i < entries.len() && entries[i].0 == k;
            assert(entries.drop_last()[i].0 == k);
        }
    }
}

/// With distinct keys, the entry at `i` gives the value of its key.
pub proof fn lemma_kv_index<K, V>(entries: Seq<(K, V)>, i: int)
    requires
        kv_distinct(entries),
        0 <= i < entries.len(),
    ensures
        kv_map(entries).contains_key(entries[i].0),
        kv_map(entries)[entries[i].0] == entries[i].1,
    decreases entries.len(),
{
    if i == entries.len() - 1 {
    } else {
        assert(entries.drop_last()[i] == entries[i]);
        lemma_kv_index(entries.drop_last(), i);
    }
}

/// With distinct keys, the map has exactly one entry per list element.
pub proof fn lemma_kv_dom_len<K, V>(entries: Seq<(K, V)>)
    requires
        kv_distinct(entries),
    ensures
        kv_map(entries).dom().finite(),
        kv_map(entries).dom().len() == entries.len(),
    decreases entries.len(),
{
    if entries.len() > 0 {
        lemma_kv_dom_len(entries.drop_last());
        lemma_kv_contains(entries.drop_last(), entries.last().0);
        assert(forall|i: int|
            0 <= i < entries.drop_last().len() ==> entries.drop_last()[i] == entries[i]);
        assert(!kv_map(entries.drop_last()).contains_key(entries.last().0));
    }
}

/// Appending a fresh entry inserts its pair.
pub proof fn lemma_kv_push<K, V>(entries: Seq<(K, V)>, k: K, v: V)
    ensures
        kv_map(entries.push((k, v))) == kv_map(entries).insert(k, v),
{
    assert(entries.push((k, v)).drop_last() =~= entries);
}

/// Overwriting the entry that carries `k` updates the map at `k`.
pub proof fn lemma_kv_update<K, V>(entries: Seq<(K, V)>, i: int, k: K, v: V)
    requires
        kv_distinct(entries),
        0 <= i < entries.len(),
        entries[i].0 == k,
    ensures
        kv_map(entries.update(i, (k, v))) == kv_map(entries).insert(k, v),
        kv_distinct(entries.update(i, (k, v))),
    decreases entries.len(),
{
    let upd = entries.update(i, (k, v));
    if i == entries.len() - 1 {
        assert(upd.drop_last() =~= entries.drop_last());
        assert(kv_map(upd) =~= kv_map(entries).insert(k, v));
    } else {
        assert(upd.drop_last() =~= entries.drop_last().update(i, (k, v)));
        lemma_kv_update(entries.drop_last(), i, k, v);
        assert(upd.last() == entries.last());
        assert(entries.last().0 != k);
        assert(kv_map(upd) =~= kv_map(entries).insert(k, v));
    }
}

/// Removing the entry that carries `k` removes `k` from the map.
pub proof fn lemma_kv_remove<K, V>(entries: Seq<(K, V)>, i: int)
    requires
        kv_distinct(entries),
        0 <= i < entries.len(),
    ensures
        kv_map(entries.remove(i)) == kv_map(entries).remove(entries[i].0),
        kv_distinct(entries.remove(i)),
    decreases entries.len(),
{
    let k = entries[i].0;
    let rem = entries.remove(i);
    assert(kv_distinct(rem)) by {
        assert(forall|x: int|
            0 <= x < rem.len() ==> rem[x] == (if x < i {
                entries[x]
            } else {
                entries[x + 1]
            }));
    }
    if i == entries.len() - 1 {
        assert(rem =~= entries.drop_last());
        lemma_kv_contains(entries.drop_last(), k);
        assert(!kv_map(entries.drop_last()).contains_key(k));
        assert(kv_map(rem) =~= kv_map(entries).remove(k));
    } else {
        assert(rem.drop_last() =~= entries.drop_last().remove(i));
        assert(rem.last() == entries.last());
        assert(entries.drop_last()[i] == entries[i]);
        lemma_kv_remove(entries.drop_last(), i);
        assert(entries.last().0 != k);
        assert(kv_map(rem) =~= kv_map(entries).remove(k));
    }
}

} // verus!
