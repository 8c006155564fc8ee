//! Association lists: sequences of key and value pairs with distinct keys,
//! read as maps.

use vstd::prelude::*;

verus! {

/// The keys of the pairs, in their order.
pub open spec fn keys_of<K, V>(entries: Seq<(K, V)>) -> Seq<K> {
    entries.map_values(|e: (K, V)| e.0)
}

/// The map which takes the key of each pair to its value.
pub open spec fn assoc<K, V>(entries: Seq<(K, V)>) -> Map<K, V> {
    Map::new(
        |k: K| keys_of(entries).contains(k),
        |k: K| entries[keys_of(entries).index_of(k)].1,
    )
}

/// A pair of the list is found under its key.
pub proof fn lemma_assoc_get<K, V>(entries: Seq<(K, V)>, i: int)
    requires
        keys_of(entries).no_duplicates(),
        0 <= i < entries.len(),
    ensures
        assoc(entries).contains_key(entries[i].0),
        assoc(entries)[entries[i].0] == entries[i].1,
{
    let keys = keys_of(entries);
    assert(keys[i] == entries[i].0);
    let j = keys.index_of(entries[i].0);
    assert(keys[j] == keys[i]);
}

/// A new key put anywhere in the list adds one entry to the map.
pub proof fn lemma_assoc_insert<K, V>(entries: Seq<(K, V)>, pos: int, k: K, v: V)
    requires
        keys_of(entries).no_duplicates(),
        !keys_of(entries).contains(k),
        0 <= pos <= entries.len(),
    ensures
        keys_of(entries.insert(pos, (k, v))).no_duplicates(),
        assoc(entries.insert(pos, (k, v))) == assoc(entries).insert(k, v),
{
    let grown = entries.insert(pos, (k, v));
    let keys = keys_of(entries);
    let more = keys_of(grown);
    assert(more =~= keys.insert(pos, k));
    assert forall|i: int, j: int| 0 <= i < more.len() && 0 <= j < more.len() && i != j implies more[i]
        != more[j] by {
        let a = if i < pos { i } else { i - 1 };
        let b = if j < pos { j } else { j - 1 };
        if i != pos && j != pos {
            assert(more[i] == keys[a] && more[j] == keys[b]);
        } else if i != pos {
            assert(more[i] == keys[a]);
        } else {
            assert(more[j] == keys[b]);
        }
    }
    assert forall|x: K| more.contains(x) <==> (keys.contains(x) || x == k) by {
        if more.contains(x) {
            let i = more.index_of(x);
            if i < pos {
                assert(keys[i] == x);
            } else if i > pos {
                assert(keys[i - 1] == x);
            }
        }
        if keys.contains(x) {
            let i = keys.index_of(x);
            if i < pos {
                assert(more[i] == x);
            } else {
                assert(more[i + 1] == x);
            }
        }
        if x == k {
            assert(more[pos] == x);
        }
    }
    assert forall|x: K| more.contains(x) implies #[trigger] assoc(grown)[x] == assoc(entries).insert(k, v)[x] by {
        let i = more.index_of(x);
        if x == k {
            assert(more[pos] == k);
            assert(i == pos);
        } else {
            let j = keys.index_of(x);
            if i < pos {
                assert(keys[i] == x);
                assert(i == j);
            } else {
                assert(i != pos);
                assert(keys[i - 1] == x);
                assert(i - 1 == j);
            }
        }
    }
    assert(assoc(grown) =~= assoc(entries).insert(k, v));
}

/// A new value for a key of the list replaces the value in the map.
pub proof fn lemma_assoc_update<K, V>(entries: Seq<(K, V)>, pos: int, v: V)
    requires
        keys_of(entries).no_duplicates(),
        0 <= pos < entries.len(),
    ensures
        keys_of(entries.update(pos, (entries[pos].0, v))) == keys_of(entries),
        assoc(entries.update(pos, (entries[pos].0, v))) == assoc(entries).insert(entries[pos].0, v),
{
    let k = entries[pos].0;
    let changed = entries.update(pos, (k, v));
    let keys = keys_of(entries);
    assert(keys_of(changed) =~= keys);
    assert(keys[pos] == k);
    assert forall|x: K| keys.contains(x) implies #[trigger] assoc(changed)[x] == assoc(entries).insert(k, v)[x] by {
        let i = keys.index_of(x);
        if x == k {
            assert(i == pos);
        }
    }
    assert(assoc(changed) =~= assoc(entries).insert(k, v));
}

/// The map has as many entries as the list has pairs.
pub proof fn lemma_assoc_len<K, V>(entries: Seq<(K, V)>)
    requires
        keys_of(entries).no_duplicates(),
    ensures
        assoc(entries).dom().finite(),
        assoc(entries).len() == entries.len(),
{
    let keys = keys_of(entries);
    assert(assoc(entries).dom() =~= keys.to_set());
    keys.unique_seq_to_set();
}

} // verus!
