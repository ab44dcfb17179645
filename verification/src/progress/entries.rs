//! Lists of keyed entries in which no key occurs twice, read as maps.
use vstd::prelude::*;

verus! {

/// Whether the list holds an entry for `key`.
pub open spec fn has_key<K, V>(entries: Seq<(K, V)>, key: K) -> bool {
    exists|i: int| 0 <= i < entries.len() && (#[trigger] entries[i]).0 == key
}

/// Where the list holds an entry for `key`.
pub open spec fn position<K, V>(entries: Seq<(K, V)>, key: K) -> int {
    choose|i: int| 0 <= i < entries.len() && (#[trigger] entries[i]).0 == key
}

/// No key occurs twice.
pub open spec fn keys_distinct<K, V>(entries: Seq<(K, V)>) -> bool {
    forall|i: int, j: int|
        #![trigger entries[i], entries[j]]
        0 <= i < j < entries.len() ==> entries[i].0 != entries[j].0
}

/// The map from each key of the list to the value held with it.
pub open spec fn as_map<K, V>(entries: Seq<(K, V)>) -> Map<K, V> {
    Map::new(|key: K| has_key(entries, key), |key: K| entries[position(entries, key)].1)
}

/// Each entry of a list of distinct keys is found in its map.
pub proof fn lemma_as_map<K, V>(entries: Seq<(K, V)>)
    requires
        keys_distinct(entries),
    ensures
        forall|i: int|
            0 <= i < entries.len() ==> as_map(entries).contains_key((#[trigger] entries[i]).0)
                && as_map(entries)[entries[i].0] == entries[i].1,
        forall|key: K| #[trigger] as_map(entries).contains_key(key) <==> has_key(entries, key),
{
    assert forall|i: int| 0 <= i < entries.len() implies as_map(entries).contains_key(
        (#[trigger] entries[i]).0,
    ) && as_map(entries)[entries[i].0] == entries[i].1 by {
        let key = entries[i].0;
        assert(has_key(entries, key));
        let p = position(entries, key);
        assert(p == i);
    }
}

/// An entry appended under a new key is an entry inserted into the map.
pub proof fn lemma_as_map_push<K, V>(entries: Seq<(K, V)>, key: K, value: V)
    requires
        keys_distinct(entries),
        !has_key(entries, key),
    ensures
        keys_distinct(entries.push((key, value))),
        as_map(entries.push((key, value))) == as_map(entries).insert(key, value),
{
    let after = entries.push((key, value));
    assert forall|i: int, j: int|
        #![trigger after[i], after[j]]
        0 <= i < j < after.len() implies after[i].0 != after[j].0 by {
        assert(after[i] == entries[i]);
        if j < entries.len() {
            assert(after[j] == entries[j]);
        }
    }
    lemma_as_map(entries);
    lemma_as_map(after);
    assert forall|k: K| as_map(after).contains_key(k) <==> (as_map(entries).contains_key(k) || k
        == key) by {
        if has_key(after, k) {
            let a = position(after, k);
            if a < entries.len() {
                assert(after[a] == entries[a]);
            }
        }
        if has_key(entries, k) {
            let b = position(entries, k);
            assert(after[b] == entries[b]);
        }
        if k == key {
            assert(after[entries.len() as int].0 == k);
        }
    }
    assert forall|k: K| as_map(after).contains_key(k) implies as_map(after)[k] == as_map(
        entries,
    ).insert(key, value)[k] by {
        let a = position(after, k);
        if a < entries.len() {
            assert(after[a] == entries[a]);
        }
    }
    assert(as_map(after) =~= as_map(entries).insert(key, value));
}

/// A new value in place of an old one is a new value in the map.
pub proof fn lemma_as_map_update<K, V>(entries: Seq<(K, V)>, at: int, value: V)
    requires
        keys_distinct(entries),
        0 <= at < entries.len(),
    ensures
        keys_distinct(entries.update(at, (entries[at].0, value))),
        as_map(entries.update(at, (entries[at].0, value))) == as_map(entries).insert(
            entries[at].0,
            value,
        ),
{
    let key = entries[at].0;
    let after = entries.update(at, (key, value));
    assert forall|i: int, j: int|
        #![trigger after[i], after[j]]
        0 <= i < j < after.len() implies after[i].0 != after[j].0 by {
        assert(after[i].0 == entries[i].0);
        assert(after[j].0 == entries[j].0);
    }
    lemma_as_map(entries);
    lemma_as_map(after);
    assert forall|k: K| as_map(after).contains_key(k) <==> (as_map(entries).contains_key(k) || k
        == key) by {
        if has_key(after, k) {
            let a = position(after, k);
            assert(after[a].0 == entries[a].0);
        }
        if has_key(entries, k) {
            let b = position(entries, k);
            assert(after[b].0 == entries[b].0);
        }
        if k == key {
            assert(after[at].0 == k);
        }
    }
    assert forall|k: K| as_map(after).contains_key(k) implies as_map(after)[k] == as_map(
        entries,
    ).insert(key, value)[k] by {
        let a = position(after, k);
        assert(after[a].0 == entries[a].0);
    }
    assert(as_map(after) =~= as_map(entries).insert(key, value));
}

/// An entry taken out of the list is a key taken out of the map.
pub proof fn lemma_as_map_remove<K, V>(entries: Seq<(K, V)>, at: int)
    requires
        keys_distinct(entries),
        0 <= at < entries.len(),
    ensures
        keys_distinct(entries.remove(at)),
        as_map(entries.remove(at)) == as_map(entries).remove(entries[at].0),
{
    let key = entries[at].0;
    let after = entries.remove(at);
    assert forall|i: int, j: int|
        #![trigger after[i], after[j]]
        0 <= i < j < after.len() implies after[i].0 != after[j].0 by {
        let i0 = if i < at { i } else { i + 1 };
        let j0 = if j < at { j } else { j + 1 };
        assert(after[i] == entries[i0]);
        assert(after[j] == entries[j0]);
    }
    lemma_as_map(entries);
    lemma_as_map(after);
    assert forall|k: K| as_map(after).contains_key(k) <==> (as_map(entries).contains_key(k) && k
        != key) by {
        if has_key(after, k) {
            let a = position(after, k);
            let a0 = if a < at { a } else { a + 1 };
            assert(after[a] == entries[a0]);
        }
        if has_key(entries, k) && k != key {
            let b = position(entries, k);
            let b1 = if b < at { b } else { b - 1 };
            assert(after[b1] == entries[b]);
        }
    }
    assert forall|k: K| as_map(after).contains_key(k) implies as_map(after)[k] == as_map(
        entries,
    )[k] by {
        let a = position(after, k);
        let a0 = if a < at { a } else { a + 1 };
        assert(after[a] == entries[a0]);
    }
    assert(as_map(after) =~= as_map(entries).remove(key));
}

} // verus!
