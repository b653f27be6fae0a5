//! Lists of key and value pairs read as maps: the map that inserting the
//! pairs in order builds, and what pushing and replacing do to it.

use vstd::prelude::*;

verus! {

/// The map built by inserting the pairs in order: of two pairs with one key
/// the later one stays.
pub open spec fn pair_map<K, V>(entries: Seq<(K, V)>) -> Map<K, V>
    decreases entries.len(),
{
    if entries.len() == 0 {
        Map::empty()
    } else {
        pair_map(entries.drop_last()).insert(entries.last().0, entries.last().1)
    }
}

/// Whether some pair has the key.
pub open spec fn has_key<K, V>(entries: Seq<(K, V)>, key: K) -> bool {
    exists|i: int| 0 <= i < entries.len() && (#[trigger] entries[i]).0 == key
}

/// Whether no two pairs share a key.
pub open spec fn distinct_keys<K, V>(entries: Seq<(K, V)>) -> bool {
    forall|i: int, j: int|
        0 <= i < j < entries.len() ==> (#[trigger] entries[i]).0 != (#[trigger] entries[j]).0
}

/// The keys of the map are the keys of the pairs.
pub proof fn lemma_pair_map_dom<K, V>(entries: Seq<(K, V)>, key: K)
    ensures
        pair_map(entries).dom().contains(key) == has_key(entries, key),
    decreases entries.len(),
{
    if entries.len() > 0 {
        let init = entries.drop_last();
        lemma_pair_map_dom(init, key);
        if has_key(entries, key) {
            let i = choose|i: int| 0 <= i < entries.len() && (#[trigger] entries[i]).0 == key;
            if i < entries.len() - 1 {
                assert(init[i].0 == key);
            }
        }
        if has_key(init, key) {
            let i = choose|i: int| 0 <= i < init.len() && (#[trigger] init[i]).0 == key;
            assert(entries[i].0 == key);
        }
        if entries.last().0 == key {
            assert(entries[entries.len() - 1].0 == key);
        }
    }
}

/// The map of pairs with distinct keys is finite and has one key per pair.
pub proof fn lemma_pair_map_len<K, V>(entries: Seq<(K, V)>)
    requires
        distinct_keys(entries),
    ensures
        pair_map(entries).dom().finite(),
        pair_map(entries).dom().len() == entries.len(),
    decreases entries.len(),
{
    if entries.len() > 0 {
        let init = entries.drop_last();
        assert(distinct_keys(init)) by {
            assert forall|i: int, j: int| 0 <= i < j < init.len() implies (#[trigger] init[i]).0
                != (#[trigger] init[j]).0 by {
                assert(entries[i].0 != entries[j].0);
            }
        }
        lemma_pair_map_len(init);
        lemma_pair_map_dom(init, entries.last().0);
        if has_key(init, entries.last().0) {
            let i = choose|i: int|
                0 <= i < init.len() && (#[trigger] init[i]).0 == entries.last().0;
            assert(entries[i].0 != entries[entries.len() - 1].0);
        }
    }
}

/// Pushing a pair inserts it into the map; a key that was not there keeps
/// the keys distinct.
pub proof fn lemma_pair_map_push<K, V>(entries: Seq<(K, V)>, key: K, value: V)
    ensures
        pair_map(entries.push((key, value))) == pair_map(entries).insert(key, value),
        distinct_keys(entries) && !has_key(entries, key) ==> distinct_keys(
            entries.push((key, value)),
        ),
{
    let grown = entries.push((key, value));
    assert(grown.drop_last() =~= entries);
    if distinct_keys(entries) && !has_key(entries, key) {
        assert forall|i: int, j: int| 0 <= i < j < grown.len() implies (#[trigger] grown[i]).0
            != (#[trigger] grown[j]).0 by {
            if j < entries.len() {
                assert(entries[i].0 != entries[j].0);
            } else {
                assert(entries[i].0 != key);
            }
        }
    }
}

/// Replacing the value of a pair, among pairs with distinct keys, inserts
/// the new value under its key and keeps the keys distinct.
pub proof fn lemma_pair_map_replace<K, V>(entries: Seq<(K, V)>, at: int, value: V)
    requires
        distinct_keys(entries),
        0 <= at < entries.len(),
    ensures
        pair_map(entries.update(at, (entries[at].0, value))) == pair_map(entries).insert(
            entries[at].0,
            value,
        ),
        distinct_keys(entries.update(at, (entries[at].0, value))),
    decreases entries.len(),
{
    let key = entries[at].0;
    let changed = entries.update(at, (key, value));
    assert forall|i: int, j: int| 0 <= i < j < changed.len() implies (#[trigger] changed[i]).0
        != (#[trigger] changed[j]).0 by {
        assert(entries[i].0 != entries[j].0);
    }
    let init = entries.drop_last();
    if at == entries.len() - 1 {
        assert(changed.drop_last() =~= init);
        assert(pair_map(changed) =~= pair_map(entries).insert(key, value));
    } else {
        assert(distinct_keys(init)) by {
            assert forall|i: int, j: int| 0 <= i < j < init.len() implies (#[trigger] init[i]).0
                != (#[trigger] init[j]).0 by {
                assert(entries[i].0 != entries[j].0);
            }
        }
        lemma_pair_map_replace(init, at, value);
        assert(changed.drop_last() =~= init.update(at, (init[at].0, value)));
        assert(changed.last() == entries.last());
        assert(entries[at].0 != entries[entries.len() - 1].0);
        assert(pair_map(changed) =~= pair_map(entries).insert(key, value));
    }
}

/// Among pairs with distinct keys, the map holds each pair's value under
/// its key.
pub proof fn lemma_pair_map_at<K, V>(entries: Seq<(K, V)>, at: int)
    requires
        distinct_keys(entries),
        0 <= at < entries.len(),
    ensures
        pair_map(entries).dom().contains(entries[at].0),
        pair_map(entries)[entries[at].0] == entries[at].1,
    decreases entries.len(),
{
    if at < entries.len() - 1 {
        let init = entries.drop_last();
        assert(distinct_keys(init)) by {
            assert forall|i: int, j: int| 0 <= i < j < init.len() implies (#[trigger] init[i]).0
                != (#[trigger] init[j]).0 by {
                assert(entries[i].0 != entries[j].0);
            }
        }
        lemma_pair_map_at(init, at);
        assert(entries[at].0 != entries[entries.len() - 1].0);
    }
}

/// Each value of the map stands in some pair, under its key.
pub proof fn lemma_pair_map_value<K, V>(entries: Seq<(K, V)>, key: K)
    requires
        pair_map(entries).dom().contains(key),
    ensures
        exists|i: int|
            0 <= i < entries.len() && #[trigger] entries[i] == (key, pair_map(entries)[key]),
    decreases entries.len(),
{
    if entries.len() > 0 {
        if entries.last().0 == key {
            assert(entries[entries.len() - 1] == (key, pair_map(entries)[key]));
        } else {
            let init = entries.drop_last();
            lemma_pair_map_value(init, key);
            let i = choose|i: int|
                0 <= i < init.len() && #[trigger] init[i] == (key, pair_map(init)[key]);
            assert(entries[i] == (key, pair_map(entries)[key]));
        }
    }
}

} // verus!
