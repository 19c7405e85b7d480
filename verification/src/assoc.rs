//! Association lists: a sequence of key-value entries, no key twice, read as
//! a map.

use vstd::prelude::*;

verus! {

/// A key of an association list: a value that can be copied and compared.
pub trait Key: Copy {
    /// Whether the two keys are the same.
    fn same(&self, other: &Self) -> (r: bool)
        ensures
            r == (*self == *other),
    ;
}

/// Some entry of `entries` has the key `key`.
pub open spec fn has_key<K, V>(entries: Seq<(K, V)>, key: K) -> bool {
    exists|i: int| 0 <= i < entries.len() && (#[trigger] entries[i]).0 == key
}

/// No two entries of `entries` have the same key.
pub open spec fn distinct_keys<K, V>(entries: Seq<(K, V)>) -> bool {
    forall|i: int, j: int|
        0 <= i < j < entries.len() ==> (#[trigger] entries[i]).0 != (#[trigger] entries[j]).0
}

/// The place of an entry with the key `key`, where there is one.
pub open spec fn position_of<K, V>(entries: Seq<(K, V)>, key: K) -> int {
    choose|i: int| 0 <= i < entries.len() && (#[trigger] entries[i]).0 == key
}

/// The entries read as a map.
pub open spec fn as_map<K, V>(entries: Seq<(K, V)>) -> Map<K, V> {
    Map::new(|k: K| has_key(entries, k), |k: K| entries[position_of(entries, k)].1)
}

/// The entries with `value` recorded under `key`: in place of the old value
/// where the key is present, as a new last entry where it is not.
pub open spec fn put<K, V>(entries: Seq<(K, V)>, key: K, value: V) -> Seq<(K, V)> {
    if has_key(entries, key) {
        entries.update(position_of(entries, key), (key, value))
    } else {
        entries.push((key, value))
    }
}

/// The entry at `i` is what the map holds under its key.
pub proof fn lemma_entry_in_map<K, V>(entries: Seq<(K, V)>, i: int)
    requires
        distinct_keys(entries),
        0 <= i < entries.len(),
    ensures
        has_key(entries, entries[i].0),
        position_of(entries, entries[i].0) == i,
        as_map(entries).contains_key(entries[i].0),
        as_map(entries)[entries[i].0] == entries[i].1,
{
    let key = entries[i].0;
    assert(has_key(entries, key));
    let j = position_of(entries, key);
    if i < j {
        assert(entries[i].0 != entries[j].0);
    }
    if j < i {
        assert(entries[j].0 != entries[i].0);
    }
}

/// Recording a value keeps the keys distinct and changes the map at that key
/// alone.
pub proof fn lemma_put<K, V>(entries: Seq<(K, V)>, key: K, value: V)
    requires
        distinct_keys(entries),
    ensures
        distinct_keys(put(entries, key, value)),
        as_map(put(entries, key, value)) == as_map(entries).insert(key, value),
{
    let after = put(entries, key, value);
    assert forall|k: K| has_key(after, k) <==> (k == key || has_key(entries, k)) by {
        if has_key(entries, key) {
            let p = position_of(entries, key);
            if has_key(after, k) {
                let i = position_of(after, k);
                if i != p {
                    assert(entries[i].0 == k);
                }
            }
            if k == key {
                assert(after[p].0 == k);
            } else if has_key(entries, k) {
                let i = position_of(entries, k);
                assert(after[i].0 == k);
            }
        } else {
            let n = entries.len() as int;
            if has_key(after, k) {
                let i = position_of(after, k);
                if i < n {
                    assert(entries[i].0 == k);
                }
            }
            if k == key {
                assert(after[n].0 == k);
            } else if has_key(entries, k) {
                let i = position_of(entries, k);
                assert(after[i].0 == k);
            }
        }
    }
    assert(distinct_keys(after)) by {
        assert forall|i: int, j: int| 0 <= i < j < after.len() implies (#[trigger] after[i]).0 != (
        #[trigger] after[j]).0 by {
            if has_key(entries, key) {
                let p = position_of(entries, key);
                assert(entries[i].0 != entries[j].0);
                if i == p {
                    assert(entries[p].0 == key);
                }
                if j == p {
                    assert(entries[p].0 == key);
                }
            } else {
                let n = entries.len() as int;
                if j < n {
                    assert(entries[i].0 != entries[j].0);
                } else {
                    assert(entries[i].0 != key);
                }
            }
        }
    }
    assert forall|k: K| has_key(after, k) implies #[trigger] as_map(after)[k] == as_map(
        entries,
    ).insert(key, value)[k] by {
        let i = position_of(after, k);
        lemma_entry_in_map(after, i);
        if has_key(entries, key) {
            let p = position_of(entries, key);
            if k != key {
                assert(i != p);
                lemma_entry_in_map(entries, i);
            }
        } else {
            if k != key {
                assert(i != entries.len());
                lemma_entry_in_map(entries, i);
            }
        }
    }
    assert(as_map(after) =~= as_map(entries).insert(key, value));
}

/// An empty list is the empty map.
pub proof fn lemma_empty<K, V>()
    ensures
        distinct_keys(Seq::<(K, V)>::empty()),
        as_map(Seq::<(K, V)>::empty()) == Map::<K, V>::empty(),
{
    assert(as_map(Seq::<(K, V)>::empty()) =~= Map::<K, V>::empty());
}

/// Where `key` stands in `entries`, if anywhere.
pub fn find<K: Key, V>(entries: &Vec<(K, V)>, key: &K) -> (found: Option<usize>)
    ensures
        found is Some <==> has_key(entries@, *key),
        found is Some ==> found->Some_0 < entries.len() && entries@[found->Some_0 as int].0 == *key,
        found is Some && distinct_keys(entries@) ==> found->Some_0 == position_of(entries@, *key),
{
    let mut i: usize = 0;
    while i < entries.len()
        invariant
            i <= entries.len(),
            forall|j: int| 0 <= j < i ==> (#[trigger] entries@[j]).0 != *key,
        decreases entries.len() - i,
    {
        if entries[i].0.same(key) {
            proof {
                if distinct_keys(entries@) {
                    lemma_entry_in_map(entries@, i as int);
                }
            }
            return Some(i);
        }
        i += 1;
    }
    None
}

/// Records `value` under `key`.
pub fn store<K: Key, V>(entries: &mut Vec<(K, V)>, key: K, value: V)
    requires
        distinct_keys(old(entries)@),
    ensures
        final(entries)@ == put(old(entries)@, key, value),
        distinct_keys(final(entries)@),
        as_map(final(entries)@) == as_map(old(entries)@).insert(key, value),
{
    proof {
        lemma_put(entries@, key, value);
    }
    match find(entries, &key) {
        Some(i) => {
            entries.set(i, (key, value));
        },
        None => {
            entries.push((key, value));
        },
    }
}

/// Whether no key stands twice in `entries`.
pub fn keys_distinct<K: Key, V>(entries: &Vec<(K, V)>) -> (ok: bool)
    ensures
        ok == distinct_keys(entries@),
{
    let mut j: usize = 0;
    while j < entries.len()
        invariant
            j <= entries.len(),
            distinct_keys(entries@.take(j as int)),
        decreases entries.len() - j,
    {
        let mut i: usize = 0;
        while i < j
            invariant
                i <= j < entries.len(),
                forall|k: int| 0 <= k < i ==> (#[trigger] entries@[k]).0 != entries@[j as int].0,
            decreases j - i,
        {
            if entries[i].0.same(&entries[j].0) {
                return false;
            }
            i += 1;
        }
        proof {
            let longer = entries@.take(j + 1);
            let shorter = entries@.take(j as int);
            assert forall|a: int, b: int| 0 <= a < b < longer.len() implies (#[trigger] longer[a]).0
                != (#[trigger] longer[b]).0 by {
                if b < j {
                    assert(shorter[a].0 != shorter[b].0);
                } else {
                    assert(entries@[a].0 != entries@[j as int].0);
                }
            }
        }
        j += 1;
    }
    proof {
        assert(entries@.take(entries.len() as int) =~= entries@);
    }
    true
}

} // verus!
