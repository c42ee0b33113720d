//! Lists of entries that are found by their key: the first entry with a key
//! is the one that counts.

use crate::text::same_text;
use vstd::prelude::*;

verus! {

/// `i` is the first position in `entries` whose key is `key`.
pub open spec fn first_at<V>(entries: Seq<(String, V)>, key: Seq<char>, i: int) -> bool {
    &&& 0 <= i < entries.len()
    &&& entries[i].0@ == key
    &&& forall|j: int| 0 <= j < i ==> (#[trigger] entries[j]).0@ != key
}

/// Some entry of `entries` has the key `key`.
pub open spec fn has_key<V>(entries: Seq<(String, V)>, key: Seq<char>) -> bool {
    exists|i: int| 0 <= i < entries.len() && (#[trigger] entries[i]).0@ == key
}

/// The first position in `entries` whose key is `key`, where there is one.
pub open spec fn index_of<V>(entries: Seq<(String, V)>, key: Seq<char>) -> int {
    choose|i: int| first_at(entries, key, i)
}

/// The value of the first entry with the key `key`.
pub open spec fn lookup<V>(entries: Seq<(String, V)>, key: Seq<char>) -> Option<V> {
    if has_key(entries, key) {
        Some(entries[index_of(entries, key)].1)
    } else {
        None
    }
}

/// The first position of a key is the only one that is first.
pub proof fn lemma_first_at_unique<V>(entries: Seq<(String, V)>, key: Seq<char>, i: int)
    requires
        first_at(entries, key, i),
    ensures
        has_key(entries, key),
        index_of(entries, key) == i,
        lookup(entries, key) == Some(entries[i].1),
{
    let k = index_of(entries, key);
    assert(first_at(entries, key, k));
    if k < i {
        assert(entries[k].0@ != key);
    }
    if i < k {
        assert(entries[i].0@ != key);
    }
}

/// The position of the first entry with the key `key`.
pub fn find<V>(entries: &Vec<(String, V)>, key: &str) -> (found: Option<usize>)
    ensures
        found is Some <==> has_key(entries@, key@),
        found matches Some(i) ==> first_at(entries@, key@, i as int) && i == index_of(
            entries@,
            key@,
        ),
{
    let mut i: usize = 0;
    while i < entries.len()
        invariant
            i <= entries@.len(),
            forall|j: int| 0 <= j < i ==> (#[trigger] entries@[j]).0@ != key@,
        decreases entries@.len() - i,
    {
        if same_text(entries[i].0.as_str(), key) {
            proof {
                lemma_first_at_unique(entries@, key@, i as int);
            }
            return Some(i);
        }
        i = i + 1;
    }
    None
}

/// The keys of entries.
pub open spec fn keys_of<V>(entries: Seq<(String, V)>) -> Seq<Seq<char>> {
    Seq::new(entries.len(), |i: int| entries[i].0@)
}

/// Entries with the same keys in the same order have the same first
/// positions.
pub proof fn lemma_same_keys<V, W>(a: Seq<(String, V)>, b: Seq<(String, W)>, key: Seq<char>)
    requires
        keys_of(a) == keys_of(b),
    ensures
        has_key(a, key) == has_key(b, key),
        has_key(a, key) ==> index_of(a, key) == index_of(b, key),
{
    assert(a.len() == keys_of(a).len());
    assert(b.len() == keys_of(b).len());
    assert forall|i: int| 0 <= i < a.len() implies (#[trigger] a[i]).0@ == b[i].0@ by {
        assert(keys_of(a)[i] == keys_of(b)[i]);
    }
    assert forall|i: int| 0 <= i < b.len() implies (#[trigger] b[i]).0@ == a[i].0@ by {
        assert(keys_of(a)[i] == keys_of(b)[i]);
    }
    if has_key(a, key) {
        let i = choose|i: int| 0 <= i < a.len() && (#[trigger] a[i]).0@ == key;
        assert(b[i].0@ == key);
        lemma_has_first(a, key);
        let k = index_of(a, key);
        assert(first_at(b, key, k)) by {
            assert(b[k].0@ == a[k].0@);
            assert forall|j: int| 0 <= j < k implies (#[trigger] b[j]).0@ != key by {
                assert(a[j].0@ != key);
            }
        }
        lemma_first_at_unique(b, key, k);
    }
    if has_key(b, key) {
        let i = choose|i: int| 0 <= i < b.len() && (#[trigger] b[i]).0@ == key;
        assert(a[i].0@ == key);
    }
}

/// A key that entries have has a first position.
pub proof fn lemma_has_first<V>(entries: Seq<(String, V)>, key: Seq<char>)
    requires
        has_key(entries, key),
    ensures
        first_at(entries, key, index_of(entries, key)),
    decreases entries.len(),
{
    let i = choose|i: int| 0 <= i < entries.len() && (#[trigger] entries[i]).0@ == key;
    lemma_first_before(entries, key, i);
}

/// Before a position with a key there is a first one.
proof fn lemma_first_before<V>(entries: Seq<(String, V)>, key: Seq<char>, i: int)
    requires
        0 <= i < entries.len(),
        entries[i].0@ == key,
    ensures
        exists|k: int| first_at(entries, key, k),
    decreases i,
{
    if exists|j: int| 0 <= j < i && (#[trigger] entries[j]).0@ == key {
        let j = choose|j: int| 0 <= j < i && (#[trigger] entries[j]).0@ == key;
        lemma_first_before(entries, key, j);
    } else {
        assert(first_at(entries, key, i));
    }
}

/// One more entry under a key that the entries lack is found under that
/// key, and leaves what is found under every other key.
pub proof fn lemma_lookup_push<V>(entries: Seq<(String, V)>, entry: (String, V), key: Seq<char>)
    requires
        !has_key(entries, entry.0@),
    ensures
        has_key(entries.push(entry), key) == (has_key(entries, key) || key == entry.0@),
        lookup(entries.push(entry), key) == if key == entry.0@ {
            Some(entry.1)
        } else {
            lookup(entries, key)
        },
{
    let more = entries.push(entry);
    if key == entry.0@ {
        assert(first_at(more, key, entries.len() as int)) by {
            assert forall|j: int| 0 <= j < entries.len() implies (#[trigger] more[j]).0@ != key by {
                assert(entries[j].0@ != key);
            }
        }
        lemma_first_at_unique(more, key, entries.len() as int);
    } else if has_key(entries, key) {
        lemma_has_first(entries, key);
        let k = index_of(entries, key);
        assert(first_at(more, key, k)) by {
            assert(more[k] == entries[k]);
            assert forall|j: int| 0 <= j < k implies (#[trigger] more[j]).0@ != key by {
                assert(entries[j].0@ != key);
            }
        }
        lemma_first_at_unique(more, key, k);
    } else {
        if has_key(more, key) {
            let i = choose|i: int| 0 <= i < more.len() && (#[trigger] more[i]).0@ == key;
            if i < entries.len() {
                assert(entries[i].0@ == key);
            }
        }
    }
}

/// A new value at the first position of a key is found under that key, and
/// leaves what is found under every other key.
pub proof fn lemma_lookup_update<V>(
    entries: Seq<(String, V)>,
    i: int,
    entry: (String, V),
    key: Seq<char>,
)
    requires
        first_at(entries, entry.0@, i),
    ensures
        has_key(entries.update(i, entry), key) == has_key(entries, key),
        lookup(entries.update(i, entry), key) == if key == entry.0@ {
            Some(entry.1)
        } else {
            lookup(entries, key)
        },
{
    let changed = entries.update(i, entry);
    assert(keys_of(changed) =~= keys_of(entries));
    lemma_same_keys(changed, entries, key);
    lemma_first_at_unique(entries, entry.0@, i);
    if has_key(entries, key) {
        lemma_has_first(entries, key);
    }
}

} // verus!
