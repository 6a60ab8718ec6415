//! A collection of values under integer keys, kept and visited in the order of
//! the keys.

use vstd::prelude::*;

verus! {

/// Every entry's key is below the keys of all entries behind it.
pub open spec fn increasing<V>(entries: Seq<(usize, V)>) -> bool {
    forall|i: int, j: int|
        0 <= i < j < entries.len() ==> (#[trigger] entries[i]).0 < (#[trigger] entries[j]).0
}

/// The index of the first entry whose key is not below `key`: the place where
/// `key` stands, or where it belongs.
#[verifier::opaque]
pub open spec fn key_bound<V>(entries: Seq<(usize, V)>, key: usize) -> int
    decreases entries.len(),
{
    if entries.len() == 0 || entries[0].0 >= key {
        0
    } else {
        1 + key_bound(entries.drop_first(), key)
    }
}

/// The index of the entry under `key`, if there is one.
pub open spec fn key_index<V>(entries: Seq<(usize, V)>, key: usize) -> Option<int> {
    let at = key_bound(entries, key);
    if 0 <= at < entries.len() && entries[at].0 == key {
        Some(at)
    } else {
        None
    }
}

/// Some entry stands under `key`.
pub open spec fn has_key<V>(entries: Seq<(usize, V)>, key: usize) -> bool {
    exists|k: int| 0 <= k < entries.len() && (#[trigger] entries[k]).0 == key
}

/// The value under `key`, if there is one.
pub open spec fn value_of<V>(entries: Seq<(usize, V)>, key: usize) -> Option<V> {
    match key_index(entries, key) {
        Some(at) => Some(entries[at].1),
        None => None,
    }
}

/// The entries after `value` was put under `key`: it takes the place of the
/// entry under that key, or its own place in the order of keys.
pub open spec fn put<V>(entries: Seq<(usize, V)>, key: usize, value: V) -> Seq<(usize, V)> {
    match key_index(entries, key) {
        Some(at) => entries.update(at, (key, value)),
        None => entries.insert(key_bound(entries, key), (key, value)),
    }
}

/// The entries without the one under `key`.
pub open spec fn without<V>(entries: Seq<(usize, V)>, key: usize) -> Seq<(usize, V)> {
    match key_index(entries, key) {
        Some(at) => entries.remove(at),
        None => entries,
    }
}

/// `key_bound` is the one index with only lower keys before it and no lower
/// key at it.
pub proof fn lemma_key_bound<V>(entries: Seq<(usize, V)>, key: usize, at: int)
    requires
        0 <= at <= entries.len(),
        forall|k: int| 0 <= k < at ==> (#[trigger] entries[k]).0 < key,
        at < entries.len() ==> entries[at].0 >= key,
    ensures
        key_bound(entries, key) == at,
    decreases at,
{
    reveal(key_bound);
    if at > 0 {
        let rest = entries.drop_first();
        assert(entries[0].0 < key);
        assert forall|k: int| 0 <= k < at - 1 implies (#[trigger] rest[k]).0 < key by {
            assert(rest[k] == entries[k + 1]);
        }
        lemma_key_bound(rest, key, at - 1);
    }
}

/// `key_bound` lies within the entries, behind the lower keys and before the
/// higher ones.
pub proof fn lemma_key_bound_splits<V>(entries: Seq<(usize, V)>, key: usize)
    requires
        increasing(entries),
    ensures
        0 <= key_bound(entries, key) <= entries.len(),
        forall|k: int| 0 <= k < key_bound(entries, key) ==> (#[trigger] entries[k]).0 < key,
        forall|k: int|
            key_bound(entries, key) <= k < entries.len() ==> (#[trigger] entries[k]).0 >= key,
        forall|k: int|
            key_bound(entries, key) < k < entries.len() ==> (#[trigger] entries[k]).0 > key,
    decreases entries.len(),
{
    reveal(key_bound);
    if entries.len() == 0 {
    } else if entries[0].0 >= key {
        assert forall|k: int| 0 < k < entries.len() implies (#[trigger] entries[k]).0 > key by {
            assert(entries[0].0 < entries[k].0);
        }
    } else {
        let rest = entries.drop_first();
        assert forall|i: int, j: int| 0 <= i < j < rest.len() implies (#[trigger] rest[i]).0 < (
        #[trigger] rest[j]).0 by {
            assert(rest[i] == entries[i + 1]);
            assert(rest[j] == entries[j + 1]);
        }
        lemma_key_bound_splits(rest, key);
        let at = key_bound(entries, key);
        assert forall|k: int| 0 <= k < at implies (#[trigger] entries[k]).0 < key by {
            if k > 0 {
                assert(rest[k - 1] == entries[k]);
            }
        }
        assert forall|k: int| at <= k < entries.len() implies (#[trigger] entries[k]).0 >= key by {
            assert(rest[k - 1] == entries[k]);
        }
        assert forall|k: int| at < k < entries.len() implies (#[trigger] entries[k]).0 > key by {
            assert(rest[k - 1] == entries[k]);
        }
    }
}

/// In increasing entries a key is found at `key_index` or nowhere, so no key
/// occurs twice.
pub proof fn lemma_key_index<V>(entries: Seq<(usize, V)>, key: usize, k: int)
    requires
        increasing(entries),
        0 <= k < entries.len(),
    ensures
        entries[k].0 == key <==> key_index(entries, key) == Some(k),
{
    lemma_key_bound_splits(entries, key);
}

/// In increasing entries a key has a value exactly when some entry stands
/// under it.
pub proof fn lemma_has_key<V>(entries: Seq<(usize, V)>, key: usize)
    requires
        increasing(entries),
    ensures
        has_key(entries, key) == (key_index(entries, key) is Some),
        has_key(entries, key) == (value_of(entries, key) is Some),
{
    lemma_key_bound_splits(entries, key);
    if has_key(entries, key) {
        let k = choose|k: int| 0 <= k < entries.len() && (#[trigger] entries[k]).0 == key;
        lemma_key_index(entries, key, k);
    }
    if key_index(entries, key) is Some {
        let at = key_index(entries, key).unwrap();
        assert(entries[at].0 == key);
    }
}

/// Putting keeps the entries increasing, leaves the value under its key and
/// every other key with the value it had.
pub proof fn lemma_put<V>(entries: Seq<(usize, V)>, key: usize, value: V, other: usize)
    requires
        increasing(entries),
    ensures
        increasing(put(entries, key, value)),
        value_of(put(entries, key, value), key) == Some(value),
        other != key ==> value_of(put(entries, key, value), other) == value_of(entries, other),
        put(entries, key, value).len() == entries.len() + if key_index(entries, key) is Some {
            0int
        } else {
            1int
        },
{
    lemma_key_bound_splits(entries, key);
    let at = key_bound(entries, key);
    let after = put(entries, key, value);
    if key_index(entries, key) is Some {
        assert forall|i: int, j: int| 0 <= i < j < after.len() implies (#[trigger] after[i]).0 < (
        #[trigger] after[j]).0 by {
            assert(after[i].0 == entries[i].0);
            assert(after[j].0 == entries[j].0);
        }
    } else {
        assert forall|i: int, j: int| 0 <= i < j < after.len() implies (#[trigger] after[i]).0 < (
        #[trigger] after[j]).0 by {
            if j < at {
                assert(after[i] == entries[i] && after[j] == entries[j]);
            } else if j == at {
                assert(after[i] == entries[i]);
            } else if i < at {
                assert(after[i] == entries[i] && after[j] == entries[j - 1]);
            } else if i == at {
                assert(after[j] == entries[j - 1]);
            } else {
                assert(after[i] == entries[i - 1] && after[j] == entries[j - 1]);
            }
        }
    }
    assert(after[at] == (key, value));
    lemma_key_index(after, key, at);
    if other != key {
        lemma_key_bound_splits(entries, other);
        lemma_key_bound_splits(after, other);
        match key_index(entries, other) {
            Some(k) => {
                let moved = if key_index(entries, key) is None && k >= at {
                    k + 1
                } else {
                    k
                };
                assert(after[moved] == entries[k]);
                lemma_key_index(after, other, moved);
            },
            None => {
                if key_index(after, other) is Some {
                    let k = key_index(after, other).unwrap();
                    let back = if key_index(entries, key) is None && k > at {
                        k - 1
                    } else {
                        k
                    };
                    assert(entries[back] == after[k]);
                    lemma_key_index(entries, other, back);
                }
            },
        }
    }
}

/// Removing keeps the entries increasing, leaves no entry under the key and
/// every other key with the value it had.
pub proof fn lemma_without<V>(entries: Seq<(usize, V)>, key: usize, other: usize)
    requires
        increasing(entries),
    ensures
        increasing(without(entries, key)),
        value_of(without(entries, key), key) is None,
        other != key ==> value_of(without(entries, key), other) == value_of(entries, other),
{
    lemma_key_bound_splits(entries, key);
    let at = key_bound(entries, key);
    let after = without(entries, key);
    if key_index(entries, key) is Some {
        assert forall|i: int, j: int| 0 <= i < j < after.len() implies (#[trigger] after[i]).0 < (
        #[trigger] after[j]).0 by {
            assert(after[i] == entries[if i < at { i } else { i + 1 }]);
            assert(after[j] == entries[if j < at { j } else { j + 1 }]);
        }
        assert forall|k: int| 0 <= k < at implies (#[trigger] after[k]).0 < key by {
            assert(after[k] == entries[k]);
        }
        if at < after.len() {
            assert(after[at] == entries[at + 1]);
        }
        lemma_key_bound(after, key, at);
        if other != key {
            lemma_key_bound_splits(entries, other);
            lemma_key_bound_splits(after, other);
            match key_index(entries, other) {
                Some(k) => {
                    let moved = if k > at {
                        k - 1
                    } else {
                        k
                    };
                    assert(after[moved] == entries[k]);
                    lemma_key_index(after, other, moved);
                },
                None => {
                    if key_index(after, other) is Some {
                        let k = key_index(after, other).unwrap();
                        let back = if k >= at {
                            k + 1
                        } else {
                            k
                        };
                        assert(entries[back] == after[k]);
                        lemma_key_index(entries, other, back);
                    }
                },
            }
        }
    }
}

/// Taking a key out and putting under it again is putting under it.
pub proof fn lemma_put_after_without<V>(entries: Seq<(usize, V)>, key: usize, value: V)
    requires
        increasing(entries),
    ensures
        put(without(entries, key), key, value) == put(entries, key, value),
{
    lemma_key_bound_splits(entries, key);
    lemma_without(entries, key, key);
    let at = key_bound(entries, key);
    if key_index(entries, key) is Some {
        let after = entries.remove(at);
        assert forall|k: int| 0 <= k < at implies (#[trigger] after[k]).0 < key by {
            assert(after[k] == entries[k]);
        }
        if at < after.len() {
            assert(after[at] == entries[at + 1]);
        }
        lemma_key_bound(after, key, at);
        assert(after.insert(at, (key, value)) =~= entries.update(at, (key, value)));
    }
}

/// Values under integer keys in the order of the keys, each key at most once.
pub struct Table<V> {
    entries: Vec<(usize, V)>,
}

impl<V> View for Table<V> {
    type V = Seq<(usize, V)>;

    /// The keys and values in the order in which they are visited.
    closed spec fn view(&self) -> Seq<(usize, V)> {
        self.entries@
    }
}

impl<V> Table<V> {
    /// The entries are in the order of their keys.
    pub open spec fn wf(&self) -> bool {
        increasing(self@)
    }

    /// Creates an empty table.
    pub fn new() -> (table: Self)
        ensures
            table.wf(),
            table@.len() == 0,
    {
        Table { entries: Vec::new() }
    }

    /// The number of entries.
    pub fn len(&self) -> (len: usize)
        ensures
            len == self@.len(),
    {
        self.entries.len()
    }

    /// The key and the value at a position in the order of keys.
    pub fn entry(&self, at: usize) -> (entry: (usize, &V))
        requires
            at < self@.len(),
        ensures
            entry.0 == self@[at as int].0,
            *entry.1 == self@[at as int].1,
    {
        let entry = &self.entries[at];
        (entry.0, &entry.1)
    }

    /// Finds where `key` stands or belongs, and whether it is there.
    pub fn position(&self, key: usize) -> (found: (usize, bool))
        requires
            self.wf(),
        ensures
            found.0 == key_bound(self@, key),
            found.1 == (key_index(self@, key) is Some),
            found.0 <= self@.len(),
    {
        let mut at: usize = 0;
        while at < self.entries.len() && self.entries[at].0 < key
            invariant
                at <= self@.len(),
                forall|k: int| 0 <= k < at ==> (#[trigger] self@[k]).0 < key,
            decreases self@.len() - at,
        {
            at += 1;
        }
        proof {
            lemma_key_bound(self@, key, at as int);
        }
        let found = at < self.entries.len() && self.entries[at].0 == key;
        (at, found)
    }

    /// The value under `key`.
    pub fn get(&self, key: usize) -> (value: Option<&V>)
        requires
            self.wf(),
        ensures
            match value {
                Some(value) => value_of(self@, key) == Some(*value),
                None => value_of(self@, key) is None,
            },
    {
        let (at, found) = self.position(key);
        if found {
            Some(&self.entries[at].1)
        } else {
            None
        }
    }

    /// Takes the table apart into its entries, in the order of the keys.
    pub fn into_entries(self) -> (entries: Vec<(usize, V)>)
        ensures
            entries@ == self@,
    {
        self.entries
    }

    /// Puts `value` under `key` behind all entries; `key` is above every key
    /// of the table.
    pub fn append(&mut self, key: usize, value: V)
        requires
            old(self).wf(),
            forall|k: int| 0 <= k < old(self)@.len() ==> (#[trigger] old(self)@[k]).0 < key,
        ensures
            final(self).wf(),
            final(self)@ == old(self)@.push((key, value)),
    {
        self.entries.push((key, value));
    }

    /// Puts `value` under `key` and returns the value it replaces.
    pub fn insert(&mut self, key: usize, value: V) -> (replaced: Option<V>)
        requires
            old(self).wf(),
        ensures
            final(self).wf(),
            final(self)@ == put(old(self)@, key, value),
            replaced == value_of(old(self)@, key),
    {
        proof {
            lemma_put(self@, key, value, key);
        }
        let (at, found) = self.position(key);
        if found {
            let previous = self.entries.remove(at);
            self.entries.insert(at, (key, value));
            assert(self@ =~= old(self)@.update(at as int, (key, value)));
            Some(previous.1)
        } else {
            self.entries.insert(at, (key, value));
            None
        }
    }

    /// Removes the value under `key` and returns it.
    pub fn remove(&mut self, key: usize) -> (taken: Option<V>)
        requires
            old(self).wf(),
        ensures
            final(self).wf(),
            final(self)@ == without(old(self)@, key),
            taken == value_of(old(self)@, key),
    {
        proof {
            lemma_without(self@, key, key);
        }
        let (at, found) = self.position(key);
        if found {
            let previous = self.entries.remove(at);
            Some(previous.1)
        } else {
            None
        }
    }
}

} // verus!
