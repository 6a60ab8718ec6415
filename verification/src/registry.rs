//! A collection of named values, kept and visited in the order of their names.

use vstd::prelude::*;
use crate::names::{compare_names, lemma_name_order, name_less, NameOrder};

verus! {

/// Every entry's name comes before the names of all entries behind it.
pub open spec fn sorted<V>(entries: Seq<(Seq<char>, V)>) -> bool {
    forall|i: int, j: int|
        0 <= i < j < entries.len() ==> name_less(#[trigger] entries[i].0, #[trigger] entries[j].0)
}

/// The index of the first entry whose name does not come before `name`: the
/// place where `name` stands, or where it belongs.
#[verifier::opaque]
pub open spec fn lower_bound<V>(entries: Seq<(Seq<char>, V)>, name: Seq<char>) -> int
    decreases entries.len(),
{
    if entries.len() == 0 || !name_less(entries[0].0, name) {
        0
    } else {
        1 + lower_bound(entries.drop_first(), name)
    }
}

/// The index of the entry called `name`, if there is one.
pub open spec fn index_of<V>(entries: Seq<(Seq<char>, V)>, name: Seq<char>) -> Option<int> {
    let at = lower_bound(entries, name);
    if 0 <= at < entries.len() && entries[at].0 == name {
        Some(at)
    } else {
        None
    }
}

/// The entries after `value` was registered under `name`: it takes the place of
/// the entry of that name, or its own place in the order of names.
pub open spec fn inserted<V>(entries: Seq<(Seq<char>, V)>, name: Seq<char>, value: V) -> Seq<(Seq<char>, V)> {
    match index_of(entries, name) {
        Some(at) => entries.update(at, (name, value)),
        None => entries.insert(lower_bound(entries, name), (name, value)),
    }
}

/// The entries without the one called `name`.
pub open spec fn removed<V>(entries: Seq<(Seq<char>, V)>, name: Seq<char>) -> Seq<(Seq<char>, V)> {
    match index_of(entries, name) {
        Some(at) => entries.remove(at),
        None => entries,
    }
}

/// `lower_bound` is the one index with only earlier names before it and no
/// earlier name at it.
pub proof fn lemma_lower_bound<V>(entries: Seq<(Seq<char>, V)>, name: Seq<char>, at: int)
    requires
        0 <= at <= entries.len(),
        forall|k: int| 0 <= k < at ==> name_less(#[trigger] entries[k].0, name),
        at < entries.len() ==> !name_less(entries[at].0, name),
    ensures
        lower_bound(entries, name) == at,
    decreases at,
{
    reveal(lower_bound);
    if at > 0 {
        let rest = entries.drop_first();
        assert(name_less(entries[0].0, name));
        assert forall|k: int| 0 <= k < at - 1 implies name_less(#[trigger] rest[k].0, name) by {
            assert(rest[k] == entries[k + 1]);
        }
        lemma_lower_bound(rest, name, at - 1);
    }
}

/// `lower_bound` lies within the entries, behind the earlier names and at or
/// before every other.
pub proof fn lemma_lower_bound_splits<V>(entries: Seq<(Seq<char>, V)>, name: Seq<char>)
    requires
        sorted(entries),
    ensures
        0 <= lower_bound(entries, name) <= entries.len(),
        forall|k: int|
            0 <= k < lower_bound(entries, name) ==> name_less(#[trigger] entries[k].0, name),
        forall|k: int|
            lower_bound(entries, name) <= k < entries.len() ==> !name_less(
                #[trigger] entries[k].0,
                name,
            ),
        forall|k: int|
            lower_bound(entries, name) < k < entries.len() ==> name_less(
                name,
                #[trigger] entries[k].0,
            ),
    decreases entries.len(),
{
    reveal(lower_bound);
    if entries.len() == 0 {
    } else if !name_less(entries[0].0, name) {
        assert forall|k: int| 0 < k < entries.len() implies name_less(
            name,
            #[trigger] entries[k].0,
        ) by {
            lemma_name_order(name, entries[0].0, entries[k].0);
            lemma_name_order(entries[0].0, name, name);
        }
        assert forall|k: int| 0 <= k < entries.len() implies !name_less(
            #[trigger] entries[k].0,
            name,
        ) by {
            if k > 0 {
                lemma_name_order(name, entries[k].0, name);
            }
        }
    } else {
        let rest = entries.drop_first();
        assert forall|i: int, j: int| 0 <= i < j < rest.len() implies name_less(
            #[trigger] rest[i].0,
            #[trigger] rest[j].0,
        ) by {
            assert(rest[i] == entries[i + 1]);
            assert(rest[j] == entries[j + 1]);
        }
        lemma_lower_bound_splits(rest, name);
        let at = lower_bound(entries, name);
        assert forall|k: int| 0 <= k < at implies name_less(#[trigger] entries[k].0, name) by {
            if k > 0 {
                assert(rest[k - 1] == entries[k]);
            }
        }
        assert forall|k: int| at <= k < entries.len() implies !name_less(
            #[trigger] entries[k].0,
            name,
        ) by {
            assert(rest[k - 1] == entries[k]);
        }
        assert forall|k: int| at < k < entries.len() implies name_less(
            name,
            #[trigger] entries[k].0,
        ) by {
            assert(rest[k - 1] == entries[k]);
        }
    }
}

/// In sorted entries a name is found at `index_of` or nowhere, so no name
/// occurs twice.
pub proof fn lemma_index_of<V>(entries: Seq<(Seq<char>, V)>, name: Seq<char>, k: int)
    requires
        sorted(entries),
        0 <= k < entries.len(),
    ensures
        entries[k].0 == name <==> index_of(entries, name) == Some(k),
{
    lemma_lower_bound_splits(entries, name);
    lemma_name_order(name, name, name);
    let at = lower_bound(entries, name);
    if entries[k].0 == name {
        if k < at {
            assert(name_less(entries[k].0, name));
        } else if k > at {
            assert(name_less(name, entries[k].0));
        }
    }
}

/// Registering keeps the entries sorted, puts the value under its name and
/// leaves every other name with the value it had.
pub proof fn lemma_inserted<V>(entries: Seq<(Seq<char>, V)>, name: Seq<char>, value: V)
    requires
        sorted(entries),
    ensures
        sorted(inserted(entries, name, value)),
        index_of(inserted(entries, name, value), name) == Some(lower_bound(entries, name)),
        inserted(entries, name, value)[lower_bound(entries, name)] == (name, value),
        inserted(entries, name, value).len() == entries.len() + if index_of(entries, name)
            is Some {
            0int
        } else {
            1int
        },
{
    lemma_lower_bound_splits(entries, name);
    let at = lower_bound(entries, name);
    let after = inserted(entries, name, value);
    if index_of(entries, name) is Some {
        assert forall|i: int, j: int| 0 <= i < j < after.len() implies name_less(
            #[trigger] after[i].0,
            #[trigger] after[j].0,
        ) by {
            assert(after[i].0 == entries[i].0);
            assert(after[j].0 == entries[j].0);
        }
    } else {
        assert forall|i: int, j: int| 0 <= i < j < after.len() implies name_less(
            #[trigger] after[i].0,
            #[trigger] after[j].0,
        ) by {
            lemma_name_order(name, name, name);
            if j < at {
                assert(after[i] == entries[i] && after[j] == entries[j]);
            } else if j == at {
                assert(after[i] == entries[i]);
            } else if i < at {
                assert(after[i] == entries[i] && after[j] == entries[j - 1]);
                lemma_name_order(entries[i].0, name, entries[j - 1].0);
                if j - 1 == at {
                    lemma_name_order(name, entries[at].0, name);
                }
            } else if i == at {
                assert(after[j] == entries[j - 1]);
                if j - 1 == at {
                    lemma_name_order(name, entries[at].0, name);
                }
            } else {
                assert(after[i] == entries[i - 1] && after[j] == entries[j - 1]);
            }
        }
    }
    assert forall|k: int| 0 <= k < at implies name_less(#[trigger] after[k].0, name) by {
        assert(after[k].0 == entries[k].0);
    }
    lemma_name_order(name, name, name);
    lemma_lower_bound(after, name, at);
}

/// Removing keeps the entries sorted and leaves no entry of that name.
pub proof fn lemma_removed<V>(entries: Seq<(Seq<char>, V)>, name: Seq<char>)
    requires
        sorted(entries),
    ensures
        sorted(removed(entries, name)),
        index_of(removed(entries, name), name) is None,
{
    lemma_lower_bound_splits(entries, name);
    let at = lower_bound(entries, name);
    let after = removed(entries, name);
    lemma_name_order(name, name, name);
    if index_of(entries, name) is Some {
        assert forall|i: int, j: int| 0 <= i < j < after.len() implies name_less(
            #[trigger] after[i].0,
            #[trigger] after[j].0,
        ) by {
            assert(after[i] == entries[if i < at { i } else { i + 1 }]);
            assert(after[j] == entries[if j < at { j } else { j + 1 }]);
        }
        assert forall|k: int| 0 <= k < at implies name_less(#[trigger] after[k].0, name) by {
            assert(after[k] == entries[k]);
        }
        if at < after.len() {
            assert(after[at] == entries[at + 1]);
            lemma_name_order(name, after[at].0, name);
        }
        lemma_lower_bound(after, name, at);
    }
}

/// The value registered under `name`, if there is one.
pub open spec fn value_at<V>(entries: Seq<(Seq<char>, V)>, name: Seq<char>) -> Option<V> {
    match index_of(entries, name) {
        Some(at) => Some(entries[at].1),
        None => None,
    }
}

/// Some entry is called `name`.
pub open spec fn has_name<V>(entries: Seq<(Seq<char>, V)>, name: Seq<char>) -> bool {
    exists|k: int| 0 <= k < entries.len() && (#[trigger] entries[k]).0 == name
}

/// In sorted entries a name has a value exactly when some entry is called so.
pub proof fn lemma_has_name<V>(entries: Seq<(Seq<char>, V)>, name: Seq<char>)
    requires
        sorted(entries),
    ensures
        has_name(entries, name) == (value_at(entries, name) is Some),
{
    lemma_lower_bound_splits(entries, name);
    if has_name(entries, name) {
        let k = choose|k: int| 0 <= k < entries.len() && (#[trigger] entries[k]).0 == name;
        lemma_index_of(entries, name, k);
    }
    if index_of(entries, name) is Some {
        let at = index_of(entries, name).unwrap();
        assert(entries[at].0 == name);
    }
}

/// Registering under one name leaves every other name with the value it had.
pub proof fn lemma_inserted_others<V>(
    entries: Seq<(Seq<char>, V)>,
    name: Seq<char>,
    value: V,
    other: Seq<char>,
)
    requires
        sorted(entries),
    ensures
        value_at(inserted(entries, name, value), name) == Some(value),
        other != name ==> value_at(inserted(entries, name, value), other) == value_at(
            entries,
            other,
        ),
{
    lemma_inserted(entries, name, value);
    lemma_lower_bound_splits(entries, name);
    let at = lower_bound(entries, name);
    let after = inserted(entries, name, value);
    if other != name {
        lemma_lower_bound_splits(entries, other);
        lemma_lower_bound_splits(after, other);
        match index_of(entries, other) {
            Some(k) => {
                let moved = if index_of(entries, name) is None && k >= at {
                    k + 1
                } else {
                    k
                };
                assert(after[moved] == entries[k]);
                lemma_index_of(after, other, moved);
            },
            None => {
                if index_of(after, other) is Some {
                    let k = index_of(after, other).unwrap();
                    let back = if index_of(entries, name) is None && k > at {
                        k - 1
                    } else {
                        k
                    };
                    assert(entries[back] == after[k]);
                    lemma_index_of(entries, other, back);
                }
            },
        }
    }
}

/// Removing one name leaves every other name with the value it had.
pub proof fn lemma_removed_others<V>(entries: Seq<(Seq<char>, V)>, name: Seq<char>, other: Seq<char>)
    requires
        sorted(entries),
    ensures
        value_at(removed(entries, name), name) is None,
        other != name ==> value_at(removed(entries, name), other) == value_at(entries, other),
{
    lemma_removed(entries, name);
    lemma_lower_bound_splits(entries, name);
    let at = lower_bound(entries, name);
    let after = removed(entries, name);
    if other != name && index_of(entries, name) is Some {
        lemma_lower_bound_splits(entries, other);
        lemma_lower_bound_splits(after, other);
        match index_of(entries, other) {
            Some(k) => {
                let moved = if k > at {
                    k - 1
                } else {
                    k
                };
                assert(after[moved] == entries[k]);
                lemma_index_of(after, other, moved);
            },
            None => {
                if index_of(after, other) is Some {
                    let k = index_of(after, other).unwrap();
                    let back = if k >= at {
                        k + 1
                    } else {
                        k
                    };
                    assert(entries[back] == after[k]);
                    lemma_index_of(entries, other, back);
                }
            },
        }
    }
}

/// Taking a name out and registering under it again is registering under it.
pub proof fn lemma_inserted_after_removed<V>(entries: Seq<(Seq<char>, V)>, name: Seq<char>, value: V)
    requires
        sorted(entries),
    ensures
        inserted(removed(entries, name), name, value) == inserted(entries, name, value),
{
    lemma_lower_bound_splits(entries, name);
    lemma_removed(entries, name);
    let at = lower_bound(entries, name);
    if index_of(entries, name) is Some {
        let after = entries.remove(at);
        assert forall|k: int| 0 <= k < at implies name_less(#[trigger] after[k].0, name) by {
            assert(after[k] == entries[k]);
        }
        if at < after.len() {
            assert(after[at] == entries[at + 1]);
            lemma_name_order(name, after[at].0, name);
        }
        lemma_lower_bound(after, name, at);
        assert(after.insert(at, (name, value)) =~= entries.update(at, (name, value)));
    }
}

/// Named values in the order of their names, each name at most once.
pub struct Registry<V> {
    entries: Vec<(String, V)>,
}

impl<V> View for Registry<V> {
    type V = Seq<(Seq<char>, V)>;

    /// The names and values in the order in which they are visited.
    closed spec fn view(&self) -> Seq<(Seq<char>, V)> {
        self.entries@.map_values(|entry: (String, V)| (entry.0@, entry.1))
    }
}

impl<V> Registry<V> {
    /// The entries are sorted by name.
    pub open spec fn wf(&self) -> bool {
        sorted(self@)
    }

    /// Creates an empty registry.
    pub fn new() -> (registry: Self)
        ensures
            registry.wf(),
            registry@.len() == 0,
    {
        Registry { entries: Vec::new() }
    }

    /// The number of entries.
    pub fn len(&self) -> (len: usize)
        ensures
            len == self@.len(),
    {
        self.entries.len()
    }

    /// The name and the value at a position in the order of names.
    pub fn entry(&self, at: usize) -> (entry: (&String, &V))
        requires
            at < self@.len(),
        ensures
            entry.0@ == self@[at as int].0,
            *entry.1 == self@[at as int].1,
    {
        let entry = &self.entries[at];
        (&entry.0, &entry.1)
    }

    /// Finds where `name` stands or belongs, and whether it is there.
    pub fn position(&self, name: &str) -> (found: (usize, bool))
        requires
            self.wf(),
        ensures
            found.0 == lower_bound(self@, name@),
            found.1 == (index_of(self@, name@) is Some),
            found.0 <= self@.len(),
    {
        let mut at: usize = 0;
        while at < self.entries.len()
            invariant
                at <= self@.len(),
                self@.len() == self.entries@.len(),
                forall|k: int| 0 <= k < at ==> name_less(#[trigger] self@[k].0, name@),
            decreases self.entries@.len() - at,
        {
            match compare_names(self.entries[at].0.as_str(), name) {
                NameOrder::Before => {
                    at += 1;
                },
                NameOrder::Same => {
                    proof {
                        lemma_name_order(name@, name@, name@);
                        lemma_lower_bound(self@, name@, at as int);
                    }
                    return (at, true);
                },
                NameOrder::After => {
                    proof {
                        lemma_lower_bound(self@, name@, at as int);
                    }
                    return (at, false);
                },
            }
        }
        proof {
            lemma_lower_bound(self@, name@, at as int);
        }
        (at, false)
    }

    /// The value registered under `name`.
    pub fn get(&self, name: &str) -> (value: Option<&V>)
        requires
            self.wf(),
        ensures
            match index_of(self@, name@) {
                Some(at) => value == Some(&self@[at].1),
                None => value is None,
            },
    {
        let (at, found) = self.position(name);
        if found {
            Some(&self.entries[at].1)
        } else {
            None
        }
    }

    /// Registers `value` under `name` and returns the value it replaces.
    pub fn insert(&mut self, name: String, value: V) -> (replaced: Option<V>)
        requires
            old(self).wf(),
        ensures
            final(self).wf(),
            final(self)@ == inserted(old(self)@, name@, value),
            match index_of(old(self)@, name@) {
                Some(at) => replaced == Some(old(self)@[at].1),
                None => replaced is None,
            },
    {
        proof {
            lemma_inserted(self@, name@, value);
        }
        let (at, found) = self.position(name.as_str());
        if found {
            let previous = self.entries.remove(at);
            self.entries.insert(at, (name, value));
            assert(self@ =~= old(self)@.update(at as int, (name@, value)));
            Some(previous.1)
        } else {
            self.entries.insert(at, (name, value));
            assert(self@ =~= old(self)@.insert(at as int, (name@, value)));
            None
        }
    }

    /// Removes the value registered under `name` and returns it.
    pub fn remove(&mut self, name: &str) -> (taken: Option<V>)
        requires
            old(self).wf(),
        ensures
            final(self).wf(),
            final(self)@ == removed(old(self)@, name@),
            match index_of(old(self)@, name@) {
                Some(at) => taken == Some(old(self)@[at].1),
                None => taken is None,
            },
    {
        proof {
            lemma_removed(self@, name@);
        }
        let (at, found) = self.position(name);
        if found {
            let previous = self.entries.remove(at);
            assert(self@ =~= old(self)@.remove(at as int));
            Some(previous.1)
        } else {
            None
        }
    }
}

} // verus!
