//! Input keys, input schemes and the mapping from keys to commands.

use vstd::prelude::*;
use crate::commands::{commands_of, invoked, Arg, Command, Commands};
use crate::registry::{
    inserted, lemma_inserted, lemma_inserted_after_removed, lemma_inserted_others, lemma_removed,
    lemma_removed_others, removed, sorted, value_at, Registry,
};
use crate::table::{
    has_key, increasing, lemma_has_key, lemma_put, lemma_put_after_without, lemma_without, put,
    value_of, without, Table,
};

verus! {

/// Enumeration of input keys: contains keyboard (`Kbd...`), mouse (`Mouse...`), gamepad (`G`) keys
#[derive(Clone, Copy, Debug, PartialEq, Eq, PartialOrd, Ord, Structural)]
pub enum Key {
    KbdSpace,
    KbdEscape,
    KbdEnter,
    KbdArrowUp,
    KbdArrowDown,
    KbdArrowLeft,
    KbdArrowRight,
    KbdA,
    KbdB,
    KbdC,
    KbdD,
    KbdE,
    KbdF,
    KbdG,
    KbdH,
    KbdI,
    KbdJ,
    KbdK,
    KbdL,
    KbdM,
    KbdN,
    KbdO,
    KbdP,
    KbdQ,
    KbdR,
    KbdS,
    KbdT,
    KbdU,
    KbdV,
    KbdW,
    KbdX,
    KbdY,
    KbdZ,
    Kbd0,
    Kbd1,
    Kbd2,
    Kbd3,
    Kbd4,
    Kbd5,
    Kbd6,
    Kbd7,
    Kbd8,
    Kbd9,
}

/// The number of input keys.
pub const KEY_COUNT: usize = 43;

impl Key {
    /// The place of the key in the order of keys: keys are ordered as they
    /// are declared.
    pub open spec fn spec_ordinal(self) -> usize {
        match self {
            Key::KbdSpace => 0,
            Key::KbdEscape => 1,
            Key::KbdEnter => 2,
            Key::KbdArrowUp => 3,
            Key::KbdArrowDown => 4,
            Key::KbdArrowLeft => 5,
            Key::KbdArrowRight => 6,
            Key::KbdA => 7,
            Key::KbdB => 8,
            Key::KbdC => 9,
            Key::KbdD => 10,
            Key::KbdE => 11,
            Key::KbdF => 12,
            Key::KbdG => 13,
            Key::KbdH => 14,
            Key::KbdI => 15,
            Key::KbdJ => 16,
            Key::KbdK => 17,
            Key::KbdL => 18,
            Key::KbdM => 19,
            Key::KbdN => 20,
            Key::KbdO => 21,
            Key::KbdP => 22,
            Key::KbdQ => 23,
            Key::KbdR => 24,
            Key::KbdS => 25,
            Key::KbdT => 26,
            Key::KbdU => 27,
            Key::KbdV => 28,
            Key::KbdW => 29,
            Key::KbdX => 30,
            Key::KbdY => 31,
            Key::KbdZ => 32,
            Key::Kbd0 => 33,
            Key::Kbd1 => 34,
            Key::Kbd2 => 35,
            Key::Kbd3 => 36,
            Key::Kbd4 => 37,
            Key::Kbd5 => 38,
            Key::Kbd6 => 39,
            Key::Kbd7 => 40,
            Key::Kbd8 => 41,
            Key::Kbd9 => 42,
        }
    }

    /// The place of the key in the order of keys
    #[verifier::when_used_as_spec(spec_ordinal)]
    pub fn ordinal(self) -> (ordinal: usize)
        ensures
            ordinal == self.spec_ordinal(),
            ordinal < KEY_COUNT,
    {
        match self {
            Key::KbdSpace => 0,
            Key::KbdEscape => 1,
            Key::KbdEnter => 2,
            Key::KbdArrowUp => 3,
            Key::KbdArrowDown => 4,
            Key::KbdArrowLeft => 5,
            Key::KbdArrowRight => 6,
            Key::KbdA => 7,
            Key::KbdB => 8,
            Key::KbdC => 9,
            Key::KbdD => 10,
            Key::KbdE => 11,
            Key::KbdF => 12,
            Key::KbdG => 13,
            Key::KbdH => 14,
            Key::KbdI => 15,
            Key::KbdJ => 16,
            Key::KbdK => 17,
            Key::KbdL => 18,
            Key::KbdM => 19,
            Key::KbdN => 20,
            Key::KbdO => 21,
            Key::KbdP => 22,
            Key::KbdQ => 23,
            Key::KbdR => 24,
            Key::KbdS => 25,
            Key::KbdT => 26,
            Key::KbdU => 27,
            Key::KbdV => 28,
            Key::KbdW => 29,
            Key::KbdX => 30,
            Key::KbdY => 31,
            Key::KbdZ => 32,
            Key::Kbd0 => 33,
            Key::Kbd1 => 34,
            Key::Kbd2 => 35,
            Key::Kbd3 => 36,
            Key::Kbd4 => 37,
            Key::Kbd5 => 38,
            Key::Kbd6 => 39,
            Key::Kbd7 => 40,
            Key::Kbd8 => 41,
            Key::Kbd9 => 42,
        }
    }
}

/// Two keys at the same place are the same key.
pub proof fn lemma_ordinal_injective(a: Key, b: Key)
    requires
        a.spec_ordinal() == b.spec_ordinal(),
    ensures
        a == b,
{
}

/// Enumeration of possible input [Key] state
#[derive(Clone, Copy, Debug, PartialEq, Eq, Structural)]
pub enum State {
    /// The key went down
    Pressed,
    /// The key went up
    Released,
}

/// The keys of a command stand under their places in the order of keys.
pub open spec fn keys_wf(keys: Seq<(usize, Key)>) -> bool {
    &&& increasing(keys)
    &&& forall|k: int| 0 <= k < keys.len() ==> (#[trigger] keys[k]).0 == keys[k].1.spec_ordinal()
}

/// The scheme maps `key` to `command`.
pub open spec fn scheme_binds(
    mapping: Seq<(Seq<char>, Table<Key>)>,
    command: Seq<char>,
    key: Key,
) -> bool {
    match value_at(mapping, command) {
        Some(keys) => has_key(keys@, key.spec_ordinal()),
        None => false,
    }
}

/// Input scheme
pub struct Scheme {
    mapping: Registry<Table<Key>>,
}

impl Scheme {
    /// The commands with their keys, in the order of the commands' names.
    pub closed spec fn mapping(&self) -> Seq<(Seq<char>, Table<Key>)> {
        self.mapping@
    }

    /// The commands are sorted by name, and the keys of each by their place
    /// in the order of keys.
    pub open spec fn wf(&self) -> bool {
        &&& sorted(self.mapping())
        &&& forall|at: int|
            0 <= at < self.mapping().len() ==> keys_wf((#[trigger] self.mapping()[at]).1@)
    }

    /// The scheme maps `key` to `command`.
    pub open spec fn binds(&self, command: Seq<char>, key: Key) -> bool {
        scheme_binds(self.mapping(), command, key)
    }

    /// Creates a scheme that maps no key
    pub fn new() -> (scheme: Self)
        ensures
            scheme.wf(),
            scheme.mapping().len() == 0,
    {
        Scheme { mapping: Registry::new() }
    }

    /// Adds mapping of keys to command
    #[verifier::rlimit(50)]
    pub fn add(self, command: &str, inputs: &[Key]) -> (scheme: Scheme)
        requires
            self.wf(),
        ensures
            scheme.wf(),
            forall|name: Seq<char>, key: Key| #[trigger]
                scheme.binds(name, key) <==> self.binds(name, key) || (name == command@
                    && inputs@.contains(key)),
    {
        let mut scheme = self;
        let ghost before = scheme.mapping@;
        let mut keys = match scheme.mapping.remove(command) {
            Some(keys) => keys,
            None => Table::new(),
        };
        let ghost had = keys@;
        proof {
            lemma_removed(before, command@);
            crate::registry::lemma_lower_bound_splits(before, command@);
            assert(keys_wf(had));
        }
        proof {
            if value_at(before, command@) is None {
                assert(had =~= Seq::<(usize, Key)>::empty());
            }
        }
        insert_keys(&mut keys, inputs);
        proof {
            lemma_inserted_after_removed(before, command@, keys);
            lemma_rebound(before, command@, had, keys, inputs@);
        }
        let _ = scheme.mapping.insert(command.to_owned(), keys);
        scheme
    }
}

/// Adds keys to the keys of one command
#[verifier::rlimit(50)]
pub fn insert_keys(keys: &mut Table<Key>, inputs: &[Key])
    requires
        keys_wf(old(keys)@),
    ensures
        keys_wf(final(keys)@),
        forall|key: Key| #[trigger]
            has_key(final(keys)@, key.spec_ordinal()) <==> has_key(old(keys)@, key.spec_ordinal())
                || inputs@.contains(key),
{
    let ghost had = keys@;
    let mut at: usize = 0;
    while at < inputs.len()
        invariant
            at <= inputs@.len(),
            keys_wf(keys@),
            forall|key: Key| #[trigger]
                has_key(keys@, key.spec_ordinal()) <==> has_key(had, key.spec_ordinal())
                    || inputs@.take(at as int).contains(key),
        decreases inputs@.len() - at,
    {
        let key = inputs[at];
        let ghost list = keys@;
        let _ = keys.insert(key.ordinal(), key);
        proof {
            lemma_key_added(list, key);
            assert forall|other: Key| #[trigger]
                has_key(keys@, other.spec_ordinal()) <==> has_key(had, other.spec_ordinal())
                    || inputs@.take(at + 1).contains(other) by {
                let earlier = inputs@.take(at as int);
                let all = inputs@.take(at + 1);
                assert(all[at as int] == key);
                assert(has_key(keys@, other.spec_ordinal()) <==> has_key(
                    list,
                    other.spec_ordinal(),
                ) || other == key);
                if earlier.contains(other) {
                    let k = choose|k: int| 0 <= k < earlier.len() && earlier[k] == other;
                    assert(all[k] == other);
                }
                if all.contains(other) {
                    let k = choose|k: int| 0 <= k < all.len() && all[k] == other;
                    if k < at {
                        assert(earlier[k] == other);
                    }
                }
            }
        }
        at += 1;
    }
    proof {
        assert(inputs@.take(inputs@.len() as int) =~= inputs@);
    }
}

/// Putting one key among the keys of a command keeps them well formed and
/// adds that key alone.
proof fn lemma_key_added(list: Seq<(usize, Key)>, key: Key)
    requires
        keys_wf(list),
    ensures
        keys_wf(put(list, key.spec_ordinal(), key)),
        forall|other: Key| #[trigger]
            has_key(put(list, key.spec_ordinal(), key), other.spec_ordinal()) <==> has_key(
                list,
                other.spec_ordinal(),
            ) || other == key,
{
    let now = put(list, key.spec_ordinal(), key);
    lemma_put(list, key.spec_ordinal(), key, key.spec_ordinal());
    crate::table::lemma_key_bound_splits(list, key.spec_ordinal());
    let bound = crate::table::key_bound(list, key.spec_ordinal());
    assert forall|k: int| 0 <= k < now.len() implies (#[trigger] now[k]).0
        == now[k].1.spec_ordinal() by {
        if k != bound {
            let from = if crate::table::key_index(list, key.spec_ordinal()) is None && k > bound {
                k - 1
            } else {
                k
            };
            assert(now[k] == list[from]);
        }
    }
    assert forall|other: Key| #[trigger]
        has_key(now, other.spec_ordinal()) <==> has_key(list, other.spec_ordinal()) || other
            == key by {
        lemma_put(list, key.spec_ordinal(), key, other.spec_ordinal());
        lemma_has_key(now, other.spec_ordinal());
        lemma_has_key(list, other.spec_ordinal());
        if other.spec_ordinal() == key.spec_ordinal() {
            lemma_ordinal_injective(other, key);
        }
    }
}

/// What a scheme maps once the keys of one command are replaced by those it
/// had and some more.
proof fn lemma_rebound(
    before: Seq<(Seq<char>, Table<Key>)>,
    command: Seq<char>,
    had: Seq<(usize, Key)>,
    keys: Table<Key>,
    inputs: Seq<Key>,
)
    requires
        sorted(before),
        forall|at: int| 0 <= at < before.len() ==> keys_wf((#[trigger] before[at]).1@),
        had == match value_at(before, command) {
            Some(keys) => keys@,
            None => Seq::<(usize, Key)>::empty(),
        },
        keys_wf(keys@),
        forall|key: Key| #[trigger]
            has_key(keys@, key.spec_ordinal()) <==> has_key(had, key.spec_ordinal())
                || inputs.contains(key),
    ensures
        sorted(inserted(before, command, keys)),
        forall|at: int|
            0 <= at < inserted(before, command, keys).len() ==> keys_wf(
                (#[trigger] inserted(before, command, keys)[at]).1@,
            ),
        forall|name: Seq<char>, key: Key| #[trigger]
            scheme_binds(inserted(before, command, keys), name, key) <==> scheme_binds(
                before,
                name,
                key,
            ) || (name == command && inputs.contains(key)),
{
    let after = inserted(before, command, keys);
    lemma_inserted(before, command, keys);
    crate::registry::lemma_lower_bound_splits(before, command);
    let place = crate::registry::lower_bound(before, command);
    assert forall|e: int| 0 <= e < after.len() implies keys_wf((#[trigger] after[e]).1@) by {
        if e != place {
            let from = if crate::registry::index_of(before, command) is None && e > place {
                e - 1
            } else {
                e
            };
            assert(after[e] == before[from]);
        }
    }
    assert forall|name: Seq<char>, key: Key| #[trigger]
        scheme_binds(after, name, key) <==> scheme_binds(before, name, key) || (name == command
            && inputs.contains(key)) by {
        lemma_inserted_others(before, command, keys, name);
        if name == command {
            assert(has_key(keys@, key.spec_ordinal()) <==> has_key(had, key.spec_ordinal())
                || inputs.contains(key));
            if value_at(before, command) is None {
                assert(!has_key(had, key.spec_ordinal()));
            }
        }
    }
}

impl Default for Scheme {
    fn default() -> (scheme: Self)
        ensures
            scheme.wf(),
            scheme.mapping().len() == 0,
    {
        Scheme::new()
    }
}

/// How often `name` is counted among the commands of one key.
pub open spec fn tally(commands: Seq<(Seq<char>, usize)>, name: Seq<char>) -> nat {
    match value_at(commands, name) {
        Some(count) => count as nat,
        None => 0,
    }
}

/// How many schemes map `key` to `command`, as the mapping counts them.
pub open spec fn count_of(
    mapping: Seq<(usize, Registry<usize>)>,
    key: Key,
    command: Seq<char>,
) -> nat {
    match value_of(mapping, key.spec_ordinal()) {
        Some(commands) => tally(commands@, command),
        None => 0,
    }
}

/// The commands of one key stand in the order of their names, and none is
/// counted zero times.
pub open spec fn counts_wf(commands: Seq<(Seq<char>, usize)>) -> bool {
    &&& sorted(commands)
    &&& forall|k: int| 0 <= k < commands.len() ==> (#[trigger] commands[k]).1 >= 1
}

/// The keys stand in their order, and the commands of each are well formed.
pub open spec fn mapping_wf(mapping: Seq<(usize, Registry<usize>)>) -> bool {
    &&& increasing(mapping)
    &&& forall|at: int| 0 <= at < mapping.len() ==> counts_wf((#[trigger] mapping[at]).1@)
}

/// Counts `command` once more among the commands of one key
#[verifier::rlimit(50)]
pub fn raise(commands: &mut Registry<usize>, command: &str)
    requires
        counts_wf(old(commands)@),
        tally(old(commands)@, command@) < usize::MAX,
    ensures
        counts_wf(final(commands)@),
        forall|name: Seq<char>| #[trigger]
            tally(final(commands)@, name) == tally(old(commands)@, name) + if name == command@ {
                1nat
            } else {
                0nat
            },
{
    let ghost had = commands@;
    let count: usize = match commands.get(command) {
        Some(count) => *count,
        None => 0,
    };
    let _ = commands.insert(command.to_owned(), count + 1);
    proof {
        lemma_inserted(had, command@, (count + 1) as usize);
        crate::registry::lemma_lower_bound_splits(had, command@);
        let now = commands@;
        let place = crate::registry::lower_bound(had, command@);
        assert forall|k: int| 0 <= k < now.len() implies (#[trigger] now[k]).1 >= 1 by {
            if k != place {
                let from = if crate::registry::index_of(had, command@) is None && k > place {
                    k - 1
                } else {
                    k
                };
                assert(now[k] == had[from]);
            }
        }
        assert forall|name: Seq<char>| #[trigger]
            tally(now, name) == tally(had, name) + if name == command@ {
                1nat
            } else {
                0nat
            } by {
            lemma_inserted_others(had, command@, (count + 1) as usize, name);
        }
    }
}

/// Counts `command` once less among the commands of one key; a command that
/// is not counted stays so
#[verifier::rlimit(50)]
pub fn lower(commands: &mut Registry<usize>, command: &str)
    requires
        counts_wf(old(commands)@),
    ensures
        counts_wf(final(commands)@),
        forall|name: Seq<char>| #[trigger]
            tally(final(commands)@, name) == if name == command@ && tally(old(commands)@, name) > 0 {
                (tally(old(commands)@, name) - 1) as nat
            } else {
                tally(old(commands)@, name)
            },
{
    let ghost had = commands@;
    proof {
        crate::registry::lemma_lower_bound_splits(had, command@);
    }
    let count: usize = match commands.get(command) {
        Some(count) => *count,
        None => 0,
    };
    if count > 1 {
        let _ = commands.insert(command.to_owned(), count - 1);
        proof {
            lemma_inserted(had, command@, (count - 1) as usize);
            let now = commands@;
            let place = crate::registry::lower_bound(had, command@);
            assert forall|k: int| 0 <= k < now.len() implies (#[trigger] now[k]).1 >= 1 by {
                if k != place {
                    assert(now[k] == had[k]);
                }
            }
            assert forall|name: Seq<char>| #[trigger]
                tally(now, name) == if name == command@ && tally(had, name) > 0 {
                    (tally(had, name) - 1) as nat
                } else {
                    tally(had, name)
                } by {
                lemma_inserted_others(had, command@, (count - 1) as usize, name);
            }
        }
    } else if count == 1 {
        let _ = commands.remove(command);
        proof {
            lemma_removed(had, command@);
            let now = commands@;
            let place = crate::registry::lower_bound(had, command@);
            assert forall|k: int| 0 <= k < now.len() implies (#[trigger] now[k]).1 >= 1 by {
                let from = if k >= place {
                    k + 1
                } else {
                    k
                };
                assert(now[k] == had[from]);
            }
            assert forall|name: Seq<char>| #[trigger]
                tally(now, name) == if name == command@ && tally(had, name) > 0 {
                    (tally(had, name) - 1) as nat
                } else {
                    tally(had, name)
                } by {
                lemma_removed_others(had, command@, name);
            }
        }
    }
}

/// Puts the commands of one key back into the mapping.
proof fn lemma_put_counts(
    before: Seq<(usize, Registry<usize>)>,
    key: Key,
    commands: Registry<usize>,
    other: Key,
    name: Seq<char>,
)
    requires
        mapping_wf(before),
        counts_wf(commands@),
    ensures
        mapping_wf(put(before, key.spec_ordinal(), commands)),
        count_of(put(before, key.spec_ordinal(), commands), other, name) == if other == key {
            tally(commands@, name)
        } else {
            count_of(before, other, name)
        },
{
    let ordinal = key.spec_ordinal();
    let after = put(before, ordinal, commands);
    lemma_put(before, ordinal, commands, other.spec_ordinal());
    crate::table::lemma_key_bound_splits(before, ordinal);
    let bound = crate::table::key_bound(before, ordinal);
    assert forall|at: int| 0 <= at < after.len() implies counts_wf((#[trigger] after[at]).1@) by {
        if at != bound {
            let from = if crate::table::key_index(before, ordinal) is None && at > bound {
                at - 1
            } else {
                at
            };
            assert(after[at] == before[from]);
        }
    }
    if other.spec_ordinal() == ordinal {
        lemma_ordinal_injective(other, key);
    }
}

/// Takes the commands of one key out of the mapping; a key without commands
/// gets an empty collection
fn take_commands(mapping: &mut Table<Registry<usize>>, key: Key) -> (commands: Registry<usize>)
    requires
        mapping_wf(old(mapping)@),
    ensures
        final(mapping).wf(),
        final(mapping)@ == without(old(mapping)@, key.spec_ordinal()),
        counts_wf(commands@),
        forall|name: Seq<char>| #[trigger]
            tally(commands@, name) == count_of(old(mapping)@, key, name),
{
    let ghost before = mapping@;
    proof {
        lemma_without(before, key.spec_ordinal(), key.spec_ordinal());
        crate::table::lemma_key_bound_splits(before, key.spec_ordinal());
    }
    match mapping.remove(key.ordinal()) {
        Some(commands) => commands,
        None => Registry::new(),
    }
}

/// Counts one more scheme that maps `key` to `command`
#[verifier::rlimit(50)]
pub fn bind(mapping: &mut Table<Registry<usize>>, key: Key, command: &str)
    requires
        mapping_wf(old(mapping)@),
        count_of(old(mapping)@, key, command@) < usize::MAX,
    ensures
        mapping_wf(final(mapping)@),
        forall|other: Key, name: Seq<char>| #[trigger]
            count_of(final(mapping)@, other, name) == count_of(old(mapping)@, other, name) + if other
                == key && name == command@ {
                1nat
            } else {
                0nat
            },
{
    let ghost before = mapping@;
    let mut commands = take_commands(mapping, key);
    raise(&mut commands, command);
    proof {
        lemma_put_after_without(before, key.spec_ordinal(), commands);
        assert forall|other: Key, name: Seq<char>| #[trigger]
            count_of(put(before, key.spec_ordinal(), commands), other, name) == count_of(
                before,
                other,
                name,
            ) + if other == key && name == command@ {
                1nat
            } else {
                0nat
            } by {
            lemma_put_counts(before, key, commands, other, name);
        }
        lemma_put_counts(before, key, commands, key, command@);
    }
    let _ = mapping.insert(key.ordinal(), commands);
}

/// Counts one scheme less that maps `key` to `command`; a command that no
/// scheme maps the key to stays uncounted
#[verifier::rlimit(50)]
pub fn unbind(mapping: &mut Table<Registry<usize>>, key: Key, command: &str)
    requires
        mapping_wf(old(mapping)@),
    ensures
        mapping_wf(final(mapping)@),
        forall|other: Key, name: Seq<char>| #[trigger]
            count_of(final(mapping)@, other, name) == if other == key && name == command@
                && count_of(old(mapping)@, other, name) > 0 {
                (count_of(old(mapping)@, other, name) - 1) as nat
            } else {
                count_of(old(mapping)@, other, name)
            },
{
    let ghost before = mapping@;
    let mut commands = take_commands(mapping, key);
    lower(&mut commands, command);
    proof {
        lemma_put_after_without(before, key.spec_ordinal(), commands);
        assert forall|other: Key, name: Seq<char>| #[trigger]
            count_of(put(before, key.spec_ordinal(), commands), other, name) == if other == key
                && name == command@ && count_of(before, other, name) > 0 {
                (count_of(before, other, name) - 1) as nat
            } else {
                count_of(before, other, name)
            } by {
            lemma_put_counts(before, key, commands, other, name);
        }
        lemma_put_counts(before, key, commands, key, command@);
    }
    let _ = mapping.insert(key.ordinal(), commands);
}

/// The scheme maps `key` to `command` at one of its places before the key
/// `j` of the command `e`.
pub open spec fn bound_before(
    scheme: Seq<(Seq<char>, Table<Key>)>,
    e: int,
    j: int,
    command: Seq<char>,
    key: Key,
) -> bool {
    exists|a: int, b: int|
        0 <= a < scheme.len() && 0 <= b < scheme[a].1@.len() && (a < e || (a == e && b < j))
            && #[trigger] binding_at(scheme, a, b) == (command, key)
}

/// The command and the key at one place of a scheme.
pub open spec fn binding_at(scheme: Seq<(Seq<char>, Table<Key>)>, a: int, b: int) -> (
    Seq<char>,
    Key,
) {
    (scheme[a].0, scheme[a].1@[b].1)
}

/// A scheme maps a key to a command at one place only.
proof fn lemma_binding_once(scheme: Seq<(Seq<char>, Table<Key>)>, a: int, b: int, c: int, d: int)
    requires
        sorted(scheme),
        forall|at: int| 0 <= at < scheme.len() ==> keys_wf((#[trigger] scheme[at]).1@),
        0 <= a < scheme.len(),
        0 <= b < scheme[a].1@.len(),
        0 <= c < scheme.len(),
        0 <= d < scheme[c].1@.len(),
        binding_at(scheme, a, b) == binding_at(scheme, c, d),
    ensures
        a == c,
        b == d,
{
    crate::registry::lemma_index_of(scheme, scheme[a].0, a);
    crate::registry::lemma_index_of(scheme, scheme[a].0, c);
    assert(keys_wf(scheme[a].1@));
    let keys = scheme[a].1@;
    assert(keys[b].0 == keys[b].1.spec_ordinal());
    assert(keys[d].0 == keys[d].1.spec_ordinal());
    if b < d {
        assert(keys[b].0 < keys[d].0);
    }
    if d < b {
        assert(keys[d].0 < keys[b].0);
    }
}

/// Every place of a scheme lies before its end, and what lies there is what
/// the scheme maps.
proof fn lemma_bound_before_all(scheme: Seq<(Seq<char>, Table<Key>)>, command: Seq<char>, key: Key)
    requires
        sorted(scheme),
        forall|at: int| 0 <= at < scheme.len() ==> keys_wf((#[trigger] scheme[at]).1@),
    ensures
        bound_before(scheme, scheme.len() as int, 0, command, key) == scheme_binds(
            scheme,
            command,
            key,
        ),
{
    crate::registry::lemma_has_name(scheme, command);
    if bound_before(scheme, scheme.len() as int, 0, command, key) {
        let (a, b) = choose|a: int, b: int|
            0 <= a < scheme.len() && 0 <= b < scheme[a].1@.len() && (a < scheme.len() || (a
                == scheme.len() && b < 0)) && #[trigger] binding_at(scheme, a, b) == (command, key);
        crate::registry::lemma_index_of(scheme, command, a);
        assert(keys_wf(scheme[a].1@));
        assert(scheme[a].1@[b].0 == key.spec_ordinal());
    }
    if scheme_binds(scheme, command, key) {
        let a = crate::registry::index_of(scheme, command).unwrap();
        crate::registry::lemma_lower_bound_splits(scheme, command);
        let keys = scheme[a].1@;
        assert(keys_wf(keys));
        let b = choose|b: int| 0 <= b < keys.len() && (#[trigger] keys[b]).0 == key.spec_ordinal();
        assert(keys[b].0 == keys[b].1.spec_ordinal());
        lemma_ordinal_injective(keys[b].1, key);
        assert(binding_at(scheme, a, b) == (command, key));
    }
}

/// Input manager
pub struct Input {
    scheme_counter: usize,
    schemes: Table<Scheme>,
    mapping: Table<Registry<usize>>,
}

impl Input {
    /// The schemes under their identifiers, in the order in which they were
    /// added.
    pub closed spec fn schemes(&self) -> Seq<(usize, Scheme)> {
        self.schemes@
    }

    /// For every key, by its place in the order of keys, the commands that
    /// schemes map it to, each with the number of those schemes.
    pub closed spec fn mapping(&self) -> Seq<(usize, Registry<usize>)> {
        self.mapping@
    }

    /// The identifier that the next scheme gets.
    pub closed spec fn spec_next_id(&self) -> usize {
        self.scheme_counter
    }

    /// The identifier that the next scheme gets
    #[verifier::when_used_as_spec(spec_next_id)]
    pub fn next_id(&self) -> (next_id: usize)
        ensures
            next_id == self.spec_next_id(),
    {
        self.scheme_counter
    }

    /// How many schemes map `key` to `command`, as the mapping counts them.
    pub open spec fn count(&self, key: Key, command: Seq<char>) -> nat {
        count_of(self.mapping(), key, command)
    }

    /// The schemes stand in the order of their identifiers, all of which were
    /// handed out before; every scheme and the mapping are well formed.
    pub open spec fn wf(&self) -> bool {
        &&& increasing(self.schemes())
        &&& forall|at: int|
            0 <= at < self.schemes().len() ==> {
                &&& (#[trigger] self.schemes()[at]).0 < self.next_id()
                &&& self.schemes()[at].1.wf()
            }
        &&& mapping_wf(self.mapping())
        &&& forall|key: Key, command: Seq<char>| #[trigger]
            count_of(self.mapping(), key, command) <= self.next_id()
    }

    /// Creates new instance of [Input], without schemes
    pub fn new() -> (input: Input)
        ensures
            input.wf(),
            input.schemes().len() == 0,
            input.next_id() == 0,
            forall|key: Key, command: Seq<char>| #[trigger] input.count(key, command) == 0,
    {
        Input { scheme_counter: 0, schemes: Table::new(), mapping: Table::new() }
    }

    /// Adds input scheme: every key that it maps to a command is counted
    /// once more for that command. Returns the identifier under which the
    /// scheme can be removed
    #[verifier::rlimit(50)]
    pub fn add_scheme(&mut self, scheme: Scheme) -> (scheme_id: usize)
        requires
            old(self).wf(),
            scheme.wf(),
            old(self).next_id() < usize::MAX,
        ensures
            final(self).wf(),
            scheme_id == old(self).next_id(),
            final(self).next_id() == scheme_id + 1,
            final(self).schemes() == old(self).schemes().push((scheme_id, scheme)),
            forall|key: Key, command: Seq<char>| #[trigger]
                final(self).count(key, command) == old(self).count(key, command) + if scheme.binds(
                    command,
                    key,
                ) {
                    1nat
                } else {
                    0nat
                },
    {
        let ghost bindings = scheme.mapping@;
        let ghost counts = self.mapping@;
        proof {
            assert forall|key: Key, command: Seq<char>| #[trigger]
                count_of(counts, key, command) < usize::MAX by {
                assert(count_of(old(self).mapping(), key, command) <= old(self).next_id());
            }
        }
        let mut e: usize = 0;
        while e < scheme.mapping.len()
            invariant
                e <= bindings.len(),
                bindings == scheme.mapping@,
                scheme.wf(),
                self.schemes == old(self).schemes,
                self.scheme_counter == old(self).scheme_counter,
                counts == old(self).mapping@,
                mapping_wf(self.mapping@),
                forall|key: Key, command: Seq<char>| #[trigger]
                    count_of(counts, key, command) < usize::MAX,
                forall|key: Key, command: Seq<char>| #[trigger]
                    count_of(self.mapping@, key, command) == count_of(counts, key, command)
                        + if bound_before(bindings, e as int, 0, command, key) {
                        1nat
                    } else {
                        0nat
                    },
            decreases bindings.len() - e,
        {
            let (command, keys) = scheme.mapping.entry(e);
            let mut j: usize = 0;
            while j < keys.len()
                invariant
                    e < bindings.len(),
                    j <= keys@.len(),
                    bindings == scheme.mapping@,
                    scheme.wf(),
                    command@ == bindings[e as int].0,
                    *keys == bindings[e as int].1,
                    self.schemes == old(self).schemes,
                    self.scheme_counter == old(self).scheme_counter,
                    counts == old(self).mapping@,
                    mapping_wf(self.mapping@),
                    forall|key: Key, name: Seq<char>| #[trigger]
                        count_of(counts, key, name) < usize::MAX,
                    forall|key: Key, name: Seq<char>| #[trigger]
                        count_of(self.mapping@, key, name) == count_of(counts, key, name)
                            + if bound_before(bindings, e as int, j as int, name, key) {
                            1nat
                        } else {
                            0nat
                        },
                decreases keys@.len() - j,
            {
                let (_, key) = keys.entry(j);
                let ghost now = self.mapping@;
                proof {
                    if bound_before(bindings, e as int, j as int, command@, *key) {
                        let (a, b) = choose|a: int, b: int|
                            0 <= a < bindings.len() && 0 <= b < bindings[a].1@.len() && (a < e || (a
                                == e && b < j)) && #[trigger] binding_at(bindings, a, b) == (
                                command@,
                                *key,
                            );
                        lemma_binding_once(bindings, a, b, e as int, j as int);
                    }
                    assert(count_of(now, *key, command@) == count_of(counts, *key, command@));
                }
                bind(&mut self.mapping, *key, command.as_str());
                proof {
                    assert forall|other: Key, name: Seq<char>| #[trigger]
                        count_of(self.mapping@, other, name) == count_of(counts, other, name)
                            + if bound_before(bindings, e as int, j + 1, name, other) {
                            1nat
                        } else {
                            0nat
                        } by {
                        assert(count_of(self.mapping@, other, name) == count_of(now, other, name)
                            + if other == *key && name == command@ {
                            1nat
                        } else {
                            0nat
                        });
                        if bound_before(bindings, e as int, j as int, name, other) {
                            let (a, b) = choose|a: int, b: int|
                                0 <= a < bindings.len() && 0 <= b < bindings[a].1@.len() && (a < e
                                    || (a == e && b < j)) && #[trigger] binding_at(bindings, a, b)
                                    == (name, other);
                            assert(binding_at(bindings, a, b) == (name, other));
                            if other == *key && name == command@ {
                                lemma_binding_once(bindings, a, b, e as int, j as int);
                            }
                        }
                        if other == *key && name == command@ {
                            assert(binding_at(bindings, e as int, j as int) == (name, other));
                        }
                        if bound_before(bindings, e as int, j + 1, name, other) {
                            let (a, b) = choose|a: int, b: int|
                                0 <= a < bindings.len() && 0 <= b < bindings[a].1@.len() && (a < e
                                    || (a == e && b < j + 1)) && #[trigger] binding_at(
                                    bindings,
                                    a,
                                    b,
                                ) == (name, other);
                            if !(a == e && b == j) {
                                assert(binding_at(bindings, a, b) == (name, other));
                            }
                        }
                    }
                }
                j += 1;
            }
            proof {
                assert forall|key: Key, name: Seq<char>|
                    bound_before(bindings, e as int, j as int, name, key) == #[trigger] bound_before(
                        bindings,
                        e + 1,
                        0,
                        name,
                        key,
                    ) by {
                    if bound_before(bindings, e as int, j as int, name, key) {
                        let (a, b) = choose|a: int, b: int|
                            0 <= a < bindings.len() && 0 <= b < bindings[a].1@.len() && (a < e || (a
                                == e && b < j)) && #[trigger] binding_at(bindings, a, b) == (
                                name,
                                key,
                            );
                        assert(binding_at(bindings, a, b) == (name, key));
                    }
                    if bound_before(bindings, e + 1, 0, name, key) {
                        let (a, b) = choose|a: int, b: int|
                            0 <= a < bindings.len() && 0 <= b < bindings[a].1@.len() && (a < e + 1
                                || (a == e + 1 && b < 0)) && #[trigger] binding_at(bindings, a, b)
                                == (name, key);
                        assert(binding_at(bindings, a, b) == (name, key));
                    }
                }
            }
            e += 1;
        }
        proof {
            assert forall|key: Key, command: Seq<char>| #[trigger]
                count_of(self.mapping@, key, command) == count_of(counts, key, command)
                    + if scheme.binds(command, key) {
                    1nat
                } else {
                    0nat
                } by {
                lemma_bound_before_all(bindings, command, key);
                assert(count_of(self.mapping@, key, command) == count_of(counts, key, command)
                    + if bound_before(bindings, e as int, 0, command, key) {
                    1nat
                } else {
                    0nat
                });
            }
        }
        let scheme_id = self.scheme_counter;
        self.scheme_counter = self.scheme_counter + 1;
        self.schemes.append(scheme_id, scheme);
        scheme_id
    }
}

/// The commands that schemes map `key` to, in the order of their names.
pub open spec fn bound_commands(
    mapping: Seq<(usize, Registry<usize>)>,
    key: Key,
) -> Seq<(Seq<char>, usize)> {
    match value_of(mapping, key.spec_ordinal()) {
        Some(commands) => commands@,
        None => seq![],
    }
}

impl Input {
    /// Removes input scheme: every key that it maps to a command is counted
    /// once less for that command. Where no scheme has the identifier,
    /// nothing changes
    #[verifier::rlimit(50)]
    pub fn remove_scheme(&mut self, scheme_id: usize)
        requires
            old(self).wf(),
        ensures
            final(self).wf(),
            final(self).next_id() == old(self).next_id(),
            final(self).schemes() == without(old(self).schemes(), scheme_id),
            match value_of(old(self).schemes(), scheme_id) {
                Some(scheme) => forall|key: Key, command: Seq<char>| #[trigger]
                    final(self).count(key, command) == if scheme.binds(command, key) && old(
                        self,
                    ).count(key, command) > 0 {
                        (old(self).count(key, command) - 1) as nat
                    } else {
                        old(self).count(key, command)
                    },
                None => final(self).mapping() == old(self).mapping(),
            },
    {
        let ghost before = self.schemes@;
        let ghost counts = self.mapping@;
        proof {
            lemma_without(before, scheme_id, scheme_id);
            crate::table::lemma_key_bound_splits(before, scheme_id);
        }
        let taken = self.schemes.remove(scheme_id);
        proof {
            let bound = crate::table::key_bound(before, scheme_id);
            assert forall|at: int| 0 <= at < self.schemes@.len() implies {
                &&& (#[trigger] self.schemes@[at]).0 < self.scheme_counter
                &&& self.schemes@[at].1.wf()
            } by {
                let from = if crate::table::key_index(before, scheme_id) is Some && at >= bound {
                    at + 1
                } else {
                    at
                };
                assert(self.schemes@[at] == before[from]);
            }
        }
        match taken {
            Some(scheme) => {
                let ghost bindings = scheme.mapping@;
                let mut e: usize = 0;
                while e < scheme.mapping.len()
                    invariant
                        e <= bindings.len(),
                        bindings == scheme.mapping@,
                        scheme.wf(),
                        self.schemes@ == without(before, scheme_id),
                        self.scheme_counter == old(self).scheme_counter,
                        counts == old(self).mapping@,
                        mapping_wf(self.mapping@),
                        forall|key: Key, command: Seq<char>| #[trigger]
                            count_of(self.mapping@, key, command) == if bound_before(
                                bindings,
                                e as int,
                                0,
                                command,
                                key,
                            ) && count_of(counts, key, command) > 0 {
                                (count_of(counts, key, command) - 1) as nat
                            } else {
                                count_of(counts, key, command)
                            },
                    decreases bindings.len() - e,
                {
                    let (command, keys) = scheme.mapping.entry(e);
                    let mut j: usize = 0;
                    while j < keys.len()
                        invariant
                            e < bindings.len(),
                            j <= keys@.len(),
                            bindings == scheme.mapping@,
                            scheme.wf(),
                            command@ == bindings[e as int].0,
                            *keys == bindings[e as int].1,
                            self.schemes@ == without(before, scheme_id),
                            self.scheme_counter == old(self).scheme_counter,
                            counts == old(self).mapping@,
                            mapping_wf(self.mapping@),
                            forall|key: Key, name: Seq<char>| #[trigger]
                                count_of(self.mapping@, key, name) == if bound_before(
                                    bindings,
                                    e as int,
                                    j as int,
                                    name,
                                    key,
                                ) && count_of(counts, key, name) > 0 {
                                    (count_of(counts, key, name) - 1) as nat
                                } else {
                                    count_of(counts, key, name)
                                },
                        decreases keys@.len() - j,
                    {
                        let (_, key) = keys.entry(j);
                        let ghost now = self.mapping@;
                        proof {
                            if bound_before(bindings, e as int, j as int, command@, *key) {
                                let (a, b) = choose|a: int, b: int|
                                    0 <= a < bindings.len() && 0 <= b < bindings[a].1@.len() && (a
                                        < e || (a == e && b < j)) && #[trigger] binding_at(
                                        bindings,
                                        a,
                                        b,
                                    ) == (command@, *key);
                                lemma_binding_once(bindings, a, b, e as int, j as int);
                            }
                            assert(count_of(now, *key, command@) == count_of(
                                counts,
                                *key,
                                command@,
                            ));
                        }
                        unbind(&mut self.mapping, *key, command.as_str());
                        proof {
                            assert forall|other: Key, name: Seq<char>| #[trigger]
                                count_of(self.mapping@, other, name) == if bound_before(
                                    bindings,
                                    e as int,
                                    j + 1,
                                    name,
                                    other,
                                ) && count_of(counts, other, name) > 0 {
                                    (count_of(counts, other, name) - 1) as nat
                                } else {
                                    count_of(counts, other, name)
                                } by {
                                assert(count_of(self.mapping@, other, name) == if other == *key
                                    && name == command@ && count_of(now, other, name) > 0 {
                                    (count_of(now, other, name) - 1) as nat
                                } else {
                                    count_of(now, other, name)
                                });
                                if bound_before(bindings, e as int, j as int, name, other) {
                                    let (a, b) = choose|a: int, b: int|
                                        0 <= a < bindings.len() && 0 <= b < bindings[a].1@.len()
                                            && (a < e || (a == e && b < j))
                                            && #[trigger] binding_at(bindings, a, b) == (
                                            name,
                                            other,
                                        );
                                    assert(binding_at(bindings, a, b) == (name, other));
                                    if other == *key && name == command@ {
                                        lemma_binding_once(bindings, a, b, e as int, j as int);
                                    }
                                }
                                if other == *key && name == command@ {
                                    assert(binding_at(bindings, e as int, j as int) == (
                                        name,
                                        other,
                                    ));
                                }
                                if bound_before(bindings, e as int, j + 1, name, other) {
                                    let (a, b) = choose|a: int, b: int|
                                        0 <= a < bindings.len() && 0 <= b < bindings[a].1@.len()
                                            && (a < e || (a == e && b < j + 1))
                                            && #[trigger] binding_at(bindings, a, b) == (
                                            name,
                                            other,
                                        );
                                    if !(a == e && b == j) {
                                        assert(binding_at(bindings, a, b) == (name, other));
                                    }
                                }
                            }
                        }
                        j += 1;
                    }
                    proof {
                        assert forall|key: Key, name: Seq<char>|
                            bound_before(bindings, e as int, j as int, name, key)
                                == #[trigger] bound_before(bindings, e + 1, 0, name, key) by {
                            if bound_before(bindings, e as int, j as int, name, key) {
                                let (a, b) = choose|a: int, b: int|
                                    0 <= a < bindings.len() && 0 <= b < bindings[a].1@.len() && (a
                                        < e || (a == e && b < j)) && #[trigger] binding_at(
                                        bindings,
                                        a,
                                        b,
                                    ) == (name, key);
                                assert(binding_at(bindings, a, b) == (name, key));
                            }
                            if bound_before(bindings, e + 1, 0, name, key) {
                                let (a, b) = choose|a: int, b: int|
                                    0 <= a < bindings.len() && 0 <= b < bindings[a].1@.len() && (a
                                        < e + 1 || (a == e + 1 && b < 0))
                                        && #[trigger] binding_at(bindings, a, b) == (name, key);
                                assert(binding_at(bindings, a, b) == (name, key));
                            }
                        }
                    }
                    e += 1;
                }
                proof {
                    assert forall|key: Key, command: Seq<char>| #[trigger]
                        count_of(self.mapping@, key, command) == if scheme.binds(command, key)
                            && count_of(counts, key, command) > 0 {
                            (count_of(counts, key, command) - 1) as nat
                        } else {
                            count_of(counts, key, command)
                        } by {
                        lemma_bound_before_all(bindings, command, key);
                        assert(count_of(self.mapping@, key, command) == if bound_before(
                            bindings,
                            e as int,
                            0,
                            command,
                            key,
                        ) && count_of(counts, key, command) > 0 {
                            (count_of(counts, key, command) - 1) as nat
                        } else {
                            count_of(counts, key, command)
                        });
                    }
                }
            },
            None => {},
        }
    }

    /// Dispatches key state: invokes, in the order of their names, the
    /// commands that schemes map the key to, each with the key and its state
    /// as the one argument. Returns what every invocation came to
    pub fn dispatch<C: Command>(&self, key: Key, state: State, commands: &Commands<C>) -> (outcomes:
        Vec<Option<usize>>)
        requires
            self.wf(),
            commands.wf(),
            forall|name: Seq<char>, k: int|
                0 <= k < commands_of(commands.commands(), name).len() ==> (#[trigger] commands_of(
                    commands.commands(),
                    name,
                )[k]).1.accepts(seq![Arg::Input(key, state)]),
        ensures
            outcomes@.len() == bound_commands(self.mapping(), key).len(),
            forall|at: int|
                0 <= at < outcomes@.len() ==> invoked(
                    commands_of(commands.commands(), bound_commands(self.mapping(), key)[at].0),
                    seq![Arg::Input(key, state)],
                    #[trigger] outcomes@[at],
                ),
    {
        let mut outcomes: Vec<Option<usize>> = Vec::new();
        let mut args: Vec<Arg> = Vec::new();
        args.push(Arg::Input(key, state));
        assert(args@ =~= seq![Arg::Input(key, state)]);
        match self.mapping.get(key.ordinal()) {
            Some(names) => {
                let mut at: usize = 0;
                while at < names.len()
                    invariant
                        at <= names@.len(),
                        names@ == bound_commands(self.mapping(), key),
                        commands.wf(),
                        args@ == seq![Arg::Input(key, state)],
                        forall|name: Seq<char>, k: int|
                            0 <= k < commands_of(commands.commands(), name).len() ==> (
                            #[trigger] commands_of(commands.commands(), name)[k]).1.accepts(
                                seq![Arg::Input(key, state)],
                            ),
                        outcomes@.len() == at,
                        forall|done: int|
                            0 <= done < at ==> invoked(
                                commands_of(commands.commands(), names@[done].0),
                                seq![Arg::Input(key, state)],
                                #[trigger] outcomes@[done],
                            ),
                    decreases names@.len() - at,
                {
                    let (name, _) = names.entry(at);
                    let outcome = commands.invoke(name.as_str(), args.as_slice());
                    outcomes.push(outcome);
                    at += 1;
                }
            },
            None => {},
        }
        outcomes
    }
}

/// A scheme that is added and removed again leaves every count as it was.
pub proof fn law_scheme_round_trip(
    before: Input,
    added: Input,
    removed: Input,
    scheme: Scheme,
    key: Key,
    command: Seq<char>,
)
    requires
        added.count(key, command) == before.count(key, command) + if scheme.binds(command, key) {
            1nat
        } else {
            0nat
        },
        removed.count(key, command) == if scheme.binds(command, key) && added.count(key, command)
            > 0 {
            (added.count(key, command) - 1) as nat
        } else {
            added.count(key, command)
        },
    ensures
        removed.count(key, command) == before.count(key, command),
{
}

} // verus!
