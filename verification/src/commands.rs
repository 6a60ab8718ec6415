//! Named commands.
//!
//! Any number of commands can be registered under one name. Invoking the name
//! runs them in the order in which they were registered, until one of them
//! answers `false`.

use vstd::prelude::*;
use crate::input::{Key, State};
use crate::registry::{
    index_of, inserted, lemma_inserted, lemma_inserted_after_removed, lemma_lower_bound_splits,
    lower_bound, sorted, value_at, Registry,
};
use crate::table::{
    increasing, key_bound, key_index, lemma_key_bound_splits, lemma_without, without, Table,
};

verus! {

/// Enumeration of possible command arguments
#[derive(Clone, Copy, Debug, PartialEq, Eq, Structural)]
pub enum Arg {
    /// Argument is an input key
    Key(Key),
    /// Argument is an input key with its state
    Input(Key, State),
}

impl Arg {
    /// The key and its state, where the argument holds both
    pub fn to_input(&self) -> (input: Option<(Key, State)>)
        ensures
            input == match *self {
                Arg::Input(key, state) => Some((key, state)),
                Arg::Key(_) => None::<(Key, State)>,
            },
    {
        match self {
            Arg::Input(key, state) => Some((*key, *state)),
            Arg::Key(_) => None,
        }
    }
}

impl From<Key> for Arg {
    fn from(value: Key) -> (arg: Self)
        ensures
            arg == Arg::Key(value),
    {
        Arg::Key(value)
    }
}

impl vstd::std_specs::convert::FromSpecImpl<Key> for Arg {
    open spec fn obeys_from_spec() -> bool {
        true
    }

    open spec fn from_spec(value: Key) -> Self {
        Arg::Key(value)
    }
}

/// Trait of a command
pub trait Command {
    /// The command can be invoked with these arguments. A command that does
    /// not say otherwise can be invoked with any.
    open spec fn accepts(&self, args: Seq<Arg>) -> bool {
        true
    }

    /// `result` is an answer that the command may give to these arguments.
    /// Of a command that does not say otherwise either answer is to be
    /// expected.
    open spec fn answers(&self, args: Seq<Arg>, result: bool) -> bool {
        true
    }

    /// Invokes command with specified list of arguments. The answer says
    /// whether the commands behind it are to run
    fn invoke(&self, args: &[Arg]) -> (result: bool)
        requires
            self.accepts(args@),
        ensures
            self.answers(args@, result),
    ;
}

/// Stateful [Command] implementation
pub struct StatefulCommand<S, F> {
    state: S,
    delegate: F,
}

impl<S, F: Fn(&[Arg], &S) -> bool> StatefulCommand<S, F> {
    /// The state that the command hands to its function.
    pub closed spec fn state(&self) -> S {
        self.state
    }

    /// The function that the command calls.
    pub closed spec fn delegate(&self) -> F {
        self.delegate
    }

    /// Creates new instance of [StatefulCommand] with some predefined state
    pub fn new(state: S, delegate: F) -> (command: StatefulCommand<S, F>)
        ensures
            command.state() == state,
            command.delegate() == delegate,
    {
        StatefulCommand { state, delegate }
    }
}

impl<S, F: Fn(&[Arg], &S) -> bool> Command for StatefulCommand<S, F> {
    open spec fn accepts(&self, args: Seq<Arg>) -> bool {
        forall|slice: &[Arg]| slice@ == args ==> call_requires(
            self.delegate(),
            (slice, &self.state()),
        )
    }

    open spec fn answers(&self, args: Seq<Arg>, result: bool) -> bool {
        exists|slice: &[Arg]| slice@ == args && call_ensures(
            self.delegate(),
            (slice, &self.state()),
            result,
        )
    }

    fn invoke(&self, args: &[Arg]) -> (result: bool) {
        (self.delegate)(args, &self.state)
    }
}

/// Command identifier type alias
pub type CommandId = usize;

/// Command registration: what it takes to remove the command again
#[derive(Debug)]
pub struct Registration {
    /// The name under which the command stands
    pub name: String,
    /// The identifier that the command got
    pub command_id: CommandId,
}

/// The commands under `name`, in the order in which they run.
pub open spec fn commands_of<C>(
    commands: Seq<(Seq<char>, Table<C>)>,
    name: Seq<char>,
) -> Seq<(CommandId, C)> {
    match value_at(commands, name) {
        Some(list) => list@,
        None => seq![],
    }
}

/// `stopped` is an outcome of invoking the commands in turn: the place of the
/// first that answered `false`, with only `true` answers before it, or no
/// place when all answered `true`.
pub open spec fn invoked<C: Command>(
    commands: Seq<(CommandId, C)>,
    args: Seq<Arg>,
    stopped: Option<usize>,
) -> bool {
    match stopped {
        Some(at) => {
            &&& at < commands.len()
            &&& commands[at as int].1.answers(args, false)
            &&& forall|k: int| 0 <= k < at ==> (#[trigger] commands[k]).1.answers(args, true)
        },
        None => forall|k: int|
            0 <= k < commands.len() ==> (#[trigger] commands[k]).1.answers(args, true),
    }
}

/// Every list of commands is in the order of the identifiers, all of which
/// are below `next_id`.
pub open spec fn lists_wf<C>(commands: Seq<(Seq<char>, Table<C>)>, next_id: CommandId) -> bool {
    forall|at: int|
        0 <= at < commands.len() ==> {
            &&& increasing((#[trigger] commands[at]).1@)
            &&& forall|k: int|
                0 <= k < commands[at].1@.len() ==> (#[trigger] commands[at].1@[k]).0 < next_id
        }
}

/// Putting a well-formed list under a name keeps the lists well formed.
proof fn lemma_entries_kept<C>(
    before: Seq<(Seq<char>, Table<C>)>,
    name: Seq<char>,
    list: Table<C>,
    next_id: CommandId,
)
    requires
        sorted(before),
        exists|lower: CommandId| lower <= next_id && #[trigger] lists_wf(before, lower),
        increasing(list@),
        forall|k: int| 0 <= k < list@.len() ==> (#[trigger] list@[k]).0 < next_id,
    ensures
        sorted(inserted(before, name, list)),
        lists_wf(inserted(before, name, list), next_id),
{
    let lower = choose|lower: CommandId| lower <= next_id && #[trigger] lists_wf(before, lower);
    let after = inserted(before, name, list);
    lemma_inserted(before, name, list);
    lemma_lower_bound_splits(before, name);
    let place = lower_bound(before, name);
    assert forall|at: int| 0 <= at < after.len() implies {
        &&& increasing((#[trigger] after[at]).1@)
        &&& forall|k: int| 0 <= k < after[at].1@.len() ==> (#[trigger] after[at].1@[k]).0 < next_id
    } by {
        if at != place {
            let from = if index_of(before, name) is None && at > place {
                at - 1
            } else {
                at
            };
            assert(after[at] == before[from]);
        }
    }
}

/// Commands infrastructure
pub struct Commands<C> {
    commands: Registry<Table<C>>,
    id_counter: CommandId,
}

impl<C: Command> Commands<C> {
    /// The names with their commands, in the order of the names.
    pub closed spec fn commands(&self) -> Seq<(Seq<char>, Table<C>)> {
        self.commands@
    }

    /// The identifier that the next command gets.
    pub closed spec fn spec_next_id(&self) -> CommandId {
        self.id_counter
    }

    /// The identifier that the next command gets
    #[verifier::when_used_as_spec(spec_next_id)]
    pub fn next_id(&self) -> (next_id: CommandId)
        ensures
            next_id == self.spec_next_id(),
    {
        self.id_counter
    }

    /// The names are sorted, and under every name the commands stand in the
    /// order of their identifiers, all of which were handed out before.
    pub open spec fn wf(&self) -> bool {
        &&& sorted(self.commands())
        &&& lists_wf(self.commands(), self.next_id())
    }

    /// Creates new instance of [Commands], without commands
    pub fn new() -> (commands: Self)
        ensures
            commands.wf(),
            commands.commands().len() == 0,
            commands.next_id() == 0,
    {
        Commands { commands: Registry::new(), id_counter: 0 }
    }

    /// Adds command behind the commands that stand under `name`
    #[verifier::rlimit(50)]
    pub fn add(&mut self, name: &str, command: C) -> (registration: Registration)
        requires
            old(self).wf(),
            old(self).next_id() < usize::MAX,
        ensures
            final(self).wf(),
            registration.name@ == name@,
            registration.command_id == old(self).next_id(),
            final(self).next_id() == old(self).next_id() + 1,
            exists|list: Table<C>|
                {
                    &&& list@ == commands_of(old(self).commands(), name@).push(
                        (registration.command_id, command),
                    )
                    &&& #[trigger] inserted(old(self).commands(), name@, list)
                        == final(self).commands()
                },
    {
        let command_id = self.id_counter;
        self.id_counter = self.id_counter + 1;
        let ghost before = self.commands@;
        let mut list = match self.commands.remove(name) {
            Some(list) => list,
            None => Table::new(),
        };
        let ghost previous = list@;
        proof {
            lemma_lower_bound_splits(before, name@);
            assert(previous =~= commands_of(before, name@));
        }
        list.append(command_id, command);
        proof {
            lemma_inserted_after_removed(before, name@, list);
            lemma_entries_kept(before, name@, list, self.id_counter);
        }
        let _ = self.commands.insert(name.to_owned(), list);
        Registration { name: name.to_owned(), command_id }
    }

    /// Removes the command of a registration; where it is gone already,
    /// nothing changes
    #[verifier::rlimit(50)]
    pub fn remove(&mut self, registration: &Registration)
        requires
            old(self).wf(),
        ensures
            final(self).wf(),
            final(self).next_id() == old(self).next_id(),
            match value_at(old(self).commands(), registration.name@) {
                Some(list) => exists|left: Table<C>|
                    {
                        &&& left@ == without(list@, registration.command_id)
                        &&& #[trigger] inserted(old(self).commands(), registration.name@, left)
                            == final(self).commands()
                    },
                None => final(self).commands() == old(self).commands(),
            },
    {
        let ghost before = self.commands@;
        proof {
            lemma_lower_bound_splits(before, registration.name@);
        }
        match self.commands.remove(registration.name.as_str()) {
            Some(list) => {
                let mut list = list;
                let ghost previous = list@;
                proof {
                    lemma_without(previous, registration.command_id, registration.command_id);
                    lemma_key_bound_splits(previous, registration.command_id);
                }
                let _ = list.remove(registration.command_id);
                proof {
                    let bound = key_bound(previous, registration.command_id);
                    assert forall|k: int| 0 <= k < list@.len() implies (#[trigger] list@[k]).0
                        < self.id_counter by {
                        let from = if key_index(previous, registration.command_id) is Some && k
                            >= bound {
                            k + 1
                        } else {
                            k
                        };
                        assert(list@[k] == previous[from]);
                    }
                    lemma_inserted_after_removed(before, registration.name@, list);
                    lemma_entries_kept(before, registration.name@, list, self.id_counter);
                }
                let _ = self.commands.insert(registration.name.clone(), list);
            },
            None => {},
        }
    }

    /// Invokes the commands under `name` in the order in which they were
    /// added, until one answers `false`. Returns the place of that command
    /// among those under the name, if there was one
    pub fn invoke(&self, name: &str, args: &[Arg]) -> (stopped: Option<usize>)
        requires
            self.wf(),
            forall|k: int|
                0 <= k < commands_of(self.commands(), name@).len() ==> (#[trigger] commands_of(
                    self.commands(),
                    name@,
                )[k]).1.accepts(args@),
        ensures
            invoked(commands_of(self.commands(), name@), args@, stopped),
    {
        match self.commands.get(name) {
            Some(list) => {
                let mut at: usize = 0;
                while at < list.len()
                    invariant
                        at <= list@.len(),
                        list@ == commands_of(self.commands(), name@),
                        forall|k: int| 0 <= k < list@.len() ==> (#[trigger] list@[k]).1.accepts(args@),
                        forall|k: int| 0 <= k < at ==> (#[trigger] list@[k]).1.answers(args@, true),
                    decreases list@.len() - at,
                {
                    let (_, command) = list.entry(at);
                    if !command.invoke(args) {
                        return Some(at);
                    }
                    at += 1;
                }
                None
            },
            None => None,
        }
    }
}

} // verus!
