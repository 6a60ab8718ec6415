//! Notifications about the entity store, and their delivery to handlers.

use vstd::prelude::*;
use crate::channel;
use crate::ecs::EntityId;
use crate::table::{increasing, lemma_without, without, Table};

verus! {

/// Enumeration of possible events
#[derive(Clone, Copy, Debug, PartialEq, Eq, Structural)]
#[non_exhaustive]
pub enum Event {
    /// Entity was created
    EntityCreated(EntityId),
    /// Entity was destroyed
    EntityDestroyed(EntityId),
}

/// Event sender
pub struct Sender {
    tx: std::sync::mpsc::Sender<Event>,
}

impl Sender {
    /// The sending half of the channel that the sender puts its events into.
    pub closed spec fn link(&self) -> std::sync::mpsc::Sender<Event> {
        self.tx
    }

    /// Sends event and does not wait: it is handed to the handlers when the
    /// events are next delivered, or dropped if nobody delivers them any more
    pub fn send(&self, event: Event) {
        let _ = channel::put(&self.tx, event);
    }

    /// Sends events in their order
    pub fn send_all(&self, events: &Vec<Event>) {
        let mut at: usize = 0;
        while at < events.len()
            invariant
                at <= events@.len(),
            decreases events@.len() - at,
        {
            self.send(events[at]);
            at += 1;
        }
    }

    /// Another sender for the same events: its link is a clone of this
    /// sender's link
    pub fn duplicate(&self) -> (copy: Sender)
        ensures
            cloned(self.link(), copy.link()),
    {
        Sender { tx: self.tx.clone() }
    }
}

/// Every handler can be called with every event.
pub open spec fn handlers_total<H: Fn(&Event)>(handlers: Seq<(usize, H)>) -> bool {
    forall|at: int, event: Event|
        0 <= at < handlers.len() ==> #[trigger] call_requires(handlers[at].1, (&event,))
}

/// Every handler was called with every event.
pub open spec fn all_handled<H: Fn(&Event)>(handlers: Seq<(usize, H)>, events: Seq<Event>) -> bool {
    forall|at: int, k: int|
        0 <= at < handlers.len() && 0 <= k < events.len() ==> #[trigger] call_ensures(
            handlers[at].1,
            (&events[k],),
            (),
        )
}

/// Hands every event, in turn, to every handler, in the order of the
/// handlers' identifiers
pub fn deliver<H: Fn(&Event)>(handlers: &Table<H>, events: &Vec<Event>)
    requires
        handlers_total(handlers@),
    ensures
        all_handled(handlers@, events@),
{
    let mut k: usize = 0;
    while k < events.len()
        invariant
            k <= events@.len(),
            handlers_total(handlers@),
            all_handled(handlers@, events@.take(k as int)),
        decreases events@.len() - k,
    {
        let mut at: usize = 0;
        while at < handlers.len()
            invariant
                k < events@.len(),
                at <= handlers@.len(),
                handlers_total(handlers@),
                all_handled(handlers@, events@.take(k as int)),
                forall|done: int|
                    0 <= done < at ==> #[trigger] call_ensures(
                        handlers@[done].1,
                        (&events@[k as int],),
                        (),
                    ),
            decreases handlers@.len() - at,
        {
            let (_, handler) = handlers.entry(at);
            handler(&events[k]);
            at += 1;
        }
        proof {
            let now = events@.take(k + 1);
            assert forall|at: int, j: int|
                0 <= at < handlers@.len() && 0 <= j < now.len() implies #[trigger] call_ensures(
                handlers@[at].1,
                (&now[j],),
                (),
            ) by {
                if j < k {
                    assert(now[j] == events@.take(k as int)[j]);
                }
            }
        }
        k += 1;
    }
    proof {
        assert(events@.take(events@.len() as int) =~= events@);
    }
}

/// Events infrastructure
pub struct Events<H> {
    handler_counter: usize,
    handlers: Table<H>,
    tx: std::sync::mpsc::Sender<Event>,
    rx: std::sync::mpsc::Receiver<Event>,
}

impl<H: Fn(&Event)> Events<H> {
    /// The handlers under their identifiers, in the order in which they were
    /// added.
    pub closed spec fn handlers(&self) -> Seq<(usize, H)> {
        self.handlers@
    }

    /// The sending half of the channel that the events are delivered from,
    /// of which every sender of these events holds a clone.
    pub closed spec fn link(&self) -> std::sync::mpsc::Sender<Event> {
        self.tx
    }

    /// The identifier that the next handler gets.
    pub closed spec fn spec_next_id(&self) -> usize {
        self.handler_counter
    }

    /// The identifier that the next handler gets
    #[verifier::when_used_as_spec(spec_next_id)]
    pub fn next_id(&self) -> (next_id: usize)
        ensures
            next_id == self.spec_next_id(),
    {
        self.handler_counter
    }

    /// The handlers stand in the order of their identifiers, all of which
    /// were handed out before, and each can be called with every event.
    pub open spec fn wf(&self) -> bool {
        &&& increasing(self.handlers())
        &&& forall|at: int|
            0 <= at < self.handlers().len() ==> (#[trigger] self.handlers()[at]).0 < self.next_id()
        &&& handlers_total(self.handlers())
    }

    /// Creates new instance of [Events], without handlers
    pub fn new() -> (events: Self)
        ensures
            events.wf(),
            events.handlers().len() == 0,
            events.next_id() == 0,
    {
        let (tx, rx) = channel::open();
        Events { handler_counter: 0, handlers: Table::new(), tx, rx }
    }

    /// Gets instance of [Sender]: its link is a clone of the sending half of
    /// the channel that the events are delivered from
    pub fn get_sender(&self) -> (sender: Sender)
        ensures
            cloned(self.link(), sender.link()),
    {
        Sender { tx: self.tx.clone() }
    }

    /// Adds handler delegate behind those that are there and returns the
    /// identifier under which it can be removed
    pub fn add_handler(&mut self, delegate: H) -> (handler_id: usize)
        requires
            old(self).wf(),
            old(self).next_id() < usize::MAX,
            forall|event: Event| call_requires(delegate, (&event,)),
        ensures
            final(self).wf(),
            handler_id == old(self).next_id(),
            final(self).next_id() == handler_id + 1,
            final(self).handlers() == old(self).handlers().push((handler_id, delegate)),
    {
        let handler_id = self.handler_counter;
        self.handler_counter = self.handler_counter + 1;
        self.handlers.append(handler_id, delegate);
        handler_id
    }

    /// Removes the handler delegate with the identifier; where there is none,
    /// nothing changes
    pub fn remove_handler(&mut self, handler_id: usize)
        requires
            old(self).wf(),
        ensures
            final(self).wf(),
            final(self).next_id() == old(self).next_id(),
            final(self).handlers() == without(old(self).handlers(), handler_id),
    {
        proof {
            lemma_without(self.handlers@, handler_id, handler_id);
            crate::table::lemma_key_bound_splits(self.handlers@, handler_id);
        }
        let ghost before = self.handlers@;
        let _ = self.handlers.remove(handler_id);
        proof {
            let bound = crate::table::key_bound(before, handler_id);
            assert forall|at: int| 0 <= at < self.handlers@.len() implies (
            #[trigger] self.handlers@[at]).0 < self.handler_counter && forall|event: Event| #[trigger]
                call_requires(self.handlers@[at].1, (&event,)) by {
                let from = if crate::table::key_index(before, handler_id) is Some && at >= bound {
                    at + 1
                } else {
                    at
                };
                assert(self.handlers@[at] == before[from]);
                assert(before[from].0 < self.handler_counter);
                assert forall|event: Event| #[trigger]
                    call_requires(self.handlers@[at].1, (&event,)) by {
                    assert(call_requires(before[from].1, (&event,)));
                }
            }
        }
    }

    /// Takes the events that are pending and hands each of them to every
    /// handler. Returns the events, in the order in which they were handled
    pub fn dispatch(&self) -> (events: Vec<Event>)
        requires
            self.wf(),
        ensures
            all_handled(self.handlers(), events@),
    {
        let events = channel::pending(&self.rx);
        deliver(&self.handlers, &events);
        events
    }
}

impl<H: Fn(&Event)> Default for Events<H> {
    fn default() -> (events: Self)
        ensures
            events.wf(),
            events.handlers().len() == 0,
            events.next_id() == 0,
    {
        Events::new()
    }
}

/// One round of the events worker: delivers what is pending
pub fn worker_func<H: Fn(&Event)>(events: &Events<H>) -> (delivered: Vec<Event>)
    requires
        events.wf(),
    ensures
        all_handled(events.handlers(), delivered@),
{
    events.dispatch()
}

} // verus!
