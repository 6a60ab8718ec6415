//! Messages and their dispatch to handlers.

use vstd::prelude::*;
use crate::channel;
use crate::ecs::EntityId;

verus! {

/// Enumeration of application commands
#[derive(Clone, Copy, Debug, PartialEq, Eq)]
#[non_exhaustive]
pub enum Command {
    /// Leave the application
    Exit,
}

/// Enumeration of application events
#[derive(Clone, Copy, Debug, PartialEq, Eq)]
#[non_exhaustive]
pub enum Event {
    /// Window got the size given, width first
    WindowResized([u32; 2]),
    /// Entity was created
    EntityCreated(EntityId),
    /// Entity was destroyed
    EntityDestroyed(EntityId),
    /// Two entities collide
    CollisionOccurred([EntityId; 2]),
    /// Two entities began to collide, lower id first
    CollisionStarted([EntityId; 2]),
    /// Two entities ceased to collide, lower id first
    CollisionFinished([EntityId; 2]),
}

/// Sender of messages to a [Dispatcher]
#[verifier::reject_recursive_types(T)]
pub struct Sender<T> {
    tx: std::sync::mpsc::Sender<T>,
}

impl<T> Sender<T> {
    /// The sending half of the channel that the sender puts its messages
    /// into.
    pub closed spec fn link(&self) -> std::sync::mpsc::Sender<T> {
        self.tx
    }

    /// Sends message and does not wait: it is handed to the handlers at the
    /// next dispatch, or dropped if the dispatcher is gone
    pub fn send(&self, message: T) {
        let _ = channel::put(&self.tx, message);
    }

    /// Another sender to the same dispatcher: its link is a clone of this
    /// sender's link
    pub fn duplicate(&self) -> (copy: Sender<T>)
        ensures
            cloned(self.link(), copy.link()),
    {
        Sender { tx: self.tx.clone() }
    }
}

/// Every handler can be called with every message.
pub open spec fn handlers_total<T, H: Fn(&T)>(handlers: Seq<H>) -> bool {
    forall|at: int, message: T|
        0 <= at < handlers.len() ==> #[trigger] call_requires(handlers[at], (&message,))
}

/// Every handler was called with every message.
pub open spec fn all_handled<T, H: Fn(&T)>(handlers: Seq<H>, messages: Seq<T>) -> bool {
    forall|at: int, k: int|
        0 <= at < handlers.len() && 0 <= k < messages.len() ==> #[trigger] call_ensures(
            handlers[at],
            (&messages[k],),
            (),
        )
}

/// Hands every message, in turn, to every handler, in turn
pub fn dispatch_messages<T, H: Fn(&T)>(handlers: &Vec<H>, messages: &Vec<T>)
    requires
        handlers_total::<T, H>(handlers@),
    ensures
        all_handled(handlers@, messages@),
{
    let mut k: usize = 0;
    while k < messages.len()
        invariant
            k <= messages@.len(),
            handlers_total::<T, H>(handlers@),
            all_handled(handlers@, messages@.take(k as int)),
        decreases messages@.len() - k,
    {
        let mut at: usize = 0;
        while at < handlers.len()
            invariant
                k < messages@.len(),
                at <= handlers@.len(),
                handlers_total::<T, H>(handlers@),
                all_handled(handlers@, messages@.take(k as int)),
                forall|done: int|
                    0 <= done < at ==> #[trigger] call_ensures(
                        handlers@[done],
                        (&messages@[k as int],),
                        (),
                    ),
            decreases handlers@.len() - at,
        {
            (handlers[at])(&messages[k]);
            at += 1;
        }
        proof {
            let now = messages@.take(k + 1);
            assert forall|at: int, j: int|
                0 <= at < handlers@.len() && 0 <= j < now.len() implies #[trigger] call_ensures(
                handlers@[at],
                (&now[j],),
                (),
            ) by {
                if j < k {
                    assert(now[j] == messages@.take(k as int)[j]);
                }
            }
        }
        k += 1;
    }
    proof {
        assert(messages@.take(messages@.len() as int) =~= messages@);
    }
}

/// Dispatcher of messages: a channel and the handlers of what comes through
#[verifier::reject_recursive_types(T)]
pub struct Dispatcher<T, H> {
    handlers: Vec<H>,
    tx: std::sync::mpsc::Sender<T>,
    rx: std::sync::mpsc::Receiver<T>,
}

impl<T, H: Fn(&T)> Dispatcher<T, H> {
    /// The handlers in the order in which they were added.
    pub closed spec fn handlers(&self) -> Seq<H> {
        self.handlers@
    }

    /// The sending half of the dispatcher's channel, of which every sender to
    /// the dispatcher holds a clone.
    pub closed spec fn link(&self) -> std::sync::mpsc::Sender<T> {
        self.tx
    }

    /// Every handler can be called with every message.
    pub open spec fn wf(&self) -> bool {
        handlers_total::<T, H>(self.handlers())
    }

    /// Creates new instance of [Dispatcher], without handlers
    pub fn new() -> (dispatcher: Self)
        ensures
            dispatcher.wf(),
            dispatcher.handlers().len() == 0,
    {
        let (tx, rx) = channel::open();
        Dispatcher { handlers: Vec::new(), tx, rx }
    }

    /// Creates a sender to this dispatcher: its link is a clone of the
    /// sending half of the dispatcher's channel
    pub fn create_sender(&self) -> (sender: Sender<T>)
        ensures
            cloned(self.link(), sender.link()),
    {
        Sender { tx: self.tx.clone() }
    }

    /// Adds handler behind those that are there
    pub fn add_handler(&mut self, handler: H)
        requires
            old(self).wf(),
            forall|message: T| call_requires(handler, (&message,)),
        ensures
            final(self).wf(),
            final(self).handlers() == old(self).handlers().push(handler),
    {
        self.handlers.push(handler);
    }

    /// Takes the messages that are pending and hands each of them to every
    /// handler. Returns the messages, in the order in which they were handled
    pub fn dispatch(&self) -> (messages: Vec<T>)
        requires
            self.wf(),
        ensures
            all_handled(self.handlers(), messages@),
    {
        let messages = channel::pending(&self.rx);
        dispatch_messages(&self.handlers, &messages);
        messages
    }
}

} // verus!
