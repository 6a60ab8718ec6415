//! The channel that carries messages from their senders to a dispatcher.
//!
//! The channel is `std::sync::mpsc`. Verus knows nothing of it, and what
//! comes out of it depends on what other threads have put in, so nothing is
//! claimed of any of these calls: they are stated to be callable, no more.

use vstd::prelude::*;

verus! {

/// `std::sync::mpsc::Sender`, the sending half of a channel. Opaque: it is
/// only handed on.
#[verifier::external_type_specification]
#[verifier::external_body]
#[verifier::reject_recursive_types(T)]
pub struct ExSender<T>(std::sync::mpsc::Sender<T>);

/// `std::sync::mpsc::Receiver`, the receiving half of a channel. Opaque: it
/// is only handed on.
#[verifier::external_type_specification]
#[verifier::external_body]
#[verifier::reject_recursive_types(T)]
pub struct ExReceiver<T>(std::sync::mpsc::Receiver<T>);

/// Calls `std::sync::mpsc::channel`, which creates an unbounded channel and
/// returns its two halves. Nothing is claimed of them.
#[verifier::external_body]
pub(crate) fn open<T>() -> (halves: (std::sync::mpsc::Sender<T>, std::sync::mpsc::Receiver<T>)) {
    std::sync::mpsc::channel()
}

/// `Clone::clone` of `std::sync::mpsc::Sender`, which returns another sender
/// for the same channel. Nothing is claimed of the copy: who holds it knows
/// that it is a clone of the sender it was made from, and no more.
pub assume_specification<T>[ <std::sync::mpsc::Sender<T> as Clone>::clone ](
    tx: &std::sync::mpsc::Sender<T>,
) -> (copy: std::sync::mpsc::Sender<T>)
;

/// Calls `std::sync::mpsc::Sender::send`, which never blocks and fails only
/// when the receiver is gone. Returns whether the message was taken; which of
/// the two happens is not claimed.
#[verifier::external_body]
pub(crate) fn put<T>(tx: &std::sync::mpsc::Sender<T>, message: T) -> (taken: bool) {
    tx.send(message).is_ok()
}

/// Calls `std::sync::mpsc::Receiver::try_iter`, which yields the messages
/// that are pending without blocking, and collects them in the order in which
/// they come. Which messages these are is not claimed.
#[verifier::external_body]
pub(crate) fn pending<T>(rx: &std::sync::mpsc::Receiver<T>) -> (messages: Vec<T>) {
    rx.try_iter().collect()
}

} // verus!
