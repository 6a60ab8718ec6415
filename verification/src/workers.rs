//! What the worker threads share with those who stop them.

use vstd::prelude::*;
use std::sync::Arc;
use std::sync::atomic::{AtomicBool, Ordering};

verus! {

/// A cancellation token
///
/// A worker asks its token between two rounds of its work and ends when the
/// token is cancelled. The flag is an atomic that other threads write, so what
/// a question answers is whatever they wrote last.
pub struct CancellationToken {
    token: Arc<AtomicBool>,
}

impl CancellationToken {
    /// The flag that the token shares with its duplicates.
    pub closed spec fn flag(&self) -> Arc<AtomicBool> {
        self.token
    }

    /// Creates a token that is not cancelled: its flag is a new atomic, made
    /// with `false`
    pub fn new() -> (token: CancellationToken)
        ensures
            call_ensures(AtomicBool::new, (false,), *token.flag()),
    {
        CancellationToken { token: Arc::new(AtomicBool::new(false)) }
    }

    /// Another token for the same flag: its flag is a clone of this token's
    /// shared pointer to the flag
    pub fn duplicate(&self) -> (copy: CancellationToken)
        ensures
            cloned(self.flag(), copy.flag()),
    {
        CancellationToken { token: self.token.clone() }
    }

    /// Checks if token is cancelled: the answer is what a relaxed load of the
    /// token's flag gives, which is whatever was stored there last
    pub fn is_cancelled(&self) -> (cancelled: bool)
        ensures
            call_ensures(AtomicBool::load, (&*self.flag(), Ordering::Relaxed), cancelled),
    {
        self.token.load(Ordering::Relaxed)
    }

    /// Cancels token
    pub fn cancel(&self) {
        self.token.store(true, Ordering::Relaxed);
    }
}

impl Default for CancellationToken {
    fn default() -> (token: CancellationToken)
        ensures
            call_ensures(AtomicBool::new, (false,), *token.flag()),
    {
        CancellationToken::new()
    }
}

/// How long a worker that is paced rests after a round, in nanoseconds: what
/// is left of the period once the round is done, and nothing where the round
/// took the period or longer.
pub open spec fn rest(elapsed: u64, period: u64) -> u64 {
    if elapsed < period {
        (period - elapsed) as u64
    } else {
        0
    }
}

/// Computes how long a paced worker rests after a round that took `elapsed`
/// nanoseconds, where a round is due every `period` nanoseconds
pub fn pause(elapsed: u64, period: u64) -> (nanoseconds: u64)
    ensures
        nanoseconds == rest(elapsed, period),
{
    if elapsed < period {
        period - elapsed
    } else {
        0
    }
}

} // verus!
