//! The game loop: named game logics that run once per round, in the order of
//! their names.

use vstd::prelude::*;
use crate::registry::{inserted, removed, sorted, Registry};

verus! {

/// Trait of a game logic, which handles some high-level game logic
pub trait GameLogic<D> {
    /// The logic can be invoked after this much time. A logic that does not
    /// say otherwise can be invoked after any.
    open spec fn accepts(&self, elapsed: D) -> bool {
        true
    }

    /// What an invocation after this much time has done. A logic that does
    /// not say otherwise tells nothing.
    open spec fn ran(&self, elapsed: D) -> bool {
        true
    }

    /// Invoke game logic
    fn invoke(&self, elapsed: D)
        requires
            self.accepts(elapsed),
        ensures
            self.ran(elapsed),
    ;
}

/// Stateful [GameLogic] implementation
pub struct StatefulGameLogic<S, F> {
    state: S,
    delegate: F,
}

impl<S, F> StatefulGameLogic<S, F> {
    /// The state that the logic hands to its function.
    pub closed spec fn state(&self) -> S {
        self.state
    }

    /// The function that the logic calls.
    pub closed spec fn delegate(&self) -> F {
        self.delegate
    }

    /// Creates new instance of [StatefulGameLogic] with some predefined state
    pub fn new(state: S, delegate: F) -> (logic: StatefulGameLogic<S, F>)
        ensures
            logic.state() == state,
            logic.delegate() == delegate,
    {
        StatefulGameLogic { state, delegate }
    }
}

impl<D, S, F: Fn(D, &S)> GameLogic<D> for StatefulGameLogic<S, F> {
    open spec fn accepts(&self, elapsed: D) -> bool {
        call_requires(self.delegate(), (elapsed, &self.state()))
    }

    open spec fn ran(&self, elapsed: D) -> bool {
        call_ensures(self.delegate(), (elapsed, &self.state()), ())
    }

    fn invoke(&self, elapsed: D) {
        (self.delegate)(elapsed, &self.state)
    }
}

/// A game loop, which stores game logics to be executed
pub struct Loop<L> {
    logics: Registry<L>,
}

impl<L> Loop<L> {
    /// The logics with their names, in the order in which a round runs them.
    pub closed spec fn logics(&self) -> Seq<(Seq<char>, L)> {
        self.logics@
    }

    /// The logics are sorted by name.
    pub open spec fn wf(&self) -> bool {
        sorted(self.logics())
    }

    /// Creates a loop without logics
    pub fn new() -> (game_loop: Self)
        ensures
            game_loop.wf(),
            game_loop.logics().len() == 0,
    {
        Loop { logics: Registry::new() }
    }

    /// Adds game logic into the loop; one of the same name is replaced
    pub fn add_logic(&mut self, name: &str, logic: L)
        requires
            old(self).wf(),
        ensures
            final(self).wf(),
            final(self).logics() == inserted(old(self).logics(), name@, logic),
    {
        let _ = self.logics.insert(name.to_owned(), logic);
    }

    /// Removes game logic from the loop
    pub fn remove_logic(&mut self, name: &str)
        requires
            old(self).wf(),
        ensures
            final(self).wf(),
            final(self).logics() == removed(old(self).logics(), name@),
    {
        let _ = self.logics.remove(name);
    }
}

impl<L> Default for Loop<L> {
    fn default() -> (game_loop: Self)
        ensures
            game_loop.wf(),
            game_loop.logics().len() == 0,
    {
        Loop::new()
    }
}

/// One round of the game loop: invokes every logic, in the order of their
/// names
pub fn worker_func<D: Copy, L: GameLogic<D>>(game_loop: &Loop<L>, elapsed: D)
    requires
        forall|at: int|
            0 <= at < game_loop.logics().len() ==> (#[trigger] game_loop.logics()[at]).1.accepts(
                elapsed,
            ),
    ensures
        forall|at: int|
            0 <= at < game_loop.logics().len() ==> (#[trigger] game_loop.logics()[at]).1.ran(
                elapsed,
            ),
{
    let mut at: usize = 0;
    while at < game_loop.logics.len()
        invariant
            at <= game_loop.logics().len(),
            forall|k: int|
                0 <= k < game_loop.logics().len() ==> (#[trigger] game_loop.logics()[k]).1.accepts(
                    elapsed,
                ),
            forall|k: int| 0 <= k < at ==> (#[trigger] game_loop.logics()[k]).1.ran(elapsed),
        decreases game_loop.logics().len() - at,
    {
        let (_, logic) = game_loop.logics.entry(at);
        logic.invoke(elapsed);
        at += 1;
    }
}

} // verus!
