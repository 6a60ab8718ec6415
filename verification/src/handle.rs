//! A handle that performs an operation when it is released.

use vstd::prelude::*;

verus! {

/// RAII handle, which allows perform some operation on release
pub struct Handle<F> {
    drop: Option<F>,
}

impl<F: FnOnce()> Handle<F> {
    /// The operation that is still to be performed.
    pub closed spec fn operation(&self) -> Option<F> {
        self.drop
    }

    /// The operation can be performed.
    pub open spec fn wf(&self) -> bool {
        self.operation() matches Some(operation) ==> call_requires(operation, ())
    }

    /// Creates a handle that performs `value` on release
    pub fn new(value: F) -> (handle: Self)
        requires
            call_requires(value, ()),
        ensures
            handle.wf(),
            handle.operation() == Some(value),
    {
        Handle { drop: Some(value) }
    }

    /// Whether the operation is still to be performed
    pub fn is_armed(&self) -> (armed: bool)
        ensures
            armed == self.operation().is_some(),
    {
        self.drop.is_some()
    }

    /// Performs the operation, unless it was performed before. Returns
    /// whether it was performed now
    pub fn release(&mut self) -> (performed: bool)
        requires
            old(self).wf(),
        ensures
            final(self).wf(),
            final(self).operation() is None,
            performed == old(self).operation().is_some(),
            old(self).operation() matches Some(operation) ==> call_ensures(operation, (), ()),
    {
        match self.drop.take() {
            Some(operation) => {
                operation();
                true
            },
            None => false,
        }
    }
}

} // verus!
