//! How often a list of commands is submitted.

use vstd::prelude::*;

verus! {

/// Enumeration of usages of a list of commands
#[derive(Clone, Copy, Debug, PartialEq, Eq, Structural)]
pub enum CommandListUsage {
    /// The list is submitted once
    Once,
    /// The list is submitted any number of times
    Multiple,
}

} // verus!
