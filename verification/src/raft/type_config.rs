//! The types that a cluster is used with.

use vstd::prelude::*;

verus! {

/// What a state machine takes and gives.
pub trait RaftTypeConfig: std::fmt::Debug + Clone + Send + Sync + 'static {
    /// A command for the state machine.
    type Command: std::fmt::Debug + Clone + Send + Sync + 'static;

    /// What the state machine answers to a command.
    type Output: std::fmt::Debug + Clone + Send + Sync + 'static;
}

} // verus!
