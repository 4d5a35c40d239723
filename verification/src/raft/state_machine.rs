//! The replicated state machine.

use crate::raft::type_config::RaftTypeConfig;
use vstd::prelude::*;

verus! {

/// A machine that committed commands are applied to, in the order of the log.
pub trait RaftStateMachine<RaftType: RaftTypeConfig> {
    fn apply(&mut self, command: &RaftType::Command) -> RaftType::Output;
}

} // verus!
