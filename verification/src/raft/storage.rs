//! What a node keeps across restarts.

use crate::raft::error::Result;
use crate::raft::message::LogEntry;
use crate::raft::type_config::RaftTypeConfig;
use crate::raft::NodeId;
use vstd::prelude::*;

verus! {

/// The part of a node's state that has to survive a restart.
#[derive(Debug, Clone)]
pub struct PersistentState<RaftType: RaftTypeConfig> {
    pub current_term: u64,
    pub voted_for: Option<NodeId>,
    pub log: Vec<LogEntry<RaftType::Command>>,
}

/// A place that the encoded persistent state is kept in.
pub trait RaftStorage<RaftType: RaftTypeConfig> {
    fn save_state(&self, bytes: Vec<u8>) -> Result<()>;

    fn restore_state(&self) -> Result<Option<Vec<u8>>>;
}

} // verus!
