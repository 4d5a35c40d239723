//! The Raft consensus algorithm, as a state machine that does no input or output of its own.

pub mod conduct;
pub mod config;
pub mod effect;
pub mod error;
pub mod laws;
pub mod message;
pub mod node;
pub mod node_model;
pub mod role;
pub mod state_machine;
pub mod status;
pub mod storage;
pub mod type_config;

pub use config::RaftConfig;
pub use effect::{ClientCommands, ClientResponse, Effect, Event};
pub use error::RaftError;
pub use message::{
    AppendRequest, AppendResponse, LogCommand, LogEntry, RaftEnvelope, RaftMessage, VoteRequest,
    VoteResponse,
};
pub use node::RaftNode;
pub use role::Role;
pub use state_machine::RaftStateMachine;
pub use status::{RaftRole, RaftStatus};
pub use storage::{PersistentState, RaftStorage};
pub use type_config::RaftTypeConfig;

use vstd::prelude::*;

verus! {

/// Names a node of the cluster.
pub type NodeId = u64;

} // verus!
