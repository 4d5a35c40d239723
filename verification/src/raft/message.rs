//! The messages that nodes exchange, and the entries of the log.

use crate::raft::type_config::RaftTypeConfig;
use crate::raft::NodeId;
use vstd::prelude::*;

verus! {

/// A message with the node that sent it.
#[derive(Debug, Clone)]
pub struct RaftEnvelope<RaftType: RaftTypeConfig> {
    pub from: NodeId,
    pub message: RaftMessage<RaftType>,
}

/// A message between nodes.
#[derive(Debug, Clone)]
pub enum RaftMessage<RaftType: RaftTypeConfig> {
    AppendRequest(AppendRequest<RaftType>),
    AppendResponse(AppendResponse),
    VoteRequest(VoteRequest),
    VoteResponse(VoteResponse),
}

/// What a log entry asks of the state machine.
#[derive(Debug, Clone)]
pub enum LogCommand<Command> {
    NoOp,
    Command(Command),
}

/// An entry of the log: a command and the term in which a leader took it.
#[derive(Debug, Clone)]
pub struct LogEntry<Command> {
    pub term: u64,
    pub command: LogCommand<Command>,
}

/// A leader's request to append entries, or its heartbeat where there are none.
#[derive(Debug, Clone)]
pub struct AppendRequest<RaftType: RaftTypeConfig> {
    pub term: u64,
    pub leader_id: NodeId,
    pub prev_log_index: usize,
    pub prev_log_term: u64,
    pub entries: Vec<LogEntry<RaftType::Command>>,
    pub leader_commit: usize,
}

/// The answer to an `AppendRequest`.
#[derive(Debug, Clone)]
pub struct AppendResponse {
    pub term: u64,
    pub match_index: usize,
    pub success: bool,
}

/// A candidate's request for a vote.
#[derive(Debug, Clone)]
pub struct VoteRequest {
    pub term: u64,
    pub candidate_id: NodeId,
    pub last_log_index: usize,
    pub last_log_term: u64,
}

/// The answer to a `VoteRequest`.
#[derive(Debug, Clone)]
pub struct VoteResponse {
    pub term: u64,
    pub vote_granted: bool,
}

} // verus!
