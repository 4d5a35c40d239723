//! What a node tells clients about itself.

use crate::raft::NodeId;
use std::collections::HashMap;
use vstd::prelude::*;

verus! {

/// A snapshot of a node's state.
#[derive(Debug, Clone)]
pub struct RaftStatus {
    pub id: NodeId,
    pub current_term: u64,
    pub voted_for: Option<NodeId>,
    pub role: RaftRole,
    pub leader_id: Option<NodeId>,
    pub commit_index: usize,
    pub last_applied: usize,
    pub log_len: usize,
    pub peer_ids: Vec<NodeId>,
}

/// The role of a node as it is reported.
#[derive(Debug, Clone)]
pub enum RaftRole {
    Follower,
    Candidate { votes_received: usize },
    Leader { next_index: HashMap<NodeId, usize>, match_index: HashMap<NodeId, usize> },
}

/// The role of a node as it is reported, with the contents of its maps.
pub ghost enum RaftRoleView {
    Follower,
    Candidate { votes_received: usize },
    Leader { next_index: Map<NodeId, usize>, match_index: Map<NodeId, usize> },
}

impl RaftRole {
    pub open spec fn view(self) -> RaftRoleView {
        match self {
            RaftRole::Follower => RaftRoleView::Follower,
            RaftRole::Candidate { votes_received } => RaftRoleView::Candidate { votes_received },
            RaftRole::Leader { next_index, match_index } => RaftRoleView::Leader {
                next_index: next_index@,
                match_index: match_index@,
            },
        }
    }
}

/// A snapshot of a node's state, with the contents of its collections.
pub ghost struct RaftStatusView {
    pub id: NodeId,
    pub current_term: u64,
    pub voted_for: Option<NodeId>,
    pub role: RaftRoleView,
    pub leader_id: Option<NodeId>,
    pub commit_index: usize,
    pub last_applied: usize,
    pub log_len: nat,
    pub peer_ids: Seq<NodeId>,
}

impl RaftStatus {
    pub open spec fn view(self) -> RaftStatusView {
        RaftStatusView {
            id: self.id,
            current_term: self.current_term,
            voted_for: self.voted_for,
            role: self.role@,
            leader_id: self.leader_id,
            commit_index: self.commit_index,
            last_applied: self.last_applied,
            log_len: self.log_len as nat,
            peer_ids: self.peer_ids@,
        }
    }
}

} // verus!
