//! The role that a node plays in its term.

use crate::raft::NodeId;
use std::collections::HashMap;
use vstd::prelude::*;

verus! {

/// What a node is in the current term.
#[derive(Debug, Clone)]
pub enum Role {
    /// Follows a leader, which it may not know yet.
    Follower { current_leader_id: Option<NodeId> },
    /// Stands for election.
    Candidate { votes_received: usize },
    /// Leads, and keeps for each peer the index to send next and the highest index known to match.
    Leader { next_index: HashMap<NodeId, usize>, match_index: HashMap<NodeId, usize> },
}

/// What a node is in the current term, with the contents of its maps.
pub ghost enum RoleView {
    Follower { current_leader_id: Option<NodeId> },
    Candidate { votes_received: usize },
    Leader { next_index: Map<NodeId, usize>, match_index: Map<NodeId, usize> },
}

impl Role {
    pub open spec fn view(self) -> RoleView {
        match self {
            Role::Follower { current_leader_id } => RoleView::Follower { current_leader_id },
            Role::Candidate { votes_received } => RoleView::Candidate { votes_received },
            Role::Leader { next_index, match_index } => RoleView::Leader {
                next_index: next_index@,
                match_index: match_index@,
            },
        }
    }

    pub fn is_leader(&self) -> (r: bool)
        ensures
            r == (self is Leader),
    {
        matches!(self, Role::Leader { .. })
    }

    pub fn is_candidate(&self) -> (r: bool)
        ensures
            r == (self is Candidate),
    {
        matches!(self, Role::Candidate { .. })
    }

    pub fn is_follower(&self) -> (r: bool)
        ensures
            r == (self is Follower),
    {
        matches!(self, Role::Follower { .. })
    }
}

} // verus!
