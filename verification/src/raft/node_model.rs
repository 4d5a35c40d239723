//! What a node does, as a function of its state and of what happens to it.

use crate::raft::config::RaftConfig;
use crate::raft::effect::{ClientCommands, Event, Expected, ExpectedResponse};
use crate::raft::message::{
    AppendRequest, AppendResponse, LogCommand, LogEntry, RaftMessage, VoteRequest, VoteResponse,
};
use crate::raft::role::RoleView;
use crate::raft::status::{RaftRoleView, RaftStatusView};
use crate::raft::storage::PersistentState;
use crate::raft::type_config::RaftTypeConfig;
use crate::raft::NodeId;
use vstd::prelude::*;

verus! {

/// The state of a node.
#[verifier::reject_recursive_types(RaftType)]
#[verifier::reject_recursive_types(Reply)]
#[verifier::ext_equal]
pub ghost struct NodeView<RaftType: RaftTypeConfig, Reply> {
    pub id: NodeId,
    pub peer_ids: Seq<NodeId>,
    pub config: RaftConfig,
    pub current_term: u64,
    pub voted_for: Option<NodeId>,
    pub log: Seq<LogEntry<RaftType::Command>>,
    pub role: RoleView,
    pub commit_index: usize,
    pub last_applied: usize,
    pub pending_applies: Map<usize, Reply>,
}

/// Whether `count` out of `total` are more than half.
pub open spec fn is_majority(count: int, total: int) -> bool {
    count > total / 2
}

/// How many of these are known to have the entry at `index`.
pub open spec fn replica_count(match_index: Map<NodeId, usize>, index: int) -> nat {
    match_index.dom().filter(|p: NodeId| match_index[p] >= index).len()
}

/// How many of `entries`, which go behind the entry at `prev`, are in the log already: all of them
/// up to the first that is not there, or is there from another term.
pub open spec fn entries_present<Command>(
    log: Seq<LogEntry<Command>>,
    prev: int,
    entries: Seq<LogEntry<Command>>,
) -> nat
    decreases entries.len(),
{
    if entries.len() == 0 || prev + 1 >= log.len() || log[prev + 1].term != entries[0].term {
        0
    } else {
        1 + entries_present(log, prev + 1, entries.drop_first())
    }
}

/// The log once `entries` are put behind the entry at `prev`: where they are in it already, it
/// stays as it is; else it is cut off where they differ, and the rest of them is put there.
pub open spec fn merged<Command>(
    log: Seq<LogEntry<Command>>,
    prev: int,
    entries: Seq<LogEntry<Command>>,
) -> Seq<LogEntry<Command>> {
    let present = entries_present(log, prev, entries) as int;
    if present == entries.len() {
        log
    } else {
        log.take(prev + 1 + present) + entries.skip(present)
    }
}

impl<RaftType: RaftTypeConfig, Reply> NodeView<RaftType, Reply> {
    /// Whether the log has its first entry, and the numbers can be counted on.
    pub open spec fn sane(self) -> bool {
        &&& self.log.len() >= 1
        &&& self.peer_ids.len() < usize::MAX
        &&& self.config.valid()
        &&& self.commit_index < usize::MAX
    }

    /// Whether the state is one that a node can be in: a candidate does not have the votes to lead,
    /// and a leader keeps count of its peers.
    pub open spec fn inv(self) -> bool {
        &&& self.sane()
        &&& match self.role {
            RoleView::Follower { .. } => true,
            RoleView::Candidate { votes_received } => !self.is_won_by(votes_received as int),
            RoleView::Leader { next_index, match_index } => {
                &&& match_index.dom().finite()
                &&& forall|i: int|
                    0 <= i < self.peer_ids.len() ==> next_index.contains_key(
                        #[trigger] self.peer_ids[i],
                    )
            },
        }
    }

    /// Whether `count` nodes are a majority of the cluster.
    pub open spec fn is_won_by(self, count: int) -> bool {
        is_majority(count, self.peer_ids.len() as int + 1)
    }

    /// The state that survives a restart, to be saved.
    pub open spec fn persisted(self) -> Expected<RaftType, Reply> {
        Expected::Persist {
            current_term: self.current_term,
            voted_for: self.voted_for,
            log: self.log,
        }
    }

    /// Whether the node took up what was saved.
    pub open spec fn restored_from(self, saved: PersistentState<RaftType>) -> bool {
        &&& self.current_term == saved.current_term
        &&& self.voted_for == saved.voted_for
        &&& self.log == saved.log@
    }

    /// The node with what was saved, and otherwise as it is.
    pub open spec fn with_saved(self, saved: PersistentState<RaftType>) -> Self {
        NodeView {
            current_term: saved.current_term,
            voted_for: saved.voted_for,
            log: saved.log@,
            ..self
        }
    }

    /// A message goes out if it is to a peer.
    pub open spec fn sent(self, to: NodeId, message: RaftMessage<RaftType>) -> Seq<
        Expected<RaftType, Reply>,
    > {
        if self.peer_ids.contains(to) {
            seq![Expected::Send { to, message }]
        } else {
            Seq::empty()
        }
    }

    /// The node as a follower in `term`, or in its own term if that is not higher. A vote counts
    /// for one term.
    pub open spec fn as_follower(self, term: u64) -> Self {
        NodeView {
            current_term: if term > self.current_term {
                term
            } else {
                self.current_term
            },
            voted_for: if term > self.current_term {
                None
            } else {
                self.voted_for
            },
            role: RoleView::Follower { current_leader_id: None },
            ..self
        }
    }

    /// What becoming a follower asks for.
    pub open spec fn follower_effects(self, term: u64) -> Seq<Expected<RaftType, Reply>> {
        seq![self.as_follower(term).persisted(), Expected::ResetElectionTimer]
    }

    /// The node as a candidate in the next term, with its own vote.
    pub open spec fn as_candidate(self) -> Self {
        NodeView {
            current_term: (self.current_term + 1) as u64,
            voted_for: Some(self.id),
            role: RoleView::Candidate { votes_received: 1 },
            ..self
        }
    }

    /// The request for votes.
    pub open spec fn vote_request(self) -> RaftMessage<RaftType> {
        RaftMessage::VoteRequest(
            VoteRequest {
                term: self.current_term,
                candidate_id: self.id,
                last_log_index: (self.log.len() - 1) as usize,
                last_log_term: self.log.last().term,
            },
        )
    }

    /// A message to all peers.
    pub open spec fn broadcast(self, message: RaftMessage<RaftType>) -> Seq<
        Expected<RaftType, Reply>,
    > {
        Seq::new(
            self.peer_ids.len(),
            |i: int| Expected::Send { to: self.peer_ids[i], message },
        )
    }

    /// The node as the leader: it begins its term with an empty entry, and takes the logs of its
    /// peers to be like its own until it hears otherwise.
    pub open spec fn as_leader(self) -> Self {
        let log = self.log.push(LogEntry { term: self.current_term, command: LogCommand::NoOp });
        NodeView {
            log,
            role: RoleView::Leader {
                next_index: Map::new(
                    |p: NodeId| self.peer_ids.contains(p),
                    |p: NodeId| log.len() as usize,
                ),
                match_index: Map::new(|p: NodeId| self.peer_ids.contains(p), |p: NodeId| 0usize),
            },
            ..self
        }
    }

    /// What becoming the leader asks for.
    pub open spec fn leader_effects(self) -> Seq<Expected<RaftType, Reply>> {
        seq![self.as_leader().persisted()] + self.as_leader().heartbeat()
    }

    /// The node after it has stood for election. A node without peers is elected at once.
    pub open spec fn stood(self) -> Self {
        let candidate = self.as_candidate();
        if self.is_won_by(1) {
            candidate.as_leader()
        } else {
            candidate
        }
    }

    /// What standing for election asks for.
    pub open spec fn stood_effects(self) -> Seq<Expected<RaftType, Reply>> {
        let candidate = self.as_candidate();
        seq![Expected::ResetElectionTimer] + if self.is_won_by(1) {
            candidate.leader_effects()
        } else {
            seq![candidate.persisted()] + candidate.broadcast(candidate.vote_request())
        }
    }

    /// Whether the leader can tell every peer what comes next: what it has noted for a peer lies in
    /// its log, or right behind it.
    pub open spec fn can_replicate(self) -> bool {
        self.role matches RoleView::Leader { next_index, .. } ==> forall|i: int|
            0 <= i < self.peer_ids.len() ==> 1 <= next_index[#[trigger] self.peer_ids[i]]
                <= self.log.len()
    }

    /// The request that brings a peer up to date.
    pub open spec fn append_for(self, peer: NodeId) -> Expected<RaftType, Reply> {
        let next = self.role->next_index[peer] as int;
        Expected::Append {
            to: peer,
            term: self.current_term,
            leader_id: self.id,
            prev_log_index: next - 1,
            prev_log_term: self.log[next - 1].term,
            entries: self.log.skip(next),
            leader_commit: self.commit_index as int,
        }
    }

    /// A heartbeat to all peers.
    pub open spec fn heartbeat(self) -> Seq<Expected<RaftType, Reply>> {
        Seq::new(self.peer_ids.len(), |i: int| self.append_for(self.peer_ids[i]))
    }

    /// Whether the leader can commit the log up to `index`: the entry there is of its own term, and
    /// a majority of the cluster is known to have it.
    pub open spec fn can_commit(self, index: int) -> bool {
        &&& self.role matches RoleView::Leader { match_index, .. }
        &&& self.commit_index < index < self.log.len()
        &&& self.log[index].term == self.current_term
        &&& self.is_won_by(replica_count(self.role->match_index, index) as int + 1)
    }

    /// Whether `index` is how far the log is committed, now that more is known of the peers: the
    /// greatest index that the leader can commit, or where it was.
    pub open spec fn commits_to(self, index: int) -> bool {
        &&& forall|n: int| index < n ==> !#[trigger] self.can_commit(n)
        &&& index == self.commit_index || self.can_commit(index)
    }

    /// The node with the log committed up to `index`.
    pub open spec fn with_commit(self, index: usize) -> Self {
        NodeView { commit_index: index, ..self }
    }

    /// Whether all committed entries are in the log.
    pub open spec fn can_apply(self) -> bool {
        self.last_applied < self.commit_index ==> self.commit_index < self.log.len()
    }

    /// Whether the entry at `index` is a command that is committed and was not applied.
    pub open spec fn is_due(self, index: int) -> bool {
        self.last_applied < index <= self.commit_index && self.log[index].command is Command
    }

    /// The node after all committed entries were applied.
    pub open spec fn applied(self) -> Self {
        NodeView {
            last_applied: if self.last_applied < self.commit_index {
                self.commit_index
            } else {
                self.last_applied
            },
            pending_applies: Map::new(
                |i: usize| self.pending_applies.contains_key(i) && !self.is_due(i as int),
                |i: usize| self.pending_applies[i],
            ),
            ..self
        }
    }

    /// The client that is waiting for the entry at `index`.
    pub open spec fn waiting(self, index: int) -> Option<Reply> {
        if self.pending_applies.contains_key(index as usize) {
            Some(self.pending_applies[index as usize])
        } else {
            None
        }
    }

    /// The commands behind `from` and up to `to`, in their order, each for the client that waits
    /// for it.
    pub open spec fn applies(self, from: int, to: int) -> Seq<Expected<RaftType, Reply>>
        decreases to - from,
    {
        if from >= to {
            Seq::empty()
        } else {
            match self.log[to].command {
                LogCommand::NoOp => self.applies(from, to - 1),
                LogCommand::Command(command) => self.applies(from, to - 1).push(
                    Expected::Apply { index: to, command, waiting: self.waiting(to) },
                ),
            }
        }
    }

    /// What applying all committed entries asks for.
    pub open spec fn apply_effects(self) -> Seq<Expected<RaftType, Reply>> {
        self.applies(self.last_applied as int, self.commit_index as int)
    }

    /// The leader with what a peer said of its log.
    pub open spec fn noted(self, from: NodeId, msg: AppendResponse) -> Self {
        match self.role {
            RoleView::Leader { next_index, match_index } => NodeView {
                role: if msg.success {
                    RoleView::Leader {
                        next_index: next_index.insert(from, (msg.match_index + 1) as usize),
                        match_index: match_index.insert(from, msg.match_index),
                    }
                } else {
                    RoleView::Leader {
                        next_index: next_index.insert(
                            from,
                            if msg.match_index >= 2 {
                                (msg.match_index - 1) as usize
                            } else {
                                1
                            },
                        ),
                        match_index,
                    }
                },
                ..self
            },
            _ => self,
        }
    }

    /// Whether a peer's answer can be taken: what it says of its log is a number that has a
    /// successor, and what is committed can be applied.
    pub open spec fn accepts_append_response(self, msg: AppendResponse) -> bool {
        self.role is Leader && msg.term == self.current_term ==> (msg.success ==> msg.match_index
            < usize::MAX) && self.can_apply()
    }

    /// Whether a leader's request can be taken: there are not two leaders in one term, the log
    /// stays small enough to be counted, and what is committed can be applied.
    pub open spec fn accepts_append_request(self, msg: AppendRequest<RaftType>) -> bool {
        msg.term >= self.current_term ==> {
            &&& !(self.role is Leader && msg.term == self.current_term)
            &&& self.has_previous(msg) ==> {
                &&& msg.prev_log_index + msg.entries@.len() < usize::MAX
                &&& self.with_entries(msg).can_apply()
            }
        }
    }

    /// Whether a message can be taken.
    pub open spec fn accepts(self, message: RaftMessage<RaftType>) -> bool {
        match message {
            RaftMessage::AppendRequest(msg) => self.accepts_append_request(msg),
            RaftMessage::AppendResponse(msg) => self.accepts_append_response(msg),
            RaftMessage::VoteRequest(_) => true,
            RaftMessage::VoteResponse(_) => true,
        }
    }

    /// Whether the node can go on when this happens: its term has a successor if it is to stand for
    /// election, and a leader can tell its peers what comes next if it is to send a heartbeat.
    pub open spec fn accepts_event(self, event: Event<RaftType, Reply>) -> bool {
        match event {
            Event::ElectionTimeout => self.role is Leader || self.current_term < u64::MAX,
            Event::HeartbeatTick => self.can_replicate(),
            Event::Message(envelope) => self.accepts(envelope.message),
            Event::Command(command) => self.accepts_command(command),
        }
    }

    /// The node once it takes part in the term of a leader that it has heard from.
    pub open spec fn in_term_of(self, msg: AppendRequest<RaftType>) -> Self {
        if msg.term > self.current_term || self.role is Candidate {
            self.as_follower(msg.term)
        } else {
            self
        }
    }

    /// What taking part in that term asks for.
    pub open spec fn in_term_effects(self, msg: AppendRequest<RaftType>) -> Seq<
        Expected<RaftType, Reply>,
    > {
        if msg.term > self.current_term || self.role is Candidate {
            self.follower_effects(msg.term)
        } else {
            Seq::empty()
        }
    }

    /// The node with the leader that it has heard from, if it knew of none.
    pub open spec fn led_by(self, leader: NodeId) -> Self {
        match self.role {
            RoleView::Follower { current_leader_id: None } => NodeView {
                role: RoleView::Follower { current_leader_id: Some(leader) },
                ..self
            },
            _ => self,
        }
    }

    /// Whether the log has the entry that the leader's entries go behind.
    pub open spec fn has_previous(self, msg: AppendRequest<RaftType>) -> bool {
        msg.prev_log_index < self.log.len() && self.log[msg.prev_log_index as int].term
            == msg.prev_log_term
    }

    /// The node with the leader's entries, committed as far as the leader is and the log goes.
    pub open spec fn with_entries(self, msg: AppendRequest<RaftType>) -> Self {
        let log = merged(self.log, msg.prev_log_index as int, msg.entries@);
        NodeView {
            log,
            commit_index: if msg.leader_commit <= self.commit_index {
                self.commit_index
            } else if msg.leader_commit <= log.len() - 1 {
                msg.leader_commit
            } else {
                (log.len() - 1) as usize
            },
            ..self
        }
    }

    /// The node after a leader's request.
    pub open spec fn after_append_request(self, msg: AppendRequest<RaftType>) -> Self {
        let follower = self.in_term_of(msg).led_by(msg.leader_id);
        if msg.term < self.current_term {
            self
        } else if !follower.has_previous(msg) {
            follower
        } else {
            follower.with_entries(msg).applied()
        }
    }

    /// The answer to a leader's request.
    pub open spec fn append_answer(self, msg: AppendRequest<RaftType>) -> AppendResponse {
        let term = if msg.term > self.current_term {
            msg.term
        } else {
            self.current_term
        };
        if msg.term < self.current_term {
            AppendResponse { term, match_index: 0, success: false }
        } else if msg.prev_log_index >= self.log.len() {
            AppendResponse { term, match_index: (self.log.len() - 1) as usize, success: false }
        } else if !self.has_previous(msg) {
            AppendResponse { term, match_index: msg.prev_log_index, success: false }
        } else {
            AppendResponse {
                term,
                match_index: (msg.prev_log_index + msg.entries@.len()) as usize,
                success: true,
            }
        }
    }

    /// What a leader's request asks for: state is saved before commands are applied, and the answer
    /// comes last.
    pub open spec fn append_request_effects(
        self,
        from: NodeId,
        msg: AppendRequest<RaftType>,
    ) -> Seq<Expected<RaftType, Reply>> {
        let answer = self.sent(from, RaftMessage::AppendResponse(self.append_answer(msg)));
        let follower = self.in_term_of(msg).led_by(msg.leader_id);
        if msg.term < self.current_term {
            answer
        } else {
            self.in_term_effects(msg) + seq![Expected::ResetElectionTimer] + if self.has_previous(
                msg,
            ) {
                let updated = follower.with_entries(msg);
                seq![updated.persisted()] + updated.apply_effects()
            } else {
                Seq::empty()
            } + answer
        }
    }

    /// Whether a candidate's log is at least as far as the node's own: its last entry is of a later
    /// term, or of the same term and no earlier in the log.
    pub open spec fn is_up_to_date(self, msg: VoteRequest) -> bool {
        ||| msg.last_log_term > self.log.last().term
        ||| msg.last_log_term == self.log.last().term && msg.last_log_index >= self.log.len() - 1
    }

    /// Whether the node votes for a candidate: it has not voted for another one in the term, and
    /// the candidate's log is far enough.
    pub open spec fn grants(self, msg: VoteRequest) -> bool {
        &&& msg.term >= self.current_term
        &&& msg.term > self.current_term || self.voted_for is None || self.voted_for == Some(
            msg.candidate_id,
        )
        &&& self.is_up_to_date(msg)
    }

    /// The node after a candidate's request.
    pub open spec fn after_vote_request(self, msg: VoteRequest) -> Self {
        let node = if msg.term > self.current_term {
            self.as_follower(msg.term)
        } else {
            self
        };
        if self.grants(msg) {
            NodeView { voted_for: Some(msg.candidate_id), ..node }
        } else {
            node
        }
    }

    /// What a candidate's request asks for: a vote is saved before it is given.
    pub open spec fn vote_request_effects(self, from: NodeId, msg: VoteRequest) -> Seq<
        Expected<RaftType, Reply>,
    > {
        let after = self.after_vote_request(msg);
        let answer = self.sent(
            from,
            RaftMessage::VoteResponse(
                VoteResponse { term: after.current_term, vote_granted: self.grants(msg) },
            ),
        );
        (if msg.term > self.current_term {
            self.follower_effects(msg.term)
        } else {
            Seq::empty()
        }) + (if self.grants(msg) {
            seq![Expected::ResetElectionTimer, after.persisted()]
        } else {
            Seq::empty()
        }) + answer
    }

    /// The node after the answer to a request for votes.
    pub open spec fn after_vote_response(self, msg: VoteResponse) -> Self {
        if msg.term > self.current_term {
            self.as_follower(msg.term)
        } else if msg.term < self.current_term || !msg.vote_granted {
            self
        } else {
            match self.role {
                RoleView::Candidate { votes_received } => {
                    let counted = NodeView {
                        role: RoleView::Candidate { votes_received: (votes_received + 1) as usize },
                        ..self
                    };
                    if self.is_won_by(votes_received + 1) {
                        counted.as_leader()
                    } else {
                        counted
                    }
                },
                _ => self,
            }
        }
    }

    /// What the answer to a request for votes asks for.
    pub open spec fn vote_response_effects(self, msg: VoteResponse) -> Seq<
        Expected<RaftType, Reply>,
    > {
        if msg.term > self.current_term {
            self.follower_effects(msg.term)
        } else if msg.term < self.current_term || !msg.vote_granted {
            Seq::empty()
        } else {
            match self.role {
                RoleView::Candidate { votes_received } if self.is_won_by(
                    votes_received + 1,
                ) => self.leader_effects(),
                _ => Seq::empty(),
            }
        }
    }

    /// The leader with a client's command at the end of its log.
    pub open spec fn with_command(self, command: RaftType::Command, reply: Reply) -> Self {
        NodeView {
            log: self.log.push(
                LogEntry { term: self.current_term, command: LogCommand::Command(command) },
            ),
            pending_applies: self.pending_applies.insert(self.log.len() as usize, reply),
            ..self
        }
    }

    /// What a client is told that asks for the leader.
    pub open spec fn leadership(self) -> ExpectedResponse<RaftType> {
        match self.role {
            RoleView::Leader { .. } => ExpectedResponse::Leader,
            RoleView::Follower { current_leader_id: Some(leader) } => ExpectedResponse::NotLeader(
                leader,
            ),
            _ => ExpectedResponse::NoLeader,
        }
    }

    /// What a client is told of the node.
    pub open spec fn status(self) -> RaftStatusView {
        RaftStatusView {
            id: self.id,
            current_term: self.current_term,
            voted_for: self.voted_for,
            role: match self.role {
                RoleView::Follower { .. } => RaftRoleView::Follower,
                RoleView::Candidate { votes_received } => RaftRoleView::Candidate {
                    votes_received,
                },
                RoleView::Leader { next_index, match_index } => RaftRoleView::Leader {
                    next_index,
                    match_index,
                },
            },
            leader_id: match self.role {
                RoleView::Follower { current_leader_id } => current_leader_id,
                RoleView::Candidate { .. } => None,
                RoleView::Leader { .. } => Some(self.id),
            },
            commit_index: self.commit_index,
            last_applied: self.last_applied,
            log_len: self.log.len(),
            peer_ids: self.peer_ids,
        }
    }

    /// Whether a client's command can be taken: a leader that has it in its log can tell its peers
    /// what comes next.
    pub open spec fn accepts_command(self, command: ClientCommands<RaftType, Reply>) -> bool {
        match command {
            ClientCommands::Apply { command, reply } => self.role is Leader ==> self.with_command(
                command,
                reply,
            ).can_replicate(),
            _ => true,
        }
    }

    /// The node after a client's command.
    pub open spec fn after_command(self, command: ClientCommands<RaftType, Reply>) -> Self {
        match command {
            ClientCommands::Apply { command, reply } if self.role is Leader => self.with_command(
                command,
                reply,
            ),
            _ => self,
        }
    }

    /// What a client's command asks for. A command that is taken is saved, and sent to the peers;
    /// its client is answered when it is applied.
    pub open spec fn command_effects(self, command: ClientCommands<RaftType, Reply>) -> Seq<
        Expected<RaftType, Reply>,
    > {
        match command {
            ClientCommands::Apply { command, reply } => if self.role is Leader {
                let after = self.with_command(command, reply);
                seq![after.persisted()] + after.heartbeat()
            } else {
                seq![Expected::Respond { reply, response: self.leadership() }]
            },
            ClientCommands::IsLeader { reply } => seq![
                Expected::Respond { reply, response: self.leadership() },
            ],
            ClientCommands::GetLog { reply } => seq![
                Expected::Respond { reply, response: ExpectedResponse::Log(self.log) },
            ],
            ClientCommands::GetLogEntry { index, reply } => seq![
                Expected::Respond {
                    reply,
                    response: ExpectedResponse::LogEntry(
                        if index < self.log.len() {
                            Some(self.log[index as int])
                        } else {
                            None
                        },
                    ),
                },
            ],
            ClientCommands::GetStatus { reply } => seq![
                Expected::Respond { reply, response: ExpectedResponse::Status(self.status()) },
            ],
        }
    }
}

/// Whether a node can go from one state to another when this happens. A leader does not stand for
/// election, and no other node sends heartbeats.
pub open spec fn steps<RaftType: RaftTypeConfig, Reply>(
    before: NodeView<RaftType, Reply>,
    event: Event<RaftType, Reply>,
    after: NodeView<RaftType, Reply>,
) -> bool {
    &&& before.accepts_event(event)
    &&& match event {
        Event::ElectionTimeout => after == if before.role is Leader {
            before
        } else {
            before.stood()
        },
        Event::HeartbeatTick => after == before,
        Event::Command(command) => after == before.after_command(command),
        Event::Message(envelope) => match envelope.message {
            RaftMessage::AppendRequest(msg) => after == before.after_append_request(msg),
            RaftMessage::AppendResponse(msg) => if msg.term > before.current_term {
                after == before.as_follower(msg.term)
            } else if msg.term < before.current_term || !(before.role is Leader) {
                after == before
            } else {
                let noted = before.noted(envelope.from, msg);
                &&& noted.commits_to(after.commit_index as int)
                &&& after == noted.with_commit(after.commit_index).applied()
            },
            RaftMessage::VoteRequest(msg) => after == before.after_vote_request(msg),
            RaftMessage::VoteResponse(msg) => after == before.after_vote_response(msg),
        },
    }
}

} // verus!
