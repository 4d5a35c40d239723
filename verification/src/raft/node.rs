//! A node of the cluster.
//!
//! The node does no input or output. What it wants done it asks for as effects, which the program
//! around it takes and does, in order, after every call.

use crate::raft::config::RaftConfig;
use crate::raft::effect::{
    adds, answers, clone_entries, clone_entry, lemma_adds_nothing, lemma_adds_one, lemma_adds_twice,
    ClientCommands, ClientResponse, Effect, Event, Expected,
    ExpectedResponse,
};
use crate::raft::error::{RaftError, Result};
use crate::raft::message::{
    AppendRequest, AppendResponse, LogCommand, LogEntry, RaftEnvelope, RaftMessage, VoteRequest,
    VoteResponse,
};
use crate::raft::node_model::{
    entries_present, is_majority, merged, replica_count, steps, NodeView,
};
use crate::raft::role::{Role, RoleView};
use crate::raft::status::{RaftRole, RaftStatus};
use crate::raft::storage::PersistentState;
use crate::raft::type_config::RaftTypeConfig;
use crate::raft::NodeId;
use postcard::Error as PostcardError;
use std::collections::HashMap;
use vstd::prelude::*;
use vstd::std_specs::iter::IteratorSpec;

verus! {

broadcast use vstd::std_specs::hash::group_hash_axioms;

/// A node of the cluster. `Reply` is whatever a client is answered by.
#[verifier::reject_recursive_types(RaftType)]
#[verifier::reject_recursive_types(Reply)]
pub struct RaftNode<RaftType: RaftTypeConfig, Reply> {
    current_term: u64,
    voted_for: Option<NodeId>,
    log: Vec<LogEntry<RaftType::Command>>,
    id: NodeId,
    peer_ids: Vec<NodeId>,
    pub role: Role,
    commit_index: usize,
    last_applied: usize,
    config: RaftConfig,
    pending_applies: HashMap<usize, Reply>,
    effects: Vec<Effect<RaftType, Reply>>,
}

/// Whether `count` out of `total` are more than half.
pub fn has_majority(count: usize, total: usize) -> (r: bool)
    ensures
        r == is_majority(count as int, total as int),
        r == (2 * count > total),
{
    count > total / 2
}

/// The keys up to one more.
proof fn lemma_key_set_step(keys: Seq<&NodeId>, i: int)
    requires
        keys.no_duplicates(),
        0 <= i < keys.len(),
    ensures
        keys.take(i + 1).unref().to_set() == keys.take(i).unref().to_set().insert(*keys[i]),
        !keys.take(i).unref().to_set().contains(*keys[i]),
{
    let seen = keys.take(i).unref();
    let with = keys.take(i + 1).unref();
    assert(with =~= seen.push(*keys[i]));
    assert forall|p: NodeId| with.to_set().contains(p) == seen.to_set().insert(*keys[i]).contains(
        p,
    ) by {
        if seen.contains(p) {
            let j = choose|j: int| 0 <= j < seen.len() && seen[j] == p;
            assert(with[j] == p);
        }
        if p == *keys[i] {
            assert(with[i] == p);
        }
        if with.contains(p) {
            let j = choose|j: int| 0 <= j < with.len() && with[j] == p;
            if j < i {
                assert(seen[j] == p);
            }
        }
    }
    assert(with.to_set() =~= seen.to_set().insert(*keys[i]));
    if seen.contains(*keys[i]) {
        let j = choose|j: int| 0 <= j < seen.len() && seen[j] == *keys[i];
        assert(keys[j] == keys[i]);
    }
}

impl<RaftType: RaftTypeConfig, Reply> RaftNode<RaftType, Reply> {
    /// The state of the node.
    pub closed spec fn state(self) -> NodeView<RaftType, Reply> {
        NodeView {
            id: self.id,
            peer_ids: self.peer_ids@,
            config: self.config,
            current_term: self.current_term,
            voted_for: self.voted_for,
            log: self.log@,
            role: self.role@,
            commit_index: self.commit_index,
            last_applied: self.last_applied,
            pending_applies: self.pending_applies@,
        }
    }

    /// A log, like any vector, is no longer than can be counted.
    pub proof fn lemma_log_fits(self)
        ensures
            self.state().log.len() <= usize::MAX,
    {
        assert(self.log@.len() == self.log.len());
    }

    /// What the node has asked for and was not taken yet.
    pub closed spec fn effects(self) -> Seq<Effect<RaftType, Reply>> {
        self.effects@
    }

    /// Whether the node went from one state to another and asked for this.
    pub open spec fn goes_to(
        self,
        after: Self,
        state: NodeView<RaftType, Reply>,
        expected: Seq<Expected<RaftType, Reply>>,
    ) -> bool {
        &&& after.state() == state
        &&& adds(self.effects(), after.effects(), expected, self.state().config)
    }

    /// Asks for the election timer to be set anew.
    fn reset_election_timer(&mut self)
        requires
            old(self).state().config.valid(),
        ensures
            old(self).goes_to(
                *final(self),
                old(self).state(),
                seq![Expected::ResetElectionTimer],
            ),
    {
        let timeout_ms = self.config.random_election_timeout();
        let ghost before = self.effects@;
        self.effects.push(Effect::ResetElectionTimer { timeout_ms });
        proof {
            lemma_adds_one(
                before,
                Effect::<RaftType, Reply>::ResetElectionTimer { timeout_ms },
                Expected::ResetElectionTimer,
                self.config,
            );
        }
    }

    /// Asks for the state to be saved.
    fn persist_state(&mut self)
        ensures
            old(self).goes_to(*final(self), old(self).state(), seq![old(self).state().persisted()]),
    {
        let state = PersistentState {
            current_term: self.current_term,
            voted_for: self.voted_for,
            log: clone_entries(&self.log, 0),
        };
        let ghost before = self.effects@;
        let ghost expected = self.state().persisted();
        self.effects.push(Effect::Persist(state));
        proof {
            assert(self.log@.skip(0) =~= self.log@);
            lemma_adds_one(
                before,
                Effect::<RaftType, Reply>::Persist(state),
                expected,
                self.config,
            );
        }
    }

    /// Whether a node is a peer.
    fn is_peer(&self, node: NodeId) -> (r: bool)
        ensures
            r == self.state().peer_ids.contains(node),
    {
        let mut i: usize = 0;
        while i < self.peer_ids.len()
            invariant
                i <= self.peer_ids@.len(),
                forall|j: int| 0 <= j < i ==> self.peer_ids@[j] != node,
            decreases self.peer_ids@.len() - i,
        {
            if self.peer_ids[i] == node {
                assert(self.peer_ids@[i as int] == node);
                return true;
            }
            i += 1;
        }
        false
    }

    /// Asks for a message to be sent, if it is to a peer.
    fn send_message(&mut self, to_id: NodeId, message: RaftMessage<RaftType>)
        ensures
            old(self).goes_to(
                *final(self),
                old(self).state(),
                old(self).state().sent(to_id, message),
            ),
    {
        let ghost before = self.effects@;
        if self.is_peer(to_id) {
            self.effects.push(Effect::Send { to: to_id, message });
            proof {
                lemma_adds_one(
                    before,
                    Effect::<RaftType, Reply>::Send { to: to_id, message },
                    Expected::Send { to: to_id, message },
                    self.config,
                );
            }
        } else {
            proof {
                lemma_adds_nothing(before, self.config);
            }
        }
    }

    /// Asks for a request for votes to be sent to all peers.
    fn broadcast_message(&mut self, request: VoteRequest)
        ensures
            old(self).goes_to(
                *final(self),
                old(self).state(),
                old(self).state().broadcast(RaftMessage::VoteRequest(request)),
            ),
    {
        let ghost state = self.state();
        let ghost before = self.effects@;
        let ghost all = state.broadcast(RaftMessage::VoteRequest(request));
        proof {
            lemma_adds_nothing(before, self.config);
            assert(all.take(0) =~= Seq::empty());
        }
        let mut i: usize = 0;
        while i < self.peer_ids.len()
            invariant
                i <= self.peer_ids@.len(),
                self.state() == state,
                all == state.broadcast(RaftMessage::VoteRequest(request)),
                adds(before, self.effects@, all.take(i as int), state.config),
            decreases state.peer_ids.len() - i,
        {
            let ghost so_far = self.effects@;
            let message = RaftMessage::VoteRequest(
                VoteRequest {
                    term: request.term,
                    candidate_id: request.candidate_id,
                    last_log_index: request.last_log_index,
                    last_log_term: request.last_log_term,
                },
            );
            let to = self.peer_ids[i];
            self.effects.push(Effect::Send { to, message });
            proof {
                lemma_adds_one(
                    so_far,
                    Effect::<RaftType, Reply>::Send { to, message },
                    all[i as int],
                    state.config,
                );
                lemma_adds_twice(
                    before,
                    so_far,
                    self.effects@,
                    all.take(i as int),
                    seq![all[i as int]],
                    state.config,
                );
                assert(all.take(i as int) + seq![all[i as int]] =~= all.take(i + 1));
            }
            i += 1;
        }
        proof {
            assert(all.take(i as int) =~= all);
        }
    }

    /// Becomes a follower, in a higher term if this is one.
    pub fn become_follower(&mut self, term: u64)
        requires
            old(self).state().inv(),
        ensures
            old(self).goes_to(
                *final(self),
                old(self).state().as_follower(term),
                old(self).state().follower_effects(term),
            ),
            final(self).state().inv(),
    {
        let ghost before = self.effects@;
        if term > self.current_term {
            self.current_term = term;
            self.voted_for = None;
        }
        self.role = Role::Follower { current_leader_id: None };
        self.persist_state();
        let ghost persisted = self.effects@;
        self.reset_election_timer();
        proof {
            let after = old(self).state().as_follower(term);
            lemma_adds_twice(
                before,
                persisted,
                self.effects@,
                seq![after.persisted()],
                seq![Expected::ResetElectionTimer],
                self.config,
            );
            assert(seq![after.persisted()] + seq![Expected::ResetElectionTimer] =~= old(
                self,
            ).state().follower_effects(term));
        }
    }

    /// Asks for a request to be sent to every peer that brings it up to date, or tells it that the
    /// leader is there.
    pub fn on_heartbeat(&mut self)
        requires
            old(self).state().inv(),
            old(self).state().role is Leader,
            old(self).state().can_replicate(),
        ensures
            old(self).goes_to(*final(self), old(self).state(), old(self).state().heartbeat()),
    {
        let ghost state = self.state();
        let ghost before = self.effects@;
        let ghost all = state.heartbeat();
        proof {
            lemma_adds_nothing(before, self.config);
            assert(all.take(0) =~= Seq::empty());
        }
        let mut i: usize = 0;
        while i < self.peer_ids.len()
            invariant
                i <= self.peer_ids@.len(),
                self.state() == state,
                state.inv(),
                state.role is Leader,
                state.can_replicate(),
                all == state.heartbeat(),
                adds(before, self.effects@, all.take(i as int), state.config),
            decreases state.peer_ids.len() - i,
        {
            let ghost so_far = self.effects@;
            let to = self.peer_ids[i];
            assert(state.peer_ids[i as int] == to);
            let node_next_index = match &self.role {
                Role::Leader { next_index, .. } => match next_index.get(&to) {
                    Some(next) => *next,
                    None => {
                        assert(false);
                        1
                    },
                },
                _ => {
                    assert(false);
                    1
                },
            };
            let node_prev_log_index = node_next_index - 1;
            let prev_log_term = self.log[node_prev_log_index].term;
            let entries = clone_entries(&self.log, node_next_index);
            let request = AppendRequest {
                term: self.current_term,
                leader_id: self.id,
                prev_log_index: node_prev_log_index,
                prev_log_term,
                entries,
                leader_commit: self.commit_index,
            };
            let message = RaftMessage::AppendRequest(request);
            self.effects.push(Effect::Send { to, message });
            proof {
                assert(all[i as int] == state.append_for(to));
                lemma_adds_one(
                    so_far,
                    Effect::<RaftType, Reply>::Send { to, message },
                    all[i as int],
                    state.config,
                );
                lemma_adds_twice(
                    before,
                    so_far,
                    self.effects@,
                    all.take(i as int),
                    seq![all[i as int]],
                    state.config,
                );
                assert(all.take(i as int) + seq![all[i as int]] =~= all.take(i + 1));
            }
            i += 1;
        }
        proof {
            assert(all.take(i as int) =~= all);
        }
    }

    /// Gives every peer the same number.
    fn index_for_peers(&self, index: usize) -> (r: HashMap<NodeId, usize>)
        ensures
            r@ == Map::new(
                |p: NodeId| self.state().peer_ids.contains(p),
                |p: NodeId| index,
            ),
            r@.dom().finite(),
    {
        let mut map: HashMap<NodeId, usize> = HashMap::new();
        let mut i: usize = 0;
        while i < self.peer_ids.len()
            invariant
                i <= self.peer_ids@.len(),
                map@.dom().finite(),
                forall|p: NodeId| #[trigger]
                    map@.contains_key(p) <==> exists|j: int| 0 <= j < i && self.peer_ids@[j] == p,
                forall|p: NodeId| #[trigger] map@.contains_key(p) ==> map@[p] == index,
            decreases self.peer_ids@.len() - i,
        {
            let ghost before = map@;
            let peer_id = self.peer_ids[i];
            map.insert(peer_id, index);
            proof {
                assert forall|p: NodeId| #[trigger] map@.contains_key(p) <==> exists|j: int|
                    0 <= j < i + 1 && self.peer_ids@[j] == p by {
                    if map@.contains_key(p) {
                        if p == peer_id {
                            assert(self.peer_ids@[i as int] == p);
                        } else {
                            assert(before.contains_key(p));
                        }
                    }
                    if exists|j: int| 0 <= j < i + 1 && self.peer_ids@[j] == p {
                        let j = choose|j: int| 0 <= j < i + 1 && self.peer_ids@[j] == p;
                        if j < i {
                            assert(before.contains_key(p));
                        }
                    }
                }
            }
            i += 1;
        }
        proof {
            assert(map@ =~= Map::new(
                |p: NodeId| self.state().peer_ids.contains(p),
                |p: NodeId| index,
            ));
        }
        map
    }

    /// Becomes the leader, and lets the peers know.
    pub fn become_leader(&mut self)
        requires
            old(self).state().sane(),
        ensures
            old(self).goes_to(
                *final(self),
                old(self).state().as_leader(),
                old(self).state().leader_effects(),
            ),
            final(self).state().inv(),
            final(self).state().can_replicate(),
    {
        let ghost before = self.effects@;
        let ghost leader = self.state().as_leader();
        self.log.push(LogEntry { term: self.current_term, command: LogCommand::NoOp });
        let next = self.log.len();
        let next_index = self.index_for_peers(next);
        let match_index = self.index_for_peers(0);
        self.role = Role::Leader { next_index, match_index };
        proof {
            assert(self.state().role == leader.role);
            assert(self.state() =~= leader);
            assert forall|i: int| 0 <= i < leader.peer_ids.len() implies {
                &&& leader.role->next_index.contains_key(#[trigger] leader.peer_ids[i])
                &&& 1 <= leader.role->next_index[leader.peer_ids[i]] <= leader.log.len()
            } by {
                assert(leader.peer_ids.contains(leader.peer_ids[i]));
            }
        }
        self.persist_state();
        let ghost persisted = self.effects@;
        self.on_heartbeat();
        proof {
            lemma_adds_twice(
                before,
                persisted,
                self.effects@,
                seq![leader.persisted()],
                leader.heartbeat(),
                self.config,
            );
        }
    }

    /// Stands for election: votes for itself in the next term, and asks its peers for their votes.
    pub fn become_candidate(&mut self)
        requires
            old(self).state().inv(),
            old(self).state().current_term < u64::MAX,
        ensures
            old(self).goes_to(
                *final(self),
                old(self).state().stood(),
                old(self).state().stood_effects(),
            ),
            final(self).state().inv(),
    {
        let ghost before = self.effects@;
        let ghost candidate = self.state().as_candidate();
        self.current_term = self.current_term + 1;
        self.voted_for = Some(self.id);
        self.role = Role::Candidate { votes_received: 1 };
        let ghost start = *self;
        assert(self.state() == candidate);
        self.reset_election_timer();
        let ghost timed = self.effects@;
        if has_majority(1, self.peer_ids.len() + 1) {
            self.become_leader();
            proof {
                lemma_adds_twice(
                    before,
                    timed,
                    self.effects@,
                    seq![Expected::ResetElectionTimer],
                    candidate.leader_effects(),
                    self.config,
                );
            }
            return;
        }
        let last_log_index = self.log.len() - 1;
        let last_log_term = self.log[last_log_index].term;
        let request = VoteRequest {
            term: self.current_term,
            candidate_id: self.id,
            last_log_index,
            last_log_term,
        };
        self.persist_state();
        let ghost persisted = self.effects@;
        self.broadcast_message(request);
        proof {
            let message = candidate.vote_request();
            lemma_adds_twice(
                timed,
                persisted,
                self.effects@,
                seq![candidate.persisted()],
                candidate.broadcast(message),
                self.config,
            );
            lemma_adds_twice(
                before,
                timed,
                self.effects@,
                seq![Expected::ResetElectionTimer],
                seq![candidate.persisted()] + candidate.broadcast(message),
                self.config,
            );
        }
    }

    /// Asks for the committed entries that were not applied yet to be applied.
    fn apply_committed(&mut self)
        requires
            old(self).state().inv(),
            old(self).state().can_apply(),
        ensures
            old(self).goes_to(
                *final(self),
                old(self).state().applied(),
                old(self).state().apply_effects(),
            ),
            final(self).state().inv(),
    {
        let ghost state = self.state();
        let ghost before = self.effects@;
        let ghost from = state.last_applied as int;
        proof {
            lemma_adds_nothing(before, self.config);
        }
        while self.last_applied < self.commit_index
            invariant
                state.inv(),
                state.can_apply(),
                from == state.last_applied,
                from <= self.last_applied,
                self.last_applied <= self.commit_index || self.last_applied == from,
                self.commit_index == state.commit_index,
                self.id == state.id,
                self.peer_ids@ == state.peer_ids,
                self.config == state.config,
                self.current_term == state.current_term,
                self.voted_for == state.voted_for,
                self.log@ == state.log,
                self.role@ == state.role,
                forall|k: usize| #[trigger]
                    self.pending_applies@.contains_key(k) <==> state.pending_applies.contains_key(k)
                        && !(from < k <= self.last_applied && state.log[k as int].command is Command),
                forall|k: usize| #[trigger]
                    self.pending_applies@.contains_key(k) ==> self.pending_applies@[k]
                        == state.pending_applies[k],
                adds(
                    before,
                    self.effects@,
                    state.applies(from, self.last_applied as int),
                    state.config,
                ),
            decreases self.commit_index - self.last_applied,
        {
            let ghost so_far = self.effects@;
            let ghost done = self.last_applied as int;
            self.last_applied = self.last_applied + 1;
            let index = self.last_applied;
            match &self.log[index].command {
                LogCommand::NoOp => {},
                LogCommand::Command(command) => {
                    let given = command.clone();
                    let waiting = self.pending_applies.remove(&index);
                    proof {
                        assert(waiting == state.waiting(index as int));
                    }
                    self.effects.push(Effect::Apply { index, command: given, waiting });
                    proof {
                        let expected = Expected::Apply {
                            index: index as int,
                            command: state.log[index as int].command->Command_0,
                            waiting: state.waiting(index as int),
                        };
                        lemma_adds_one(
                            so_far,
                            Effect::<RaftType, Reply>::Apply { index, command: given, waiting },
                            expected,
                            state.config,
                        );
                        lemma_adds_twice(
                            before,
                            so_far,
                            self.effects@,
                            state.applies(from, done),
                            seq![expected],
                            state.config,
                        );
                        assert(state.applies(from, done) + seq![expected] =~= state.applies(
                            from,
                            index as int,
                        ));
                    }
                },
            }
        }
        proof {
            assert(self.state().pending_applies =~= state.applied().pending_applies);
            assert(self.state() =~= state.applied());
        }
    }

    /// How many of these are known to have the entry at `index`.
    fn count_replicas(match_index: &HashMap<NodeId, usize>, index: usize) -> (r: usize)
        requires
            match_index@.dom().finite(),
        ensures
            r == replica_count(match_index@, index as int),
    {
        let ghost held = match_index@.dom().filter(|p: NodeId| match_index@[p] >= index);
        let ghost keys = match_index.keys().remaining();
        let mut count: usize = 0;
        let total = match_index.len();
        proof {
            assert(keys.take(0).unref().to_set() =~= Set::<NodeId>::empty());
            assert(held.intersect(Set::<NodeId>::empty()) =~= Set::<NodeId>::empty());
        }
        for peer_id in iter: match_index.keys()
            invariant
                keys == match_index.keys().remaining(),
                iter.seq() == keys,
                keys.no_duplicates(),
                match_index@.dom().finite(),
                keys.unref().to_set() == match_index@.dom(),
                keys.len() == match_index@.dom().len(),
                total == match_index@.len(),
                held == match_index@.dom().filter(|p: NodeId| match_index@[p] >= index),
                count <= iter.index(),
                count == held.intersect(keys.take(iter.index() as int).unref().to_set()).len(),
        {
            let ghost i = iter.index() as int;
            let ghost seen = keys.take(i).unref().to_set();
            let ghost with = keys.take(i + 1).unref().to_set();
            proof {
                lemma_key_set_step(keys, i);
                assert(keys.unref()[i] == *peer_id);
                assert(keys.unref().to_set().contains(*peer_id));
                assert(held.finite());
            }
            if let Some(held_index) = match_index.get(peer_id) {
                if *held_index >= index {
                    count = count + 1;
                    proof {
                        assert(held.contains(*peer_id));
                        assert(held.intersect(with) =~= held.intersect(seen).insert(*peer_id));
                    }
                } else {
                    proof {
                        assert(held.intersect(with) =~= held.intersect(seen));
                    }
                }
            }
        }
        proof {
            assert(keys.take(keys.len() as int) =~= keys);
            assert(held.intersect(match_index@.dom()) =~= held);
        }
        count
    }

    /// Commits the log as far as a majority of the cluster has it, if that is an entry of this
    /// term.
    pub fn advance_commit(&mut self)
        requires
            old(self).state().inv(),
        ensures
            ({
                let index = final(self).state().commit_index;
                &&& old(self).state().commits_to(index as int)
                &&& old(self).goes_to(
                    *final(self),
                    old(self).state().with_commit(index),
                    Seq::empty(),
                )
            }),
            final(self).state().inv(),
    {
        let ghost state = self.state();
        proof {
            lemma_adds_nothing(self.effects@, self.config);
        }
        let mut index: usize = self.log.len();
        let total = self.peer_ids.len() + 1;
        let match_index = match &self.role {
            Role::Leader { match_index, .. } => match_index,
            _ => return,
        };
        let mut found: Option<usize> = None;
        while index > self.commit_index + 1
            invariant_except_break
                found is None,
                forall|n: int| index <= n ==> !#[trigger] state.can_commit(n),
            invariant
                state == self.state(),
                state.inv(),
                state.role is Leader,
                state.role->match_index == match_index@,
                total == state.peer_ids.len() + 1,
                self.commit_index < usize::MAX,
                index <= self.log@.len(),
            ensures
                match found {
                    None => forall|n: int| state.commit_index < n ==> !#[trigger] state.can_commit(n),
                    Some(at) => state.can_commit(at as int) && forall|n: int|
                        at < n ==> !#[trigger] state.can_commit(n),
                },
            decreases index,
        {
            index = index - 1;
            if self.log[index].term != self.current_term {
                continue;
            }
            let replicated_count = Self::count_replicas(match_index, index).saturating_add(1);
            if has_majority(replicated_count, total) {
                found = Some(index);
                break;
            }
        }
        if let Some(at) = found {
            self.commit_index = at;
        }
    }

    /// What the node does when a peer answers a request to append entries: a leader notes how far
    /// the peer is, commits what it can, and applies it.
    pub open spec fn notes_response(self, from: NodeId, msg: AppendResponse, after: Self) -> bool {
        let before = self.state();
        if msg.term > before.current_term {
            self.goes_to(after, before.as_follower(msg.term), before.follower_effects(msg.term))
        } else if msg.term < before.current_term || !(before.role is Leader) {
            self.goes_to(after, before, Seq::empty())
        } else {
            let noted = before.noted(from, msg);
            let committed = noted.with_commit(after.state().commit_index);
            &&& noted.commits_to(committed.commit_index as int)
            &&& self.goes_to(after, committed.applied(), committed.apply_effects())
        }
    }

    /// Takes a peer's answer to a request to append entries.
    pub fn append_response(&mut self, from: NodeId, msg: &AppendResponse)
        requires
            old(self).state().inv(),
            old(self).state().accepts_append_response(*msg),
        ensures
            final(self).state().inv(),
            old(self).notes_response(from, *msg, *final(self)),
    {
        let ghost before = *self;
        proof {
            lemma_adds_nothing(self.effects@, self.config);
        }
        if msg.term < self.current_term {
            return;
        }
        if msg.term > self.current_term {
            self.become_follower(msg.term);
            return;
        }
        match &mut self.role {
            Role::Leader { next_index, match_index } => {
                if msg.success {
                    match_index.insert(from, msg.match_index);
                    next_index.insert(from, msg.match_index + 1);
                } else {
                    let next = msg.match_index.saturating_sub(1);
                    next_index.insert(
                        from,
                        if next > 1 {
                            next
                        } else {
                            1
                        },
                    );
                }
            },
            _ => return,
        }
        let ghost noted = before.state().noted(from, *msg);
        assert(self.state() =~= noted);
        proof {
            assert forall|i: int| 0 <= i < noted.peer_ids.len() implies noted.role->next_index.contains_key(
                #[trigger] noted.peer_ids[i],
            ) by {
                assert(before.state().role->next_index.contains_key(before.state().peer_ids[i]));
            }
        }
        self.advance_commit();
        let ghost advanced = *self;
        self.apply_committed();
        proof {
            lemma_adds_twice(
                before.effects(),
                advanced.effects(),
                self.effects(),
                Seq::empty(),
                advanced.state().apply_effects(),
                self.config,
            );
            assert(Seq::<Expected<RaftType, Reply>>::empty() + advanced.state().apply_effects()
                =~= advanced.state().apply_effects());
        }
    }

    /// How many of a leader's entries are in the log already.
    fn count_present(&self, prev: usize, entries: &Vec<LogEntry<RaftType::Command>>) -> (r: usize)
        requires
            prev < self.state().log.len(),
        ensures
            r == entries_present(self.state().log, prev as int, entries@),
            r <= entries@.len(),
            prev + 1 + r <= self.state().log.len(),
    {
        let ghost log = self.log@;
        let mut i: usize = 0;
        proof {
            assert(entries@.skip(0) =~= entries@);
        }
        while i < entries.len()
            invariant
                i <= entries@.len(),
                log == self.log@,
                prev + 1 + i <= log.len(),
                entries_present(log, prev as int, entries@) == i + entries_present(
                    log,
                    prev + i,
                    entries@.skip(i as int),
                ),
            decreases entries@.len() - i,
        {
            let left = self.log.len() - i;
            if prev + 1 >= left {
                return i;
            }
            if self.log[prev + 1 + i].term != entries[i].term {
                return i;
            }
            proof {
                assert(entries@.skip(i as int).drop_first() =~= entries@.skip(i + 1));
            }
            i += 1;
        }
        i
    }

    /// Whether a leader's request can be taken.
    pub fn can_append(&self, msg: &AppendRequest<RaftType>) -> (r: bool)
        requires
            self.state().inv(),
        ensures
            r == self.state().accepts_append_request(*msg),
    {
        if msg.term < self.current_term {
            return true;
        }
        if self.role.is_leader() && msg.term == self.current_term {
            return false;
        }
        let prev = msg.prev_log_index;
        if prev >= self.log.len() || self.log[prev].term != msg.prev_log_term {
            return true;
        }
        if msg.entries.len() >= usize::MAX - prev {
            return false;
        }
        let present = self.count_present(prev, &msg.entries);
        let ghost log = merged(self.log@, prev as int, msg.entries@);
        let len = if present == msg.entries.len() {
            self.log.len()
        } else {
            prev + 1 + msg.entries.len()
        };
        assert(log.len() == len);
        let commit = if msg.leader_commit <= self.commit_index {
            self.commit_index
        } else if msg.leader_commit <= len - 1 {
            msg.leader_commit
        } else {
            len - 1
        };
        self.last_applied >= commit || commit < len
    }

    /// Takes a leader's request to append entries, and answers it.
    pub fn append_request(&mut self, from: NodeId, msg: AppendRequest<RaftType>)
        requires
            old(self).state().inv(),
            old(self).state().accepts_append_request(msg),
        ensures
            old(self).goes_to(
                *final(self),
                old(self).state().after_append_request(msg),
                old(self).state().append_request_effects(from, msg),
            ),
            final(self).state().inv(),
    {
        let ghost before = *self;
        let ghost state = self.state();
        let ghost answer = state.sent(
            from,
            RaftMessage::AppendResponse(state.append_answer(msg)),
        );
        if msg.term < self.current_term {
            let response = AppendResponse {
                term: self.current_term,
                match_index: 0,
                success: false,
            };
            self.send_message(from, RaftMessage::AppendResponse(response));
            return;
        }
        if msg.term > self.current_term || self.role.is_candidate() {
            self.become_follower(msg.term);
        } else {
            proof {
                lemma_adds_nothing(self.effects@, self.config);
            }
        }
        let ghost joined = self.effects@;
        if let Role::Follower { current_leader_id: None } = self.role {
            self.role = Role::Follower { current_leader_id: Some(msg.leader_id) };
        }
        let ghost follower = state.in_term_of(msg).led_by(msg.leader_id);
        assert(self.state() =~= follower);
        self.reset_election_timer();
        let ghost timed = self.effects@;
        proof {
            lemma_adds_twice(
                before.effects(),
                joined,
                timed,
                state.in_term_effects(msg),
                seq![Expected::ResetElectionTimer],
                self.config,
            );
        }
        let ghost opening = state.in_term_effects(msg) + seq![Expected::ResetElectionTimer];
        let match_index = msg.prev_log_index;
        if match_index >= self.log.len() {
            let response = AppendResponse {
                term: self.current_term,
                match_index: self.log.len() - 1,
                success: false,
            };
            self.send_message(from, RaftMessage::AppendResponse(response));
            proof {
                lemma_adds_twice(
                    before.effects(),
                    timed,
                    self.effects@,
                    opening,
                    answer,
                    self.config,
                );
                assert(opening + Seq::empty() + answer =~= opening + answer);
            }
            return;
        }
        if self.log[match_index].term != msg.prev_log_term {
            let response = AppendResponse { term: self.current_term, match_index, success: false };
            self.send_message(from, RaftMessage::AppendResponse(response));
            proof {
                lemma_adds_twice(
                    before.effects(),
                    timed,
                    self.effects@,
                    opening,
                    answer,
                    self.config,
                );
                assert(opening + Seq::empty() + answer =~= opening + answer);
            }
            return;
        }
        let last_match_index = msg.prev_log_index + msg.entries.len();
        let present = self.count_present(match_index, &msg.entries);
        let leader_commit = msg.leader_commit;
        let ghost all_entries = msg.entries@;
        let mut entries = msg.entries;
        if present < entries.len() {
            let mut rest = entries.split_off(present);
            self.log.truncate(match_index + 1 + present);
            self.log.append(&mut rest);
        }
        proof {
            assert(self.log@ =~= merged(follower.log, match_index as int, all_entries));
        }
        if leader_commit > self.commit_index {
            let last = self.log.len() - 1;
            self.commit_index = if leader_commit < last {
                leader_commit
            } else {
                last
            };
        }
        let ghost updated = follower.with_entries(msg);
        assert(self.state() =~= updated);
        let log_len = self.log.len();
        assert(updated.role is Follower);
        assert(updated.log.len() == log_len && log_len >= 1);
        assert(updated.inv());
        self.persist_state();
        let ghost persisted = self.effects@;
        self.apply_committed();
        let ghost applied = self.effects@;
        let response = AppendResponse {
            term: self.current_term,
            match_index: last_match_index,
            success: true,
        };
        self.send_message(from, RaftMessage::AppendResponse(response));
        proof {
            let changes = seq![updated.persisted()] + updated.apply_effects();
            lemma_adds_twice(
                timed,
                persisted,
                applied,
                seq![updated.persisted()],
                updated.apply_effects(),
                self.config,
            );
            lemma_adds_twice(
                before.effects(),
                timed,
                applied,
                opening,
                changes,
                self.config,
            );
            lemma_adds_twice(
                before.effects(),
                applied,
                self.effects@,
                opening + changes,
                answer,
                self.config,
            );
        }
    }

    /// Takes a candidate's request for a vote, and answers it.
    pub fn vote_request(&mut self, from: NodeId, msg: VoteRequest)
        requires
            old(self).state().inv(),
        ensures
            old(self).goes_to(
                *final(self),
                old(self).state().after_vote_request(msg),
                old(self).state().vote_request_effects(from, msg),
            ),
            final(self).state().inv(),
    {
        let ghost before = *self;
        let ghost state = self.state();
        let ghost after = state.after_vote_request(msg);
        let ghost answer = state.sent(
            from,
            RaftMessage::VoteResponse(
                VoteResponse { term: after.current_term, vote_granted: state.grants(msg) },
            ),
        );
        let ghost none = Seq::<Expected<RaftType, Reply>>::empty();
        if msg.term < self.current_term {
            let response = VoteResponse { term: self.current_term, vote_granted: false };
            self.send_message(from, RaftMessage::VoteResponse(response));
            proof {
                assert(none + none + answer =~= answer);
            }
            return;
        }
        let ghost opening = if msg.term > state.current_term {
            state.follower_effects(msg.term)
        } else {
            none
        };
        if msg.term > self.current_term {
            self.become_follower(msg.term);
        } else {
            proof {
                lemma_adds_nothing(self.effects@, self.config);
            }
        }
        let ghost joined = self.effects@;
        let can_vote = match self.voted_for {
            None => true,
            Some(candidate) => candidate == msg.candidate_id,
        };
        let last_log_index = self.log.len() - 1;
        let last_log_term = self.log[last_log_index].term;
        let log_up_to_date = msg.last_log_term > last_log_term || (msg.last_log_term
            == last_log_term && msg.last_log_index >= last_log_index);
        if can_vote && log_up_to_date {
            self.voted_for = Some(msg.candidate_id);
            assert(self.state() =~= after);
            self.reset_election_timer();
            let ghost timed = self.effects@;
            let response = VoteResponse { term: self.current_term, vote_granted: true };
            self.persist_state();
            let ghost persisted = self.effects@;
            self.send_message(from, RaftMessage::VoteResponse(response));
            proof {
                let first = seq![Expected::<RaftType, Reply>::ResetElectionTimer];
                let second = seq![after.persisted()];
                let both = seq![Expected::ResetElectionTimer, after.persisted()];
                assert(first + second =~= both);
                lemma_adds_twice(joined, timed, persisted, first, second, self.config);
                lemma_adds_twice(
                    before.effects(),
                    joined,
                    persisted,
                    opening,
                    both,
                    self.config,
                );
                lemma_adds_twice(
                    before.effects(),
                    persisted,
                    self.effects@,
                    opening + both,
                    answer,
                    self.config,
                );
            }
        } else {
            let response = VoteResponse { term: self.current_term, vote_granted: false };
            self.send_message(from, RaftMessage::VoteResponse(response));
            proof {
                lemma_adds_twice(
                    before.effects(),
                    joined,
                    self.effects@,
                    opening,
                    answer,
                    self.config,
                );
                assert(opening + none + answer =~= opening + answer);
            }
        }
    }

    /// Takes a peer's answer to a request for votes.
    pub fn vote_response(&mut self, msg: VoteResponse)
        requires
            old(self).state().inv(),
        ensures
            old(self).goes_to(
                *final(self),
                old(self).state().after_vote_response(msg),
                old(self).state().vote_response_effects(msg),
            ),
            final(self).state().inv(),
    {
        proof {
            lemma_adds_nothing(self.effects@, self.config);
        }
        if msg.term < self.current_term {
            return;
        }
        if msg.term > self.current_term {
            self.become_follower(msg.term);
            return;
        }
        let ghost before = self.state();
        let votes = match self.role {
            Role::Candidate { votes_received } => votes_received,
            _ => return,
        };
        if msg.vote_granted {
            let total = self.peer_ids.len() + 1;
            self.role = Role::Candidate { votes_received: votes + 1 };
            if has_majority(votes + 1, total) {
                let ghost counted = self.state();
                assert(counted.as_leader() =~= before.as_leader());
                self.become_leader();
            }
        }
    }

    /// What the node does when a message comes in.
    pub open spec fn handles(self, envelope: RaftEnvelope<RaftType>, after: Self) -> bool {
        let before = self.state();
        match envelope.message {
            RaftMessage::AppendRequest(msg) => self.goes_to(
                after,
                before.after_append_request(msg),
                before.append_request_effects(envelope.from, msg),
            ),
            RaftMessage::AppendResponse(msg) => self.notes_response(envelope.from, msg, after),
            RaftMessage::VoteRequest(msg) => self.goes_to(
                after,
                before.after_vote_request(msg),
                before.vote_request_effects(envelope.from, msg),
            ),
            RaftMessage::VoteResponse(msg) => self.goes_to(
                after,
                before.after_vote_response(msg),
                before.vote_response_effects(msg),
            ),
        }
    }

    /// Takes a message from another node.
    pub fn handle_message(&mut self, envelope: RaftEnvelope<RaftType>)
        requires
            old(self).state().inv(),
            old(self).state().accepts(envelope.message),
        ensures
            final(self).state().inv(),
            old(self).handles(envelope, *final(self)),
    {
        match envelope.message {
            RaftMessage::AppendResponse(msg) => self.append_response(envelope.from, &msg),
            RaftMessage::AppendRequest(msg) => self.append_request(envelope.from, msg),
            RaftMessage::VoteRequest(msg) => self.vote_request(envelope.from, msg),
            RaftMessage::VoteResponse(msg) => self.vote_response(msg),
        }
    }

    /// What a client is told that needs the leader.
    fn require_leader(&self) -> (r: std::result::Result<(), RaftError>)
        ensures
            match r {
                Ok(()) => self.state().role is Leader,
                Err(RaftError::NotLeader(leader)) => self.state().role == RoleView::Follower {
                    current_leader_id: Some(leader),
                },
                Err(e) => {
                    &&& e is NoLeader
                    &&& self.state().role is Candidate || self.state().role == RoleView::Follower {
                        current_leader_id: None,
                    }
                },
            },
    {
        match &self.role {
            Role::Leader { .. } => Ok(()),
            Role::Follower { current_leader_id: Some(leader) } => Err(
                RaftError::NotLeader(*leader),
            ),
            Role::Follower { current_leader_id: None } => Err(RaftError::NoLeader),
            Role::Candidate { .. } => Err(RaftError::NoLeader),
        }
    }

    /// Asks for a client to be answered.
    fn respond(
        &mut self,
        reply: Reply,
        response: ClientResponse<RaftType>,
        Ghost(expected): Ghost<ExpectedResponse<RaftType>>,
    )
        requires
            answers(response, expected),
        ensures
            old(self).goes_to(
                *final(self),
                old(self).state(),
                seq![Expected::Respond { reply, response: expected }],
            ),
    {
        let ghost before = self.effects@;
        self.effects.push(Effect::Respond { reply, response });
        proof {
            lemma_adds_one(
                before,
                Effect::<RaftType, Reply>::Respond { reply, response },
                Expected::Respond { reply, response: expected },
                self.config,
            );
        }
    }

    /// The state of the node, as clients see it.
    pub fn status(&self) -> (r: RaftStatus)
        ensures
            r@ == self.state().status(),
    {
        let (role, leader_id) = match &self.role {
            Role::Follower { current_leader_id } => (RaftRole::Follower, *current_leader_id),
            Role::Candidate { votes_received } => (
                RaftRole::Candidate { votes_received: *votes_received },
                None,
            ),
            Role::Leader { next_index, match_index } => (
                RaftRole::Leader {
                    next_index: next_index.clone(),
                    match_index: match_index.clone(),
                },
                Some(self.id),
            ),
        };
        let peer_ids = self.peer_ids.clone();
        assert(peer_ids@ =~= self.peer_ids@);
        RaftStatus {
            id: self.id,
            current_term: self.current_term,
            voted_for: self.voted_for,
            role,
            leader_id,
            commit_index: self.commit_index,
            last_applied: self.last_applied,
            log_len: self.log.len(),
            peer_ids,
        }
    }

    /// Takes a client's command.
    pub fn client_command(&mut self, command: ClientCommands<RaftType, Reply>)
        requires
            old(self).state().inv(),
            old(self).state().accepts_command(command),
        ensures
            old(self).goes_to(
                *final(self),
                old(self).state().after_command(command),
                old(self).state().command_effects(command),
            ),
            final(self).state().inv(),
    {
        let ghost state = self.state();
        let ghost before = self.effects@;
        match command {
            ClientCommands::Apply { command, reply } => match self.require_leader() {
                Ok(()) => {
                    let index = self.log.len();
                    self.log.push(
                        LogEntry {
                            term: self.current_term,
                            command: LogCommand::Command(command),
                        },
                    );
                    self.pending_applies.insert(index, reply);
                    let ghost after = state.with_command(command, reply);
                    assert(self.state() =~= after);
                    self.persist_state();
                    let ghost persisted = self.effects@;
                    self.on_heartbeat();
                    proof {
                        lemma_adds_twice(
                            before,
                            persisted,
                            self.effects@,
                            seq![after.persisted()],
                            after.heartbeat(),
                            self.config,
                        );
                    }
                },
                Err(err) => self.respond(
                    reply,
                    ClientResponse::Failed(err),
                    Ghost(state.leadership()),
                ),
            },
            ClientCommands::IsLeader { reply } => {
                let response = match self.require_leader() {
                    Ok(()) => ClientResponse::Leader,
                    Err(err) => ClientResponse::Failed(err),
                };
                self.respond(reply, response, Ghost(state.leadership()));
            },
            ClientCommands::GetLog { reply } => {
                let log = clone_entries(&self.log, 0);
                assert(self.log@.skip(0) =~= self.log@);
                self.respond(
                    reply,
                    ClientResponse::Log(log),
                    Ghost(ExpectedResponse::Log(state.log)),
                );
            },
            ClientCommands::GetLogEntry { index, reply } => {
                let entry = if index < self.log.len() {
                    Some(clone_entry(&self.log[index]))
                } else {
                    None
                };
                let ghost expected = if index < state.log.len() {
                    Some(state.log[index as int])
                } else {
                    None
                };
                self.respond(
                    reply,
                    ClientResponse::LogEntry(entry),
                    Ghost(ExpectedResponse::LogEntry(expected)),
                );
            },
            ClientCommands::GetStatus { reply } => {
                let status = self.status();
                self.respond(
                    reply,
                    ClientResponse::Status(status),
                    Ghost(ExpectedResponse::Status(state.status())),
                );
            },
        }
    }

    /// A node with these peers, which goes on with the state that it saved before a restart, if it
    /// did.
    pub fn new(
        id: NodeId,
        peer_ids: Vec<NodeId>,
        config: RaftConfig,
        restored: Option<PersistentState<RaftType>>,
    ) -> (r: Self)
        requires
            config.valid(),
            peer_ids@.len() < usize::MAX,
            restored matches Some(state) ==> state.log@.len() >= 1,
        ensures
            r.state().inv(),
            r.effects() == Seq::<Effect<RaftType, Reply>>::empty(),
            r.state().id == id,
            r.state().peer_ids == peer_ids@.filter(|p: NodeId| p != id),
            r.state().config == config,
            r.state().role == (RoleView::Follower { current_leader_id: None }),
            r.state().commit_index == 0,
            r.state().last_applied == 0,
            r.state().pending_applies == Map::<usize, Reply>::empty(),
            match restored {
                Some(state) => {
                    &&& r.state().restored_from(state)
                    &&& r.state().current_term == state.current_term
                    &&& r.state().voted_for == state.voted_for
                    &&& r.state().log == state.log@
                },
                None => {
                    &&& r.state().current_term == 0
                    &&& r.state().voted_for is None
                    &&& r.state().log == seq![
                        LogEntry::<RaftType::Command> { term: 0, command: LogCommand::NoOp },
                    ]
                },
            },
    {
        let mut others: Vec<NodeId> = Vec::new();
        let mut i: usize = 0;
        proof {
            reveal(Seq::filter);
            assert(peer_ids@.take(0).filter(|p: NodeId| p != id) =~= Seq::<NodeId>::empty());
        }
        while i < peer_ids.len()
            invariant
                i <= peer_ids@.len(),
                others@.len() <= i,
                others@ == peer_ids@.take(i as int).filter(|p: NodeId| p != id),
            decreases peer_ids@.len() - i,
        {
            let peer_id = peer_ids[i];
            if peer_id != id {
                others.push(peer_id);
            }
            proof {
                reveal(Seq::filter);
                let longer = peer_ids@.take(i + 1);
                assert(longer.drop_last() =~= peer_ids@.take(i as int));
                assert(longer.last() == peer_id);
            }
            i += 1;
        }
        proof {
            assert(peer_ids@.take(i as int) =~= peer_ids@);
        }
        let mut log: Vec<LogEntry<RaftType::Command>> = Vec::new();
        log.push(LogEntry { term: 0, command: LogCommand::NoOp });
        assert(log@ =~= seq![
            LogEntry::<RaftType::Command> { term: 0, command: LogCommand::NoOp },
        ]);
        let mut node = RaftNode {
            current_term: 0,
            voted_for: None,
            log,
            id,
            peer_ids: others,
            role: Role::Follower { current_leader_id: None },
            commit_index: 0,
            last_applied: 0,
            config,
            pending_applies: HashMap::new(),
            effects: Vec::new(),
        };
        if let Some(state) = restored {
            let _ = node.restore_state(Ok(Some(Ok(state))));
        }
        node
    }

    /// Goes on with the state that was saved before a restart. `saved` is what came of asking the
    /// storage for it: there may be none, it may not be decodable, and the storage may fail.
    pub fn restore_state(
        &mut self,
        saved: Result<Option<std::result::Result<PersistentState<RaftType>, PostcardError>>>,
    ) -> (r: Result<()>)
        requires
            saved matches Ok(Some(Ok(state))) ==> state.log@.len() >= 1,
        ensures
            final(self).effects() == old(self).effects(),
            old(self).state().inv() ==> final(self).state().inv(),
            match saved {
                Ok(None) => r is Ok && final(self).state() == old(self).state(),
                Ok(Some(Ok(state))) => {
                    &&& r is Ok
                    &&& final(self).state() == old(self).state().with_saved(state)
                    &&& final(self).state().current_term == state.current_term
                    &&& final(self).state().voted_for == state.voted_for
                    &&& final(self).state().log == state.log@
                },
                Ok(Some(Err(e))) => {
                    &&& r matches Err(RaftError::SerializationError(error)) && error == e
                    &&& final(self).state() == old(self).state()
                },
                Err(e) => {
                    &&& r matches Err(error) && error == e
                    &&& final(self).state() == old(self).state()
                },
            },
    {
        match saved {
            Err(e) => Err(e),
            Ok(None) => Ok(()),
            Ok(Some(Err(e))) => Err(RaftError::SerializationError(e)),
            Ok(Some(Ok(state))) => {
                self.current_term = state.current_term;
                self.voted_for = state.voted_for;
                self.log = state.log;
                Ok(())
            },
        }
    }

    /// What the node does when this happens.
    pub open spec fn takes(self, event: Event<RaftType, Reply>, after: Self) -> bool {
        let before = self.state();
        match event {
            Event::ElectionTimeout => if before.role is Leader {
                self.goes_to(after, before, Seq::empty())
            } else {
                self.goes_to(after, before.stood(), before.stood_effects())
            },
            Event::HeartbeatTick => self.goes_to(
                after,
                before,
                if before.role is Leader {
                    before.heartbeat()
                } else {
                    Seq::empty()
                },
            ),
            Event::Message(envelope) => self.handles(envelope, after),
            Event::Command(command) => self.goes_to(
                after,
                before.after_command(command),
                before.command_effects(command),
            ),
        }
    }

    /// Whether the node can go on when this happens.
    pub fn can_take(&self, event: &Event<RaftType, Reply>) -> (r: bool)
        requires
            self.state().inv(),
        ensures
            r == self.state().accepts_event(*event),
    {
        match event {
            Event::ElectionTimeout => self.role.is_leader() || self.current_term < u64::MAX,
            Event::HeartbeatTick => self.is_ready_to_replicate(),
            Event::Message(envelope) => match &envelope.message {
                RaftMessage::AppendRequest(msg) => self.can_append(msg),
                RaftMessage::AppendResponse(msg) => {
                    if !self.role.is_leader() || msg.term != self.current_term {
                        return true;
                    }
                    (!msg.success || msg.match_index < usize::MAX) && (self.last_applied
                        >= self.commit_index || self.commit_index < self.log.len())
                },
                _ => true,
            },
            Event::Command(command) => match command {
                ClientCommands::Apply { command, reply } => {
                    let len = self.log.len();
                    let ghost after = self.state().with_command(*command, *reply);
                    let ready = self.next_indices_lie_within(
                        if len < usize::MAX {
                            len + 1
                        } else {
                            len
                        },
                    );
                    proof {
                        assert(after.log.len() == len + 1);
                        if self.state().role is Leader && after.can_replicate() {
                            let next_index = self.state().role->next_index;
                            assert forall|i: int| 0 <= i < self.state().peer_ids.len() implies 1
                                <= next_index[#[trigger] self.state().peer_ids[i]]
                                <= after.log.len() by {
                                assert(1 <= next_index[after.peer_ids[i]]);
                            }
                        }
                    }
                    ready
                },
                _ => true,
            },
        }
    }

    /// Goes on when something happens: the one step of the node's life, over and over again.
    pub fn on_event(&mut self, event: Event<RaftType, Reply>)
        requires
            old(self).state().inv(),
            old(self).state().accepts_event(event),
        ensures
            final(self).state().inv(),
            old(self).takes(event, *final(self)),
            steps(old(self).state(), event, final(self).state()),
    {
        match event {
            Event::ElectionTimeout => {
                if !self.role.is_leader() {
                    self.become_candidate();
                } else {
                    proof {
                        lemma_adds_nothing(self.effects@, self.config);
                    }
                }
            },
            Event::HeartbeatTick => {
                if self.role.is_leader() {
                    self.on_heartbeat();
                } else {
                    proof {
                        lemma_adds_nothing(self.effects@, self.config);
                    }
                }
            },
            Event::Message(envelope) => self.handle_message(envelope),
            Event::Command(command) => self.client_command(command),
        }
    }

    /// Sets the election timer, as is to be done when the node is started.
    pub fn launch(&mut self)
        requires
            old(self).state().config.valid(),
        ensures
            old(self).goes_to(
                *final(self),
                old(self).state(),
                seq![Expected::ResetElectionTimer],
            ),
    {
        self.reset_election_timer();
    }

    /// Takes what the node has asked for.
    pub fn take_effects(&mut self) -> (r: Vec<Effect<RaftType, Reply>>)
        ensures
            r@ == old(self).effects(),
            final(self).effects() == Seq::<Effect<RaftType, Reply>>::empty(),
            final(self).state() == old(self).state(),
    {
        let mut taken: Vec<Effect<RaftType, Reply>> = Vec::new();
        std::mem::swap(&mut taken, &mut self.effects);
        taken
    }

    /// Whether the leader can tell every peer what comes next.
    pub fn is_ready_to_replicate(&self) -> (r: bool)
        requires
            self.state().inv(),
        ensures
            r == self.state().can_replicate(),
    {
        self.next_indices_lie_within(self.log.len())
    }

    /// Whether a leader has noted no peer beyond the end of a log of this length, or in front of its
    /// first entry.
    fn next_indices_lie_within(&self, len: usize) -> (r: bool)
        requires
            self.state().inv(),
        ensures
            r == (self.state().role matches RoleView::Leader { next_index, .. } ==> forall|i: int|
                0 <= i < self.state().peer_ids.len() ==> 1 <= next_index[
                #[trigger] self.state().peer_ids[i]] <= len),
    {
        match &self.role {
            Role::Leader { next_index, .. } => {
                let mut i: usize = 0;
                while i < self.peer_ids.len()
                    invariant
                        i <= self.peer_ids@.len(),
                        self.state().inv(),
                        self.state().role is Leader,
                        self.state().role->next_index == next_index@,
                        forall|j: int|
                            0 <= j < i ==> 1 <= next_index@[#[trigger] self.peer_ids@[j]]
                                <= len,
                    decreases self.peer_ids@.len() - i,
                {
                    let peer_id = self.peer_ids[i];
                    assert(self.state().peer_ids[i as int] == peer_id);
                    match next_index.get(&peer_id) {
                        Some(next) => {
                            if *next < 1 || *next > len {
                                return false;
                            }
                        },
                        None => {
                            assert(false);
                        },
                    }
                    i += 1;
                }
                true
            },
            _ => true,
        }
    }

    /// What the node is in the current term.
    pub fn role(&self) -> (r: &Role)
        ensures
            r@ == self.state().role,
    {
        &self.role
    }

    /// The log.
    pub fn log(&self) -> (r: &Vec<LogEntry<RaftType::Command>>)
        ensures
            r@ == self.state().log,
    {
        &self.log
    }
}

} // verus!
