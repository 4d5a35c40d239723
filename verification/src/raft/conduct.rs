//! What a node is seen to do: which messages it sends, what it saves, commits and applies, and what
//! comes of it when two nodes talk to each other.

use crate::raft::effect::{fulfils, ClientCommands, ClientResponse, Effect, Event, Expected};
use crate::raft::error::RaftError;
use crate::raft::laws::lemma_entries_present;
use crate::raft::message::{
    AppendRequest, AppendResponse, LogCommand, LogEntry, RaftEnvelope, RaftMessage, VoteRequest,
    VoteResponse,
};
use crate::raft::node::RaftNode;
use crate::raft::node_model::{entries_present, merged, NodeView};
use crate::raft::role::RoleView;
use crate::raft::status::{RaftRole, RaftRoleView};
use crate::raft::type_config::RaftTypeConfig;
use crate::raft::NodeId;
use vstd::prelude::*;

verus! {

/// What a node has asked for between two moments.
pub open spec fn asked<RaftType: RaftTypeConfig, Reply>(
    before: RaftNode<RaftType, Reply>,
    after: RaftNode<RaftType, Reply>,
) -> Seq<Effect<RaftType, Reply>> {
    after.effects().skip(before.effects().len() as int)
}

/// Whether a node can take an event, and this is what has become of it then.
pub open spec fn lives<RaftType: RaftTypeConfig, Reply>(
    before: RaftNode<RaftType, Reply>,
    event: Event<RaftType, Reply>,
    after: RaftNode<RaftType, Reply>,
) -> bool {
    &&& before.state().inv()
    &&& before.state().accepts_event(event)
    &&& before.takes(event, after)
}

/// The event of a message that comes in.
pub open spec fn incoming<RaftType: RaftTypeConfig, Reply>(
    from: NodeId,
    message: RaftMessage<RaftType>,
) -> Event<RaftType, Reply> {
    Event::Message(RaftEnvelope { from, message })
}

/// Whether two entries are of the same term, and one's command is a clone of the other's.
pub open spec fn same_entry<Command: Clone>(a: LogEntry<Command>, b: LogEntry<Command>) -> bool {
    &&& a.term == b.term
    &&& a.command is NoOp <==> b.command is NoOp
    &&& a.command is Command ==> cloned(a.command->Command_0, b.command->Command_0)
}

/// Whether two runs of entries are the same, entry by entry.
pub open spec fn same_entries<Command: Clone>(
    a: Seq<LogEntry<Command>>,
    b: Seq<LogEntry<Command>>,
) -> bool {
    &&& a.len() == b.len()
    &&& forall|i: int| 0 <= i < a.len() ==> same_entry(#[trigger] a[i], #[trigger] b[i])
}

/// Whether an effect saves the term, the vote and the log of a node.
pub open spec fn saves<RaftType: RaftTypeConfig, Reply>(
    effect: Effect<RaftType, Reply>,
    node: NodeView<RaftType, Reply>,
) -> bool {
    &&& effect matches Effect::Persist(saved)
    &&& saved.current_term == node.current_term
    &&& saved.voted_for == node.voted_for
    &&& same_entries(node.log, saved.log@)
}

/// Whether an effect sets the election timer to a time that the configuration allows.
pub open spec fn waits<RaftType: RaftTypeConfig, Reply>(
    effect: Effect<RaftType, Reply>,
    node: NodeView<RaftType, Reply>,
) -> bool {
    &&& effect matches Effect::ResetElectionTimer { timeout_ms }
    &&& node.config.election_timeout_min_ms <= timeout_ms
    &&& timeout_ms < node.config.election_timeout_max_ms
}

/// Whether an effect sends a peer all that comes behind what the leader takes the peer to have, with
/// the entry in front of it, and tells it how far the leader has committed.
pub open spec fn replicates<RaftType: RaftTypeConfig, Reply>(
    effect: Effect<RaftType, Reply>,
    leader: NodeView<RaftType, Reply>,
    peer: NodeId,
) -> bool {
    &&& effect matches Effect::Send { to, message: RaftMessage::AppendRequest(request) }
    &&& leader.role matches RoleView::Leader { next_index, .. }
    &&& to == peer
    &&& request.term == leader.current_term
    &&& request.leader_id == leader.id
    &&& request.prev_log_index + 1 == next_index[peer]
    &&& request.prev_log_term == leader.log[request.prev_log_index as int].term
    &&& request.leader_commit == leader.commit_index
    &&& request.prev_log_index + 1 + request.entries@.len() == leader.log.len()
    &&& forall|i: int|
        0 <= i < request.entries@.len() ==> same_entry(
            leader.log[request.prev_log_index + 1 + i],
            #[trigger] request.entries@[i],
        )
}

/// Whether these effects replicate the leader's log to all of its peers.
pub open spec fn replicates_to_all<RaftType: RaftTypeConfig, Reply>(
    effects: Seq<Effect<RaftType, Reply>>,
    leader: NodeView<RaftType, Reply>,
) -> bool {
    &&& effects.len() == leader.peer_ids.len()
    &&& forall|i: int|
        0 <= i < effects.len() ==> replicates(#[trigger] effects[i], leader, leader.peer_ids[i])
}

/// Whether a node that has won an election leads: it begins its term with an empty entry at the end of
/// its log, takes every peer to have all but that one, and knows of none that has any of it.
pub open spec fn takes_the_lead<RaftType: RaftTypeConfig, Reply>(
    before: NodeView<RaftType, Reply>,
    after: NodeView<RaftType, Reply>,
) -> bool {
    &&& after.log.len() == before.log.len() + 1
    &&& after.log.drop_last() == before.log
    &&& after.log.last().term == after.current_term
    &&& after.log.last().command is NoOp
    &&& after.role matches RoleView::Leader { next_index, match_index }
    &&& forall|p: NodeId| #[trigger] next_index.contains_key(p) <==> after.peer_ids.contains(p)
    &&& forall|p: NodeId| #[trigger] match_index.contains_key(p) <==> after.peer_ids.contains(p)
    &&& forall|p: NodeId| after.peer_ids.contains(p) ==> #[trigger] next_index[p] == after.log.len()
    &&& forall|p: NodeId| after.peer_ids.contains(p) ==> #[trigger] match_index[p] == 0
}

/// Whether all but the term, the vote, the log and the role of a node is as it was.
pub open spec fn same_progress<RaftType: RaftTypeConfig, Reply>(
    before: NodeView<RaftType, Reply>,
    after: NodeView<RaftType, Reply>,
) -> bool {
    &&& after.id == before.id
    &&& after.peer_ids == before.peer_ids
    &&& after.config == before.config
    &&& after.commit_index == before.commit_index
    &&& after.last_applied == before.last_applied
    &&& after.pending_applies == before.pending_applies
}

/// What was asked for is what is to be said of it, one by one.
proof fn lemma_asked<RaftType: RaftTypeConfig, Reply>(
    before: RaftNode<RaftType, Reply>,
    after: RaftNode<RaftType, Reply>,
    state: NodeView<RaftType, Reply>,
    expected: Seq<Expected<RaftType, Reply>>,
)
    requires
        before.goes_to(after, state, expected),
    ensures
        after.state() == state,
        after.effects().take(before.effects().len() as int) == before.effects(),
        asked(before, after).len() == expected.len(),
        forall|i: int|
            0 <= i < expected.len() ==> fulfils(
                #[trigger] asked(before, after)[i],
                expected[i],
                before.state().config,
            ),
{
}

/// A state that is to be saved is saved.
proof fn lemma_saves<RaftType: RaftTypeConfig, Reply>(
    effect: Effect<RaftType, Reply>,
    node: NodeView<RaftType, Reply>,
)
    requires
        fulfils(effect, node.persisted(), node.config),
    ensures
        saves(effect, node),
{
}

/// A heartbeat replicates the leader's log.
proof fn lemma_replicates<RaftType: RaftTypeConfig, Reply>(
    effects: Seq<Effect<RaftType, Reply>>,
    leader: NodeView<RaftType, Reply>,
)
    requires
        leader.role is Leader,
        leader.can_replicate(),
        effects.len() == leader.heartbeat().len(),
        forall|i: int|
            0 <= i < effects.len() ==> fulfils(
                #[trigger] effects[i],
                leader.heartbeat()[i],
                leader.config,
            ),
    ensures
        replicates_to_all(effects, leader),
{
    assert forall|i: int| 0 <= i < effects.len() implies replicates(
        #[trigger] effects[i],
        leader,
        leader.peer_ids[i],
    ) by {
        let peer = leader.peer_ids[i];
        let next = leader.role->next_index[peer] as int;
        assert(fulfils(effects[i], leader.append_for(peer), leader.config));
        let request = effects[i]->message->AppendRequest_0;
        assert forall|k: int| 0 <= k < request.entries@.len() implies same_entry(
            leader.log[request.prev_log_index + 1 + k],
            #[trigger] request.entries@[k],
        ) by {
            assert(leader.log.skip(next)[k] == leader.log[next + k]);
        }
    }
}

/// A node that stands for election does so in the next term, with its own vote, and asks every peer for
/// a vote: it names the index and the term of the last entry of its log, and it has saved its term and
/// its vote before.
pub proof fn law_candidate_shows_the_end_of_its_log<RaftType: RaftTypeConfig, Reply>(
    before: RaftNode<RaftType, Reply>,
    after: RaftNode<RaftType, Reply>,
)
    requires
        lives(before, Event::ElectionTimeout, after),
        !(before.state().role is Leader),
        before.state().peer_ids.len() > 0,
    ensures
        ({
            let a = before.state();
            let b = after.state();
            let asked = asked(before, after);
            &&& b.current_term == a.current_term + 1
            &&& b.voted_for == Some(a.id)
            &&& b.log == a.log
            &&& b.role == RoleView::Candidate { votes_received: 1 }
            &&& same_progress(a, b)
            &&& asked.len() == 2 + a.peer_ids.len()
            &&& waits(asked[0], a)
            &&& saves(asked[1], b)
            &&& forall|i: int|
                2 <= i < asked.len() ==> {
                    &&& #[trigger] asked[i] matches Effect::Send {
                        to,
                        message: RaftMessage::VoteRequest(request),
                    }
                    &&& to == a.peer_ids[i - 2]
                    &&& request.term == a.current_term + 1
                    &&& request.candidate_id == a.id
                    &&& request.last_log_index + 1 == a.log.len()
                    &&& request.last_log_term == a.log[a.log.len() - 1].term
                }
        }),
{
    let a = before.state();
    let b = a.as_candidate();
    lemma_asked(before, after, a.stood(), a.stood_effects());
    after.lemma_log_fits();
    let asked = asked(before, after);
    let sends = b.broadcast(b.vote_request());
    let expected = a.stood_effects();
    assert(fulfils(asked[0], expected[0], a.config));
    assert(fulfils(asked[1], expected[1], a.config));
    assert(expected[1] == b.persisted());
    lemma_saves(asked[1], b);
    assert forall|i: int| 2 <= i < asked.len() implies {
        &&& #[trigger] asked[i] matches Effect::Send {
            to,
            message: RaftMessage::VoteRequest(request),
        }
        &&& to == a.peer_ids[i - 2]
        &&& request.term == a.current_term + 1
        &&& request.candidate_id == a.id
        &&& request.last_log_index + 1 == a.log.len()
        &&& request.last_log_term == a.log[a.log.len() - 1].term
    } by {
        assert(fulfils(asked[i], expected[i], a.config));
        assert(expected[i] == sends[i - 2]);
    }
}

/// A node without peers is elected as soon as it stands.
pub proof fn law_lone_node_elects_itself<RaftType: RaftTypeConfig, Reply>(
    before: RaftNode<RaftType, Reply>,
    after: RaftNode<RaftType, Reply>,
)
    requires
        lives(before, Event::ElectionTimeout, after),
        !(before.state().role is Leader),
        before.state().peer_ids.len() == 0,
    ensures
        ({
            let a = before.state();
            let b = after.state();
            let asked = asked(before, after);
            &&& b.current_term == a.current_term + 1
            &&& b.voted_for == Some(a.id)
            &&& takes_the_lead(a, b)
            &&& same_progress(a, b)
            &&& asked.len() == 2
            &&& waits(asked[0], a)
            &&& saves(asked[1], b)
        }),
{
    let a = before.state();
    lemma_asked(before, after, a.stood(), a.stood_effects());
    let expected = a.stood_effects();
    let asked = asked(before, after);
    after.lemma_log_fits();
    assert(fulfils(asked[0], expected[0], a.config));
    assert(fulfils(asked[1], expected[1], a.config));
    lemma_saves(asked[1], after.state());
    assert(after.state().log.drop_last() =~= a.log);
}

/// A node gives its vote to a candidate if, and only if, the candidate's term is not behind its own, it
/// has given it to no other one in that term, and the last entry of the candidate's log is of a later
/// term than its own last one, or of the same and no earlier in the log. It has saved the vote before it
/// answers. A higher term makes it a follower.
pub proof fn law_vote_goes_to_the_better_log<RaftType: RaftTypeConfig, Reply>(
    before: RaftNode<RaftType, Reply>,
    from: NodeId,
    msg: VoteRequest,
    after: RaftNode<RaftType, Reply>,
)
    requires
        lives(before, incoming(from, RaftMessage::VoteRequest(msg)), after),
    ensures
        ({
            let a = before.state();
            let b = after.state();
            let asked = asked(before, after);
            let last = a.log[a.log.len() - 1];
            let granted = {
                &&& msg.term > a.current_term || msg.term == a.current_term && (a.voted_for is None
                    || a.voted_for == Some(msg.candidate_id))
                &&& msg.last_log_term > last.term || msg.last_log_term == last.term
                    && msg.last_log_index + 1 >= a.log.len()
            };
            let answers: int = if a.peer_ids.contains(from) {
                1
            } else {
                0
            };
            &&& b.log == a.log
            &&& same_progress(a, b)
            &&& b.current_term == if msg.term > a.current_term {
                msg.term
            } else {
                a.current_term
            }
            &&& b.role == if msg.term > a.current_term {
                (RoleView::Follower { current_leader_id: None })
            } else {
                a.role
            }
            &&& b.voted_for == if granted {
                Some(msg.candidate_id)
            } else if msg.term > a.current_term {
                None
            } else {
                a.voted_for
            }
            &&& asked.len() >= answers
            &&& forall|i: int|
                0 <= i < asked.len() - answers ==> #[trigger] asked[i] is Persist
                    || waits(asked[i], a)
            &&& granted ==> asked.len() >= answers + 2 && saves(
                asked[asked.len() - answers - 1],
                b,
            ) && waits(asked[asked.len() - answers - 2], a)
            &&& !granted && msg.term > a.current_term ==> asked.len() == answers + 2 && saves(
                asked[0],
                b,
            ) && waits(asked[1], a)
            &&& !granted && msg.term <= a.current_term ==> asked.len() == answers
            &&& a.peer_ids.contains(from) ==> {
                &&& asked.last() matches Effect::Send {
                    to,
                    message: RaftMessage::VoteResponse(answer),
                }
                &&& to == from
                &&& answer.term == b.current_term
                &&& answer.vote_granted == granted
            }
        }),
{
    let a = before.state();
    let b = a.after_vote_request(msg);
    let expected = a.vote_request_effects(from, msg);
    lemma_asked(before, after, b, expected);
    let asked = asked(before, after);
    let n = asked.len() as int;
    assert forall|i: int| 0 <= i < n implies fulfils(#[trigger] asked[i], expected[i], a.config) by {}
    let answers: int = if a.peer_ids.contains(from) {
        1
    } else {
        0
    };
    if a.grants(msg) {
        assert(expected[n - answers - 1] == b.persisted());
        assert(fulfils(asked[n - answers - 1], b.persisted(), b.config));
        lemma_saves(asked[n - answers - 1], b);
        assert(expected[n - answers - 2] is ResetElectionTimer);
    } else if msg.term > a.current_term {
        assert(expected[0] == b.persisted());
        lemma_saves(asked[0], b);
    }
}

/// A candidate's request is granted by every node that has not voted in the new term and whose log is
/// not better than the candidate's own.
pub proof fn law_equal_log_earns_the_vote<RaftType: RaftTypeConfig, Reply>(
    candidate: RaftNode<RaftType, Reply>,
    standing: RaftNode<RaftType, Reply>,
    i: int,
    request: VoteRequest,
    voter: RaftNode<RaftType, Reply>,
    voted: RaftNode<RaftType, Reply>,
)
    requires
        lives(candidate, Event::ElectionTimeout, standing),
        !(candidate.state().role is Leader),
        candidate.state().peer_ids.len() > 0,
        0 <= i < asked(candidate, standing).len(),
        asked(candidate, standing)[i] matches Effect::Send { message, .. } && message
            == RaftMessage::<RaftType>::VoteRequest(request),
        lives(
            voter,
            incoming(candidate.state().id, RaftMessage::VoteRequest(request)),
            voted,
        ),
        voter.state().peer_ids.contains(candidate.state().id),
        voter.state().current_term <= candidate.state().current_term || voter.state().current_term
            == candidate.state().current_term + 1 && voter.state().voted_for is None,
        ({
            let theirs = candidate.state().log;
            let own = voter.state().log;
            ||| theirs.last().term > own.last().term
            ||| theirs.last().term == own.last().term && theirs.len() >= own.len()
        }),
    ensures
        voted.state().current_term == standing.state().current_term,
        voted.state().voted_for == Some(candidate.state().id),
        asked(voter, voted).last() matches Effect::Send {
            to,
            message: RaftMessage::VoteResponse(answer),
        } && to == candidate.state().id && answer.term == standing.state().current_term
            && answer.vote_granted,
{
    law_candidate_shows_the_end_of_its_log(candidate, standing);
    law_vote_goes_to_the_better_log(voter, candidate.state().id, request, voted);
    assert(waits(asked(candidate, standing)[0], candidate.state()));
    assert(saves(asked(candidate, standing)[1], standing.state()));
}

/// A candidate counts the votes of its own term, and leads once more than half of the cluster has voted
/// for it, itself included. It then saves its log and sends it to all peers. An answer of a higher term
/// makes any node a follower, and every other answer changes nothing.
pub proof fn law_majority_of_votes_elects<RaftType: RaftTypeConfig, Reply>(
    before: RaftNode<RaftType, Reply>,
    from: NodeId,
    msg: VoteResponse,
    after: RaftNode<RaftType, Reply>,
)
    requires
        lives(before, incoming(from, RaftMessage::VoteResponse(msg)), after),
    ensures
        ({
            let a = before.state();
            let b = after.state();
            let asked = asked(before, after);
            let counts = msg.term == a.current_term && msg.vote_granted && a.role is Candidate;
            let votes = a.role->votes_received + 1;
            &&& same_progress(a, b)
            &&& msg.term > a.current_term ==> {
                &&& b.current_term == msg.term
                &&& b.voted_for is None
                &&& b.role == RoleView::Follower { current_leader_id: None }
                &&& b.log == a.log
                &&& asked.len() == 2
                &&& saves(asked[0], b)
                &&& waits(asked[1], a)
            }
            &&& counts && 2 * votes > a.peer_ids.len() + 1 ==> {
                &&& b.current_term == a.current_term
                &&& b.voted_for == a.voted_for
                &&& takes_the_lead(a, b)
                &&& asked.len() > 0
                &&& saves(asked[0], b)
                &&& replicates_to_all(asked.drop_first(), b)
            }
            &&& counts && 2 * votes <= a.peer_ids.len() + 1 ==> {
                &&& b == (NodeView {
                    role: RoleView::Candidate { votes_received: votes as usize },
                    ..a
                })
                &&& votes <= usize::MAX
                &&& asked.len() == 0
            }
            &&& msg.term <= a.current_term && !counts ==> b == a && asked.len() == 0
        }),
{
    let a = before.state();
    let b = a.after_vote_response(msg);
    let expected = a.vote_response_effects(msg);
    lemma_asked(before, after, b, expected);
    let asked = asked(before, after);
    if msg.term > a.current_term {
        assert(fulfils(asked[0], expected[0], a.config));
        assert(fulfils(asked[1], expected[1], a.config));
        lemma_saves(asked[0], b);
    } else if msg.term == a.current_term && msg.vote_granted && a.role is Candidate {
        let votes = a.role->votes_received + 1;
        if 2 * votes > a.peer_ids.len() + 1 {
            after.lemma_log_fits();
            lemma_elected(a, b, expected, asked);
        }
    }
}

/// A node that has become the leader saves its log and sends it to all peers.
proof fn lemma_elected<RaftType: RaftTypeConfig, Reply>(
    a: NodeView<RaftType, Reply>,
    b: NodeView<RaftType, Reply>,
    expected: Seq<Expected<RaftType, Reply>>,
    asked: Seq<Effect<RaftType, Reply>>,
)
    requires
        a.sane(),
        b.log.len() <= usize::MAX,
        b == (NodeView { role: b.role, ..a.as_leader() }),
        b.role == a.as_leader().role,
        expected == seq![b.persisted()] + b.heartbeat(),
        asked.len() == expected.len(),
        forall|i: int|
            0 <= i < expected.len() ==> fulfils(#[trigger] asked[i], expected[i], a.config),
    ensures
        takes_the_lead(a, b),
        saves(asked[0], b),
        replicates_to_all(asked.drop_first(), b),
{
    assert(b.log.drop_last() =~= a.log);
    assert(fulfils(asked[0], expected[0], a.config));
    lemma_saves(asked[0], b);
    assert forall|i: int| 0 <= i < asked.drop_first().len() implies fulfils(
        #[trigger] asked.drop_first()[i],
        b.heartbeat()[i],
        b.config,
    ) by {
        assert(fulfils(asked[i + 1], expected[i + 1], a.config));
    }
    assert forall|i: int| 0 <= i < b.peer_ids.len() implies 1 <= b.role->next_index[
    #[trigger] b.peer_ids[i]] <= b.log.len() by {
        assert(b.peer_ids.contains(b.peer_ids[i]));
    }
    lemma_replicates(asked.drop_first(), b);
}

/// A leader sends every peer, with each heartbeat, what comes behind the entries that it takes the peer
/// to have, and how far it has committed. No other node sends anything.
pub proof fn law_leader_sends_its_log_and_commit<RaftType: RaftTypeConfig, Reply>(
    before: RaftNode<RaftType, Reply>,
    after: RaftNode<RaftType, Reply>,
)
    requires
        lives(before, Event::HeartbeatTick, after),
    ensures
        after.state() == before.state(),
        before.state().role is Leader ==> replicates_to_all(asked(before, after), after.state()),
        !(before.state().role is Leader) ==> asked(before, after).len() == 0,
{
    let a = before.state();
    if a.role is Leader {
        lemma_asked(before, after, a, a.heartbeat());
        assert forall|i: int| 0 <= i < asked(before, after).len() implies fulfils(
            #[trigger] asked(before, after)[i],
            a.heartbeat()[i],
            a.config,
        ) by {}
        lemma_replicates(asked(before, after), a);
    } else {
        lemma_asked(before, after, a, Seq::empty());
    }
}

/// Whether the entry of a log that comes `i` behind the one at `prev` is of the same term as entry `i`
/// of those that are to go there.
pub open spec fn agrees_at<Command>(
    log: Seq<LogEntry<Command>>,
    prev: int,
    entries: Seq<LogEntry<Command>>,
    i: int,
) -> bool {
    prev + 1 + i < log.len() && log[prev + 1 + i].term == entries[i].term
}

/// Whether a log has taken over entries behind the one at `prev`: it stays as it is if it agrees with
/// all of them; else it ends with them, and keeps of its own what is in front of the first that it does
/// not agree with.
pub open spec fn takes_over<Command>(
    log: Seq<LogEntry<Command>>,
    prev: int,
    entries: Seq<LogEntry<Command>>,
    after: Seq<LogEntry<Command>>,
) -> bool {
    if forall|i: int| 0 <= i < entries.len() ==> #[trigger] agrees_at(log, prev, entries, i) {
        after == log
    } else {
        &&& after.len() == prev + 1 + entries.len()
        &&& forall|k: int| 0 <= k <= prev ==> #[trigger] after[k] == log[k]
        &&& forall|i: int|
            0 <= i < entries.len() ==> #[trigger] after[prev + 1 + i] == if forall|j: int|
                0 <= j <= i ==> #[trigger] agrees_at(log, prev, entries, j) {
                log[prev + 1 + i]
            } else {
                entries[i]
            }
    }
}

proof fn lemma_takes_over<Command>(
    log: Seq<LogEntry<Command>>,
    prev: int,
    entries: Seq<LogEntry<Command>>,
)
    requires
        0 <= prev < log.len(),
    ensures
        takes_over(log, prev, entries, merged(log, prev, entries)),
{
    lemma_entries_present(log, prev, entries);
    let n = entries_present(log, prev, entries) as int;
    let after = merged(log, prev, entries);
    assert forall|i: int| 0 <= i < n implies #[trigger] agrees_at(log, prev, entries, i) by {
        assert(log[prev + 1 + i].term == entries[i].term);
    }
    if n < entries.len() {
        assert(!agrees_at(log, prev, entries, n));
        assert forall|i: int| 0 <= i < entries.len() implies #[trigger] after[prev + 1 + i]
            == if forall|j: int| 0 <= j <= i ==> #[trigger] agrees_at(log, prev, entries, j) {
            log[prev + 1 + i]
        } else {
            entries[i]
        } by {
            if i < n {
                assert(after[prev + 1 + i] == log[prev + 1 + i]);
            } else {
                assert(after[prev + 1 + i] == entries[i]);
                assert(!agrees_at(log, prev, entries, n));
            }
        }
    }
}

/// Whether an effect applies the command at this index.
pub open spec fn applies_at<RaftType: RaftTypeConfig, Reply>(
    effect: Effect<RaftType, Reply>,
    index: int,
) -> bool {
    effect matches Effect::Apply { index: at, .. } && at == index
}

/// Whether a node has applied what it has committed: each command that was not applied before, once and
/// in the order of the log, and handed out with the client that was waiting for it, if one was. These
/// clients are not waiting any more, and all others still are.
pub open spec fn applies_committed<RaftType: RaftTypeConfig, Reply>(
    before: NodeView<RaftType, Reply>,
    after: NodeView<RaftType, Reply>,
    asked: Seq<Effect<RaftType, Reply>>,
) -> bool {
    let first = before.last_applied as int;
    let last = after.commit_index as int;
    &&& after.last_applied == if last > first {
        last
    } else {
        first
    }
    &&& forall|i: int|
        0 <= i < asked.len() ==> (#[trigger] asked[i] matches Effect::Apply {
            index,
            command,
            waiting,
        } ==> {
            &&& first < index <= last
            &&& after.log[index as int].command is Command
            &&& cloned(after.log[index as int].command->Command_0, command)
            &&& waiting == if before.pending_applies.contains_key(index) {
                Some(before.pending_applies[index])
            } else {
                None
            }
        })
    &&& forall|i: int, j: int|
        0 <= i < j < asked.len() && (#[trigger] asked[i]) is Apply && (#[trigger] asked[j]) is Apply
            ==> asked[i]->Apply_index < asked[j]->Apply_index
    &&& forall|n: int|
        first < n <= last && (#[trigger] after.log[n]).command is Command ==> exists|i: int|
            0 <= i < asked.len() && applies_at(#[trigger] asked[i], n)
    &&& forall|k: usize| #[trigger]
        after.pending_applies.contains_key(k) <==> before.pending_applies.contains_key(k) && !(
        first < k <= last && after.log[k as int].command is Command)
    &&& forall|k: usize| #[trigger]
        after.pending_applies.contains_key(k) ==> after.pending_applies[k]
            == before.pending_applies[k]
}

/// The commands between two indices, each with its client.
proof fn lemma_applies<RaftType: RaftTypeConfig, Reply>(
    state: NodeView<RaftType, Reply>,
    from: int,
    to: int,
)
    requires
        0 <= from,
        to < state.log.len(),
        to <= usize::MAX,
    ensures
        ({
            let applies = state.applies(from, to);
            &&& forall|k: int|
                0 <= k < applies.len() ==> {
                    &&& #[trigger] applies[k] matches Expected::Apply { index, command, waiting }
                    &&& from < index <= to
                    &&& state.log[index].command == LogCommand::Command(command)
                    &&& waiting == if state.pending_applies.contains_key(index as usize) {
                        Some(state.pending_applies[index as usize])
                    } else {
                        None
                    }
                }
            &&& forall|j: int, k: int|
                0 <= j < k < applies.len() ==> (#[trigger] applies[j])->Apply_index < (
                #[trigger] applies[k])->Apply_index
            &&& forall|n: int|
                from < n <= to && (#[trigger] state.log[n]).command is Command ==> exists|k: int|
                    0 <= k < applies.len() && (#[trigger] applies[k])->Apply_index == n
        }),
    decreases to - from,
{
    if from < to {
        lemma_applies(state, from, to - 1);
        let rest = state.applies(from, to - 1);
        let applies = state.applies(from, to);
        if state.log[to].command is Command {
            assert forall|k: int| 0 <= k < rest.len() implies applies[k] == #[trigger] rest[k] by {}
            assert(applies[rest.len() as int]->Apply_index == to);
            assert forall|n: int|
                from < n <= to && (#[trigger] state.log[n]).command is Command implies exists|
                k: int,
            |
                0 <= k < applies.len() && (#[trigger] applies[k])->Apply_index == n by {
                if n < to {
                    let k = choose|k: int|
                        0 <= k < rest.len() && (#[trigger] rest[k])->Apply_index == n;
                    assert(applies[k]->Apply_index == n);
                }
            }
        }
    }
}

/// Effects that apply what was committed, between others that apply nothing.
proof fn lemma_applies_committed<RaftType: RaftTypeConfig, Reply>(
    state: NodeView<RaftType, Reply>,
    asked: Seq<Effect<RaftType, Reply>>,
    head: Seq<Expected<RaftType, Reply>>,
    tail: Seq<Expected<RaftType, Reply>>,
)
    requires
        state.can_apply(),
        asked.len() == head.len() + state.apply_effects().len() + tail.len(),
        forall|i: int|
            0 <= i < asked.len() ==> fulfils(
                #[trigger] asked[i],
                (head + state.apply_effects() + tail)[i],
                state.config,
            ),
        forall|i: int| 0 <= i < head.len() ==> !((#[trigger] head[i]) is Apply),
        forall|i: int| 0 <= i < tail.len() ==> !((#[trigger] tail[i]) is Apply),
    ensures
        applies_committed(state, state.applied(), asked),
        forall|i: int|
            head.len() <= i < head.len() + state.apply_effects().len() ==> (
            #[trigger] asked[i]) is Apply,
{
    let applies = state.apply_effects();
    let expected = head + applies + tail;
    let h = head.len() as int;
    let after = state.applied();
    if state.last_applied < state.commit_index {
        lemma_applies(state, state.last_applied as int, state.commit_index as int);
    }
    assert forall|i: int| 0 <= i < asked.len() implies ((#[trigger] asked[i]) is Apply <==> h <= i
        < h + applies.len()) by {
        assert(fulfils(asked[i], expected[i], state.config));
        if i < h {
            assert(expected[i] == head[i]);
        } else if i < h + applies.len() {
            assert(expected[i] == applies[i - h]);
        } else {
            assert(expected[i] == tail[i - h - applies.len()]);
        }
    }
    assert forall|i: int| h <= i < h + applies.len() implies fulfils(
        #[trigger] asked[i],
        applies[i - h],
        state.config,
    ) by {
        assert(expected[i] == applies[i - h]);
    }
    assert forall|i: int, j: int|
        0 <= i < j < asked.len() && (#[trigger] asked[i]) is Apply && (
        #[trigger] asked[j]) is Apply implies asked[i]->Apply_index < asked[j]->Apply_index by {
        assert(applies[i - h]->Apply_index < applies[j - h]->Apply_index);
    }
    assert forall|n: int|
        state.last_applied < n <= state.commit_index && (
        #[trigger] after.log[n]).command is Command implies exists|i: int|
        0 <= i < asked.len() && applies_at(#[trigger] asked[i], n) by {
        let k = choose|k: int| 0 <= k < applies.len() && (#[trigger] applies[k])->Apply_index == n;
        assert(fulfils(asked[h + k], applies[k], state.config));
        assert(applies_at(asked[h + k], n));
    }
}

/// A client that is not waiting any more is named by the effect that applies its command.
pub proof fn law_no_client_is_forgotten<RaftType: RaftTypeConfig, Reply>(
    before: RaftNode<RaftType, Reply>,
    event: Event<RaftType, Reply>,
    after: RaftNode<RaftType, Reply>,
    index: usize,
)
    requires
        lives(before, event, after),
        before.state().pending_applies.contains_key(index),
        !after.state().pending_applies.contains_key(index),
    ensures
        exists|i: int|
            0 <= i < asked(before, after).len() && (#[trigger] asked(
                before,
                after,
            )[i] matches Effect::Apply { index: at, waiting, .. } && at == index && waiting == Some(
                before.state().pending_applies[index],
            )),
{
    let a = before.state();
    let b = after.state();
    match event {
        Event::ElectionTimeout => {},
        Event::HeartbeatTick => {},
        Event::Command(command) => {
            if let ClientCommands::Apply { .. } = command {
                assert(b.pending_applies == a.after_command(command).pending_applies);
            }
        },
        Event::Message(envelope) => {
            match envelope.message {
                RaftMessage::AppendRequest(msg) => {
                    law_append_request_needs_the_previous_entry(before, envelope.from, msg, after);
                },
                RaftMessage::AppendResponse(msg) => {
                    law_leader_commits_what_a_majority_has(before, envelope.from, msg, after);
                },
                _ => {},
            }
        },
    }
    assert(applies_committed(a, b, asked(before, after)));
    assert(b.log[index as int].command is Command);
    let i = choose|i: int|
        0 <= i < asked(before, after).len() && applies_at(
            #[trigger] asked(before, after)[i],
            index as int,
        );
    assert(asked(before, after)[i] is Apply);
}

/// Whether the log has, at the index that a request names, an entry of the term that it names.
pub open spec fn has_entry<Command>(log: Seq<LogEntry<Command>>, index: int, term: u64) -> bool {
    0 <= index < log.len() && log[index].term == term
}

/// A node takes a leader's request if, and only if, the leader's term is not behind its own and its log
/// has the entry that the request names as the one in front, whether there are entries to take or not.
/// It then takes the entries over, commits as far as the leader has and its log goes, and applies that,
/// all after its state is saved; its answer names the last entry that it now shares with the leader.
/// Else its log and its commit index stay as they are, nothing is applied, and its answer names an entry
/// to go back behind.
pub proof fn law_append_request_needs_the_previous_entry<RaftType: RaftTypeConfig, Reply>(
    before: RaftNode<RaftType, Reply>,
    from: NodeId,
    msg: AppendRequest<RaftType>,
    after: RaftNode<RaftType, Reply>,
)
    requires
        lives(before, incoming(from, RaftMessage::AppendRequest(msg)), after),
    ensures
        ({
            let a = before.state();
            let b = after.state();
            let asked = asked(before, after);
            let prev = msg.prev_log_index as int;
            let stale = msg.term < a.current_term;
            let taken = !stale && has_entry(a.log, prev, msg.prev_log_term);
            let answers: int = if a.peer_ids.contains(from) {
                1
            } else {
                0
            };
            &&& b.id == a.id
            &&& b.peer_ids == a.peer_ids
            &&& b.config == a.config
            &&& b.current_term == if stale {
                a.current_term
            } else {
                msg.term
            }
            &&& b.voted_for == if msg.term > a.current_term {
                None
            } else {
                a.voted_for
            }
            &&& stale ==> b.role == a.role && asked.len() == answers
            &&& !stale ==> b.role == RoleView::Follower {
                current_leader_id: if a.role is Follower && a.role->current_leader_id is Some
                    && msg.term == a.current_term {
                    a.role->current_leader_id
                } else {
                    Some(msg.leader_id)
                },
            }
            &&& !stale ==> exists|i: int|
                0 <= i < asked.len() && waits(#[trigger] asked[i], a)
            &&& !taken ==> {
                &&& b.log == a.log
                &&& b.commit_index == a.commit_index
                &&& b.last_applied == a.last_applied
                &&& b.pending_applies == a.pending_applies
                &&& forall|i: int| 0 <= i < asked.len() ==> !((#[trigger] asked[i]) is Apply)
            }
            &&& taken ==> {
                &&& takes_over(a.log, prev, msg.entries@, b.log)
                &&& b.commit_index == if msg.leader_commit <= a.commit_index {
                    a.commit_index as int
                } else if msg.leader_commit < b.log.len() {
                    msg.leader_commit as int
                } else {
                    b.log.len() - 1
                }
                &&& applies_committed(a, b, asked)
                &&& exists|i: int|
                    0 <= i < asked.len() && saves(#[trigger] asked[i], b) && forall|j: int|
                        0 <= j < i ==> !((#[trigger] asked[j]) is Apply)
            }
            &&& asked.len() >= answers
            &&& forall|i: int|
                0 <= i < asked.len() - answers ==> !((#[trigger] asked[i]) is Send) && !(
                asked[i] is Respond)
            &&& a.peer_ids.contains(from) ==> {
                &&& asked.last() matches Effect::Send {
                    to,
                    message: RaftMessage::AppendResponse(answer),
                }
                &&& to == from
                &&& answer.term == b.current_term
                &&& answer.success == taken
                &&& answer.match_index == if taken {
                    prev + msg.entries@.len()
                } else if stale {
                    0
                } else if prev >= a.log.len() {
                    a.log.len() - 1
                } else {
                    prev
                }
            }
        }),
{
    let a = before.state();
    let b = after.state();
    let expected = a.append_request_effects(from, msg);
    lemma_asked(before, after, a.after_append_request(msg), expected);
    before.lemma_log_fits();
    after.lemma_log_fits();
    let asked = asked(before, after);
    let prev = msg.prev_log_index as int;
    let stale = msg.term < a.current_term;
    let taken = !stale && has_entry(a.log, prev, msg.prev_log_term);
    let answer = a.sent(from, RaftMessage::AppendResponse(a.append_answer(msg)));
    let n = asked.len() as int;
    assert forall|i: int| 0 <= i < n implies fulfils(#[trigger] asked[i], expected[i], a.config) by {}
    let follower = a.in_term_of(msg).led_by(msg.leader_id);
    let opening = a.in_term_effects(msg) + seq![Expected::ResetElectionTimer];
    if !stale {
        let at = a.in_term_effects(msg).len() as int;
        assert(expected[at] is ResetElectionTimer);
        assert(waits(asked[at], a));
    }
    if taken {
        lemma_takes_over(a.log, prev, msg.entries@);
        let updated = follower.with_entries(msg);
        let head = opening + seq![updated.persisted()];
        assert(expected =~= head + updated.apply_effects() + answer);
        lemma_applies_committed(updated, asked, head, answer);
        let at = opening.len() as int;
        assert(expected[at] == updated.persisted());
        lemma_saves(asked[at], updated);
        assert(saves(asked[at], b));
        assert forall|j: int| 0 <= j < at implies !((#[trigger] asked[j]) is Apply) by {
            assert(expected[j] == opening[j]);
        }
        assert(applies_committed(a, b, asked));
        assert forall|i: int| 0 <= i < n - answer.len() implies !((#[trigger] asked[i]) is Send)
            && !(asked[i] is Respond) by {
            if i < head.len() {
                assert(expected[i] == head[i]);
            } else {
                assert(asked[i] is Apply);
            }
        }
    } else if !stale {
        assert(expected =~= opening + answer);
    }
}

/// Whether the entry at `index` is on more than half of the nodes of the cluster: on the leader, and on
/// the peers that are known to have it.
pub open spec fn on_a_majority<RaftType: RaftTypeConfig, Reply>(
    leader: NodeView<RaftType, Reply>,
    index: int,
) -> bool {
    let match_index = leader.role->match_index;
    let holders = Set::new(
        |p: NodeId| match_index.contains_key(p) && match_index[p] >= index,
    );
    2 * (holders.len() + 1) > leader.peer_ids.len() + 1
}

/// How far a leader commits: to an entry of its own term that a majority has, and as far as there is
/// one; else it stays where it was.
pub proof fn law_commit_goes_as_far_as_a_majority<RaftType: RaftTypeConfig, Reply>(
    state: NodeView<RaftType, Reply>,
    index: usize,
)
    requires
        state.inv(),
        state.role is Leader,
        state.commits_to(index as int),
    ensures
        ({
            let after = state.with_commit(index);
            &&& after == (NodeView { commit_index: after.commit_index, ..state })
            &&& after.commit_index != state.commit_index ==> {
                &&& state.commit_index < after.commit_index < state.log.len()
                &&& state.log[after.commit_index as int].term == state.current_term
                &&& on_a_majority(state, after.commit_index as int)
            }
            &&& forall|n: int|
                after.commit_index < n < state.log.len() && state.log[n].term == state.current_term
                    ==> !#[trigger] on_a_majority(state, n)
        }),
{
    let match_index = state.role->match_index;
    assert forall|n: int|
        #![trigger on_a_majority(state, n)]
        state.commit_index < n < state.log.len() && state.log[n].term
            == state.current_term implies on_a_majority(state, n) == state.can_commit(n) by {
        let holders = Set::new(|p: NodeId| match_index.contains_key(p) && match_index[p] >= n);
        assert(holders =~= match_index.dom().filter(|p: NodeId| match_index[p] >= n));
    }
    if index != state.commit_index {
        assert(on_a_majority(state, index as int) == state.can_commit(index as int));
    }
    assert forall|n: int|
        index < n < state.log.len() && state.log[n].term
            == state.current_term implies !#[trigger] on_a_majority(state, n) by {
        assert(!state.can_commit(n));
    }
}

/// A leader notes how far a peer's log agrees with its own, or goes back behind the entry that the peer
/// has named, and leaves what it has noted of other peers. It commits an entry of its own term once more
/// than half of the cluster has it, and there is no such entry that it leaves uncommitted; what it has
/// committed is applied. An answer of a higher term makes any node a follower, and every other answer
/// changes nothing.
pub proof fn law_leader_commits_what_a_majority_has<RaftType: RaftTypeConfig, Reply>(
    before: RaftNode<RaftType, Reply>,
    from: NodeId,
    msg: AppendResponse,
    after: RaftNode<RaftType, Reply>,
)
    requires
        lives(before, incoming(from, RaftMessage::AppendResponse(msg)), after),
    ensures
        ({
            let a = before.state();
            let b = after.state();
            let asked = asked(before, after);
            let noted = a.role is Leader && msg.term == a.current_term;
            &&& b.id == a.id
            &&& b.peer_ids == a.peer_ids
            &&& b.config == a.config
            &&& b.log == a.log
            &&& msg.term > a.current_term ==> {
                &&& b.current_term == msg.term
                &&& b.voted_for is None
                &&& b.role == RoleView::Follower { current_leader_id: None }
                &&& same_progress(a, b)
                &&& asked.len() == 2
                &&& saves(asked[0], b)
                &&& waits(asked[1], a)
            }
            &&& msg.term <= a.current_term && !noted ==> b == a && asked.len() == 0
            &&& noted ==> {
                &&& b.current_term == a.current_term
                &&& b.voted_for == a.voted_for
                &&& b.role is Leader
                &&& b.role->match_index == if msg.success {
                    a.role->match_index.insert(from, msg.match_index)
                } else {
                    a.role->match_index
                }
                &&& b.role->next_index.dom() == a.role->next_index.dom().insert(from)
                &&& forall|p: NodeId|
                    p != from && a.role->next_index.contains_key(p)
                        ==> #[trigger] b.role->next_index[p] == a.role->next_index[p]
                &&& b.role->next_index[from] == if msg.success {
                    msg.match_index + 1
                } else if msg.match_index <= 2 {
                    1
                } else {
                    msg.match_index - 1
                }
                &&& b.commit_index != a.commit_index ==> {
                    &&& a.commit_index < b.commit_index < b.log.len()
                    &&& b.log[b.commit_index as int].term == b.current_term
                    &&& on_a_majority(b, b.commit_index as int)
                }
                &&& forall|n: int|
                    b.commit_index < n < b.log.len() && b.log[n].term == b.current_term
                        ==> !#[trigger] on_a_majority(b, n)
                &&& applies_committed(a, b, asked)
                &&& forall|i: int| 0 <= i < asked.len() ==> (#[trigger] asked[i]) is Apply
            }
        }),
{
    let a = before.state();
    let b = after.state();
    let asked = asked(before, after);
    if msg.term > a.current_term {
        let expected = a.follower_effects(msg.term);
        lemma_asked(before, after, a.as_follower(msg.term), expected);
        assert(fulfils(asked[0], expected[0], a.config));
        assert(fulfils(asked[1], expected[1], a.config));
        lemma_saves(asked[0], b);
    } else if msg.term < a.current_term || !(a.role is Leader) {
        lemma_asked(before, after, a, Seq::empty());
    } else {
        let noted = a.noted(from, msg);
        let committed = noted.with_commit(b.commit_index);
        lemma_asked(before, after, committed.applied(), committed.apply_effects());
        assert forall|i: int| 0 <= i < noted.peer_ids.len() implies noted.role->next_index.contains_key(
            #[trigger] noted.peer_ids[i],
        ) by {
            assert(a.role->next_index.contains_key(a.peer_ids[i]));
        }
        assert(noted.inv());
        law_commit_goes_as_far_as_a_majority(noted, b.commit_index);
        assert forall|n: int| #[trigger] on_a_majority(b, n) == on_a_majority(noted, n) by {
            assert(b.role == noted.role);
        }
        let none = Seq::<Expected<RaftType, Reply>>::empty();
        assert(none + committed.apply_effects() + none =~= committed.apply_effects());
        assert forall|i: int| 0 <= i < asked.len() implies fulfils(
            #[trigger] asked[i],
            (none + committed.apply_effects() + none)[i],
            committed.config,
        ) by {}
        lemma_applies_committed(committed, asked, none, none);
        assert(b.role->next_index.dom() =~= a.role->next_index.dom().insert(from));
    }
}

/// A follower whose log has the entry in front of what a leader sends has, once it has taken that, all
/// entries of the leader's log from there on, term by term, and has committed all that the leader has.
/// It tells the leader so.
pub proof fn law_follower_catches_up<RaftType: RaftTypeConfig, Reply>(
    leader: RaftNode<RaftType, Reply>,
    sent: RaftNode<RaftType, Reply>,
    i: int,
    request: AppendRequest<RaftType>,
    follower: RaftNode<RaftType, Reply>,
    caught_up: RaftNode<RaftType, Reply>,
)
    requires
        lives(leader, Event::HeartbeatTick, sent),
        leader.state().role is Leader,
        leader.state().commit_index < leader.state().log.len(),
        0 <= i < asked(leader, sent).len(),
        asked(leader, sent)[i] matches Effect::Send { message, .. } && message
            == RaftMessage::<RaftType>::AppendRequest(request),
        lives(
            follower,
            incoming(leader.state().id, RaftMessage::AppendRequest(request)),
            caught_up,
        ),
        follower.state().peer_ids.contains(leader.state().id),
        follower.state().current_term <= leader.state().current_term,
        request.prev_log_index < follower.state().log.len(),
        follower.state().log[request.prev_log_index as int].term
            == leader.state().log[request.prev_log_index as int].term,
    ensures
        ({
            let theirs = leader.state();
            let own = caught_up.state();
            &&& own.log.len() >= theirs.log.len()
            &&& forall|k: int|
                request.prev_log_index <= k < theirs.log.len() ==> (#[trigger] own.log[k]).term
                    == theirs.log[k].term
            &&& forall|k: int|
                0 <= k <= request.prev_log_index ==> #[trigger] own.log[k]
                    == follower.state().log[k]
            &&& own.commit_index >= theirs.commit_index
            &&& own.last_applied >= theirs.commit_index
            &&& own.role is Follower
            &&& asked(follower, caught_up).last() matches Effect::Send {
                to,
                message: RaftMessage::AppendResponse(answer),
            }
            &&& to == theirs.id
            &&& answer.term == theirs.current_term
            &&& answer.success
            &&& answer.match_index + 1 == theirs.log.len()
        }),
{
    law_leader_sends_its_log_and_commit(leader, sent);
    let theirs = leader.state();
    let prev = request.prev_log_index as int;
    assert(replicates(asked(leader, sent)[i], theirs, theirs.peer_ids[i]));
    law_append_request_needs_the_previous_entry(follower, theirs.id, request, caught_up);
    let own = caught_up.state();
    let log = follower.state().log;
    let entries = request.entries@;
    assert forall|k: int| prev < k < theirs.log.len() implies k < own.log.len() && (
    #[trigger] own.log[k]).term == theirs.log[k].term by {
        let j = k - prev - 1;
        assert(same_entry(theirs.log[prev + 1 + j], entries[j]));
        if forall|m: int| 0 <= m < entries.len() ==> #[trigger] agrees_at(log, prev, entries, m) {
            assert(agrees_at(log, prev, entries, j));
        } else {
            assert(own.log[prev + 1 + j] == own.log[k]);
            if forall|m: int| 0 <= m <= j ==> #[trigger] agrees_at(log, prev, entries, m) {
                assert(agrees_at(log, prev, entries, j));
            }
        }
    }
    assert(own.log.len() >= theirs.log.len()) by {
        if entries.len() > 0 {
            assert(own.log[theirs.log.len() - 1].term == theirs.log[theirs.log.len() - 1].term);
        }
    }
}

/// A leader that hears that a peer has taken its log knows that the peer has all of it, and sends it
/// only what comes later.
pub proof fn law_leader_learns_of_it<RaftType: RaftTypeConfig, Reply>(
    leader: RaftNode<RaftType, Reply>,
    peer: NodeId,
    answer: AppendResponse,
    informed: RaftNode<RaftType, Reply>,
)
    requires
        lives(leader, incoming(peer, RaftMessage::AppendResponse(answer)), informed),
        leader.state().role is Leader,
        answer.term == leader.state().current_term,
        answer.success,
        answer.match_index + 1 == leader.state().log.len(),
    ensures
        informed.state().role matches RoleView::Leader { next_index, match_index } && {
            &&& match_index[peer] + 1 == informed.state().log.len()
            &&& next_index[peer] == informed.state().log.len()
        },
{
    law_leader_commits_what_a_majority_has(leader, peer, answer, informed);
}

/// A follower that lacks the entry in front of what a leader sends keeps its log, and its answer brings
/// the leader to go back by at least one entry, and not further than to the first.
pub proof fn law_refusal_sends_the_leader_back<RaftType: RaftTypeConfig, Reply>(
    leader: RaftNode<RaftType, Reply>,
    sent: RaftNode<RaftType, Reply>,
    i: int,
    request: AppendRequest<RaftType>,
    follower: RaftNode<RaftType, Reply>,
    refused: RaftNode<RaftType, Reply>,
    answer: AppendResponse,
    informed: RaftNode<RaftType, Reply>,
)
    requires
        lives(leader, Event::HeartbeatTick, sent),
        leader.state().role is Leader,
        0 <= i < asked(leader, sent).len(),
        asked(leader, sent)[i] matches Effect::Send { message, .. } && message
            == RaftMessage::<RaftType>::AppendRequest(request),
        lives(
            follower,
            incoming(leader.state().id, RaftMessage::AppendRequest(request)),
            refused,
        ),
        follower.state().peer_ids.contains(leader.state().id),
        follower.state().current_term <= leader.state().current_term,
        !has_entry(follower.state().log, request.prev_log_index as int, request.prev_log_term),
        asked(follower, refused).last() matches Effect::Send { message, .. } && message
            == RaftMessage::<RaftType>::AppendResponse(answer),
        lives(
            sent,
            incoming(leader.state().peer_ids[i], RaftMessage::AppendResponse(answer)),
            informed,
        ),
    ensures
        refused.state().log == follower.state().log,
        refused.state().commit_index == follower.state().commit_index,
        ({
            let peer = leader.state().peer_ids[i];
            let next = leader.state().role->next_index[peer];
            let then = informed.state().role->next_index[peer];
            &&& informed.state().role is Leader
            &&& informed.state().role->match_index == leader.state().role->match_index
            &&& 1 <= then
            &&& then < next || next == 1
        }),
{
    law_leader_sends_its_log_and_commit(leader, sent);
    assert(replicates(asked(leader, sent)[i], leader.state(), leader.state().peer_ids[i]));
    law_append_request_needs_the_previous_entry(follower, leader.state().id, request, refused);
    law_leader_commits_what_a_majority_has(sent, leader.state().peer_ids[i], answer, informed);
}

/// A leader puts a client's command at the end of its log, notes that the client waits for it, saves
/// its log and sends it to all peers. A node that does not lead tells the client who does, if it knows.
pub proof fn law_leader_takes_commands<RaftType: RaftTypeConfig, Reply>(
    before: RaftNode<RaftType, Reply>,
    command: RaftType::Command,
    reply: Reply,
    after: RaftNode<RaftType, Reply>,
)
    requires
        lives(before, Event::Command(ClientCommands::Apply { command, reply }), after),
    ensures
        ({
            let a = before.state();
            let b = after.state();
            let asked = asked(before, after);
            &&& a.role is Leader ==> {
                &&& b.log.len() == a.log.len() + 1
                &&& b.log.drop_last() == a.log
                &&& b.log.last().term == a.current_term
                &&& b.log.last().command == LogCommand::Command(command)
                &&& forall|k: usize| #[trigger]
                    b.pending_applies.contains_key(k) <==> a.pending_applies.contains_key(k) || k
                        == a.log.len()
                &&& forall|k: usize|
                    b.pending_applies.contains_key(k) ==> #[trigger] b.pending_applies[k] == if k
                        == a.log.len() {
                        reply
                    } else {
                        a.pending_applies[k]
                    }
                &&& b == (NodeView { log: b.log, pending_applies: b.pending_applies, ..a })
                &&& asked.len() > 0
                &&& saves(asked[0], b)
                &&& replicates_to_all(asked.drop_first(), b)
            }
            &&& !(a.role is Leader) ==> {
                &&& b == a
                &&& asked.len() == 1
                &&& asked[0] matches Effect::Respond { reply: to, response }
                &&& to == reply
                &&& tells_who_leads(a, response)
            }
        }),
{
    let a = before.state();
    let b = after.state();
    let event = ClientCommands::Apply { command, reply };
    let expected = a.command_effects(event);
    lemma_asked(before, after, a.after_command(event), expected);
    after.lemma_log_fits();
    before.lemma_log_fits();
    let asked = asked(before, after);
    if a.role is Leader {
        assert(b.log.drop_last() =~= a.log);
        assert(fulfils(asked[0], expected[0], a.config));
        lemma_saves(asked[0], b);
        assert forall|i: int| 0 <= i < asked.drop_first().len() implies fulfils(
            #[trigger] asked.drop_first()[i],
            b.heartbeat()[i],
            b.config,
        ) by {
            assert(fulfils(asked[i + 1], expected[i + 1], a.config));
        }
        lemma_replicates(asked.drop_first(), b);
    } else {
        assert(fulfils(asked[0], expected[0], a.config));
    }
}

/// Whether a client is told who leads: the node itself, the leader that it follows, or nobody that it
/// knows of.
pub open spec fn tells_who_leads<RaftType: RaftTypeConfig, Reply>(
    node: NodeView<RaftType, Reply>,
    response: ClientResponse<RaftType>,
) -> bool {
    match node.role {
        RoleView::Leader { .. } => response is Leader,
        RoleView::Follower { current_leader_id: Some(leader) } => {
            &&& response matches ClientResponse::Failed(error)
            &&& error matches RaftError::NotLeader(named)
            &&& named == leader
        },
        _ => {
            &&& response matches ClientResponse::Failed(error)
            &&& error is NoLeader
        },
    }
}

/// Clients that only ask are told at once, each by its own reply, and the node stays as it is: who
/// leads, what the log holds, what stands at one of its indices, and how the node is.
pub proof fn law_clients_are_answered<RaftType: RaftTypeConfig, Reply>(
    before: RaftNode<RaftType, Reply>,
    command: ClientCommands<RaftType, Reply>,
    after: RaftNode<RaftType, Reply>,
)
    requires
        lives(before, Event::Command(command), after),
        !(command is Apply),
    ensures
        ({
            let a = before.state();
            let asked = asked(before, after);
            &&& after.state() == a
            &&& asked.len() == 1
            &&& asked[0] matches Effect::Respond { reply: to, response }
            &&& match command {
                ClientCommands::Apply { .. } => true,
                ClientCommands::IsLeader { reply } => to == reply && tells_who_leads(a, response),
                ClientCommands::GetLog { reply } => {
                    &&& to == reply
                    &&& response matches ClientResponse::Log(log)
                    &&& same_entries(a.log, log@)
                },
                ClientCommands::GetLogEntry { index, reply } => {
                    &&& to == reply
                    &&& response matches ClientResponse::LogEntry(entry)
                    &&& entry is Some <==> index < a.log.len()
                    &&& entry is Some ==> same_entry(a.log[index as int], entry->0)
                },
                ClientCommands::GetStatus { reply } => {
                    &&& to == reply
                    &&& response matches ClientResponse::Status(status)
                    &&& status.id == a.id
                    &&& status.current_term == a.current_term
                    &&& status.voted_for == a.voted_for
                    &&& status.commit_index == a.commit_index
                    &&& status.last_applied == a.last_applied
                    &&& status.log_len == a.log.len()
                    &&& status.peer_ids@ == a.peer_ids
                    &&& match a.role {
                        RoleView::Follower { current_leader_id } => {
                            &&& status.role is Follower
                            &&& status.leader_id == current_leader_id
                        },
                        RoleView::Candidate { votes_received: votes } => {
                            &&& status.role matches RaftRole::Candidate { votes_received }
                            &&& votes_received == votes
                            &&& status.leader_id is None
                        },
                        RoleView::Leader { next_index: next, match_index: matched } => {
                            &&& status.role matches RaftRole::Leader { next_index, match_index }
                            &&& next_index@ == next
                            &&& match_index@ == matched
                            &&& status.leader_id == Some(a.id)
                        },
                    }
                },
            }
        }),
{
    let a = before.state();
    let expected = a.command_effects(command);
    lemma_asked(before, after, a, expected);
    assert(fulfils(asked(before, after)[0], expected[0], a.config));
    law_status_shows_the_node(a);
    if let ClientCommands::GetStatus { .. } = command {
        let status = asked(before, after)[0]->response->Status_0;
        assert(status@ == a.status());
        assert(status@.role == status.role@);
    }
}

/// The status of a node shows its state: its term and its vote, its role with what a leader has noted,
/// the leader that it knows of, and how far its log goes, is committed and is applied.
pub proof fn law_status_shows_the_node<RaftType: RaftTypeConfig, Reply>(
    node: NodeView<RaftType, Reply>,
)
    ensures
        ({
            let status = node.status();
            &&& status.id == node.id
            &&& status.current_term == node.current_term
            &&& status.voted_for == node.voted_for
            &&& status.commit_index == node.commit_index
            &&& status.last_applied == node.last_applied
            &&& status.log_len == node.log.len()
            &&& status.peer_ids == node.peer_ids
            &&& node.role is Follower ==> status.role is Follower && status.leader_id
                == node.role->current_leader_id
            &&& node.role is Candidate ==> status.role == (RaftRoleView::Candidate {
                votes_received: node.role->votes_received,
            }) && status.leader_id is None
            &&& node.role is Leader ==> status.role == (RaftRoleView::Leader {
                next_index: node.role->next_index,
                match_index: node.role->match_index,
            }) && status.leader_id == Some(node.id)
        }),
{
}

/// Whether a state that was saved is one that the node was in during an event: it is of the node's new
/// term, with its new vote or with none yet, and with its old log or its new one.
pub open spec fn saves_on_the_way<RaftType: RaftTypeConfig, Reply>(
    effect: Effect<RaftType, Reply>,
    before: NodeView<RaftType, Reply>,
    after: NodeView<RaftType, Reply>,
) -> bool {
    &&& effect matches Effect::Persist(saved)
    &&& saved.current_term == after.current_term
    &&& saved.voted_for == after.voted_for || saved.voted_for is None && after.current_term
        > before.current_term
    &&& same_entries(before.log, saved.log@) || same_entries(after.log, saved.log@)
}

/// Whether an effect lets others know of the node: a message, an answer to a client, or a command that
/// is applied.
pub open spec fn tells<RaftType: RaftTypeConfig, Reply>(effect: Effect<RaftType, Reply>) -> bool {
    effect is Send || effect is Respond || effect is Apply
}

/// Whether the term, the vote or the log of a node has changed.
pub open spec fn differs<RaftType: RaftTypeConfig, Reply>(
    before: NodeView<RaftType, Reply>,
    after: NodeView<RaftType, Reply>,
) -> bool {
    ||| after.current_term != before.current_term
    ||| after.voted_for != before.voted_for
    ||| after.log != before.log
}

/// Whether what was asked for keeps to the rule that nothing is told before it is saved: if the term,
/// the vote or the log has changed, the new ones are saved, and they are before anything is told. The
/// timer is set to an allowed time.
pub open spec fn saved_first<RaftType: RaftTypeConfig, Reply>(
    before: NodeView<RaftType, Reply>,
    after: NodeView<RaftType, Reply>,
    asked: Seq<Effect<RaftType, Reply>>,
) -> bool {
    &&& differs(before, after) ==> exists|j: int|
        0 <= j < asked.len() && saves(#[trigger] asked[j], after) && forall|i: int|
            0 <= i < j ==> !tells(#[trigger] asked[i])
    &&& forall|i: int|
        0 <= i < asked.len() && (#[trigger] asked[i]) is Persist ==> saves_on_the_way(
            asked[i],
            before,
            after,
        )
    &&& forall|i: int|
        0 <= i < asked.len() && (#[trigger] asked[i]) is ResetElectionTimer ==> waits(
            asked[i],
            before,
        )
}

proof fn lemma_saved_first<RaftType: RaftTypeConfig, Reply>(
    a: NodeView<RaftType, Reply>,
    b: NodeView<RaftType, Reply>,
    asked: Seq<Effect<RaftType, Reply>>,
    expected: Seq<Expected<RaftType, Reply>>,
    j: int,
)
    requires
        b.config == a.config,
        asked.len() == expected.len(),
        forall|i: int|
            0 <= i < expected.len() ==> fulfils(#[trigger] asked[i], expected[i], a.config),
        differs(a, b) ==> {
            &&& 0 <= j < expected.len()
            &&& expected[j] == b.persisted()
            &&& forall|i: int|
                0 <= i < j ==> (#[trigger] expected[i]) is Persist
                    || expected[i] is ResetElectionTimer
        },
        forall|i: int|
            0 <= i < expected.len() ==> ((#[trigger] expected[i]) is Persist ==> {
                &&& expected[i]->current_term == b.current_term
                &&& expected[i]->voted_for == b.voted_for || expected[i]->voted_for is None
                    && b.current_term > a.current_term
                &&& expected[i]->log == a.log || expected[i]->log == b.log
            }),
    ensures
        saved_first(a, b, asked),
{
    if differs(a, b) {
        assert(fulfils(asked[j], expected[j], a.config));
        lemma_saves(asked[j], b);
        assert forall|i: int| 0 <= i < j implies !tells(#[trigger] asked[i]) by {
            assert(fulfils(asked[i], expected[i], a.config));
        }
    }
    assert forall|i: int| 0 <= i < asked.len() && (
    #[trigger] asked[i]) is Persist implies saves_on_the_way(asked[i], a, b) by {
        assert(fulfils(asked[i], expected[i], a.config));
        assert(expected[i] is Persist);
    }
    assert forall|i: int| 0 <= i < asked.len() && (
    #[trigger] asked[i]) is ResetElectionTimer implies waits(asked[i], a) by {
        assert(fulfils(asked[i], expected[i], a.config));
    }
}

/// Commands that are applied are nothing that is saved.
proof fn lemma_applies_are_applies<RaftType: RaftTypeConfig, Reply>(
    state: NodeView<RaftType, Reply>,
    from: int,
    to: int,
)
    ensures
        forall|k: int|
            0 <= k < state.applies(from, to).len() ==> (#[trigger] state.applies(
                from,
                to,
            )[k]) is Apply,
    decreases to - from,
{
    if from < to {
        lemma_applies_are_applies(state, from, to - 1);
    }
}

/// Whatever happens to a node: what it has asked for before stays asked for, its name, its peers and its
/// timing stay as they are, and nothing that depends on a new term, vote or log entry is told to anybody
/// before that is saved.
pub proof fn law_nothing_is_told_before_it_is_saved<RaftType: RaftTypeConfig, Reply>(
    before: RaftNode<RaftType, Reply>,
    event: Event<RaftType, Reply>,
    after: RaftNode<RaftType, Reply>,
)
    requires
        lives(before, event, after),
    ensures
        before.effects().len() <= after.effects().len(),
        after.effects().take(before.effects().len() as int) == before.effects(),
        after.state().id == before.state().id,
        after.state().peer_ids == before.state().peer_ids,
        after.state().config == before.state().config,
        saved_first(before.state(), after.state(), asked(before, after)),
{
    let a = before.state();
    let b = after.state();
    let none = Seq::<Expected<RaftType, Reply>>::empty();
    match event {
        Event::ElectionTimeout => {
            if a.role is Leader {
                lemma_asked(before, after, a, none);
                lemma_saved_first(a, b, asked(before, after), none, 0);
            } else {
                lemma_asked(before, after, a.stood(), a.stood_effects());
                lemma_saved_first(a, b, asked(before, after), a.stood_effects(), 1);
            }
        },
        Event::HeartbeatTick => {
            let expected = if a.role is Leader {
                a.heartbeat()
            } else {
                none
            };
            lemma_asked(before, after, a, expected);
            lemma_saved_first(a, b, asked(before, after), expected, 0);
        },
        Event::Command(command) => {
            let expected = a.command_effects(command);
            lemma_asked(before, after, a.after_command(command), expected);
            lemma_saved_first(a, b, asked(before, after), expected, 0);
        },
        Event::Message(envelope) => {
            match envelope.message {
                RaftMessage::AppendRequest(msg) => {
                    let expected = a.append_request_effects(envelope.from, msg);
                    lemma_asked(before, after, a.after_append_request(msg), expected);
                    let updated = a.in_term_of(msg).led_by(msg.leader_id).with_entries(msg);
                    lemma_applies_are_applies(
                        updated,
                        updated.last_applied as int,
                        updated.commit_index as int,
                    );
                    let at = a.in_term_effects(msg).len() as int;
                    lemma_saved_first(
                        a,
                        b,
                        asked(before, after),
                        expected,
                        if a.has_previous(msg) {
                            at + 1
                        } else {
                            0
                        },
                    );
                },
                RaftMessage::AppendResponse(msg) => {
                    if msg.term > a.current_term {
                        let expected = a.follower_effects(msg.term);
                        lemma_asked(before, after, a.as_follower(msg.term), expected);
                        lemma_saved_first(a, b, asked(before, after), expected, 0);
                    } else if msg.term < a.current_term || !(a.role is Leader) {
                        lemma_asked(before, after, a, none);
                        lemma_saved_first(a, b, asked(before, after), none, 0);
                    } else {
                        let committed = a.noted(envelope.from, msg).with_commit(b.commit_index);
                        lemma_asked(
                            before,
                            after,
                            committed.applied(),
                            committed.apply_effects(),
                        );
                        lemma_applies_are_applies(
                            committed,
                            committed.last_applied as int,
                            committed.commit_index as int,
                        );
                        lemma_saved_first(
                            a,
                            b,
                            asked(before, after),
                            committed.apply_effects(),
                            0,
                        );
                    }
                },
                RaftMessage::VoteRequest(msg) => {
                    let expected = a.vote_request_effects(envelope.from, msg);
                    lemma_asked(before, after, a.after_vote_request(msg), expected);
                    let opening: int = if msg.term > a.current_term {
                        2
                    } else {
                        0
                    };
                    lemma_saved_first(
                        a,
                        b,
                        asked(before, after),
                        expected,
                        if a.grants(msg) {
                            opening + 1
                        } else {
                            0
                        },
                    );
                },
                RaftMessage::VoteResponse(msg) => {
                    let expected = a.vote_response_effects(msg);
                    lemma_asked(before, after, a.after_vote_response(msg), expected);
                    lemma_saved_first(a, b, asked(before, after), expected, 0);
                },
            }
        },
    }
}

/// Whether a leader has noted no peer in front of its first entry or beyond `end`.
pub open spec fn knows_no_peer_beyond<RaftType: RaftTypeConfig, Reply>(
    leader: NodeView<RaftType, Reply>,
    end: nat,
) -> bool {
    forall|i: int|
        0 <= i < leader.peer_ids.len() ==> 1 <= leader.role->next_index[
        #[trigger] leader.peer_ids[i]] <= end
}

/// A node that has applied all that it has committed takes every event, but for these: it cannot stand
/// for election in the last term there is, hear from a second leader of its own term, note or take an
/// index that has no successor, or tell a peer what comes behind entries that it does not have itself.
pub proof fn law_events_are_taken<RaftType: RaftTypeConfig, Reply>(
    taker: RaftNode<RaftType, Reply>,
    event: Event<RaftType, Reply>,
)
    requires
        taker.state().inv(),
        taker.state().commit_index <= taker.state().last_applied,
    ensures
        ({
            let node = taker.state();
            node.accepts_event(event) == match event {
                Event::ElectionTimeout => node.role is Leader || node.current_term < u64::MAX,
                Event::HeartbeatTick => node.role is Leader ==> knows_no_peer_beyond(
                    node,
                    node.log.len(),
                ),
                Event::Command(command) => command is Apply && node.role is Leader
                    ==> knows_no_peer_beyond(node, node.log.len() + 1),
                Event::Message(envelope) => match envelope.message {
                    RaftMessage::AppendRequest(msg) => {
                        &&& !(node.role is Leader && msg.term == node.current_term)
                        &&& msg.term >= node.current_term && has_entry(
                            node.log,
                            msg.prev_log_index as int,
                            msg.prev_log_term,
                        ) ==> msg.prev_log_index + msg.entries@.len() < usize::MAX
                    },
                    RaftMessage::AppendResponse(msg) => node.role is Leader && msg.term
                        == node.current_term && msg.success ==> msg.match_index < usize::MAX,
                    RaftMessage::VoteRequest(_) => true,
                    RaftMessage::VoteResponse(_) => true,
                },
            }
        }),
{
    let node = taker.state();
    taker.lemma_log_fits();
    if let Event::Message(envelope) = event {
        if let RaftMessage::AppendRequest(msg) = envelope.message {
            if node.has_previous(msg) {
                lemma_takes_over(node.log, msg.prev_log_index as int, msg.entries@);
            }
        }
    }
    if node.role is Leader {
        let next_index = node.role->next_index;
        if let Event::Command(ClientCommands::Apply { command, reply }) = event {
            let after = node.with_command(command, reply);
            assert(after.peer_ids == node.peer_ids);
            assert(after.role->next_index == next_index);
            assert(after.log.len() == node.log.len() + 1);
            if after.can_replicate() {
                assert forall|i: int| 0 <= i < node.peer_ids.len() implies 1 <= next_index[
                #[trigger] node.peer_ids[i]] <= node.log.len() + 1 by {
                    assert(1 <= after.role->next_index[after.peer_ids[i]]);
                }
            }
            if knows_no_peer_beyond(node, node.log.len() + 1) {
                assert forall|i: int| 0 <= i < after.peer_ids.len() implies 1
                    <= after.role->next_index[#[trigger] after.peer_ids[i]] <= after.log.len() by {
                    assert(1 <= next_index[node.peer_ids[i]]);
                }
            }
            assert(node.accepts_event(event) == after.can_replicate());
        }
    }
}

/// A node that steps down follows no leader yet. In a higher term it has not voted; in its own it keeps
/// its vote. Its log stays as it is, and its state is saved.
pub proof fn law_stepping_down<RaftType: RaftTypeConfig, Reply>(
    before: RaftNode<RaftType, Reply>,
    term: u64,
    after: RaftNode<RaftType, Reply>,
)
    requires
        before.state().inv(),
        before.goes_to(
            after,
            before.state().as_follower(term),
            before.state().follower_effects(term),
        ),
    ensures
        ({
            let a = before.state();
            let b = after.state();
            let asked = asked(before, after);
            &&& same_progress(a, b)
            &&& b.log == a.log
            &&& b.role == RoleView::Follower { current_leader_id: None }
            &&& term > a.current_term ==> b.current_term == term && b.voted_for is None
            &&& term <= a.current_term ==> b.current_term == a.current_term && b.voted_for
                == a.voted_for
            &&& asked.len() == 2
            &&& saves(asked[0], b)
            &&& waits(asked[1], a)
        }),
{
    let a = before.state();
    let expected = a.follower_effects(term);
    lemma_asked(before, after, a.as_follower(term), expected);
    let asked = asked(before, after);
    assert(fulfils(asked[0], expected[0], a.config));
    assert(fulfils(asked[1], expected[1], a.config));
    lemma_saves(asked[0], after.state());
}

/// A node that becomes the leader begins its term with an empty entry, saves its log, and sends every
/// peer that entry.
pub proof fn law_taking_the_lead<RaftType: RaftTypeConfig, Reply>(
    before: RaftNode<RaftType, Reply>,
    after: RaftNode<RaftType, Reply>,
)
    requires
        before.state().sane(),
        before.goes_to(after, before.state().as_leader(), before.state().leader_effects()),
    ensures
        ({
            let a = before.state();
            let b = after.state();
            let asked = asked(before, after);
            &&& same_progress(a, b)
            &&& b.current_term == a.current_term
            &&& b.voted_for == a.voted_for
            &&& takes_the_lead(a, b)
            &&& asked.len() > 0
            &&& saves(asked[0], b)
            &&& replicates_to_all(asked.drop_first(), b)
        }),
{
    let a = before.state();
    lemma_asked(before, after, a.as_leader(), a.leader_effects());
    after.lemma_log_fits();
    lemma_elected(a, after.state(), a.leader_effects(), asked(before, after));
}

} // verus!
