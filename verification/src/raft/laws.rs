//! What holds of a node whatever happens to it.

use crate::raft::effect::{
    entries_cloned, entry_cloned, fulfils, ClientCommands, Effect, Event, Expected,
};
use crate::raft::message::{
    AppendRequest, AppendResponse, LogCommand, LogEntry, RaftEnvelope, RaftMessage, VoteRequest,
    VoteResponse,
};
use crate::raft::node_model::{
    entries_present, is_majority, merged, replica_count, steps, NodeView,
};
use crate::raft::storage::PersistentState;
use crate::raft::type_config::RaftTypeConfig;
use crate::raft::NodeId;
use vstd::prelude::*;

verus! {

/// A node's term never goes down.
pub proof fn law_term_never_goes_down<RaftType: RaftTypeConfig, Reply>(
    before: NodeView<RaftType, Reply>,
    event: Event<RaftType, Reply>,
    after: NodeView<RaftType, Reply>,
)
    requires
        before.inv(),
        steps(before, event, after),
    ensures
        before.current_term <= after.current_term,
{
}

/// A node votes once in a term: a vote that was given stays as it is until the term is over.
pub proof fn law_one_vote_per_term<RaftType: RaftTypeConfig, Reply>(
    before: NodeView<RaftType, Reply>,
    event: Event<RaftType, Reply>,
    after: NodeView<RaftType, Reply>,
)
    requires
        before.inv(),
        steps(before, event, after),
        before.voted_for is Some,
        after.current_term == before.current_term,
    ensures
        after.voted_for == before.voted_for,
{
}

/// A node votes for another one only if that one's log is at least as far as its own.
pub proof fn law_vote_needs_up_to_date_log<RaftType: RaftTypeConfig, Reply>(
    before: NodeView<RaftType, Reply>,
    from: NodeId,
    msg: VoteRequest,
    after: NodeView<RaftType, Reply>,
)
    requires
        before.inv(),
        steps(
            before,
            Event::Message(RaftEnvelope { from, message: RaftMessage::VoteRequest(msg) }),
            after,
        ),
        after.voted_for is Some,
        after.voted_for != before.voted_for || after.current_term != before.current_term,
    ensures
        after.voted_for == Some(msg.candidate_id),
        after.current_term == msg.term,
        before.is_up_to_date(msg),
{
}

/// A leader leaves its log as it is, and only adds to its end.
pub proof fn law_leader_only_appends<RaftType: RaftTypeConfig, Reply>(
    before: NodeView<RaftType, Reply>,
    event: Event<RaftType, Reply>,
    after: NodeView<RaftType, Reply>,
)
    requires
        before.inv(),
        steps(before, event, after),
        before.role is Leader,
        after.current_term == before.current_term,
    ensures
        after.role is Leader,
        before.log.len() <= after.log.len(),
        after.log.take(before.log.len() as int) == before.log,
{
    assert(before.log.take(before.log.len() as int) =~= before.log);
    if let Event::Command(ClientCommands::Apply { command, reply }) = event {
        assert(after.log.take(before.log.len() as int) =~= before.log);
    }
}

/// No command is applied twice: how far the log was applied never goes back.
pub proof fn law_last_applied_never_goes_back<RaftType: RaftTypeConfig, Reply>(
    before: NodeView<RaftType, Reply>,
    event: Event<RaftType, Reply>,
    after: NodeView<RaftType, Reply>,
)
    requires
        before.inv(),
        steps(before, event, after),
    ensures
        before.last_applied <= after.last_applied,
{
}

/// What was committed stays committed, unless a leader's entries go against it.
pub proof fn law_commit_never_goes_back<RaftType: RaftTypeConfig, Reply>(
    before: NodeView<RaftType, Reply>,
    event: Event<RaftType, Reply>,
    after: NodeView<RaftType, Reply>,
)
    requires
        before.inv(),
        steps(before, event, after),
        event matches Event::Message(RaftEnvelope { message: RaftMessage::AppendRequest(msg), .. })
            ==> msg.leader_commit <= before.commit_index || before.commit_index < after.log.len(),
    ensures
        before.commit_index <= after.commit_index,
{
}

/// Everything that was committed was applied by the time that the node is done with a message.
pub proof fn law_committed_is_applied<RaftType: RaftTypeConfig, Reply>(
    before: NodeView<RaftType, Reply>,
    event: Event<RaftType, Reply>,
    after: NodeView<RaftType, Reply>,
)
    requires
        before.inv(),
        before.commit_index <= before.last_applied,
        steps(before, event, after),
    ensures
        after.commit_index <= after.last_applied,
{
}

/// A leader commits an entry only if it is of its own term, and a majority of the cluster is known
/// to have it.
pub proof fn law_commit_needs_majority<RaftType: RaftTypeConfig, Reply>(
    before: NodeView<RaftType, Reply>,
    event: Event<RaftType, Reply>,
    after: NodeView<RaftType, Reply>,
)
    requires
        before.inv(),
        steps(before, event, after),
        before.role is Leader,
        after.current_term == before.current_term,
        after.commit_index != before.commit_index,
    ensures
        before.commit_index < after.commit_index < after.log.len(),
        after.log[after.commit_index as int].term == after.current_term,
        after.is_won_by(
            replica_count(after.role->match_index, after.commit_index as int) as int + 1,
        ),
{
}

/// The nodes that have voted for a candidate.
pub open spec fn voters(votes: Map<NodeId, NodeId>, candidate: NodeId) -> Set<NodeId> {
    votes.dom().filter(|n: NodeId| votes[n] == candidate)
}

/// Two majorities of a cluster have a node in common.
pub proof fn law_majorities_overlap(a: int, b: int, total: int)
    requires
        0 <= total,
        is_majority(a, total),
        is_majority(b, total),
    ensures
        a + b > total,
{
}

/// Two candidates that a majority of the cluster has voted for in a term are the same one: a node
/// votes once in a term, so that the votes of a term are a function of the node.
pub proof fn law_one_winner_per_term(
    cluster: Set<NodeId>,
    votes: Map<NodeId, NodeId>,
    a: NodeId,
    b: NodeId,
)
    requires
        cluster.finite(),
        votes.dom().subset_of(cluster),
        is_majority(voters(votes, a).len() as int, cluster.len() as int),
        is_majority(voters(votes, b).len() as int, cluster.len() as int),
    ensures
        a == b,
{
    if a != b {
        let for_a = voters(votes, a);
        let for_b = voters(votes, b);
        vstd::set_lib::lemma_len_subset(for_a, cluster);
        vstd::set_lib::lemma_len_subset(for_b, cluster);
        vstd::set_lib::lemma_set_disjoint_lens(for_a, for_b);
        vstd::set_lib::lemma_len_subset(for_a + for_b, cluster);
        law_majorities_overlap(for_a.len() as int, for_b.len() as int, cluster.len() as int);
    }
}

/// How many entries are in a log already.
pub proof fn lemma_entries_present<Command>(
    log: Seq<LogEntry<Command>>,
    prev: int,
    entries: Seq<LogEntry<Command>>,
)
    requires
        0 <= prev < log.len(),
    ensures
        ({
            let n = entries_present(log, prev, entries);
            &&& n <= entries.len()
            &&& prev + n < log.len()
            &&& forall|i: int| 0 <= i < n ==> (#[trigger] log[prev + 1 + i]).term == entries[i].term
            &&& n < entries.len() ==> prev + 1 + n >= log.len() || log[prev + 1 + n].term
                != entries[n as int].term
        }),
    decreases entries.len(),
{
    if entries.len() > 0 && prev + 1 < log.len() && log[prev + 1].term == entries[0].term {
        let rest = entries.drop_first();
        lemma_entries_present(log, prev + 1, rest);
        let n = entries_present(log, prev, entries);
        assert forall|i: int| 0 <= i < n implies (#[trigger] log[prev + 1 + i]).term
            == entries[i].term by {
            if i > 0 {
                assert(log[prev + 2 + (i - 1)].term == rest[i - 1].term);
            }
        }
        if n < entries.len() {
            assert(rest[n - 1] == entries[n as int]);
        }
    }
}

/// A log takes a leader's entries as they are: it keeps what is in front of them, it has them then,
/// term by term, and it keeps what is behind them if they were there already, so that a request
/// that is late takes nothing away.
pub proof fn law_log_takes_entries<Command>(
    log: Seq<LogEntry<Command>>,
    prev: int,
    entries: Seq<LogEntry<Command>>,
)
    requires
        0 <= prev < log.len(),
    ensures
        ({
            let after = merged(log, prev, entries);
            &&& prev + entries.len() < after.len()
            &&& after.take(prev + 1) == log.take(prev + 1)
            &&& forall|i: int|
                0 <= i < entries.len() ==> (#[trigger] after[prev + 1 + i]).term == entries[i].term
            &&& entries_present(log, prev, entries) == entries.len() ==> after == log
        }),
{
    lemma_entries_present(log, prev, entries);
    let n = entries_present(log, prev, entries) as int;
    let after = merged(log, prev, entries);
    assert(after.take(prev + 1) =~= log.take(prev + 1));
    assert forall|i: int| 0 <= i < entries.len() implies (#[trigger] after[prev + 1 + i]).term
        == entries[i].term by {
        if n < entries.len() {
            if i < n {
                assert(after[prev + 1 + i] == log[prev + 1 + i]);
            } else {
                assert(after[prev + 1 + i] == entries[i]);
            }
        }
    }
}

/// Entries that are there, term by term, are all present.
proof fn lemma_all_present<Command>(
    log: Seq<LogEntry<Command>>,
    prev: int,
    entries: Seq<LogEntry<Command>>,
)
    requires
        0 <= prev,
        prev + entries.len() < log.len(),
        forall|i: int|
            0 <= i < entries.len() ==> (#[trigger] log[prev + 1 + i]).term == entries[i].term,
    ensures
        entries_present(log, prev, entries) == entries.len(),
    decreases entries.len(),
{
    if entries.len() > 0 {
        let rest = entries.drop_first();
        assert(log[prev + 1 + 0].term == entries[0].term);
        assert forall|i: int| 0 <= i < rest.len() implies (#[trigger] log[prev + 2 + i]).term
            == rest[i].term by {
            assert(log[prev + 1 + (i + 1)].term == entries[i + 1].term);
        }
        lemma_all_present(log, prev + 1, rest);
    }
}

/// Entries that are put into a log twice.
proof fn lemma_merged_twice<Command>(
    log: Seq<LogEntry<Command>>,
    prev: int,
    entries: Seq<LogEntry<Command>>,
)
    requires
        0 <= prev < log.len(),
    ensures
        merged(merged(log, prev, entries), prev, entries) == merged(log, prev, entries),
{
    law_log_takes_entries(log, prev, entries);
    lemma_all_present(merged(log, prev, entries), prev, entries);
}

/// A request that comes in twice changes the node once: the second time the node stays as it is,
/// applies nothing, and gives the same answer. It waits for the leader anew, and saves its state once
/// more if it took the entries.
pub proof fn law_duplicate_request_changes_nothing<RaftType: RaftTypeConfig, Reply>(
    state: NodeView<RaftType, Reply>,
    from: NodeId,
    msg: AppendRequest<RaftType>,
)
    requires
        state.inv(),
        state.accepts_append_request(msg),
    ensures
        ({
            let once = state.after_append_request(msg);
            let answer = once.sent(
                from,
                RaftMessage::AppendResponse(state.append_answer(msg)),
            );
            &&& once.accepts_append_request(msg)
            &&& once.after_append_request(msg) == once
            &&& once.append_answer(msg) == state.append_answer(msg)
            &&& once.append_request_effects(from, msg) == if msg.term < state.current_term {
                answer
            } else if !state.has_previous(msg) {
                seq![Expected::<RaftType, Reply>::ResetElectionTimer] + answer
            } else {
                seq![
                    Expected::<RaftType, Reply>::ResetElectionTimer,
                    once.persisted(),
                ] + answer
            }
        }),
{
    let once = state.after_append_request(msg);
    let twice = once.after_append_request(msg);
    if msg.term >= state.current_term {
        if state.has_previous(msg) {
            let prev = msg.prev_log_index as int;
            law_log_takes_entries(state.log, prev, msg.entries@);
            lemma_merged_twice(state.log, prev, msg.entries@);
            assert(once.log == merged(state.log, prev, msg.entries@));
            assert(once.log[prev] == once.log.take(prev + 1)[prev]);
            assert(state.log[prev] == state.log.take(prev + 1)[prev]);
            assert(once.has_previous(msg));
            assert(twice.pending_applies =~= once.pending_applies);
        }
        assert(twice =~= once);
    }
    assert(once.append_request_effects(from, msg) =~= if msg.term < state.current_term {
        once.sent(from, RaftMessage::AppendResponse(state.append_answer(msg)))
    } else if !state.has_previous(msg) {
        seq![Expected::<RaftType, Reply>::ResetElectionTimer] + once.sent(
            from,
            RaftMessage::AppendResponse(state.append_answer(msg)),
        )
    } else {
        seq![Expected::<RaftType, Reply>::ResetElectionTimer, once.persisted()] + once.sent(
            from,
            RaftMessage::AppendResponse(state.append_answer(msg)),
        )
    });
}

/// Committed commands are applied in the order of the log, each of them once.
pub proof fn law_applied_in_order<RaftType: RaftTypeConfig, Reply>(
    state: NodeView<RaftType, Reply>,
    from: int,
    to: int,
)
    requires
        0 <= from,
        to < state.log.len(),
    ensures
        ({
            let applies = state.applies(from, to);
            &&& forall|k: int|
                0 <= k < applies.len() ==> {
                    &&& #[trigger] applies[k] matches Expected::Apply { index, command, .. }
                    &&& from < index <= to
                    &&& state.log[index].command == LogCommand::Command(command)
                }
            &&& forall|j: int, k: int|
                0 <= j < k < applies.len() ==> (#[trigger] applies[j])->index < (
                #[trigger] applies[k])->index
            &&& forall|i: int|
                from < i <= to && (#[trigger] state.log[i]).command is Command ==> exists|k: int|
                    0 <= k < applies.len() && (#[trigger] applies[k])->index == i
        }),
    decreases to - from,
{
    if from < to {
        law_applied_in_order(state, from, to - 1);
        let rest = state.applies(from, to - 1);
        let applies = state.applies(from, to);
        if state.log[to].command is Command {
            assert forall|k: int| 0 <= k < rest.len() implies applies[k] == #[trigger] rest[k] by {}
            assert(applies[rest.len() as int]->index == to);
            assert forall|i: int|
                from < i <= to && (#[trigger] state.log[i]).command is Command implies exists|
                k: int,
            |
                0 <= k < applies.len() && (#[trigger] applies[k])->index == i by {
                if i < to {
                    let k = choose|k: int| 0 <= k < rest.len() && (#[trigger] rest[k])->index == i;
                    assert(applies[k]->index == i);
                }
            }
        }
    }
}

/// A vote is saved before it is given.
pub proof fn law_vote_is_saved_first<RaftType: RaftTypeConfig, Reply>(
    state: NodeView<RaftType, Reply>,
    from: NodeId,
    msg: VoteRequest,
)
    requires
        state.inv(),
        state.grants(msg),
        state.peer_ids.contains(from),
    ensures
        ({
            let effects = state.vote_request_effects(from, msg);
            let after = state.after_vote_request(msg);
            &&& effects.len() >= 2
            &&& effects[effects.len() - 2] == after.persisted()
            &&& effects.last() == Expected::<RaftType, Reply>::Send {
                to: from,
                message: RaftMessage::VoteResponse(
                    VoteResponse { term: after.current_term, vote_granted: true },
                ),
            }
        }),
{
}

/// Entries are saved before the leader is told that they are there, and before any of them is
/// applied.
pub proof fn law_entries_are_saved_first<RaftType: RaftTypeConfig, Reply>(
    state: NodeView<RaftType, Reply>,
    from: NodeId,
    msg: AppendRequest<RaftType>,
)
    requires
        state.inv(),
        state.accepts_append_request(msg),
        msg.term >= state.current_term,
        state.has_previous(msg),
        state.peer_ids.contains(from),
    ensures
        ({
            let effects = state.append_request_effects(from, msg);
            let after = state.after_append_request(msg);
            let opening = state.in_term_effects(msg).len() + 1;
            &&& opening + 1 < effects.len()
            &&& effects[opening as int] == after.persisted()
            &&& forall|k: int| 0 <= k < opening ==> !(#[trigger] effects[k] is Apply) && !(
            effects[k] is Send)
            &&& effects.last() == Expected::<RaftType, Reply>::Send {
                to: from,
                message: RaftMessage::AppendResponse(
                    AppendResponse {
                        term: after.current_term,
                        match_index: (msg.prev_log_index + msg.entries@.len()) as usize,
                        success: true,
                    },
                ),
            }
        }),
{
}

/// A node that takes up what another has saved is in the term that was saved, has given the same vote,
/// and has the same log, with each command as its clone; where commands are equal to their clones, the
/// logs are equal. Nothing else about the node changes.
pub proof fn law_restart_restores<RaftType: RaftTypeConfig, Reply>(
    before: NodeView<RaftType, Reply>,
    saved: PersistentState<RaftType>,
    fresh: NodeView<RaftType, Reply>,
    after: NodeView<RaftType, Reply>,
)
    requires
        fulfils(Effect::<RaftType, Reply>::Persist(saved), before.persisted(), before.config),
        after == fresh.with_saved(saved),
    ensures
        after.current_term == before.current_term,
        after.voted_for == before.voted_for,
        entries_cloned(before.log, after.log),
        (forall|a: RaftType::Command, b: RaftType::Command| #[trigger] cloned(a, b) ==> a == b)
            ==> after.log == before.log,
        after == (NodeView {
            current_term: after.current_term,
            voted_for: after.voted_for,
            log: after.log,
            ..fresh
        }),
{
    if forall|a: RaftType::Command, b: RaftType::Command| #[trigger] cloned(a, b) ==> a == b {
        assert forall|i: int| 0 <= i < before.log.len() implies before.log[i] == after.log[i] by {
            assert(entry_cloned(before.log[i], after.log[i]));
        }
        assert(after.log =~= before.log);
    }
}

/// A client's command is in the log of the leader that took it, and its client is waiting for the
/// entry.
pub proof fn law_command_is_taken<RaftType: RaftTypeConfig, Reply>(
    state: NodeView<RaftType, Reply>,
    command: RaftType::Command,
    reply: Reply,
)
    requires
        state.inv(),
        state.role is Leader,
        state.log.len() < usize::MAX,
    ensures
        ({
            let after = state.after_command(ClientCommands::Apply { command, reply });
            let index = state.log.len() as int;
            &&& after.log.len() == index + 1
            &&& after.log[index] == LogEntry {
                term: state.current_term,
                command: LogCommand::Command(command),
            }
            &&& after.waiting(index) == Some(reply)
        }),
{
}

} // verus!
