//! What a node asks of the program around it, and what is to be said of that.

use crate::raft::config::RaftConfig;
use crate::raft::error::RaftError;
use crate::raft::message::{LogCommand, LogEntry, RaftEnvelope, RaftMessage};
use crate::raft::status::{RaftStatus, RaftStatusView};
use crate::raft::storage::PersistentState;
use crate::raft::type_config::RaftTypeConfig;
use crate::raft::NodeId;
use vstd::prelude::*;

verus! {

/// What a node asks of the program around it. It is to be done in the order in which it was asked.
#[verifier::reject_recursive_types(RaftType)]
pub enum Effect<RaftType: RaftTypeConfig, Reply> {
    /// Save this state, so that it survives a restart.
    Persist(PersistentState<RaftType>),
    /// Stand for election unless a leader is heard of within this time.
    ResetElectionTimer { timeout_ms: u64 },
    /// Send this message.
    Send { to: NodeId, message: RaftMessage<RaftType> },
    /// Apply this command, which stands at this index of the log, to the state machine, and answer
    /// the client that is waiting for it, if one is.
    Apply { index: usize, command: RaftType::Command, waiting: Option<Reply> },
    /// Answer a client.
    Respond { reply: Reply, response: ClientResponse<RaftType> },
}

/// What clients ask of a node, each with what it is answered by.
#[verifier::reject_recursive_types(RaftType)]
pub enum ClientCommands<RaftType: RaftTypeConfig, Reply> {
    /// Replicate a command, and apply it to the state machine.
    Apply { command: RaftType::Command, reply: Reply },
    /// Is the node the leader?
    IsLeader { reply: Reply },
    /// The whole log.
    GetLog { reply: Reply },
    /// One entry of the log.
    GetLogEntry { index: usize, reply: Reply },
    /// The state of the node.
    GetStatus { reply: Reply },
}

/// What can happen to a node.
#[verifier::reject_recursive_types(RaftType)]
pub enum Event<RaftType: RaftTypeConfig, Reply> {
    /// No leader was heard of for too long.
    ElectionTimeout,
    /// It is time for a heartbeat.
    HeartbeatTick,
    /// A message came in.
    Message(RaftEnvelope<RaftType>),
    /// A client asks for something.
    Command(ClientCommands<RaftType, Reply>),
}

/// The answer to a client.
#[verifier::reject_recursive_types(RaftType)]
pub enum ClientResponse<RaftType: RaftTypeConfig> {
    /// The node cannot do it.
    Failed(RaftError),
    /// The node is the leader.
    Leader,
    /// The log.
    Log(Vec<LogEntry<RaftType::Command>>),
    /// An entry of the log, if it is that long.
    LogEntry(Option<LogEntry<RaftType::Command>>),
    /// The state of the node.
    Status(RaftStatus),
}

/// Whether `b` is what `a` gives when it is cloned.
pub open spec fn entry_cloned<Command: Clone>(a: LogEntry<Command>, b: LogEntry<Command>) -> bool {
    &&& a.term == b.term
    &&& match (a.command, b.command) {
        (LogCommand::NoOp, LogCommand::NoOp) => true,
        (LogCommand::Command(c), LogCommand::Command(d)) => cloned(c, d),
        _ => false,
    }
}

/// Whether the entries of `b` are clones of those of `a`.
pub open spec fn entries_cloned<Command: Clone>(
    a: Seq<LogEntry<Command>>,
    b: Seq<LogEntry<Command>>,
) -> bool {
    &&& a.len() == b.len()
    &&& forall|i: int| 0 <= i < a.len() ==> entry_cloned(#[trigger] a[i], #[trigger] b[i])
}

/// What is to be said of an effect. Commands are clones of those that are named here, and the timer
/// is set to some time that the configuration allows.
#[verifier::reject_recursive_types(RaftType)]
pub ghost enum Expected<RaftType: RaftTypeConfig, Reply> {
    Persist {
        current_term: u64,
        voted_for: Option<NodeId>,
        log: Seq<LogEntry<RaftType::Command>>,
    },
    ResetElectionTimer,
    /// A message without log entries.
    Send { to: NodeId, message: RaftMessage<RaftType> },
    /// A request to append entries.
    Append {
        to: NodeId,
        term: u64,
        leader_id: NodeId,
        prev_log_index: int,
        prev_log_term: u64,
        entries: Seq<LogEntry<RaftType::Command>>,
        leader_commit: int,
    },
    Apply { index: int, command: RaftType::Command, waiting: Option<Reply> },
    Respond { reply: Reply, response: ExpectedResponse<RaftType> },
}

/// What is to be said of an answer to a client.
#[verifier::reject_recursive_types(RaftType)]
pub ghost enum ExpectedResponse<RaftType: RaftTypeConfig> {
    NotLeader(NodeId),
    NoLeader,
    Leader,
    Log(Seq<LogEntry<RaftType::Command>>),
    LogEntry(Option<LogEntry<RaftType::Command>>),
    Status(RaftStatusView),
}

/// Whether an answer is what it should be.
pub open spec fn answers<RaftType: RaftTypeConfig>(
    response: ClientResponse<RaftType>,
    expected: ExpectedResponse<RaftType>,
) -> bool {
    match expected {
        ExpectedResponse::NotLeader(leader) => response matches ClientResponse::Failed(error)
            && error matches RaftError::NotLeader(named) && named == leader,
        ExpectedResponse::NoLeader => response matches ClientResponse::Failed(error)
            && error is NoLeader,
        ExpectedResponse::Leader => response is Leader,
        ExpectedResponse::Log(log) => response matches ClientResponse::Log(entries)
            && entries_cloned(log, entries@),
        ExpectedResponse::LogEntry(entry) => response matches ClientResponse::LogEntry(found)
            && match (entry, found) {
            (Some(a), Some(b)) => entry_cloned(a, b),
            (None, None) => true,
            _ => false,
        },
        ExpectedResponse::Status(view) => response matches ClientResponse::Status(status)
            && status@ == view,
    }
}

/// Whether an effect is what it should be.
pub open spec fn fulfils<RaftType: RaftTypeConfig, Reply>(
    effect: Effect<RaftType, Reply>,
    expected: Expected<RaftType, Reply>,
    config: RaftConfig,
) -> bool {
    match expected {
        Expected::Persist { current_term, voted_for, log } => {
            &&& effect matches Effect::Persist(state)
            &&& state.current_term == current_term
            &&& state.voted_for == voted_for
            &&& entries_cloned(log, state.log@)
        },
        Expected::ResetElectionTimer => {
            &&& effect matches Effect::ResetElectionTimer { timeout_ms }
            &&& config.election_timeout_min_ms <= timeout_ms < config.election_timeout_max_ms
        },
        Expected::Send { to, message } => effect == Effect::<RaftType, Reply>::Send { to, message },
        Expected::Append {
            to,
            term,
            leader_id,
            prev_log_index,
            prev_log_term,
            entries,
            leader_commit,
        } => {
            &&& effect matches Effect::Send { to: sent_to, message: RaftMessage::AppendRequest(request) }
            &&& sent_to == to
            &&& request.term == term
            &&& request.leader_id == leader_id
            &&& request.prev_log_index == prev_log_index
            &&& request.prev_log_term == prev_log_term
            &&& entries_cloned(entries, request.entries@)
            &&& request.leader_commit == leader_commit
        },
        Expected::Apply { index, command, waiting } => {
            &&& effect matches Effect::Apply { index: at, command: given, waiting: client }
            &&& at == index
            &&& cloned(command, given)
            &&& client == waiting
        },
        Expected::Respond { reply, response } => {
            &&& effect matches Effect::Respond { reply: to, response: given }
            &&& to == reply
            &&& answers(given, response)
        },
    }
}

/// Whether effects are what they should be, one by one.
pub open spec fn all_fulfil<RaftType: RaftTypeConfig, Reply>(
    effects: Seq<Effect<RaftType, Reply>>,
    expected: Seq<Expected<RaftType, Reply>>,
    config: RaftConfig,
) -> bool {
    &&& effects.len() == expected.len()
    &&& forall|i: int|
        0 <= i < effects.len() ==> fulfils(#[trigger] effects[i], expected[i], config)
}

/// Whether `after` is `before` with effects at its end that are what they should be.
pub open spec fn adds<RaftType: RaftTypeConfig, Reply>(
    before: Seq<Effect<RaftType, Reply>>,
    after: Seq<Effect<RaftType, Reply>>,
    expected: Seq<Expected<RaftType, Reply>>,
    config: RaftConfig,
) -> bool {
    &&& before.len() <= after.len()
    &&& after.take(before.len() as int) == before
    &&& all_fulfil(after.skip(before.len() as int), expected, config)
}

/// Adding nothing.
pub proof fn lemma_adds_nothing<RaftType: RaftTypeConfig, Reply>(
    effects: Seq<Effect<RaftType, Reply>>,
    config: RaftConfig,
)
    ensures
        adds(effects, effects, Seq::empty(), config),
{
    assert(effects.take(effects.len() as int) =~= effects);
}

/// Adding one effect.
pub proof fn lemma_adds_one<RaftType: RaftTypeConfig, Reply>(
    before: Seq<Effect<RaftType, Reply>>,
    effect: Effect<RaftType, Reply>,
    expected: Expected<RaftType, Reply>,
    config: RaftConfig,
)
    requires
        fulfils(effect, expected, config),
    ensures
        adds(before, before.push(effect), seq![expected], config),
{
    assert(before.push(effect).take(before.len() as int) =~= before);
    assert(before.push(effect).skip(before.len() as int) =~= seq![effect]);
}

/// Adding effects twice.
pub proof fn lemma_adds_twice<RaftType: RaftTypeConfig, Reply>(
    a: Seq<Effect<RaftType, Reply>>,
    b: Seq<Effect<RaftType, Reply>>,
    c: Seq<Effect<RaftType, Reply>>,
    first: Seq<Expected<RaftType, Reply>>,
    second: Seq<Expected<RaftType, Reply>>,
    config: RaftConfig,
)
    requires
        adds(a, b, first, config),
        adds(b, c, second, config),
    ensures
        adds(a, c, first + second, config),
{
    let n = a.len() as int;
    let m = b.len() as int;
    assert(c.take(n) =~= a) by {
        assert forall|i: int| 0 <= i < n implies c[i] == a[i] by {
            assert(c.take(m)[i] == b[i]);
            assert(b.take(n)[i] == a[i]);
        }
    }
    let added = c.skip(n);
    let expected = first + second;
    assert forall|i: int| 0 <= i < added.len() implies fulfils(
        #[trigger] added[i],
        expected[i],
        config,
    ) by {
        if i < m - n {
            assert(c.take(m)[n + i] == b[n + i]);
            assert(added[i] == b.skip(n)[i]);
        } else {
            assert(added[i] == c.skip(m)[i - (m - n)]);
        }
    }
}

/// Clones an entry of the log.
pub fn clone_entry<Command: Clone>(entry: &LogEntry<Command>) -> (r: LogEntry<Command>)
    ensures
        entry_cloned(*entry, r),
{
    LogEntry {
        term: entry.term,
        command: match &entry.command {
            LogCommand::NoOp => LogCommand::NoOp,
            LogCommand::Command(command) => LogCommand::Command(command.clone()),
        },
    }
}

/// Clones the entries of the log from `from` on.
pub fn clone_entries<Command: Clone>(log: &Vec<LogEntry<Command>>, from: usize) -> (r: Vec<
    LogEntry<Command>,
>)
    requires
        from <= log@.len(),
    ensures
        entries_cloned(log@.skip(from as int), r@),
{
    let mut out: Vec<LogEntry<Command>> = Vec::new();
    let mut i: usize = from;
    while i < log.len()
        invariant
            from <= i <= log@.len(),
            out@.len() == i - from,
            forall|j: int|
                0 <= j < i - from ==> entry_cloned(log@[from + j], #[trigger] out@[j]),
        decreases log@.len() - i,
    {
        out.push(clone_entry(&log[i]));
        i += 1;
    }
    proof {
        assert forall|j: int| 0 <= j < out@.len() implies entry_cloned(
            #[trigger] log@.skip(from as int)[j],
            #[trigger] out@[j],
        ) by {}
    }
    out
}

} // verus!
