use raft_kv::raft::{
    AppendRequest, AppendResponse, ClientCommands, ClientResponse, Effect, LogCommand, LogEntry, NodeId,
    PersistentState, RaftConfig, RaftEnvelope, RaftError, RaftMessage, RaftNode, RaftRole,
    RaftStateMachine, RaftStorage, RaftTypeConfig, Role, VoteRequest, VoteResponse,
};
use std::collections::HashMap;
use std::sync::Mutex;

#[derive(Debug, Copy, Clone, Eq, PartialEq)]
enum TestCommand {
    Inc(i64),
    Dec(i64),
    Put(i64),
}

#[derive(Debug, Clone, PartialEq)]
enum TestOutput {
    Value(i64),
}

#[derive(Default)]
struct TestStateMachine {
    value: i64,
}

#[derive(Debug, Clone, Copy)]
struct TestTypeConfig;

impl RaftTypeConfig for TestTypeConfig {
    type Command = TestCommand;
    type Output = TestOutput;
}

impl RaftStateMachine<TestTypeConfig> for TestStateMachine {
    fn apply(&mut self, command: &TestCommand) -> TestOutput {
        match command {
            TestCommand::Inc(n) => self.value += n,
            TestCommand::Dec(n) => self.value -= n,
            TestCommand::Put(n) => self.value = *n,
        }
        TestOutput::Value(self.value)
    }
}

/// A client waits under a number.
type TestNode = RaftNode<TestTypeConfig, u32>;

type TestEffect = Effect<TestTypeConfig, u32>;

#[derive(Default)]
struct TestStorage {
    bytes: Mutex<Option<Vec<u8>>>,
}

impl RaftStorage<TestTypeConfig> for TestStorage {
    fn save_state(&self, bytes: Vec<u8>) -> Result<(), RaftError> {
        *self.bytes.lock().unwrap() = Some(bytes);
        Ok(())
    }

    fn restore_state(&self) -> Result<Option<Vec<u8>>, RaftError> {
        Ok(self.bytes.lock().unwrap().clone())
    }
}

/// A state as it is encoded: entries by term, by what they do, and by how much.
type Record = (u64, Option<u64>, Vec<(u64, u8, i64)>);

fn to_record(state: &PersistentState<TestTypeConfig>) -> Record {
    let entries = state.log.iter().map(|entry| match entry.command {
        LogCommand::NoOp => (entry.term, 0, 0),
        LogCommand::Command(TestCommand::Inc(n)) => (entry.term, 1, n),
        LogCommand::Command(TestCommand::Dec(n)) => (entry.term, 2, n),
        LogCommand::Command(TestCommand::Put(n)) => (entry.term, 3, n),
    });
    (state.current_term, state.voted_for, entries.collect())
}

fn from_record(record: Record) -> PersistentState<TestTypeConfig> {
    let (current_term, voted_for, entries) = record;
    let log = entries
        .into_iter()
        .map(|(term, kind, n)| match kind {
            0 => noop_entry(term),
            1 => command_entry(term, TestCommand::Inc(n)),
            2 => command_entry(term, TestCommand::Dec(n)),
            _ => command_entry(term, TestCommand::Put(n)),
        })
        .collect();
    PersistentState { current_term, voted_for, log }
}

fn test_node(id: NodeId, peer_ids: Vec<NodeId>) -> TestNode {
    RaftNode::new(id, peer_ids, RaftConfig::default(), None)
}

fn restored_node(current_term: u64, log: Vec<LogEntry<TestCommand>>) -> TestNode {
    let state = PersistentState { current_term, voted_for: None, log };
    RaftNode::new(1, vec![2, 3], RaftConfig::default(), Some(state))
}

fn noop_entry(term: u64) -> LogEntry<TestCommand> {
    LogEntry { term, command: LogCommand::NoOp }
}

fn command_entry(term: u64, command: TestCommand) -> LogEntry<TestCommand> {
    LogEntry { term, command: LogCommand::Command(command) }
}

fn receive(node: &mut TestNode, from: NodeId, message: RaftMessage<TestTypeConfig>) {
    node.handle_message(RaftEnvelope { from, message });
}

fn sent_messages(effects: Vec<TestEffect>) -> Vec<(NodeId, RaftMessage<TestTypeConfig>)> {
    let mut sent = Vec::new();
    for effect in effects {
        if let Effect::Send { to, message } = effect {
            sent.push((to, message));
        }
    }
    sent
}

fn answer(mut effects: Vec<TestEffect>) -> ClientResponse<TestTypeConfig> {
    assert_eq!(effects.len(), 1);
    match effects.pop() {
        Some(Effect::Respond { response, .. }) => response,
        _ => panic!("expected an answer"),
    }
}

fn assert_noop(entry: &LogEntry<TestCommand>, term: u64) {
    assert_eq!(entry.term, term);
    assert!(matches!(entry.command, LogCommand::NoOp));
}

fn assert_command(entry: &LogEntry<TestCommand>, term: u64, expected: TestCommand) {
    assert_eq!(entry.term, term);
    match &entry.command {
        LogCommand::Command(actual) => assert_eq!(actual, &expected),
        LogCommand::NoOp => panic!("expected command entry, got NoOp"),
    }
}

fn assert_vote(message: &RaftMessage<TestTypeConfig>, term: u64, vote_granted: bool) {
    match message {
        RaftMessage::VoteResponse(response) => {
            assert_eq!(response.term, term);
            assert_eq!(response.vote_granted, vote_granted);
        }
        _ => panic!("expected VoteResponse"),
    }
}

fn assert_appended(
    message: &RaftMessage<TestTypeConfig>,
    term: u64,
    match_index: usize,
    success: bool,
) {
    match message {
        RaftMessage::AppendResponse(response) => {
            assert_eq!(response.term, term);
            assert_eq!(response.match_index, match_index);
            assert_eq!(response.success, success);
        }
        _ => panic!("expected AppendResponse"),
    }
}

#[test]
fn new_initializes_as_follower_with_dummy_log() {
    let node = test_node(1, vec![2, 3]);
    let status = node.status();

    assert_eq!(status.current_term, 0);
    assert_eq!(status.voted_for, None);
    assert!(matches!(node.role(), Role::Follower { current_leader_id: None }));
    assert_eq!(status.commit_index, 0);
    assert_eq!(status.last_applied, 0);
    assert_eq!(node.log().len(), 1);
    assert_noop(&node.log()[0], 0);
}

#[test]
fn become_candidate_votes_for_self_and_sends_vote_requests() {
    let mut node = test_node(1, vec![2, 3]);

    node.become_candidate();

    let status = node.status();
    assert_eq!(status.current_term, 1);
    assert_eq!(status.voted_for, Some(1));
    match node.role() {
        Role::Candidate { votes_received } => assert_eq!(*votes_received, 1),
        other => panic!("expected candidate, got {other:?}"),
    }

    let sent = sent_messages(node.take_effects());
    assert_eq!(sent.len(), 2);
    assert_eq!((sent[0].0, sent[1].0), (2, 3));
    for (_, message) in &sent {
        match message {
            RaftMessage::VoteRequest(request) => {
                assert_eq!(request.term, 1);
                assert_eq!(request.candidate_id, 1);
                assert_eq!(request.last_log_index, 0);
                assert_eq!(request.last_log_term, 0);
            }
            _ => panic!("expected VoteRequest"),
        }
    }
}

#[test]
fn candidate_becomes_leader_after_majority_vote() {
    let mut node = test_node(1, vec![2, 3]);

    node.become_candidate();
    let _ = node.take_effects();
    receive(&mut node, 2, RaftMessage::VoteResponse(VoteResponse { term: 1, vote_granted: true }));

    let status = node.status();
    assert_eq!(status.current_term, 1);
    assert_eq!(status.voted_for, Some(1));
    assert_eq!(node.log().len(), 2);
    assert_noop(&node.log()[1], 1);
    match node.role() {
        Role::Leader { next_index, match_index } => {
            assert_eq!(next_index.get(&2), Some(&2));
            assert_eq!(next_index.get(&3), Some(&2));
            assert_eq!(match_index.get(&2), Some(&0));
            assert_eq!(match_index.get(&3), Some(&0));
        }
        other => panic!("expected leader, got {other:?}"),
    }

    let sent = sent_messages(node.take_effects());
    assert_eq!(sent.len(), 2);
    for (_, message) in &sent {
        match message {
            RaftMessage::AppendRequest(request) => {
                assert_eq!(request.term, 1);
                assert_eq!(request.leader_id, 1);
                assert_eq!(request.prev_log_index, 1);
                assert_eq!(request.prev_log_term, 1);
                assert!(request.entries.is_empty());
                assert_eq!(request.leader_commit, 0);
            }
            _ => panic!("expected AppendRequest"),
        }
    }
}

#[test]
fn higher_term_vote_response_steps_candidate_down() {
    let mut node = test_node(1, vec![2, 3]);

    node.become_candidate();
    receive(&mut node, 2, RaftMessage::VoteResponse(VoteResponse { term: 7, vote_granted: true }));

    let status = node.status();
    assert_eq!(status.current_term, 7);
    assert_eq!(status.voted_for, None);
    assert!(matches!(node.role(), Role::Follower { current_leader_id: None }));
}

#[test]
fn vote_request_grants_first_vote_for_up_to_date_candidate() {
    let mut node = restored_node(1, vec![noop_entry(0)]);

    receive(
        &mut node,
        2,
        RaftMessage::VoteRequest(VoteRequest {
            term: 2,
            candidate_id: 2,
            last_log_index: 0,
            last_log_term: 0,
        }),
    );

    let status = node.status();
    assert_eq!(status.current_term, 2);
    assert_eq!(status.voted_for, Some(2));
    let sent = sent_messages(node.take_effects());
    assert_eq!(sent.len(), 1);
    assert_eq!(sent[0].0, 2);
    assert_vote(&sent[0].1, 2, true);
}

#[test]
fn vote_request_rejects_candidate_with_stale_log() {
    let mut node = restored_node(3, vec![noop_entry(0), command_entry(3, TestCommand::Put(9))]);

    receive(
        &mut node,
        2,
        RaftMessage::VoteRequest(VoteRequest {
            term: 3,
            candidate_id: 2,
            last_log_index: 0,
            last_log_term: 0,
        }),
    );

    assert_eq!(node.status().voted_for, None);
    let sent = sent_messages(node.take_effects());
    assert_eq!(sent.len(), 1);
    assert_eq!(sent[0].0, 2);
    assert_vote(&sent[0].1, 3, false);
}

#[test]
fn append_request_rejects_lower_term() {
    let mut node = restored_node(4, vec![noop_entry(0), command_entry(4, TestCommand::Inc(1))]);

    receive(
        &mut node,
        2,
        RaftMessage::AppendRequest(AppendRequest {
            term: 3,
            leader_id: 2,
            prev_log_index: 0,
            prev_log_term: 0,
            entries: vec![],
            leader_commit: 0,
        }),
    );

    assert_eq!(node.status().current_term, 4);
    assert_eq!(node.log().len(), 2);
    let sent = sent_messages(node.take_effects());
    assert_eq!(sent.len(), 1);
    assert_eq!(sent[0].0, 2);
    assert_appended(&sent[0].1, 4, 0, false);
}

#[test]
fn append_request_from_current_term_leader_steps_candidate_down() {
    let mut node = restored_node(1, vec![noop_entry(0)]);
    node.become_candidate();
    assert_eq!(node.status().current_term, 2);
    assert_eq!(node.status().voted_for, Some(1));
    let _ = node.take_effects();

    receive(
        &mut node,
        2,
        RaftMessage::AppendRequest(AppendRequest {
            term: 2,
            leader_id: 2,
            prev_log_index: 0,
            prev_log_term: 0,
            entries: vec![],
            leader_commit: 0,
        }),
    );

    assert_eq!(node.status().current_term, 2);
    match node.role() {
        Role::Follower { current_leader_id } => assert_eq!(*current_leader_id, Some(2)),
        other => panic!("expected follower, got {other:?}"),
    }
    let sent = sent_messages(node.take_effects());
    assert_eq!(sent.len(), 1);
    assert_eq!(sent[0].0, 2);
    assert_appended(&sent[0].1, 2, 0, true);
}

#[test]
fn append_request_truncates_conflicting_entries_and_appends_new_entries() {
    let mut node = restored_node(
        3,
        vec![
            noop_entry(0),
            command_entry(1, TestCommand::Inc(1)),
            command_entry(2, TestCommand::Inc(2)),
            command_entry(2, TestCommand::Dec(1)),
        ],
    );

    receive(
        &mut node,
        2,
        RaftMessage::AppendRequest(AppendRequest {
            term: 3,
            leader_id: 2,
            prev_log_index: 1,
            prev_log_term: 1,
            entries: vec![
                command_entry(3, TestCommand::Put(7)),
                command_entry(3, TestCommand::Inc(1)),
            ],
            leader_commit: 0,
        }),
    );

    assert_eq!(node.log().len(), 4);
    assert_command(&node.log()[1], 1, TestCommand::Inc(1));
    assert_command(&node.log()[2], 3, TestCommand::Put(7));
    assert_command(&node.log()[3], 3, TestCommand::Inc(1));
    assert_eq!(node.status().commit_index, 0);
    assert_eq!(node.status().last_applied, 0);

    let effects = node.take_effects();
    assert!(!effects.iter().any(|effect| matches!(effect, Effect::Apply { .. })));
    let sent = sent_messages(effects);
    assert_eq!(sent.len(), 1);
    assert_eq!(sent[0].0, 2);
    assert_appended(&sent[0].1, 3, 3, true);
}

#[test]
fn append_request_commits_and_applies_up_to_leader_commit() {
    let mut node = test_node(1, vec![2, 3]);
    let mut state_machine = TestStateMachine::default();

    receive(
        &mut node,
        2,
        RaftMessage::AppendRequest(AppendRequest {
            term: 1,
            leader_id: 2,
            prev_log_index: 0,
            prev_log_term: 0,
            entries: vec![
                command_entry(1, TestCommand::Inc(5)),
                command_entry(1, TestCommand::Dec(2)),
                command_entry(1, TestCommand::Put(10)),
            ],
            leader_commit: 2,
        }),
    );

    assert_eq!(node.log().len(), 4);
    assert_eq!(node.status().commit_index, 2);
    assert_eq!(node.status().last_applied, 2);
    assert_command(&node.log()[3], 1, TestCommand::Put(10));

    let effects = node.take_effects();
    for effect in &effects {
        if let Effect::Apply { command, waiting, .. } = effect {
            assert!(waiting.is_none());
            state_machine.apply(command);
        }
    }
    assert_eq!(state_machine.value, 3);
    let sent = sent_messages(effects);
    assert_eq!(sent.len(), 1);
    assert_eq!(sent[0].0, 2);
    assert_appended(&sent[0].1, 1, 3, true);
}

#[test]
fn advance_commit_requires_majority_on_current_term_entry() {
    let log = vec![
        noop_entry(0),
        command_entry(1, TestCommand::Inc(10)),
        command_entry(2, TestCommand::Inc(20)),
    ];
    let mut node = restored_node(2, log);

    node.role = Role::Leader {
        next_index: HashMap::from([(2, 3), (3, 3)]),
        match_index: HashMap::from([(2, 1), (3, 1)]),
    };

    node.advance_commit();
    assert_eq!(node.status().commit_index, 0);

    match &mut node.role {
        Role::Leader { match_index, .. } => {
            match_index.insert(2, 2);
        }
        other => panic!("expected leader, got {other:?}"),
    }

    node.advance_commit();
    assert_eq!(node.status().commit_index, 2);
    assert_eq!(node.status().last_applied, 0);
}

#[test]
fn node_commands_test() {
    let mut node = test_node(1, vec![2, 3]);

    node.client_command(ClientCommands::IsLeader { reply: 7 });
    assert!(matches!(answer(node.take_effects()), ClientResponse::Failed(RaftError::NoLeader)));

    receive(
        &mut node,
        2,
        RaftMessage::AppendRequest(AppendRequest {
            term: 0,
            leader_id: 2,
            prev_log_index: 0,
            prev_log_term: 0,
            entries: vec![],
            leader_commit: 0,
        }),
    );
    let _ = node.take_effects();
    node.client_command(ClientCommands::IsLeader { reply: 7 });
    assert!(matches!(answer(node.take_effects()), ClientResponse::Failed(RaftError::NotLeader(2))));

    node.become_leader();
    let _ = node.take_effects();
    node.client_command(ClientCommands::IsLeader { reply: 7 });
    assert!(matches!(answer(node.take_effects()), ClientResponse::Leader));
}

#[test]
fn append_response_success_commits_and_replies_to_pending_client_command() {
    let mut node = restored_node(1, vec![noop_entry(0)]);
    let mut state_machine = TestStateMachine::default();
    node.become_leader();
    assert_eq!(sent_messages(node.take_effects()).len(), 2);

    node.client_command(ClientCommands::Apply { command: TestCommand::Inc(4), reply: 9 });

    assert_eq!(node.log().len(), 3);
    assert_noop(&node.log()[1], 1);
    assert_command(&node.log()[2], 1, TestCommand::Inc(4));
    assert_eq!(node.status().commit_index, 0);
    assert_eq!(node.status().last_applied, 0);
    assert_eq!(sent_messages(node.take_effects()).len(), 2);

    receive(
        &mut node,
        2,
        RaftMessage::AppendResponse(AppendResponse { term: 1, match_index: 2, success: true }),
    );

    let mut replies = Vec::new();
    for effect in node.take_effects() {
        if let Effect::Apply { index, command, waiting } = effect {
            assert_eq!(index, 2);
            replies.push((waiting, state_machine.apply(&command)));
        }
    }
    assert_eq!(replies, vec![(Some(9), TestOutput::Value(4))]);
    assert_eq!(node.status().commit_index, 2);
    assert_eq!(node.status().last_applied, 2);
    assert_eq!(state_machine.value, 4);
    match node.role() {
        Role::Leader { next_index, match_index } => {
            assert_eq!(next_index.get(&2), Some(&3));
            assert_eq!(match_index.get(&2), Some(&2));
        }
        other => panic!("expected leader, got {other:?}"),
    }
}

#[test]
fn storage_persists_and_restores_state() {
    let storage = TestStorage::default();
    assert!(storage.restore_state().unwrap().is_none());
    let state: PersistentState<TestTypeConfig> = PersistentState {
        current_term: 5,
        voted_for: Some(3),
        log: vec![
            command_entry(1, TestCommand::Inc(1)),
            command_entry(2, TestCommand::Dec(2)),
            command_entry(3, TestCommand::Put(7)),
        ],
    };

    storage.save_state(postcard::to_stdvec(&to_record(&state)).unwrap()).unwrap();

    let restored_bytes = storage.restore_state().unwrap().unwrap();
    let restored_state = from_record(postcard::from_bytes(&restored_bytes).unwrap());

    assert_eq!(state.current_term, restored_state.current_term);
    assert_eq!(state.voted_for, restored_state.voted_for);
    assert_eq!(state.log.len(), restored_state.log.len());

    let mut node = test_node(1, vec![2, 3]);
    node.restore_state(Ok(Some(Ok(restored_state)))).unwrap();
    let status = node.status();
    assert_eq!(status.current_term, 5);
    assert_eq!(status.voted_for, Some(3));
    assert_eq!(status.log_len, 3);
    assert_command(&node.log()[0], 1, TestCommand::Inc(1));
    assert_command(&node.log()[1], 2, TestCommand::Dec(2));
    assert_command(&node.log()[2], 3, TestCommand::Put(7));
    assert!(matches!(status.role, RaftRole::Follower));
}
