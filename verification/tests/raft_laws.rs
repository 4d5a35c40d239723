use raft_kv::raft::node::has_majority;
use raft_kv::raft::{
    AppendRequest, AppendResponse, ClientCommands, ClientResponse, Effect, Event, LogCommand, LogEntry, NodeId,
    PersistentState, RaftConfig, RaftEnvelope, RaftError, RaftMessage, RaftNode, RaftRole, RaftTypeConfig,
    Role, VoteRequest, VoteResponse,
};

#[derive(Debug, Clone)]
struct Numbers;

impl RaftTypeConfig for Numbers {
    type Command = u32;
    type Output = u32;
}

type Node = RaftNode<Numbers, &'static str>;

fn entry(term: u64, number: u32) -> LogEntry<u32> {
    LogEntry { term, command: LogCommand::Command(number) }
}

fn noop(term: u64) -> LogEntry<u32> {
    LogEntry { term, command: LogCommand::NoOp }
}

fn node(current_term: u64, log: Vec<LogEntry<u32>>) -> Node {
    let state = PersistentState { current_term, voted_for: None, log };
    RaftNode::new(1, vec![1, 2, 3], RaftConfig::default(), Some(state))
}

fn append(
    term: u64,
    prev: (usize, u64),
    entries: Vec<LogEntry<u32>>,
    leader_commit: usize,
) -> RaftMessage<Numbers> {
    RaftMessage::AppendRequest(AppendRequest {
        term,
        leader_id: 2,
        prev_log_index: prev.0,
        prev_log_term: prev.1,
        entries,
        leader_commit,
    })
}

fn ask_for_vote(term: u64, candidate_id: NodeId, last: (usize, u64)) -> RaftMessage<Numbers> {
    RaftMessage::VoteRequest(VoteRequest {
        term,
        candidate_id,
        last_log_index: last.0,
        last_log_term: last.1,
    })
}

fn receive(node: &mut Node, from: NodeId, message: RaftMessage<Numbers>) -> Vec<Effect<Numbers, &'static str>> {
    node.handle_message(RaftEnvelope { from, message });
    node.take_effects()
}

/// What is asked for, in order, by one letter each.
fn kinds(effects: &[Effect<Numbers, &'static str>]) -> String {
    effects
        .iter()
        .map(|effect| match effect {
            Effect::Persist(_) => 'p',
            Effect::ResetElectionTimer { .. } => 't',
            Effect::Send { .. } => 's',
            Effect::Apply { .. } => 'a',
            Effect::Respond { .. } => 'r',
        })
        .collect()
}

fn granted(effects: &[Effect<Numbers, &'static str>]) -> bool {
    match effects.last() {
        Some(Effect::Send { message: RaftMessage::VoteResponse(vote), .. }) => vote.vote_granted,
        _ => panic!("expected a vote"),
    }
}

fn terms(node: &Node) -> Vec<u64> {
    node.log().iter().map(|entry| entry.term).collect()
}

fn number(entry: &LogEntry<u32>) -> Option<u32> {
    match entry.command {
        LogCommand::NoOp => None,
        LogCommand::Command(number) => Some(number),
    }
}

#[test]
fn term_never_goes_down() {
    let mut node = node(5, vec![noop(0)]);
    receive(&mut node, 2, append(4, (0, 0), vec![], 0));
    assert_eq!(node.status().current_term, 5);
    receive(&mut node, 2, ask_for_vote(3, 2, (9, 9)));
    assert_eq!(node.status().current_term, 5);
    receive(&mut node, 2, append(8, (0, 0), vec![], 0));
    assert_eq!(node.status().current_term, 8);
    node.become_follower(2);
    assert_eq!(node.status().current_term, 8);
}

#[test]
fn one_vote_per_term() {
    let mut node = node(1, vec![noop(0)]);
    assert!(granted(&receive(&mut node, 2, ask_for_vote(2, 2, (0, 0)))));
    assert!(!granted(&receive(&mut node, 3, ask_for_vote(2, 3, (0, 0)))));
    assert_eq!(node.status().voted_for, Some(2));
    assert!(granted(&receive(&mut node, 2, ask_for_vote(2, 2, (0, 0)))));
    assert!(granted(&receive(&mut node, 3, ask_for_vote(3, 3, (0, 0)))));
    assert_eq!(node.status().voted_for, Some(3));
}

#[test]
fn vote_needs_up_to_date_log() {
    for (last, expected) in [((0, 9), true), ((2, 3), true), ((1, 3), false), ((7, 2), false)] {
        let mut node = node(3, vec![noop(0), entry(2, 1), entry(3, 2)]);
        assert_eq!(granted(&receive(&mut node, 2, ask_for_vote(4, 2, last))), expected);
        assert_eq!(node.status().current_term, 4);
    }
}

#[test]
fn stale_vote_request_is_refused() {
    let mut node = node(3, vec![noop(0)]);
    let effects = receive(&mut node, 2, ask_for_vote(2, 2, (5, 5)));
    assert_eq!(kinds(&effects), "s");
    assert!(!granted(&effects));
}

#[test]
fn leader_only_appends() {
    let mut node = node(2, vec![noop(0), entry(1, 4)]);
    node.become_leader();
    node.client_command(ClientCommands::Apply { command: 6, reply: "six" });
    assert_eq!(terms(&node), vec![0, 1, 2, 2]);
    node.append_response(2, &AppendResponse { term: 2, match_index: 3, success: true });
    assert_eq!(terms(&node), vec![0, 1, 2, 2]);
    assert!(node.role().is_leader());
}

#[test]
fn commit_stays_unless_the_leader_goes_against_it() {
    let mut node = node(1, vec![noop(0)]);
    receive(&mut node, 2, append(1, (0, 0), vec![entry(1, 1), entry(1, 2), entry(1, 3)], 3));
    assert_eq!(node.status().commit_index, 3);
    receive(&mut node, 2, append(1, (3, 1), vec![], 0));
    assert_eq!(node.status().commit_index, 3);
    receive(&mut node, 3, append(2, (0, 0), vec![entry(2, 9)], 4));
    assert_eq!(node.status().commit_index, 1);
    assert_eq!(node.status().last_applied, 3);
}

#[test]
fn commit_needs_majority() {
    let state = PersistentState { current_term: 1, voted_for: None, log: vec![noop(0)] };
    let mut node: Node =
        RaftNode::new(1, vec![2, 3, 4, 5], RaftConfig::default(), Some(state));
    node.become_leader();
    let matched = AppendResponse { term: 1, match_index: 1, success: true };
    node.append_response(2, &matched);
    node.append_response(2, &matched);
    assert_eq!(node.status().commit_index, 0);
    node.append_response(3, &matched);
    assert_eq!(node.status().commit_index, 1);
}

#[test]
fn majorities_overlap() {
    assert!(!has_majority(1, 2));
    assert!(has_majority(2, 2));
    assert!(!has_majority(1, 3));
    assert!(has_majority(2, 3));
    assert!(!has_majority(2, 4));
    assert!(has_majority(3, 4));
    assert!(has_majority(1, 1));
    assert!(!has_majority(0, 1));
}

#[test]
fn one_winner_per_term() {
    let mut voter = node(1, vec![noop(0)]);
    let first = granted(&receive(&mut voter, 2, ask_for_vote(2, 2, (0, 0))));
    let second = granted(&receive(&mut voter, 3, ask_for_vote(2, 3, (0, 0))));
    let votes_for_2 = 1 + usize::from(first);
    let votes_for_3 = 1 + usize::from(second);
    assert!(has_majority(votes_for_2, 3));
    assert!(!has_majority(votes_for_3, 3));
}

#[test]
fn a_vote_that_comes_twice_counts_twice() {
    let mut node: Node = RaftNode::new(1, vec![2, 3, 4, 5], RaftConfig::default(), None);
    node.become_candidate();
    node.vote_response(VoteResponse { term: 1, vote_granted: true });
    assert!(node.role().is_candidate());
    node.vote_response(VoteResponse { term: 1, vote_granted: true });
    assert!(node.role().is_leader());
}

#[test]
fn refused_and_stale_votes_do_not_count() {
    let mut node: Node = RaftNode::new(1, vec![2, 3], RaftConfig::default(), None);
    node.become_candidate();
    node.become_candidate();
    node.vote_response(VoteResponse { term: 2, vote_granted: false });
    node.vote_response(VoteResponse { term: 1, vote_granted: true });
    match node.role() {
        Role::Candidate { votes_received } => assert_eq!(*votes_received, 1),
        other => panic!("expected candidate, got {other:?}"),
    }
}

#[test]
fn log_takes_entries() {
    let mut node = node(2, vec![noop(0), entry(1, 1), entry(1, 2), entry(1, 3)]);
    receive(&mut node, 2, append(2, (1, 1), vec![entry(1, 2)], 0));
    assert_eq!(terms(&node), vec![0, 1, 1, 1]);
    receive(&mut node, 2, append(2, (1, 1), vec![entry(1, 2), entry(2, 8), entry(2, 9)], 0));
    assert_eq!(terms(&node), vec![0, 1, 1, 2, 2]);
    assert_eq!(number(&node.log()[4]), Some(9));
}

#[test]
fn duplicate_request_changes_nothing() {
    let mut node = node(2, vec![noop(0), entry(1, 1)]);
    let entries = || vec![entry(2, 5), entry(2, 6)];
    receive(&mut node, 2, append(2, (1, 1), entries(), 1));
    let first = node.status();
    let log = terms(&node);
    let effects = receive(&mut node, 2, append(2, (1, 1), entries(), 1));
    let second = node.status();
    assert_eq!(terms(&node), log);
    assert_eq!(number(&node.log()[3]), Some(6));
    assert_eq!(second.current_term, first.current_term);
    assert_eq!(second.voted_for, first.voted_for);
    assert_eq!(second.leader_id, first.leader_id);
    assert_eq!(second.commit_index, first.commit_index);
    assert_eq!(second.last_applied, first.last_applied);
    assert!(matches!(second.role, RaftRole::Follower));
    assert_eq!(kinds(&effects), "tps");
    match effects.last() {
        Some(Effect::Send { to, message: RaftMessage::AppendResponse(answer) }) => {
            assert_eq!((*to, answer.term), (2, 2));
            assert_eq!((answer.match_index, answer.success), (3, true));
        }
        _ => panic!("expected an answer"),
    }
}

#[test]
fn append_request_needs_previous_entry() {
    let mut node = node(3, vec![noop(0), entry(1, 1), entry(2, 2)]);
    for (prev, match_index) in [((5, 2), 2), ((2, 1), 2), ((1, 3), 1)] {
        let effects = receive(&mut node, 2, append(3, prev, vec![entry(3, 9)], 2));
        assert_eq!(kinds(&effects), "ts");
        match effects.last() {
            Some(Effect::Send { message: RaftMessage::AppendResponse(response), .. }) => {
                assert_eq!((response.term, response.match_index), (3, match_index));
                assert!(!response.success);
            }
            _ => panic!("expected an answer"),
        }
        assert_eq!(terms(&node), vec![0, 1, 2]);
        assert_eq!(node.status().commit_index, 0);
    }
}

#[test]
fn applied_in_order() {
    let mut node = node(1, vec![noop(0)]);
    let entries = vec![entry(1, 10), noop(1), entry(1, 30), entry(1, 40)];
    let effects = receive(&mut node, 2, append(1, (0, 0), entries, 9));
    let mut applied = Vec::new();
    for effect in &effects {
        if let Effect::Apply { index, command, .. } = effect {
            applied.push((*index, *command));
        }
    }
    assert_eq!(applied, vec![(1, 10), (3, 30), (4, 40)]);
    assert_eq!(node.status().last_applied, 4);
}

#[test]
fn vote_is_saved_first() {
    let mut node = node(1, vec![noop(0)]);
    let effects = receive(&mut node, 2, ask_for_vote(1, 2, (0, 0)));
    assert_eq!(kinds(&effects), "tps");
    match &effects[1] {
        Effect::Persist(state) => {
            assert_eq!((state.current_term, state.voted_for), (1, Some(2)));
            assert_eq!(state.log.len(), 1);
        }
        _ => panic!("expected the state to be saved"),
    }
}

#[test]
fn entries_are_saved_first() {
    let mut node = node(1, vec![noop(0)]);
    let effects = receive(&mut node, 2, append(2, (0, 0), vec![entry(2, 1)], 1));
    assert_eq!(kinds(&effects), "pttpas");
    match &effects[3] {
        Effect::Persist(state) => assert_eq!(state.log.len(), 2),
        _ => panic!("expected the state to be saved"),
    }
}

#[test]
fn restart_restores() {
    let mut node = node(1, vec![noop(0)]);
    receive(&mut node, 2, append(2, (0, 0), vec![entry(2, 5)], 1));
    let effects = receive(&mut node, 3, ask_for_vote(2, 3, (1, 2)));
    let mut saved = None;
    for effect in effects {
        if let Effect::Persist(state) = effect {
            saved = Some(state);
        }
    }
    let restarted: Node = RaftNode::new(1, vec![2, 3], RaftConfig::default(), saved);
    assert_eq!(restarted.status().current_term, 2);
    assert_eq!(restarted.status().voted_for, Some(3));
    assert_eq!(terms(&restarted), terms(&node));
    assert_eq!(number(&restarted.log()[1]), Some(5));
    assert_eq!(restarted.status().commit_index, 0);
}

#[test]
fn saved_state_is_restored_or_refused() {
    let state = || PersistentState { current_term: 4, voted_for: Some(3), log: vec![noop(0), entry(4, 8)] };
    let mut node: Node = RaftNode::new(1, vec![2, 3], RaftConfig::default(), None);
    node.restore_state(Ok(None)).unwrap();
    assert_eq!((node.status().current_term, node.status().voted_for), (0, None));
    assert_eq!(terms(&node), vec![0]);

    node.restore_state(Ok(Some(Ok(state())))).unwrap();
    assert_eq!((node.status().current_term, node.status().voted_for), (4, Some(3)));
    assert_eq!(terms(&node), vec![0, 4]);
    assert_eq!(number(&node.log()[1]), Some(8));

    let undecodable = postcard::from_bytes::<u64>(&[]).unwrap_err();
    assert!(matches!(
        node.restore_state(Ok(Some(Err(undecodable)))),
        Err(RaftError::SerializationError(postcard::Error::DeserializeUnexpectedEnd))
    ));
    assert!(matches!(
        node.restore_state(Err(RaftError::CommandChannelClosed)),
        Err(RaftError::CommandChannelClosed)
    ));
    assert_eq!((node.status().current_term, node.status().voted_for), (4, Some(3)));
    assert_eq!(terms(&node), vec![0, 4]);
    assert!(node.take_effects().is_empty());
}

#[test]
fn command_is_taken_for_a_peer_that_is_one_ahead() {
    let mut leader = node(1, vec![noop(0)]);
    leader.become_leader();
    leader.append_response(2, &AppendResponse { term: 1, match_index: 2, success: true });
    let _ = leader.take_effects();
    let command = || Event::Command(ClientCommands::Apply { command: 7, reply: "seven" });
    assert!(!leader.can_take(&Event::HeartbeatTick));
    assert!(leader.can_take(&command()));
    leader.on_event(command());
    assert_eq!(terms(&leader), vec![0, 1, 1]);
    let mut asked = 0;
    for effect in leader.take_effects() {
        if let Effect::Send { to: 2, message: RaftMessage::AppendRequest(request) } = effect {
            assert_eq!((request.prev_log_index, request.prev_log_term), (2, 1));
            assert!(request.entries.is_empty());
            asked += 1;
        }
    }
    assert_eq!(asked, 1);
    assert!(leader.can_take(&Event::HeartbeatTick));
}

#[test]
fn command_is_taken() {
    let mut node = node(4, vec![noop(0)]);
    node.become_leader();
    let _ = node.take_effects();
    node.client_command(ClientCommands::Apply { command: 7, reply: "seven" });
    assert_eq!(number(&node.log()[2]), Some(7));
    assert_eq!(node.log()[2].term, 4);
    let effects = node.take_effects();
    assert_eq!(kinds(&effects), "pss");
    match &effects[1] {
        Effect::Send { to, message: RaftMessage::AppendRequest(request) } => {
            assert_eq!(*to, 2);
            assert_eq!((request.prev_log_index, request.prev_log_term), (1, 4));
            assert_eq!(request.entries.len(), 1);
            assert_eq!(number(&request.entries[0]), Some(7));
        }
        _ => panic!("expected a request"),
    }
}

#[test]
fn command_is_refused_without_leadership() {
    let mut node: Node = RaftNode::new(1, vec![2, 3], RaftConfig::default(), None);
    node.client_command(ClientCommands::Apply { command: 7, reply: "seven" });
    assert_eq!(node.log().len(), 1);
    match node.take_effects().pop() {
        Some(Effect::Respond { reply, response: ClientResponse::Failed(RaftError::NoLeader) }) => {
            assert_eq!(reply, "seven")
        }
        _ => panic!("expected a refusal"),
    }
    node.become_candidate();
    let _ = node.take_effects();
    node.client_command(ClientCommands::IsLeader { reply: "who" });
    assert!(matches!(
        node.take_effects().pop(),
        Some(Effect::Respond { response: ClientResponse::Failed(RaftError::NoLeader), .. })
    ));
}

#[test]
fn log_and_status_are_reported() {
    let mut node = node(2, vec![noop(0), entry(1, 11)]);
    node.client_command(ClientCommands::GetLog { reply: "log" });
    node.client_command(ClientCommands::GetLogEntry { index: 1, reply: "entry" });
    node.client_command(ClientCommands::GetLogEntry { index: 2, reply: "none" });
    node.client_command(ClientCommands::GetStatus { reply: "status" });
    let mut answers = Vec::new();
    for effect in node.take_effects() {
        match effect {
            Effect::Respond { reply, response } => answers.push((reply, response)),
            _ => panic!("expected answers only"),
        }
    }
    assert_eq!(answers.len(), 4);
    match &answers[0].1 {
        ClientResponse::Log(log) => {
            assert_eq!(log.len(), 2);
            assert_eq!(number(&log[1]), Some(11));
        }
        _ => panic!("expected the log"),
    }
    match &answers[1].1 {
        ClientResponse::LogEntry(Some(entry)) => {
            assert_eq!((entry.term, number(entry)), (1, Some(11)))
        }
        _ => panic!("expected an entry"),
    }
    assert!(matches!(answers[2].1, ClientResponse::LogEntry(None)));
    match &answers[3].1 {
        ClientResponse::Status(status) => {
            assert_eq!(status.id, 1);
            assert_eq!(status.peer_ids, vec![2, 3]);
            assert_eq!(status.log_len, 2);
            assert!(matches!(status.role, RaftRole::Follower));
            assert_eq!(status.leader_id, None);
        }
        _ => panic!("expected the status"),
    }
}

#[test]
fn status_of_a_leader_names_itself() {
    let mut node = node(2, vec![noop(0)]);
    node.become_leader();
    let status = node.status();
    assert_eq!(status.leader_id, Some(1));
    match status.role {
        RaftRole::Leader { next_index, match_index } => {
            assert_eq!(next_index.get(&3), Some(&2));
            assert_eq!(match_index.get(&3), Some(&0));
            assert_eq!(next_index.get(&1), None);
        }
        other => panic!("expected leader, got {other:?}"),
    }
}

#[test]
fn single_node_elects_itself() {
    let mut node: Node = RaftNode::new(1, vec![1], RaftConfig::default(), None);
    node.become_candidate();
    assert!(node.role().is_leader());
    assert_eq!(kinds(&node.take_effects()), "tp");
    assert_eq!(node.status().voted_for, Some(1));
}

#[test]
fn refused_entries_move_the_leader_back() {
    let mut node = node(1, vec![noop(0), entry(1, 1), entry(1, 2)]);
    node.become_leader();
    for (said, next) in [(9, 8), (3, 2), (1, 1), (0, 1)] {
        node.append_response(2, &AppendResponse { term: 1, match_index: said, success: false });
        match node.role() {
            Role::Leader { next_index, match_index } => {
                assert_eq!(next_index.get(&2), Some(&next));
                assert_eq!(match_index.get(&2), Some(&0));
            }
            other => panic!("expected leader, got {other:?}"),
        }
    }
    assert!(node.is_ready_to_replicate());
    let _ = node.take_effects();
    node.on_heartbeat();
    match node.take_effects().swap_remove(0) {
        Effect::Send { message: RaftMessage::AppendRequest(request), .. } => {
            assert_eq!(request.prev_log_index, 0);
            assert_eq!(request.entries.len(), 3);
        }
        _ => panic!("expected a request"),
    }
}

#[test]
fn leader_is_not_ready_for_a_peer_beyond_its_log() {
    let mut node = node(1, vec![noop(0)]);
    node.become_leader();
    assert!(node.is_ready_to_replicate());
    node.append_response(2, &AppendResponse { term: 1, match_index: 7, success: true });
    assert!(!node.is_ready_to_replicate());
}

#[test]
fn answers_of_other_terms_are_ignored_or_end_leadership() {
    let mut node = node(3, vec![noop(0)]);
    node.become_leader();
    let _ = node.take_effects();
    node.append_response(2, &AppendResponse { term: 2, match_index: 1, success: true });
    assert!(node.take_effects().is_empty());
    assert_eq!(node.status().commit_index, 0);
    node.append_response(2, &AppendResponse { term: 4, match_index: 1, success: true });
    assert!(node.role().is_follower());
    assert_eq!(node.status().current_term, 4);
    assert_eq!(kinds(&node.take_effects()), "pt");
}

#[test]
fn two_leaders_of_a_term_are_not_accepted() {
    let request = AppendRequest {
        term: 3,
        leader_id: 2,
        prev_log_index: 0,
        prev_log_term: 0,
        entries: vec![],
        leader_commit: 0,
    };
    let mut node = node(3, vec![noop(0)]);
    assert!(node.can_append(&request));
    node.become_leader();
    assert!(!node.can_append(&request));
}

#[test]
fn messages_to_strangers_are_dropped() {
    let mut node = node(3, vec![noop(0)]);
    assert_eq!(kinds(&receive(&mut node, 9, append(2, (0, 0), vec![], 0))), "");
    assert_eq!(kinds(&receive(&mut node, 9, ask_for_vote(2, 9, (0, 0)))), "");
}

#[test]
fn timers_are_for_one_role_each() {
    let mut node = node(1, vec![noop(0)]);
    node.on_event(Event::HeartbeatTick);
    assert!(node.take_effects().is_empty());
    node.on_event(Event::ElectionTimeout);
    assert!(node.role().is_candidate());
    assert_eq!(node.status().current_term, 2);
    assert_eq!(kinds(&node.take_effects()), "tpss");
    node.on_event(Event::Message(RaftEnvelope {
        from: 3,
        message: RaftMessage::VoteResponse(VoteResponse { term: 2, vote_granted: true }),
    }));
    assert!(node.role().is_leader());
    assert_eq!(kinds(&node.take_effects()), "pss");
    node.on_event(Event::ElectionTimeout);
    assert!(node.role().is_leader());
    assert!(node.take_effects().is_empty());
    node.on_event(Event::HeartbeatTick);
    assert_eq!(kinds(&node.take_effects()), "ss");
    node.on_event(Event::Command(ClientCommands::IsLeader { reply: "who" }));
    assert_eq!(kinds(&node.take_effects()), "r");
}

#[test]
fn events_that_a_node_cannot_take_are_known() {
    let answer = |match_index: usize| {
        Event::Message(RaftEnvelope {
            from: 2,
            message: RaftMessage::AppendResponse(AppendResponse { term: 1, match_index, success: true }),
        })
    };
    let command = || Event::Command(ClientCommands::Apply { command: 1, reply: "one" });
    let mut leader = node(1, vec![noop(0)]);
    assert!(leader.can_take(&answer(usize::MAX)));
    leader.become_leader();
    assert!(leader.can_take(&answer(9)));
    assert!(!leader.can_take(&answer(usize::MAX)));
    assert!(leader.can_take(&command()));
    leader.on_event(answer(9));
    assert!(!leader.can_take(&command()));
    assert!(!leader.can_take(&Event::HeartbeatTick));
    assert!(leader.can_take(&Event::ElectionTimeout));
    let last = node(u64::MAX, vec![noop(0)]);
    assert!(!last.can_take(&Event::ElectionTimeout));
    assert!(last.can_take(&Event::HeartbeatTick));
}

#[test]
fn launch_waits_for_a_leader() {
    let mut node: Node = RaftNode::new(1, vec![2], RaftConfig::new(10, 12, 5, 50), None);
    node.launch();
    match node.take_effects().pop() {
        Some(Effect::ResetElectionTimer { timeout_ms }) => {
            assert!(timeout_ms == 10 || timeout_ms == 11)
        }
        _ => panic!("expected the timer to be set"),
    }
}

#[test]
fn election_timeout_lies_in_its_range() {
    let config = RaftConfig::default();
    assert_eq!(config.election_timeout_min_ms, 150);
    assert_eq!(config.election_timeout_max_ms, 300);
    assert_eq!(config.heartbeat_interval_ms, 75);
    assert_eq!(config.transport_timeout_ms, 350);
    let mut seen = Vec::new();
    for _ in 0..200 {
        let timeout = config.random_election_timeout();
        assert!((150..300).contains(&timeout));
        seen.push(timeout);
    }
    seen.sort();
    seen.dedup();
    assert!(seen.len() > 1);
    assert_eq!(RaftConfig::new(7, 8, 1, 2).random_election_timeout(), 7);
}

#[test]
fn an_error_carries_what_postcard_says() {
    let cause = postcard::from_bytes::<u64>(&[]).unwrap_err();
    assert!(matches!(
        RaftError::SerializationError(cause),
        RaftError::SerializationError(postcard::Error::DeserializeUnexpectedEnd)
    ));
}
