use log_replication_system::log_entry::{Command, LogEntry};
use log_replication_system::network::Message;
use log_replication_system::replication::{NodeState, Reaction, ReplicationManager};
use log_replication_system::storage::{Metadata, Storage};

const SECOND: u64 = 1_000_000_000;

fn create_test_replication_manager(node_id: &str, peers: Vec<&str>) -> ReplicationManager {
    manager_with_storage(node_id, peers, Storage::new())
}

fn manager_with_storage(node_id: &str, peers: Vec<&str>, storage: Storage) -> ReplicationManager {
    ReplicationManager::new(
        node_id.to_string(),
        storage,
        peers.into_iter().map(|p| p.to_string()).collect(),
        0,
    )
}

/// A node without peers appends as the program does: no replication
/// exchange is needed, the entry is committed at once.
fn append_command(manager: &mut ReplicationManager, command: &str) -> bool {
    match manager.start_append(command.to_string()) {
        Some(id) => {
            manager.finish_append(id);
            true
        },
        None => false,
    }
}

fn entry(id: u64, term: u64, data: &str) -> LogEntry {
    LogEntry::new(id, term, Command::operation(data.to_string()))
}

#[test]
fn test_replication_manager_creation() {
    let peers = vec!["127.0.0.1:8081", "127.0.0.1:8082"];
    let manager = create_test_replication_manager("test-node", peers.clone());

    assert_eq!(manager.get_node_id(), "test-node");
    assert_eq!(*manager.get_state(), NodeState::Follower);
    assert_eq!(manager.get_current_term(), 0);
    assert_eq!(manager.get_peers(), &peers.iter().map(|p| p.to_string()).collect::<Vec<_>>());
    assert!(manager.get_voted_for().is_none());
    assert!(manager.get_leader_id().is_none());
    let t = manager.get_election_timeout();
    assert!(150_000_000 <= t && t < 300_000_000);
}

#[test]
fn test_become_leader() {
    let peers = vec!["127.0.0.1:8081"];
    let mut manager = create_test_replication_manager("leader-node", peers);

    assert_eq!(*manager.get_state(), NodeState::Follower);
    assert!(manager.get_leader_id().is_none());

    manager.become_leader();

    assert_eq!(*manager.get_state(), NodeState::Leader);
    assert_eq!(manager.get_leader_id(), Some(&"leader-node".to_string()));
    assert!(manager.next_index_of(&"127.0.0.1:8081".to_string()).is_some());
    assert!(manager.match_index_of(&"127.0.0.1:8081".to_string()).is_some());
    assert_eq!(manager.next_index_of(&"127.0.0.1:8081".to_string()), Some(1));
    assert_eq!(manager.match_index_of(&"127.0.0.1:8081".to_string()), Some(0));
}

#[test]
fn test_append_command_as_follower() {
    let mut manager = create_test_replication_manager("follower-node", vec![]);
    assert_eq!(*manager.get_state(), NodeState::Follower);
    assert_eq!(append_command(&mut manager, "test-command"), false);
    assert_eq!(manager.storage().get_last_log_index(), 0);
}

#[test]
fn test_append_command_as_leader() {
    let mut manager = create_test_replication_manager("leader-node", vec![]);
    manager.become_leader();
    assert_eq!(*manager.get_state(), NodeState::Leader);

    assert_eq!(append_command(&mut manager, "test-command"), true);

    assert_eq!(manager.storage().get_last_log_index(), 1);
    let entry = manager.storage().get(1).unwrap();
    assert_eq!(entry.id, 1);
    assert_eq!(entry.command, Command::operation("test-command".to_string()));
    // a node without peers commits at once
    assert!(entry.committed);
    assert_eq!(manager.storage().get_commit_index(), 1);
}

#[test]
fn test_handle_append_entries_from_newer_term() {
    let mut manager = create_test_replication_manager("follower-node", vec![]);
    assert_eq!(manager.get_current_term(), 0);
    assert_eq!(*manager.get_state(), NodeState::Follower);

    let response = manager.handle_append_entries(5, "leader".to_string(), 0, 0, vec![], 0, 10);

    assert_eq!(manager.get_current_term(), 5);
    assert_eq!(*manager.get_state(), NodeState::Follower);
    assert_eq!(manager.get_leader_id(), Some(&"leader".to_string()));
    match response {
        Message::AppendEntriesResponse { term, success, .. } => {
            assert_eq!(term, 5);
            assert_eq!(success, true);
        },
        _ => panic!("Expected AppendEntriesResponse"),
    }
}

#[test]
fn test_handle_append_entries_from_older_term() {
    let storage = Storage::restore(
        Some(Metadata { current_term: 5, last_log_index: 0, commit_index: 0 }),
        vec![],
    );
    let mut manager = manager_with_storage("node", vec![], storage);
    assert_eq!(manager.get_current_term(), 5);

    let response = manager.handle_append_entries(3, "old-leader".to_string(), 0, 0, vec![], 0, 10);

    assert_eq!(manager.get_current_term(), 5);
    match response {
        Message::AppendEntriesResponse { term, success, .. } => {
            assert_eq!(term, 5);
            assert_eq!(success, false);
        },
        _ => panic!("Expected AppendEntriesResponse"),
    }
}

#[test]
fn test_handle_append_entries_with_log_entries() {
    let mut manager = create_test_replication_manager("follower", vec![]);
    let entry1 = entry(1, 1, "command1");
    let entry2 = entry(2, 1, "command2");
    let entries = vec![entry1.clone(), entry2.clone()];

    let response = manager.handle_append_entries(1, "leader".to_string(), 0, 0, entries, 0, 10);

    match response {
        Message::AppendEntriesResponse { success, match_index, .. } => {
            assert_eq!(success, true);
            assert_eq!(match_index, 2);
        },
        _ => panic!("Expected AppendEntriesResponse"),
    }
    assert_eq!(manager.storage().get_last_log_index(), 2);
    assert_eq!(manager.storage().get(1).unwrap().command, entry1.command);
    assert_eq!(manager.storage().get(2).unwrap().command, entry2.command);
}

#[test]
fn test_handle_request_vote_grant_vote() {
    let mut manager = create_test_replication_manager("voter", vec![]);
    let response = manager.handle_request_vote(1, "candidate".to_string(), 0, 0, 10);
    match response {
        Message::RequestVoteResponse { term, vote_granted } => {
            assert_eq!(term, 1);
            assert_eq!(vote_granted, true);
        },
        _ => panic!("Expected RequestVoteResponse"),
    }
    assert_eq!(manager.get_current_term(), 1);
    assert_eq!(manager.get_voted_for(), Some(&"candidate".to_string()));
    assert_eq!(manager.get_last_heartbeat(), 10);
}

#[test]
fn test_handle_request_vote_deny_already_voted() {
    let mut manager = create_test_replication_manager("voter", vec![]);
    manager.handle_request_vote(1, "candidate1".to_string(), 0, 0, 10);
    assert_eq!(manager.get_voted_for(), Some(&"candidate1".to_string()));

    let response = manager.handle_request_vote(1, "candidate2".to_string(), 0, 0, 20);
    match response {
        Message::RequestVoteResponse { vote_granted, .. } => {
            assert_eq!(vote_granted, false);
        },
        _ => panic!("Expected RequestVoteResponse"),
    }
    assert_eq!(manager.get_voted_for(), Some(&"candidate1".to_string()));
    assert_eq!(manager.get_last_heartbeat(), 10);
}

#[test]
fn test_handle_request_vote_deny_stale_term() {
    let storage = Storage::restore(
        Some(Metadata { current_term: 5, last_log_index: 0, commit_index: 0 }),
        vec![],
    );
    let mut manager = manager_with_storage("voter", vec![], storage);

    let response = manager.handle_request_vote(3, "candidate".to_string(), 0, 0, 10);
    match response {
        Message::RequestVoteResponse { term, vote_granted } => {
            assert_eq!(term, 5);
            assert_eq!(vote_granted, false);
        },
        _ => panic!("Expected RequestVoteResponse"),
    }
}

#[test]
fn revote_for_same_candidate_is_granted() {
    let mut manager = create_test_replication_manager("voter", vec![]);
    manager.handle_request_vote(2, "c".to_string(), 0, 0, 10);
    match manager.handle_request_vote(2, "c".to_string(), 0, 0, 20) {
        Message::RequestVoteResponse { vote_granted, .. } => assert!(vote_granted),
        _ => panic!("Expected RequestVoteResponse"),
    }
}

#[test]
fn newer_term_frees_the_vote() {
    let mut manager = create_test_replication_manager("voter", vec![]);
    manager.handle_request_vote(1, "a".to_string(), 0, 0, 10);
    match manager.handle_request_vote(2, "b".to_string(), 0, 0, 20) {
        Message::RequestVoteResponse { term, vote_granted } => {
            assert_eq!(term, 2);
            assert!(vote_granted);
        },
        _ => panic!("Expected RequestVoteResponse"),
    }
    assert_eq!(manager.get_voted_for(), Some(&"b".to_string()));
}

#[test]
fn test_log_up_to_date_comparison() {
    let mut storage = Storage::new();
    storage.append(entry(1, 1, "cmd1"));
    storage.append(entry(2, 2, "cmd2"));
    let manager = manager_with_storage("node", vec![], storage);

    // Our log: term=2, index=2
    assert!(manager.is_log_up_to_date(1, 3));
    assert!(manager.is_log_up_to_date(3, 2));
    assert!(manager.is_log_up_to_date(2, 2));
    assert!(!manager.is_log_up_to_date(5, 1));
    assert!(!manager.is_log_up_to_date(1, 2));
}

#[test]
fn test_start_election() {
    let peers = vec!["127.0.0.1:8081", "127.0.0.1:8082"];
    let mut manager = create_test_replication_manager("candidate", peers);

    assert_eq!(*manager.get_state(), NodeState::Follower);
    assert_eq!(manager.get_current_term(), 0);
    assert!(manager.get_voted_for().is_none());

    manager.start_election(10);

    assert_eq!(*manager.get_state(), NodeState::Candidate);
    assert_eq!(manager.get_current_term(), 1);
    assert_eq!(manager.get_voted_for(), Some(&"candidate".to_string()));
    assert!(manager.has_vote_from(&"candidate".to_string()));
    assert_eq!(manager.vote_count(), 1);
    assert_eq!(manager.storage().get_current_term(), 1);
}

#[test]
fn vote_request_describes_the_log() {
    let mut storage = Storage::new();
    storage.append(entry(1, 1, "a"));
    storage.append(entry(2, 3, "b"));
    let mut manager = manager_with_storage("cand", vec!["p1", "p2"], storage);
    manager.start_election(0);
    match manager.vote_request() {
        Message::RequestVote { term, candidate_id, last_log_index, last_log_term } => {
            assert_eq!(term, 1);
            assert_eq!(candidate_id, "cand");
            assert_eq!(last_log_index, 2);
            assert_eq!(last_log_term, 3);
        },
        _ => panic!("Expected RequestVote"),
    }
}

#[test]
fn election_won_with_majority() {
    let mut manager = create_test_replication_manager("cand", vec!["p1", "p2", "p3", "p4"]);
    manager.start_election(0);
    // 5 nodes: 3 votes needed
    let denied = Message::RequestVoteResponse { term: 1, vote_granted: false };
    assert!(!manager.record_vote_response(0, denied));
    let granted = Message::RequestVoteResponse { term: 1, vote_granted: true };
    assert!(!manager.record_vote_response(1, granted));
    assert_eq!(manager.vote_count(), 2);
    assert!(manager.has_vote_from(&"peer_p2".to_string()));
    assert_eq!(*manager.get_state(), NodeState::Candidate);
    let granted = Message::RequestVoteResponse { term: 1, vote_granted: true };
    assert!(manager.record_vote_response(2, granted));
    assert_eq!(*manager.get_state(), NodeState::Leader);
    assert_eq!(manager.get_leader_id(), Some(&"cand".to_string()));
}

#[test]
fn repeated_vote_from_one_peer_counts_once() {
    let mut manager = create_test_replication_manager("cand", vec!["p1", "p2", "p3", "p4"]);
    manager.start_election(0);
    for _ in 0..3 {
        let granted = Message::RequestVoteResponse { term: 1, vote_granted: true };
        assert!(!manager.record_vote_response(0, granted));
    }
    assert_eq!(manager.vote_count(), 2);
    assert_eq!(*manager.get_state(), NodeState::Candidate);
}

#[test]
fn test_should_start_election_timeout() {
    let manager = create_test_replication_manager("node", vec![]);
    assert!(!manager.should_start_election(0));
    assert!(manager.should_start_election(SECOND));
}

#[test]
fn test_should_not_start_election_as_leader() {
    let mut manager = create_test_replication_manager("leader", vec![]);
    manager.become_leader();
    assert!(!manager.should_start_election(SECOND));
}

#[test]
fn election_timer_boundary() {
    let manager = manager_with_storage("n", vec![], Storage::new());
    let t = manager.get_election_timeout();
    assert!(!manager.should_start_election(t));
    assert!(manager.should_start_election(t + 1));
}

#[test]
fn test_client_message_handling() {
    let mut manager = create_test_replication_manager("leader", vec![]);
    manager.become_leader();

    let reaction = manager.handle_message(Message::ClientAppend { command: "test-command".to_string() }, 10);
    let response = match reaction {
        Reaction::AppendCommand(command) => {
            let success = append_command(&mut manager, &command);
            manager.client_append_response(success)
        },
        Reaction::Reply(m) => m,
        Reaction::Unexpected => panic!("unexpected"),
    };
    match response {
        Message::ClientAppendResponse { success, leader_id } => {
            assert_eq!(success, true);
            assert_eq!(leader_id, Some("leader".to_string()));
        },
        _ => panic!("Expected ClientAppendResponse"),
    }

    match manager.handle_message(Message::ClientQuery, 20) {
        Reaction::Reply(Message::ClientQueryResponse { entries, leader_id }) => {
            assert_eq!(entries.len(), 1);
            assert_eq!(leader_id, "leader");
        },
        _ => panic!("Expected ClientQueryResponse"),
    }
}

#[test]
fn test_client_append_as_follower() {
    let mut manager = create_test_replication_manager("follower", vec![]);
    manager.handle_heartbeat(0, "actual-leader".to_string(), 5);

    match manager.handle_message(Message::ClientAppend { command: "test-command".to_string() }, 10) {
        Reaction::Reply(Message::ClientAppendResponse { success, leader_id }) => {
            assert_eq!(success, false);
            assert_eq!(leader_id, Some("actual-leader".to_string()));
        },
        _ => panic!("Expected ClientAppendResponse"),
    }
}

#[test]
fn query_without_leader_names_unknown() {
    let mut manager = create_test_replication_manager("n", vec![]);
    match manager.handle_message(Message::ClientQuery, 0) {
        Reaction::Reply(Message::ClientQueryResponse { entries, leader_id }) => {
            assert!(entries.is_empty());
            assert_eq!(leader_id, "unknown");
        },
        _ => panic!("Expected ClientQueryResponse"),
    }
}

#[test]
fn responses_are_unexpected_requests() {
    let mut manager = create_test_replication_manager("n", vec![]);
    let r = manager.handle_message(Message::RequestVoteResponse { term: 1, vote_granted: true }, 0);
    assert!(matches!(r, Reaction::Unexpected));
    let r = manager.handle_message(Message::ClientQueryResponse { entries: vec![], leader_id: "x".to_string() }, 0);
    assert!(matches!(r, Reaction::Unexpected));
}

#[test]
fn test_heartbeat_handling() {
    let mut manager = create_test_replication_manager("follower", vec![]);
    let response = manager.handle_heartbeat(5, "heartbeat-leader".to_string(), 10);

    assert_eq!(manager.get_current_term(), 5);
    assert_eq!(*manager.get_state(), NodeState::Follower);
    assert_eq!(manager.get_leader_id(), Some(&"heartbeat-leader".to_string()));
    match response {
        Message::AppendEntriesResponse { term, success, .. } => {
            assert_eq!(term, 5);
            assert_eq!(success, true);
        },
        _ => panic!("Expected AppendEntriesResponse"),
    }
}

#[test]
fn stale_heartbeat_changes_nothing() {
    let storage = Storage::restore(
        Some(Metadata { current_term: 4, last_log_index: 0, commit_index: 0 }),
        vec![],
    );
    let mut manager = manager_with_storage("f", vec![], storage);
    let response = manager.handle_heartbeat(3, "old".to_string(), 99);
    assert_eq!(manager.get_current_term(), 4);
    assert!(manager.get_leader_id().is_none());
    assert_eq!(manager.get_last_heartbeat(), 0);
    match response {
        Message::AppendEntriesResponse { term, success, match_index } => {
            assert_eq!(term, 4);
            assert!(success);
            assert_eq!(match_index, 0);
        },
        _ => panic!("Expected AppendEntriesResponse"),
    }
}

#[test]
fn test_log_consistency_check_failure() {
    let mut storage = Storage::new();
    storage.append(entry(1, 1, "existing"));
    let mut manager = manager_with_storage("follower", vec![], storage);

    let new_entry = entry(2, 2, "new");
    let response = manager.handle_append_entries(2, "leader".to_string(), 1, 2, vec![new_entry], 0, 10);

    match response {
        Message::AppendEntriesResponse { success, .. } => {
            assert_eq!(success, false);
        },
        _ => panic!("Expected AppendEntriesResponse"),
    }
    assert_eq!(manager.storage().get_last_log_index(), 1);
}

#[test]
fn missing_previous_entry_fails() {
    let mut manager = create_test_replication_manager("f", vec![]);
    let response = manager.handle_append_entries(1, "l".to_string(), 3, 1, vec![entry(4, 1, "x")], 0, 1);
    match response {
        Message::AppendEntriesResponse { success, match_index, .. } => {
            assert!(!success);
            assert_eq!(match_index, 0);
        },
        _ => panic!("Expected AppendEntriesResponse"),
    }
    assert!(manager.storage().get(4).is_none());
}

#[test]
fn conflicting_entry_truncates_suffix() {
    let mut storage = Storage::new();
    storage.append(entry(1, 1, "a"));
    storage.append(entry(2, 1, "b"));
    storage.append(entry(3, 1, "c"));
    let mut manager = manager_with_storage("f", vec![], storage);
    let response = manager.handle_append_entries(2, "l".to_string(), 1, 1, vec![entry(2, 2, "B")], 0, 1);
    match response {
        Message::AppendEntriesResponse { success, match_index, .. } => {
            assert!(success);
            assert_eq!(match_index, 2);
        },
        _ => panic!("Expected AppendEntriesResponse"),
    }
    assert_eq!(manager.storage().get(2).unwrap().term, 2);
    assert!(manager.storage().get(3).is_none());
}

#[test]
fn test_commit_index_update() {
    let mut storage = Storage::new();
    storage.append(entry(1, 1, "cmd1"));
    storage.append(entry(2, 1, "cmd2"));
    let mut manager = manager_with_storage("follower", vec![], storage);
    assert_eq!(manager.storage().get_commit_index(), 0);

    let response = manager.handle_append_entries(1, "leader".to_string(), 2, 1, vec![], 2, 10);

    assert_eq!(manager.storage().get_commit_index(), 2);
    match response {
        Message::AppendEntriesResponse { success, .. } => {
            assert_eq!(success, true);
        },
        _ => panic!("Expected AppendEntriesResponse"),
    }
}

#[test]
fn leader_commit_is_capped_at_last_index() {
    let mut storage = Storage::new();
    storage.append(entry(1, 1, "a"));
    let mut manager = manager_with_storage("f", vec![], storage);
    manager.handle_append_entries(1, "l".to_string(), 0, 0, vec![], 9, 1);
    assert_eq!(manager.storage().get_commit_index(), 1);
    assert!(manager.storage().get(1).unwrap().committed);
}

#[test]
fn heartbeats_only_from_leader() {
    let mut manager = create_test_replication_manager("l", vec!["p1", "p2"]);
    assert!(manager.heartbeat_messages().is_empty());
    manager.become_leader();
    let beats = manager.heartbeat_messages();
    assert_eq!(beats.len(), 2);
    for b in beats {
        match b {
            Message::AppendEntries { term, leader_id, prev_log_index, prev_log_term, entries, leader_commit } => {
                assert_eq!(term, 0);
                assert_eq!(leader_id, "l");
                assert_eq!(prev_log_index, 0);
                assert_eq!(prev_log_term, 0);
                assert!(entries.is_empty());
                assert_eq!(leader_commit, 0);
            },
            _ => panic!("Expected AppendEntries"),
        }
    }
}

#[test]
fn replication_round_with_peers() {
    // leader with 2 peers at term 2
    let storage = Storage::restore(
        Some(Metadata { current_term: 2, last_log_index: 0, commit_index: 0 }),
        vec![],
    );
    let mut leader = manager_with_storage("l", vec!["p1", "p2"], storage);
    leader.become_leader();
    let id = leader.start_append("cmd".to_string()).unwrap();
    assert_eq!(id, 1);

    // p1: everything from index 1
    let req = leader.replication_request(0).unwrap();
    let (prev, n_entries) = match &req {
        Message::AppendEntries { prev_log_index, entries, term, .. } => {
            assert_eq!(*term, 2);
            (*prev_log_index, entries.len())
        },
        _ => panic!("Expected AppendEntries"),
    };
    assert_eq!(prev, 0);
    assert_eq!(n_entries, 1);

    // a follower takes it in
    let mut follower = create_test_replication_manager("f1", vec!["l"]);
    let reply = match follower.handle_message(req, 5) {
        Reaction::Reply(m) => m,
        _ => panic!("expected a reply"),
    };
    match &reply {
        Message::AppendEntriesResponse { success, match_index, .. } => {
            assert!(*success);
            assert_eq!(*match_index, 1);
        },
        _ => panic!("Expected AppendEntriesResponse"),
    }
    leader.record_replication_response(0, reply);
    assert_eq!(leader.next_index_of(&"p1".to_string()), Some(2));
    assert_eq!(leader.match_index_of(&"p1".to_string()), Some(1));
    // nothing left to send p1
    assert!(leader.replication_request(0).is_none());

    // p2 refuses: its next index steps back, but not below 1
    let refusal = Message::AppendEntriesResponse { term: 2, success: false, match_index: 0 };
    leader.record_replication_response(1, refusal);
    assert_eq!(leader.next_index_of(&"p2".to_string()), Some(1));

    // 3 nodes, 2 hold entry 1 (leader and p1): commit
    leader.finish_append(id);
    assert_eq!(leader.storage().get_commit_index(), 1);
    assert!(leader.storage().get(1).unwrap().committed);
}

#[test]
fn no_commit_without_majority() {
    let storage = Storage::restore(
        Some(Metadata { current_term: 1, last_log_index: 0, commit_index: 0 }),
        vec![],
    );
    let mut leader = manager_with_storage("l", vec!["p1", "p2", "p3", "p4"], storage);
    leader.become_leader();
    let id = leader.start_append("cmd".to_string()).unwrap();
    leader.record_replication_response(0, Message::AppendEntriesResponse { term: 1, success: true, match_index: 1 });
    leader.finish_append(id);
    // 2 of 5 hold it
    assert_eq!(leader.storage().get_commit_index(), 0);
    leader.record_replication_response(1, Message::AppendEntriesResponse { term: 1, success: true, match_index: 1 });
    leader.update_commit_index();
    assert_eq!(leader.storage().get_commit_index(), 1);
}

#[test]
fn no_commit_of_entry_from_older_term() {
    let mut storage = Storage::new();
    storage.append(LogEntry::with_timestamp(1, 1, 0, Command::NoOp));
    storage.set_current_term(2);
    let mut leader = manager_with_storage("l", vec!["p1"], storage);
    leader.become_leader();
    leader.record_replication_response(0, Message::AppendEntriesResponse { term: 2, success: true, match_index: 1 });
    leader.update_commit_index();
    assert_eq!(leader.storage().get_commit_index(), 0);
}

#[test]
fn replication_response_of_other_kind_is_ignored() {
    let mut leader = create_test_replication_manager("l", vec!["p1"]);
    leader.become_leader();
    leader.record_replication_response(0, Message::ClientQuery);
    assert_eq!(leader.next_index_of(&"p1".to_string()), Some(1));
    assert_eq!(leader.match_index_of(&"p1".to_string()), Some(0));
}

#[test]
fn storage_writes_follow_state_changes() {
    let mut manager = create_test_replication_manager("n", vec![]);
    manager.handle_request_vote(3, "c".to_string(), 0, 0, 1);
    let writes = manager.take_pending_writes();
    assert_eq!(writes.len(), 1);
    assert!(manager.take_pending_writes().is_empty());
}

#[test]
fn contact_defers_election() {
    let mut manager = create_test_replication_manager("f", vec!["p"]);
    let timeout = manager.get_election_timeout();
    assert!(manager.should_start_election(SECOND));
    manager.handle_heartbeat(0, "l".to_string(), SECOND);
    assert!(!manager.should_start_election(SECOND));
    assert!(!manager.should_start_election(SECOND + timeout));
    assert!(manager.should_start_election(SECOND + timeout + 1));
    manager.handle_append_entries(0, "l".to_string(), 0, 0, vec![], 0, 2 * SECOND);
    assert!(!manager.should_start_election(2 * SECOND + timeout));
}

#[test]
fn candidate_steps_down_on_newer_leader() {
    let mut manager = create_test_replication_manager("c", vec!["p1", "p2"]);
    manager.start_election(0);
    assert_eq!(*manager.get_state(), NodeState::Candidate);
    manager.handle_append_entries(3, "l".to_string(), 0, 0, vec![], 0, 1);
    assert_eq!(*manager.get_state(), NodeState::Follower);
    assert_eq!(manager.get_current_term(), 3);
    assert!(manager.get_voted_for().is_none());
}

#[test]
fn lone_node_wins_its_election_at_once() {
    let mut manager = create_test_replication_manager("solo", vec![]);
    manager.start_election(0);
    assert_eq!(manager.get_current_term(), 1);
    assert_eq!(*manager.get_state(), NodeState::Leader);
    assert_eq!(manager.get_leader_id(), Some(&"solo".to_string()));
}

#[test]
fn heartbeat_of_newer_term_clears_the_vote() {
    let mut manager = create_test_replication_manager("f", vec![]);
    manager.handle_request_vote(1, "a".to_string(), 0, 0, 1);
    assert_eq!(manager.get_voted_for(), Some(&"a".to_string()));
    manager.handle_heartbeat(1, "a".to_string(), 2);
    assert_eq!(manager.get_voted_for(), Some(&"a".to_string()));
    manager.handle_heartbeat(2, "b".to_string(), 3);
    assert_eq!(manager.get_current_term(), 2);
    assert!(manager.get_voted_for().is_none());
    match manager.handle_request_vote(2, "c".to_string(), 0, 0, 4) {
        Message::RequestVoteResponse { vote_granted, .. } => assert!(vote_granted),
        _ => panic!("Expected RequestVoteResponse"),
    }
}

#[test]
fn query_after_two_appends_lists_both_in_order() {
    let mut manager = create_test_replication_manager("leader", vec![]);
    manager.become_leader();
    assert!(append_command(&mut manager, "test_command_1"));
    assert!(append_command(&mut manager, "test_command_2"));
    match manager.handle_message(Message::ClientQuery, 0) {
        Reaction::Reply(Message::ClientQueryResponse { entries, .. }) => {
            assert_eq!(entries.len(), 2);
            assert_eq!(entries[0].id, 1);
            assert_eq!(entries[1].id, 2);
            assert_eq!(entries[0].command, Command::operation("test_command_1".to_string()));
            assert_eq!(entries[1].command, Command::operation("test_command_2".to_string()));
            assert!(entries[0].committed && entries[1].committed);
        },
        _ => panic!("Expected ClientQueryResponse"),
    }
}
