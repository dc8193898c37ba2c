use std::collections::HashSet;

use pirc_server::raft::node::RaftNode;
use pirc_server::raft::rpc::{AppendEntries, AppendEntriesResponse, RaftMessage, RequestVote, RequestVoteResponse};
use pirc_server::raft::snapshot::{InstallSnapshot, InstallSnapshotResponse, NullStateMachine, SnapshotError, StateMachine};
use pirc_server::raft::types::{LogEntry, LogIndex, NodeId, RaftConfig, RaftState, Term};

fn test_config(id: u64, peers: Vec<u64>) -> RaftConfig {
    let mut c = RaftConfig::default();
    c.node_id = NodeId::new(id);
    c.peers = peers.into_iter().map(NodeId::new).collect();
    c
}

fn node_with(config: RaftConfig) -> RaftNode<String> {
    RaftNode::new(config, Term::new(0), None, Vec::new(), None)
}

fn new_node(id: u64, peers: Vec<u64>) -> RaftNode<String> {
    node_with(test_config(id, peers))
}

fn cmd_entry(term: u64, index: u64, command: &str) -> LogEntry<String> {
    LogEntry { term: Term::new(term), index: LogIndex::new(index), command: command.to_owned() }
}

/// A state machine that counts the commands it applied.
struct CountingStateMachine {
    count: usize,
}

impl CountingStateMachine {
    fn new() -> Self {
        Self { count: 0 }
    }
}

impl StateMachine<String> for CountingStateMachine {
    fn apply(&mut self, _command: &String) {
        self.count += 1;
    }

    fn snapshot(&self) -> Vec<u8> {
        self.count.to_le_bytes().to_vec()
    }

    fn restore(&mut self, data: &[u8]) -> Result<(), SnapshotError> {
        if data.len() < 8 {
            return Err(SnapshotError::InvalidData("too short".into()));
        }
        let bytes: [u8; 8] = data[..8].try_into().unwrap();
        self.count = usize::from_le_bytes(bytes);
        Ok(())
    }
}

/// Take a snapshot of `sm` where one is due, as the event loop does.
fn create_snapshot(node: &mut RaftNode<String>, sm: &impl StateMachine<String>) {
    if let Some((index, term)) = node.snapshot_point() {
        let data = sm.snapshot();
        node.complete_snapshot(index, term, data);
    }
}

/// Hand a snapshot chunk to the node; once the last one has come, restore
/// `sm` from the whole snapshot and install it, as the event loop does.
fn install(node: &mut RaftNode<String>, req: InstallSnapshot, sm: &mut impl StateMachine<String>) -> InstallSnapshotResponse {
    let index = req.last_included_index;
    let term = req.last_included_term;
    let (resp, _writes, data) = node.handle_install_snapshot(req);
    if let Some(data) = data {
        sm.restore(&data).unwrap();
        node.finish_install_snapshot(index, term, data);
    }
    resp
}

fn vote_request(term: u64, candidate: u64, last_index: u64, last_term: u64) -> RequestVote {
    RequestVote {
        term: Term::new(term),
        candidate_id: NodeId::new(candidate),
        last_log_index: LogIndex::new(last_index),
        last_log_term: Term::new(last_term),
    }
}

// ---- Construction ----

#[test]
fn new_node_starts_as_follower() {
    let node = new_node(1, vec![2, 3]);
    assert_eq!(node.state(), RaftState::Follower);
    assert_eq!(node.current_term(), Term::default());
    assert_eq!(node.voted_for(), None);
    assert_eq!(node.current_leader(), None);
    assert_eq!(node.cluster_size(), 3);
    assert_eq!(node.quorum_size(), 2);
}

#[test]
fn solo_node_cluster_size() {
    let node = new_node(1, vec![]);
    assert_eq!(node.cluster_size(), 1);
    assert_eq!(node.quorum_size(), 1);
}

#[test]
fn five_node_quorum() {
    let node = new_node(1, vec![2, 3, 4, 5]);
    assert_eq!(node.cluster_size(), 5);
    assert_eq!(node.quorum_size(), 3);
}

// ---- Term management ----

#[test]
fn handle_term_update_higher_term_steps_down() {
    let mut node = new_node(1, vec![2, 3]);
    node.state = RaftState::Candidate;
    node.current_term = Term::new(3);

    let (stepped, _) = node.handle_term_update(Term::new(5));
    assert!(stepped);
    assert_eq!(node.state(), RaftState::Follower);
    assert_eq!(node.current_term(), Term::new(5));
    assert_eq!(node.voted_for(), None);
}

#[test]
fn handle_term_update_equal_term_no_change() {
    let mut node = new_node(1, vec![2, 3]);
    node.current_term = Term::new(3);
    node.state = RaftState::Leader;

    let (stepped, _) = node.handle_term_update(Term::new(3));
    assert!(!stepped);
    assert_eq!(node.state(), RaftState::Leader);
}

#[test]
fn handle_term_update_lower_term_no_change() {
    let mut node = new_node(1, vec![2, 3]);
    node.current_term = Term::new(5);
    let (stepped, _) = node.handle_term_update(Term::new(3));
    assert!(!stepped);
    assert_eq!(node.current_term(), Term::new(5));
}

// ---- Elections ----

#[test]
fn solo_node_becomes_leader_immediately() {
    let mut node = new_node(1, vec![]);
    let _ = node.start_election();
    assert_eq!(node.state(), RaftState::Leader);
    assert_eq!(node.current_term(), Term::new(1));
    assert_eq!(node.voted_for(), Some(NodeId::new(1)));
    assert_eq!(node.current_leader(), Some(NodeId::new(1)));
}

#[test]
fn start_election_transitions_to_candidate() {
    let mut node = new_node(1, vec![2, 3]);
    let (_, msgs) = node.start_election();
    assert_eq!(node.state(), RaftState::Candidate);
    assert_eq!(node.current_term(), Term::new(1));
    assert_eq!(node.voted_for(), Some(NodeId::new(1)));
    assert!(node.votes_received().contains(&NodeId::new(1)));

    let mut targets = HashSet::new();
    for (target, msg) in msgs {
        targets.insert(target);
        assert!(matches!(msg, RaftMessage::RequestVote(_)));
    }
    assert!(targets.contains(&NodeId::new(2)));
    assert!(targets.contains(&NodeId::new(3)));
}

#[test]
fn receiving_majority_votes_becomes_leader() {
    let mut node = new_node(1, vec![2, 3]);
    let _ = node.start_election();

    let resp = RequestVoteResponse { term: Term::new(1), vote_granted: true };
    let (_, msgs) = node.handle_request_vote_response(NodeId::new(2), resp);

    assert_eq!(node.state(), RaftState::Leader);
    assert_eq!(node.current_leader(), Some(NodeId::new(1)));
    assert!(node.leader_state().is_some());

    let heartbeats: Vec<NodeId> = msgs
        .into_iter()
        .filter(|(_, m)| matches!(m, RaftMessage::AppendEntries(_)))
        .map(|(t, _)| t)
        .collect();
    assert!(heartbeats.contains(&NodeId::new(2)));
    assert!(heartbeats.contains(&NodeId::new(3)));
}

#[test]
fn rejected_votes_dont_become_leader() {
    let mut node = new_node(1, vec![2, 3]);
    let _ = node.start_election();
    let resp = RequestVoteResponse { term: Term::new(1), vote_granted: false };
    let _ = node.handle_request_vote_response(NodeId::new(2), resp);
    let _ = node.handle_request_vote_response(NodeId::new(3), resp);
    assert_eq!(node.state(), RaftState::Candidate);
}

// ---- RequestVote handling ----

#[test]
fn grant_vote_when_not_voted() {
    let mut node = new_node(1, vec![2, 3]);
    let (resp, _) = node.handle_request_vote(vote_request(1, 2, 0, 0));
    assert!(resp.vote_granted);
    assert_eq!(node.voted_for(), Some(NodeId::new(2)));
}

#[test]
fn reject_vote_when_already_voted() {
    let mut node = new_node(1, vec![2, 3]);
    let (resp1, _) = node.handle_request_vote(vote_request(1, 2, 0, 0));
    assert!(resp1.vote_granted);
    let (resp2, _) = node.handle_request_vote(vote_request(1, 3, 0, 0));
    assert!(!resp2.vote_granted);
    assert_eq!(node.voted_for(), Some(NodeId::new(2)));
}

#[test]
fn grant_vote_again_to_same_candidate() {
    let mut node = new_node(1, vec![2, 3]);
    let req = vote_request(1, 2, 0, 0);
    let _ = node.handle_request_vote(req);
    let (resp, _) = node.handle_request_vote(req);
    assert!(resp.vote_granted);
}

#[test]
fn reject_vote_stale_term() {
    let mut node = new_node(1, vec![2, 3]);
    node.current_term = Term::new(5);
    let (resp, _) = node.handle_request_vote(vote_request(3, 2, 0, 0));
    assert!(!resp.vote_granted);
    assert_eq!(resp.term, Term::new(5));
}

#[test]
fn reject_vote_outdated_log() {
    let mut node = new_node(1, vec![2, 3]);
    node.log.append(cmd_entry(2, 1, "cmd1"));
    let (resp, _) = node.handle_request_vote(vote_request(3, 2, 1, 1));
    assert!(!resp.vote_granted);
}

#[test]
fn grant_vote_with_more_up_to_date_log() {
    let mut node = new_node(1, vec![2, 3]);
    node.log.append(cmd_entry(1, 1, "cmd1"));
    let (resp, _) = node.handle_request_vote(vote_request(2, 2, 1, 2));
    assert!(resp.vote_granted);
}

#[test]
fn grant_vote_equal_log_longer_index() {
    let mut node = new_node(1, vec![2, 3]);
    node.log.append(cmd_entry(1, 1, "cmd1"));
    let (resp, _) = node.handle_request_vote(vote_request(2, 2, 5, 1));
    assert!(resp.vote_granted);
}

#[test]
fn reject_vote_equal_term_shorter_log() {
    let mut node = new_node(1, vec![2, 3]);
    node.log.append(cmd_entry(1, 1, "cmd1"));
    node.log.append(cmd_entry(1, 2, "cmd2"));
    let (resp, _) = node.handle_request_vote(vote_request(2, 2, 1, 1));
    assert!(!resp.vote_granted);
}

// ---- AppendEntries handling ----

#[test]
fn append_entries_rejects_stale_term() {
    let mut node = new_node(1, vec![2, 3]);
    node.current_term = Term::new(5);
    let req: AppendEntries<String> = AppendEntries {
        term: Term::new(3),
        leader_id: NodeId::new(2),
        prev_log_index: LogIndex::new(0),
        prev_log_term: Term::new(0),
        entries: vec![],
        leader_commit: LogIndex::new(0),
    };
    let (resp, _) = node.handle_append_entries(req);
    assert!(!resp.success);
    assert_eq!(resp.term, Term::new(5));
}

#[test]
fn append_entries_heartbeat_resets_follower() {
    let mut node = new_node(1, vec![2, 3]);
    let _ = node.start_election();
    assert_eq!(node.state(), RaftState::Candidate);

    let req: AppendEntries<String> = AppendEntries {
        term: Term::new(1),
        leader_id: NodeId::new(2),
        prev_log_index: LogIndex::new(0),
        prev_log_term: Term::new(0),
        entries: vec![],
        leader_commit: LogIndex::new(0),
    };
    let (resp, _) = node.handle_append_entries(req);
    assert!(resp.success);
    assert_eq!(node.state(), RaftState::Follower);
    assert_eq!(node.current_leader(), Some(NodeId::new(2)));
}

#[test]
fn append_entries_updates_commit_index() {
    let mut node = new_node(1, vec![2, 3]);
    node.log.append(cmd_entry(1, 1, "cmd"));
    let req: AppendEntries<String> = AppendEntries {
        term: Term::new(1),
        leader_id: NodeId::new(2),
        prev_log_index: LogIndex::new(1),
        prev_log_term: Term::new(1),
        entries: vec![],
        leader_commit: LogIndex::new(1),
    };
    let (resp, _) = node.handle_append_entries(req);
    assert!(resp.success);
    assert_eq!(node.volatile_state().commit_index, LogIndex::new(1));
}

// ---- Three-node election ----

#[test]
fn three_node_election_simulation() {
    let mut node1 = new_node(1, vec![2, 3]);
    let mut node2 = new_node(2, vec![1, 3]);
    let mut node3 = new_node(3, vec![1, 2]);

    let (_, msgs) = node1.start_election();
    assert_eq!(node1.state(), RaftState::Candidate);

    let vote_requests: Vec<(NodeId, RequestVote)> = msgs
        .into_iter()
        .filter_map(|(t, m)| match m {
            RaftMessage::RequestVote(rv) => Some((t, rv)),
            _ => None,
        })
        .collect();
    assert_eq!(vote_requests.len(), 2);

    let rv = vote_requests[0].1;
    let (resp2, _) = node2.handle_request_vote(rv);
    let (resp3, _) = node3.handle_request_vote(rv);
    assert!(resp2.vote_granted);
    assert!(resp3.vote_granted);

    let _ = node1.handle_request_vote_response(NodeId::new(2), resp2);
    assert_eq!(node1.state(), RaftState::Leader);
    assert_eq!(node1.current_leader(), Some(NodeId::new(1)));
}

// ---- Stepping down ----

#[test]
fn leader_steps_down_on_higher_term() {
    let mut node = new_node(1, vec![]);
    let _ = node.start_election();
    assert_eq!(node.state(), RaftState::Leader);

    let _ = node.handle_term_update(Term::new(5));
    assert_eq!(node.state(), RaftState::Follower);
    assert_eq!(node.current_term(), Term::new(5));
    assert_eq!(node.voted_for(), None);
}

#[test]
fn candidate_steps_down_on_higher_term() {
    let mut node = new_node(1, vec![2, 3]);
    let _ = node.start_election();
    assert_eq!(node.state(), RaftState::Candidate);

    let resp = RequestVoteResponse { term: Term::new(10), vote_granted: false };
    let _ = node.handle_request_vote_response(NodeId::new(2), resp);
    assert_eq!(node.state(), RaftState::Follower);
    assert_eq!(node.current_term(), Term::new(10));
}

#[test]
fn new_term_allows_new_vote() {
    let mut node = new_node(1, vec![2, 3]);
    let (resp1, _) = node.handle_request_vote(vote_request(1, 2, 0, 0));
    assert!(resp1.vote_granted);
    let (resp2, _) = node.handle_request_vote(vote_request(2, 3, 0, 0));
    assert!(resp2.vote_granted);
    assert_eq!(node.voted_for(), Some(NodeId::new(3)));
    assert_eq!(node.current_term(), Term::new(2));
}

// ---- AppendEntriesResponse handling ----

#[test]
fn append_entries_response_updates_leader_state() {
    let mut leader = new_node(1, vec![2, 3]);
    let _ = leader.start_election();
    let vote = RequestVoteResponse { term: Term::new(1), vote_granted: true };
    let _ = leader.handle_request_vote_response(NodeId::new(2), vote);
    assert_eq!(leader.state(), RaftState::Leader);

    let resp = AppendEntriesResponse { term: Term::new(1), success: true, match_index: LogIndex::new(0) };
    let _ = leader.handle_append_entries_response(NodeId::new(2), resp);

    let ls = leader.leader_state().unwrap();
    assert_eq!(ls.match_index.get(NodeId::new(2)), Some(LogIndex::new(0)));
    assert_eq!(ls.next_index.get(NodeId::new(2)), Some(LogIndex::new(1)));
}

#[test]
fn append_entries_response_failure_decrements_next_index() {
    let mut leader = new_node(1, vec![2, 3]);
    leader.log.append(cmd_entry(1, 1, "cmd"));

    let _ = leader.start_election();
    let election_term = leader.current_term();
    let vote = RequestVoteResponse { term: election_term, vote_granted: true };
    let _ = leader.handle_request_vote_response(NodeId::new(2), vote);
    assert_eq!(leader.state(), RaftState::Leader);

    assert_eq!(leader.leader_state().unwrap().next_index.get(NodeId::new(2)), Some(LogIndex::new(2)));

    let resp = AppendEntriesResponse { term: election_term, success: false, match_index: LogIndex::new(0) };
    let _ = leader.handle_append_entries_response(NodeId::new(2), resp);

    assert_eq!(leader.leader_state().unwrap().next_index.get(NodeId::new(2)), Some(LogIndex::new(1)));
}

// ---- Snapshots: creation ----

#[test]
fn node_tests_create_snapshot_compacts_log() {
    let mut node = new_node(1, vec![2, 3]);
    for i in 1..=5 {
        node.log.append(LogEntry { term: Term::new(1), index: LogIndex::new(i), command: format!("cmd{i}") });
    }
    node.volatile.commit_index = LogIndex::new(5);
    node.volatile.last_applied = LogIndex::new(5);

    let mut sm = CountingStateMachine::new();
    sm.count = 5;
    create_snapshot(&mut node, &sm);

    assert!(node.last_snapshot().is_some());
    let snap = node.last_snapshot().unwrap();
    assert_eq!(snap.last_included_index, LogIndex::new(5));
    assert_eq!(snap.last_included_term, Term::new(1));
    assert_eq!(snap.data, 5usize.to_le_bytes().to_vec());

    assert_eq!(node.log().offset(), LogIndex::new(5));
    assert_eq!(node.log().len(), 0);
}

#[test]
fn node_tests_create_snapshot_skips_when_nothing_applied() {
    let mut node = new_node(1, vec![2, 3]);
    create_snapshot(&mut node, &NullStateMachine);
    assert!(node.last_snapshot().is_none());
}

#[test]
fn node_tests_create_snapshot_skips_when_already_at_same_index() {
    let mut node = new_node(1, vec![2, 3]);
    node.log.append(cmd_entry(1, 1, "cmd1"));
    node.volatile.commit_index = LogIndex::new(1);
    node.volatile.last_applied = LogIndex::new(1);

    create_snapshot(&mut node, &NullStateMachine);
    assert!(node.last_snapshot().is_some());

    assert_eq!(node.snapshot_point(), None);
    create_snapshot(&mut node, &NullStateMachine);
    assert_eq!(node.last_snapshot().unwrap().last_included_index, LogIndex::new(1));
}

#[test]
fn node_tests_create_snapshot_persists_to_storage() {
    // What is saved is the snapshot the node records: its data, index and term.
    let mut node = new_node(1, vec![2, 3]);
    node.log.append(cmd_entry(2, 1, "cmd1"));
    node.volatile.last_applied = LogIndex::new(1);

    create_snapshot(&mut node, &NullStateMachine);

    let snap = node.last_snapshot().unwrap();
    assert_eq!(snap.last_included_index, LogIndex::new(1));
    assert_eq!(snap.last_included_term, Term::new(2));
    assert_eq!(snap.data, Vec::<u8>::new());
}

#[test]
fn node_tests_should_snapshot_returns_false_below_threshold() {
    let mut cfg = test_config(1, vec![2, 3]);
    cfg.snapshot_threshold = 10;
    let node = node_with(cfg);
    assert!(!node.should_snapshot());
}

#[test]
fn node_tests_should_snapshot_returns_true_at_threshold() {
    let mut cfg = test_config(1, vec![2, 3]);
    cfg.snapshot_threshold = 3;
    let mut node = node_with(cfg);
    for i in 1..=3 {
        node.log.append(LogEntry { term: Term::new(1), index: LogIndex::new(i), command: format!("cmd{i}") });
    }
    assert!(node.should_snapshot());
}

// ---- Snapshots: installation ----

fn snapshot_chunk(term: u64, index: u64, last_term: u64, offset: u64, data: &[u8], done: bool) -> InstallSnapshot {
    InstallSnapshot {
        term: Term::new(term),
        leader_id: NodeId::new(1),
        last_included_index: LogIndex::new(index),
        last_included_term: Term::new(last_term),
        offset,
        data: data.to_vec(),
        done,
    }
}

#[test]
fn node_tests_handle_install_snapshot_single_chunk() {
    let mut node = new_node(2, vec![1, 3]);
    let snapshot_data = b"test-state".to_vec();
    let resp = install(&mut node, snapshot_chunk(1, 10, 1, 0, &snapshot_data, true), &mut NullStateMachine);
    assert_eq!(resp.term, Term::new(1));

    let snap = node.last_snapshot().unwrap();
    assert_eq!(snap.last_included_index, LogIndex::new(10));
    assert_eq!(snap.last_included_term, Term::new(1));
    assert_eq!(snap.data, snapshot_data);

    assert_eq!(node.volatile_state().commit_index, LogIndex::new(10));
    assert_eq!(node.volatile_state().last_applied, LogIndex::new(10));

    assert_eq!(node.log().offset(), LogIndex::new(10));
    assert!(node.log().is_empty());
}

#[test]
fn node_tests_handle_install_snapshot_multi_chunk() {
    let mut node = new_node(2, vec![1, 3]);
    let mut sm = NullStateMachine;

    let resp1 = install(&mut node, snapshot_chunk(1, 10, 1, 0, b"chunk1-", false), &mut sm);
    assert_eq!(resp1.term, Term::new(1));
    assert!(node.last_snapshot().is_none());

    let resp2 = install(&mut node, snapshot_chunk(1, 10, 1, 7, b"chunk2", true), &mut sm);
    assert_eq!(resp2.term, Term::new(1));

    let snap = node.last_snapshot().unwrap();
    assert_eq!(snap.data, b"chunk1-chunk2");
    assert_eq!(snap.last_included_index, LogIndex::new(10));
}

#[test]
fn node_tests_handle_install_snapshot_rejects_stale_term() {
    let mut node = new_node(2, vec![1, 3]);
    node.current_term = Term::new(5);
    let resp = install(&mut node, snapshot_chunk(3, 10, 3, 0, b"data", true), &mut NullStateMachine);
    assert_eq!(resp.term, Term::new(5));
    assert!(node.last_snapshot().is_none());
}

#[test]
fn node_tests_handle_install_snapshot_steps_down_candidate() {
    let mut node = new_node(2, vec![1, 3]);
    let _ = node.start_election();
    assert_eq!(node.state(), RaftState::Candidate);
    let election_term = node.current_term().as_u64();

    let _ = install(&mut node, snapshot_chunk(election_term, 5, 1, 0, &[], true), &mut NullStateMachine);
    assert_eq!(node.state(), RaftState::Follower);
    assert_eq!(node.current_leader(), Some(NodeId::new(1)));
}

#[test]
fn node_tests_handle_install_snapshot_keeps_log_suffix_on_match() {
    let mut node = new_node(2, vec![1, 3]);
    for i in 1..=5 {
        node.log.append(LogEntry { term: Term::new(1), index: LogIndex::new(i), command: format!("cmd{i}") });
    }

    let _ = install(&mut node, snapshot_chunk(1, 3, 1, 0, b"state", true), &mut NullStateMachine);

    assert_eq!(node.log().offset(), LogIndex::new(3));
    assert_eq!(node.log().len(), 2);
    assert_eq!(node.log().get(LogIndex::new(4)).unwrap().command, "cmd4");
    assert_eq!(node.log().get(LogIndex::new(5)).unwrap().command, "cmd5");
}

#[test]
fn node_tests_handle_install_snapshot_discards_log_on_mismatch() {
    let mut node = new_node(2, vec![1, 3]);
    for i in 1..=3 {
        node.log.append(LogEntry { term: Term::new(1), index: LogIndex::new(i), command: format!("cmd{i}") });
    }

    let _ = install(&mut node, snapshot_chunk(2, 3, 2, 0, b"state", true), &mut NullStateMachine);

    assert_eq!(node.log().offset(), LogIndex::new(3));
    assert!(node.log().is_empty());
}

#[test]
fn node_tests_handle_install_snapshot_restores_state_machine() {
    let mut node = new_node(2, vec![1, 3]);
    let mut sm = CountingStateMachine::new();
    assert_eq!(sm.count, 0);

    let snapshot_data = 42usize.to_le_bytes().to_vec();
    let _ = install(&mut node, snapshot_chunk(1, 42, 1, 0, &snapshot_data, true), &mut sm);
    assert_eq!(sm.count, 42);
}

#[test]
fn node_tests_handle_install_snapshot_non_first_chunk_without_buffer() {
    let mut node = new_node(2, vec![1, 3]);
    let resp = install(&mut node, snapshot_chunk(1, 10, 1, 100, b"orphan-chunk", false), &mut NullStateMachine);
    assert_eq!(resp.term, Term::new(1));
    assert!(node.last_snapshot().is_none());
}

#[test]
fn node_tests_handle_install_snapshot_higher_term_updates_node() {
    let mut node = new_node(2, vec![1, 3]);
    node.current_term = Term::new(1);

    let resp = install(&mut node, snapshot_chunk(5, 10, 4, 0, &[], true), &mut NullStateMachine);
    assert_eq!(resp.term, Term::new(5));
    assert_eq!(node.current_term(), Term::new(5));
    assert_eq!(node.state(), RaftState::Follower);
}
