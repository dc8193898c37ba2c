use pirc_server::raft::node::{Outbound, RaftNode};
use pirc_server::raft::rpc::{AppendEntries, AppendEntriesResponse, RaftMessage, RequestVoteResponse};
use pirc_server::raft::snapshot::{InstallSnapshot, InstallSnapshotResponse, NullStateMachine, Snapshot, StateMachine};
use pirc_server::raft::state::LeaderState;
use pirc_server::raft::types::{LogEntry, LogIndex, NodeId, RaftConfig, RaftState, Term};

fn test_config(id: u64, peers: Vec<u64>) -> RaftConfig {
    let mut c = RaftConfig::default();
    c.node_id = NodeId::new(id);
    c.peers = peers.into_iter().map(NodeId::new).collect();
    c
}

fn entry(term: u64, index: u64, cmd: &str) -> LogEntry<String> {
    LogEntry { term: Term::new(term), index: LogIndex::new(index), command: cmd.to_owned() }
}

fn new_node(id: u64, peers: Vec<u64>) -> RaftNode<String> {
    RaftNode::new(test_config(id, peers), Term::new(0), None, Vec::new(), None)
}

/// A leader of its cluster: it gathers just enough votes from its peers.
fn make_leader(id: u64, peers: Vec<u64>) -> RaftNode<String> {
    let mut node = new_node(id, peers.clone());
    let _ = node.start_election();
    if !peers.is_empty() {
        let votes_needed = node.quorum_size() - 1;
        for &peer_id in peers.iter().take(votes_needed) {
            let vote = RequestVoteResponse { term: node.current_term(), vote_granted: true };
            let _ = node.handle_request_vote_response(NodeId::new(peer_id), vote);
        }
    }
    assert_eq!(node.state(), RaftState::Leader);
    node
}

fn only_append(msgs: Vec<Outbound<String>>) -> (NodeId, AppendEntries<String>) {
    assert_eq!(msgs.len(), 1);
    match msgs.into_iter().next().unwrap() {
        (target, RaftMessage::AppendEntries(ae)) => (target, ae),
        _ => panic!("expected AppendEntries"),
    }
}

// ---- replicate_to_peer ----

#[test]
fn replicate_to_peer_sends_empty_when_no_entries() {
    let leader = make_leader(1, vec![2, 3]);
    let (target, ae) = only_append(leader.replicate_to_peer(NodeId::new(2)));
    assert_eq!(target, NodeId::new(2));
    assert_eq!(ae.term, leader.current_term());
    assert_eq!(ae.leader_id, NodeId::new(1));
    assert!(ae.entries.is_empty());
}

#[test]
fn replicate_to_peer_sends_entries() {
    let mut leader = make_leader(1, vec![2, 3]);
    leader.log.append(entry(leader.current_term().as_u64(), 1, "cmd1"));

    let (target, ae) = only_append(leader.replicate_to_peer(NodeId::new(2)));
    assert_eq!(target, NodeId::new(2));
    assert_eq!(ae.entries.len(), 1);
    assert_eq!(ae.entries[0].command, "cmd1");
    assert_eq!(ae.prev_log_index, LogIndex::new(0));
    assert_eq!(ae.prev_log_term, Term::default());
}

#[test]
fn replicate_to_peer_with_advanced_next_index() {
    let mut leader = make_leader(1, vec![2, 3]);
    let term = leader.current_term().as_u64();
    leader.log.append(entry(term, 1, "cmd1"));
    leader.log.append(entry(term, 2, "cmd2"));
    leader.log.append(entry(term, 3, "cmd3"));

    if let Some(ref mut ls) = leader.leader_state {
        ls.next_index.insert(NodeId::new(2), LogIndex::new(3));
        ls.match_index.insert(NodeId::new(2), LogIndex::new(2));
    }

    let (_, ae) = only_append(leader.replicate_to_peer(NodeId::new(2)));
    assert_eq!(ae.entries.len(), 1);
    assert_eq!(ae.entries[0].command, "cmd3");
    assert_eq!(ae.prev_log_index, LogIndex::new(2));
    assert_eq!(ae.prev_log_term, Term::new(term));
}

#[test]
fn replicate_to_peer_not_leader_is_noop() {
    let node = new_node(1, vec![2, 3]);
    assert_eq!(node.state(), RaftState::Follower);
    assert!(node.replicate_to_peer(NodeId::new(2)).is_empty());
}

// ---- send_append_entries_to_all ----

#[test]
fn send_append_entries_to_all_sends_to_all_peers() {
    let leader = make_leader(1, vec![2, 3]);
    let mut targets = std::collections::HashSet::new();
    for (target, msg) in leader.send_append_entries_to_all() {
        assert!(matches!(msg, RaftMessage::AppendEntries(_)));
        targets.insert(target);
    }
    assert!(targets.contains(&NodeId::new(2)));
    assert!(targets.contains(&NodeId::new(3)));
}

#[test]
fn send_heartbeats_sends_entries_to_all_peers() {
    let mut leader = make_leader(1, vec![2, 3]);
    let term = leader.current_term().as_u64();
    leader.log.append(entry(term, 1, "cmd1"));

    let mut count = 0;
    for (_, msg) in leader.send_heartbeats() {
        match msg {
            RaftMessage::AppendEntries(ae) => {
                assert_eq!(ae.entries.len(), 1);
                assert_eq!(ae.entries[0].command, "cmd1");
                count += 1;
            }
            _ => panic!("expected AppendEntries"),
        }
    }
    assert_eq!(count, 2);
}

// ---- advance_commit_index ----

#[test]
fn advance_commit_index_no_entries() {
    let mut leader = make_leader(1, vec![2, 3]);
    leader.advance_commit_index();
    assert_eq!(leader.volatile_state().commit_index, LogIndex::new(0));
}

#[test]
fn advance_commit_index_majority_replicated() {
    let mut leader = make_leader(1, vec![2, 3]);
    let term = leader.current_term().as_u64();
    leader.log.append(entry(term, 1, "cmd1"));
    leader.log.append(entry(term, 2, "cmd2"));
    if let Some(ref mut ls) = leader.leader_state {
        ls.match_index.insert(NodeId::new(2), LogIndex::new(2));
    }
    leader.advance_commit_index();
    assert_eq!(leader.volatile_state().commit_index, LogIndex::new(2));
}

#[test]
fn advance_commit_index_not_enough_replicas() {
    let mut leader = make_leader(1, vec![2, 3, 4, 5]);
    let term = leader.current_term().as_u64();
    leader.log.append(entry(term, 1, "cmd1"));
    if let Some(ref mut ls) = leader.leader_state {
        ls.match_index.insert(NodeId::new(2), LogIndex::new(1));
    }
    leader.advance_commit_index();
    assert_eq!(leader.volatile_state().commit_index, LogIndex::new(0));
}

#[test]
fn advance_commit_index_only_current_term() {
    let mut leader = make_leader(1, vec![2, 3]);
    let term = leader.current_term().as_u64();
    leader.log.append(entry(term - 1, 1, "old_cmd"));
    if let Some(ref mut ls) = leader.leader_state {
        ls.match_index.insert(NodeId::new(2), LogIndex::new(1));
    }
    leader.advance_commit_index();
    assert_eq!(leader.volatile_state().commit_index, LogIndex::new(0));
}

#[test]
fn advance_commit_index_current_term_commits_older_entries() {
    let mut leader = make_leader(1, vec![2, 3]);
    let term = leader.current_term().as_u64();
    leader.log.append(entry(term - 1, 1, "old_cmd"));
    leader.log.append(entry(term, 2, "new_cmd"));
    if let Some(ref mut ls) = leader.leader_state {
        ls.match_index.insert(NodeId::new(2), LogIndex::new(2));
    }
    leader.advance_commit_index();
    assert_eq!(leader.volatile_state().commit_index, LogIndex::new(2));
}

#[test]
fn advance_commit_index_finds_highest() {
    let mut leader = make_leader(1, vec![2, 3]);
    let term = leader.current_term().as_u64();
    leader.log.append(entry(term, 1, "cmd1"));
    leader.log.append(entry(term, 2, "cmd2"));
    leader.log.append(entry(term, 3, "cmd3"));
    if let Some(ref mut ls) = leader.leader_state {
        ls.match_index.insert(NodeId::new(2), LogIndex::new(3));
        ls.match_index.insert(NodeId::new(3), LogIndex::new(1));
    }
    leader.advance_commit_index();
    assert_eq!(leader.volatile_state().commit_index, LogIndex::new(3));
}

#[test]
fn advance_commit_index_not_leader_is_noop() {
    let mut node = new_node(1, vec![2, 3]);
    node.advance_commit_index();
    assert_eq!(node.volatile_state().commit_index, LogIndex::new(0));
}

// ---- apply_committed ----

#[test]
fn apply_committed_applies_entries() {
    let mut leader = make_leader(1, vec![2, 3]);
    let term = leader.current_term().as_u64();
    leader.log.append(entry(term, 1, "cmd1"));
    leader.log.append(entry(term, 2, "cmd2"));
    leader.volatile.commit_index = LogIndex::new(2);

    let results = leader.apply_committed();
    assert_eq!(results, vec!["cmd1", "cmd2"]);
    assert_eq!(leader.volatile_state().last_applied, LogIndex::new(2));
}

#[test]
fn apply_committed_nothing_to_apply() {
    let mut leader = make_leader(1, vec![2, 3]);
    let results = leader.apply_committed();
    assert!(results.is_empty());
    assert_eq!(leader.volatile_state().last_applied, LogIndex::new(0));
}

#[test]
fn apply_committed_incremental() {
    let mut leader = make_leader(1, vec![2, 3]);
    let term = leader.current_term().as_u64();
    leader.log.append(entry(term, 1, "cmd1"));
    leader.log.append(entry(term, 2, "cmd2"));
    leader.log.append(entry(term, 3, "cmd3"));

    leader.volatile.commit_index = LogIndex::new(2);
    let results1 = leader.apply_committed();
    assert_eq!(results1, vec!["cmd1", "cmd2"]);
    assert_eq!(leader.volatile_state().last_applied, LogIndex::new(2));

    leader.volatile.commit_index = LogIndex::new(3);
    let results2 = leader.apply_committed();
    assert_eq!(results2, vec!["cmd3"]);
    assert_eq!(leader.volatile_state().last_applied, LogIndex::new(3));
}

// ---- client_request ----

#[test]
fn client_request_appends_and_replicates() {
    let mut leader = make_leader(1, vec![2, 3]);
    let (idx, msgs) = leader.client_request("my_command".to_owned());
    assert_eq!(idx, Some(LogIndex::new(1)));
    assert_eq!(leader.log().len(), 1);
    assert_eq!(leader.log().get(LogIndex::new(1)).unwrap().command, "my_command");
    assert_eq!(leader.log().get(LogIndex::new(1)).unwrap().term, leader.current_term());

    let mut count = 0;
    for (_, msg) in msgs {
        match msg {
            RaftMessage::AppendEntries(ae) => {
                assert_eq!(ae.entries.len(), 1);
                assert_eq!(ae.entries[0].command, "my_command");
                count += 1;
            }
            _ => panic!("expected AppendEntries"),
        }
    }
    assert_eq!(count, 2);
}

#[test]
fn client_request_not_leader_returns_none() {
    let mut node = new_node(1, vec![2, 3]);
    assert_eq!(node.client_request("cmd".to_owned()).0, None);
}

#[test]
fn client_request_multiple_entries() {
    let mut leader = make_leader(1, vec![2, 3]);
    let (idx1, m1) = leader.client_request("cmd1".to_owned());
    let (idx2, m2) = leader.client_request("cmd2".to_owned());
    let (idx3, m3) = leader.client_request("cmd3".to_owned());
    assert_eq!(idx1, Some(LogIndex::new(1)));
    assert_eq!(idx2, Some(LogIndex::new(2)));
    assert_eq!(idx3, Some(LogIndex::new(3)));
    assert_eq!(leader.log().len(), 3);
    assert_eq!(m1.len() + m2.len() + m3.len(), 6);
}

// ---- Full replication flow ----

#[test]
fn full_replication_flow_three_nodes() {
    let mut node1 = new_node(1, vec![2, 3]);
    let mut node2 = new_node(2, vec![1, 3]);
    let mut node3 = new_node(3, vec![1, 2]);

    let _ = node1.start_election();
    let vote = RequestVoteResponse { term: node1.current_term(), vote_granted: true };
    let _ = node1.handle_request_vote_response(NodeId::new(2), vote);
    assert_eq!(node1.state(), RaftState::Leader);

    let (idx, msgs) = node1.client_request("set x 42".to_owned());
    assert_eq!(idx, Some(LogIndex::new(1)));

    let mut for_2 = None;
    let mut for_3 = None;
    for (target, msg) in msgs {
        if let RaftMessage::AppendEntries(ae) = msg {
            if target == NodeId::new(2) {
                for_2 = Some(ae);
            } else if target == NodeId::new(3) {
                for_3 = Some(ae);
            }
        }
    }

    let (resp2, _) = node2.handle_append_entries(for_2.unwrap());
    assert!(resp2.success);
    assert_eq!(resp2.match_index, LogIndex::new(1));
    assert_eq!(node2.log().len(), 1);

    let (resp3, _) = node3.handle_append_entries(for_3.unwrap());
    assert!(resp3.success);
    assert_eq!(resp3.match_index, LogIndex::new(1));

    let _ = node1.handle_append_entries_response(NodeId::new(2), resp2);
    assert_eq!(node1.volatile_state().commit_index, LogIndex::new(1));

    let applied = node1.apply_committed();
    assert_eq!(applied, vec!["set x 42"]);
    assert_eq!(node1.volatile_state().last_applied, LogIndex::new(1));
}

// ---- Log inconsistency backtracking ----

#[test]
fn log_backtracking_converges() {
    let mut leader = make_leader(1, vec![2, 3]);
    let term = leader.current_term().as_u64();
    leader.log.append(entry(term, 1, "cmd1"));
    leader.log.append(entry(term, 2, "cmd2"));
    leader.log.append(entry(term, 3, "cmd3"));

    let peers = leader.config().peers.clone();
    leader.leader_state = Some(LeaderState::new(&peers, leader.log().last_index()));

    let mut follower = new_node(2, vec![1, 3]);
    follower.log.append(entry(term - 1, 1, "old1"));
    follower.log.append(entry(term - 1, 2, "old2"));

    for expected_prev in [3u64, 2, 1] {
        let (_, ae) = only_append(leader.replicate_to_peer(NodeId::new(2)));
        assert_eq!(ae.prev_log_index, LogIndex::new(expected_prev));
        let (resp, _) = follower.handle_append_entries(ae);
        assert!(!resp.success);
        let _ = leader.handle_append_entries_response(NodeId::new(2), resp);
        assert_eq!(
            leader.leader_state().unwrap().next_index.get(NodeId::new(2)),
            Some(LogIndex::new(expected_prev))
        );
    }

    let (_, ae) = only_append(leader.replicate_to_peer(NodeId::new(2)));
    assert_eq!(ae.prev_log_index, LogIndex::new(0));
    assert_eq!(ae.entries.len(), 3);

    let (resp, _) = follower.handle_append_entries(ae);
    assert!(resp.success);
    assert_eq!(resp.match_index, LogIndex::new(3));

    assert_eq!(follower.log().len(), 3);
    assert_eq!(follower.log().get(LogIndex::new(1)).unwrap().command, "cmd1");
    assert_eq!(follower.log().get(LogIndex::new(2)).unwrap().command, "cmd2");
    assert_eq!(follower.log().get(LogIndex::new(3)).unwrap().command, "cmd3");

    let _ = leader.handle_append_entries_response(NodeId::new(2), resp);
    assert_eq!(leader.leader_state().unwrap().match_index.get(NodeId::new(2)), Some(LogIndex::new(3)));
    assert_eq!(leader.leader_state().unwrap().next_index.get(NodeId::new(2)), Some(LogIndex::new(4)));
}

// ---- Heartbeats ----

#[test]
fn heartbeat_resets_follower_state() {
    let mut follower = new_node(2, vec![1, 3]);
    let _ = follower.start_election();
    assert_eq!(follower.state(), RaftState::Candidate);

    let hb: AppendEntries<String> = AppendEntries {
        term: follower.current_term(),
        leader_id: NodeId::new(1),
        prev_log_index: LogIndex::new(0),
        prev_log_term: Term::default(),
        entries: vec![],
        leader_commit: LogIndex::new(0),
    };
    let (resp, _) = follower.handle_append_entries(hb);
    assert!(resp.success);
    assert_eq!(follower.state(), RaftState::Follower);
    assert_eq!(follower.current_leader(), Some(NodeId::new(1)));
}

#[test]
fn heartbeat_updates_follower_commit_index() {
    let mut follower = new_node(2, vec![1, 3]);
    follower.log.append(entry(1, 1, "cmd1"));
    follower.log.append(entry(1, 2, "cmd2"));

    let hb: AppendEntries<String> = AppendEntries {
        term: Term::new(1),
        leader_id: NodeId::new(1),
        prev_log_index: LogIndex::new(2),
        prev_log_term: Term::new(1),
        entries: vec![],
        leader_commit: LogIndex::new(2),
    };
    let (resp, _) = follower.handle_append_entries(hb);
    assert!(resp.success);
    assert_eq!(follower.volatile_state().commit_index, LogIndex::new(2));
}

#[test]
fn commit_index_clamped_to_last_log_index() {
    let mut follower = new_node(2, vec![1, 3]);
    follower.log.append(entry(1, 1, "cmd1"));

    let hb: AppendEntries<String> = AppendEntries {
        term: Term::new(1),
        leader_id: NodeId::new(1),
        prev_log_index: LogIndex::new(1),
        prev_log_term: Term::new(1),
        entries: vec![],
        leader_commit: LogIndex::new(5),
    };
    let (resp, _) = follower.handle_append_entries(hb);
    assert!(resp.success);
    assert_eq!(follower.volatile_state().commit_index, LogIndex::new(1));
}

// ---- Five-node commit advancement ----

#[test]
fn five_node_commit_requires_three_replicas() {
    let mut leader = make_leader(1, vec![2, 3, 4, 5]);
    let term = leader.current_term().as_u64();
    leader.log.append(entry(term, 1, "cmd1"));
    if let Some(ref mut ls) = leader.leader_state {
        ls.match_index.insert(NodeId::new(2), LogIndex::new(1));
        ls.match_index.insert(NodeId::new(3), LogIndex::new(1));
    }
    leader.advance_commit_index();
    assert_eq!(leader.volatile_state().commit_index, LogIndex::new(1));
}

#[test]
fn five_node_commit_fails_with_only_one_replica() {
    let mut leader = make_leader(1, vec![2, 3, 4, 5]);
    let term = leader.current_term().as_u64();
    leader.log.append(entry(term, 1, "cmd1"));
    if let Some(ref mut ls) = leader.leader_state {
        ls.match_index.insert(NodeId::new(2), LogIndex::new(1));
    }
    leader.advance_commit_index();
    assert_eq!(leader.volatile_state().commit_index, LogIndex::new(0));
}

#[test]
fn solo_leader_commits_immediately() {
    let mut leader = make_leader(1, vec![]);
    let term = leader.current_term().as_u64();
    leader.log.append(entry(term, 1, "cmd1"));
    leader.advance_commit_index();
    assert_eq!(leader.volatile_state().commit_index, LogIndex::new(1));
}

#[test]
fn response_triggers_commit_advancement() {
    let mut leader = make_leader(1, vec![2, 3]);
    let term = leader.current_term().as_u64();
    leader.log.append(entry(term, 1, "cmd1"));

    let resp = AppendEntriesResponse { term: Term::new(term), success: true, match_index: LogIndex::new(1) };
    let _ = leader.handle_append_entries_response(NodeId::new(2), resp);
    assert_eq!(leader.volatile_state().commit_index, LogIndex::new(1));
}

// ---- Snapshot-based replication ----


fn snapshot_messages(msgs: Vec<Outbound<String>>, peer: NodeId) -> Vec<InstallSnapshot> {
    msgs.into_iter()
        .filter_map(|(target, msg)| match msg {
            RaftMessage::InstallSnapshot(is) if target == peer => Some(is),
            _ => None,
        })
        .collect()
}

#[test]
fn replicate_sends_snapshot_when_peer_behind_compaction() {
    let mut leader = make_leader(1, vec![2, 3]);
    let term = leader.current_term().as_u64();
    for i in 1..=5 {
        leader.log.append(entry(term, i, &format!("cmd{i}")));
    }
    leader.log.compact_to(LogIndex::new(3));
    leader.last_snapshot = Some(Snapshot {
        last_included_index: LogIndex::new(3),
        last_included_term: Term::new(term),
        data: b"snapshot-data".to_vec(),
    });

    let msgs = leader.replicate_to_peer(NodeId::new(2));
    let mut got_snapshot = false;
    for (target, msg) in msgs {
        assert_eq!(target, NodeId::new(2));
        if let RaftMessage::InstallSnapshot(is) = msg {
            got_snapshot = true;
            assert_eq!(is.last_included_index, LogIndex::new(3));
            assert_eq!(is.last_included_term, Term::new(term));
        }
    }
    assert!(got_snapshot, "expected InstallSnapshot message");
}

#[test]
fn replicate_sends_append_entries_when_peer_at_offset() {
    let mut leader = make_leader(1, vec![2, 3]);
    let term = leader.current_term().as_u64();
    for i in 1..=5 {
        leader.log.append(entry(term, i, &format!("cmd{i}")));
    }
    leader.log.compact_to(LogIndex::new(3));
    leader.last_snapshot = Some(Snapshot {
        last_included_index: LogIndex::new(3),
        last_included_term: Term::new(term),
        data: Vec::new(),
    });
    if let Some(ref mut ls) = leader.leader_state {
        ls.next_index.insert(NodeId::new(2), LogIndex::new(4));
    }

    let (target, ae) = only_append(leader.replicate_to_peer(NodeId::new(2)));
    assert_eq!(target, NodeId::new(2));
    assert_eq!(ae.prev_log_index, LogIndex::new(3));
    assert_eq!(ae.prev_log_term, Term::new(term));
    assert_eq!(ae.entries.len(), 2);
}

#[test]
fn send_snapshot_to_peer_chunked() {
    let mut leader = make_leader(1, vec![2, 3]);
    let term = leader.current_term().as_u64();
    let data = vec![0xAB; 200];
    leader.last_snapshot = Some(Snapshot {
        last_included_index: LogIndex::new(10),
        last_included_term: Term::new(term),
        data: data.clone(),
    });
    leader.config.snapshot_chunk_size = 80;
    for i in 1..=10 {
        leader.log.append(entry(term, i, &format!("cmd{i}")));
    }
    leader.log.compact_to(LogIndex::new(10));

    let msgs = leader.replicate_to_peer(NodeId::new(2));
    assert!(msgs.iter().all(|(t, _)| *t == NodeId::new(2)));
    let chunks = snapshot_messages(msgs, NodeId::new(2));
    assert_eq!(chunks.len(), 3);

    assert_eq!(chunks[0].offset, 0);
    assert!(!chunks[0].done);
    assert_eq!(chunks[0].data.len(), 80);

    assert_eq!(chunks[1].offset, 80);
    assert!(!chunks[1].done);
    assert_eq!(chunks[1].data.len(), 80);

    assert_eq!(chunks[2].offset, 160);
    assert!(chunks[2].done);
    assert_eq!(chunks[2].data.len(), 40);

    let mut assembled = Vec::new();
    for chunk in &chunks {
        assembled.extend_from_slice(&chunk.data);
    }
    assert_eq!(assembled, data);
}

#[test]
fn send_snapshot_empty_data() {
    let mut leader = make_leader(1, vec![2, 3]);
    let term = leader.current_term().as_u64();
    leader.last_snapshot = Some(Snapshot {
        last_included_index: LogIndex::new(5),
        last_included_term: Term::new(term),
        data: Vec::new(),
    });
    for i in 1..=5 {
        leader.log.append(entry(term, i, &format!("cmd{i}")));
    }
    leader.log.compact_to(LogIndex::new(5));

    let chunks = snapshot_messages(leader.replicate_to_peer(NodeId::new(2)), NodeId::new(2));
    assert_eq!(chunks.len(), 1);
    assert!(chunks[0].done);
    assert_eq!(chunks[0].offset, 0);
    assert!(chunks[0].data.is_empty());
}

#[test]
fn replicate_no_snapshot_available_is_noop() {
    let mut leader = make_leader(1, vec![2, 3]);
    let term = leader.current_term().as_u64();
    for i in 1..=3 {
        leader.log.append(entry(term, i, &format!("cmd{i}")));
    }
    leader.log.compact_to(LogIndex::new(2));
    assert!(leader.last_snapshot.is_none());

    let chunks = snapshot_messages(leader.replicate_to_peer(NodeId::new(2)), NodeId::new(2));
    assert_eq!(chunks.len(), 0);
}

#[test]
fn install_snapshot_response_updates_peer_state() {
    let mut leader = make_leader(1, vec![2, 3]);
    let term = leader.current_term().as_u64();
    leader.last_snapshot = Some(Snapshot {
        last_included_index: LogIndex::new(10),
        last_included_term: Term::new(term),
        data: Vec::new(),
    });

    let _ = leader.handle_install_snapshot_response(NodeId::new(2), InstallSnapshotResponse { term: Term::new(term) });

    let ls = leader.leader_state().unwrap();
    assert_eq!(ls.next_index.get(NodeId::new(2)), Some(LogIndex::new(11)));
    assert_eq!(ls.match_index.get(NodeId::new(2)), Some(LogIndex::new(10)));
}

#[test]
fn install_snapshot_response_higher_term_steps_down() {
    let mut leader = make_leader(1, vec![2, 3]);
    let _ = leader.handle_install_snapshot_response(NodeId::new(2), InstallSnapshotResponse { term: Term::new(100) });
    assert_eq!(leader.state(), RaftState::Follower);
    assert_eq!(leader.current_term(), Term::new(100));
}

#[test]
fn install_snapshot_response_not_leader_is_noop() {
    let mut node = new_node(1, vec![2, 3]);
    let writes = node.handle_install_snapshot_response(NodeId::new(2), InstallSnapshotResponse { term: Term::new(1) });
    assert_eq!(writes.len(), 2);
    assert_eq!(node.state(), RaftState::Follower);
    assert!(node.leader_state().is_none());
}

#[test]
fn full_snapshot_flow_leader_to_follower() {
    let mut leader = make_leader(1, vec![2, 3]);
    let term = leader.current_term().as_u64();
    for i in 1..=10 {
        leader.log.append(entry(term, i, &format!("cmd{i}")));
    }
    leader.volatile.commit_index = LogIndex::new(5);
    leader.volatile.last_applied = LogIndex::new(5);

    let sm = NullStateMachine;
    let (index, snap_term) = leader.snapshot_point().unwrap();
    leader.complete_snapshot(index, snap_term, StateMachine::<String>::snapshot(&sm));
    assert!(leader.last_snapshot().is_some());
    assert_eq!(leader.log().offset(), LogIndex::new(5));

    let mut follower = new_node(2, vec![1, 3]);

    let snapshots = snapshot_messages(leader.replicate_to_peer(NodeId::new(2)), NodeId::new(2));
    assert!(!snapshots.is_empty());

    let mut sm2 = NullStateMachine;
    let mut last_resp = None;
    for snap_msg in snapshots {
        let idx = snap_msg.last_included_index;
        let t = snap_msg.last_included_term;
        let (resp, _, data) = follower.handle_install_snapshot(snap_msg);
        if let Some(data) = data {
            StateMachine::<String>::restore(&mut sm2, &data).unwrap();
            follower.finish_install_snapshot(idx, t, data);
        }
        last_resp = Some(resp);
    }

    assert_eq!(follower.log().offset(), LogIndex::new(5));
    assert_eq!(follower.volatile_state().commit_index, LogIndex::new(5));
    assert_eq!(follower.volatile_state().last_applied, LogIndex::new(5));
    assert!(follower.last_snapshot().is_some());

    let _ = leader.handle_install_snapshot_response(NodeId::new(2), last_resp.unwrap());

    let ls = leader.leader_state().unwrap();
    assert_eq!(ls.next_index.get(NodeId::new(2)), Some(LogIndex::new(6)));
    assert_eq!(ls.match_index.get(NodeId::new(2)), Some(LogIndex::new(5)));

    let (_, ae) = only_append(leader.replicate_to_peer(NodeId::new(2)));
    assert_eq!(ae.prev_log_index, LogIndex::new(5));
    assert_eq!(ae.entries.len(), 5);
    assert_eq!(ae.entries[0].index, LogIndex::new(6));
}
