use pirc_server::raft::types::{LogEntry, LogIndex, NodeId, RaftConfig, RaftState, Term};

// ---- RaftState ----

#[test]
fn raft_state_display() {
    assert_eq!(RaftState::Follower.to_string(), "Follower");
    assert_eq!(RaftState::Candidate.to_string(), "Candidate");
    assert_eq!(RaftState::Leader.to_string(), "Leader");
}

#[test]
fn raft_state_equality() {
    assert_eq!(RaftState::Follower, RaftState::Follower);
    assert_ne!(RaftState::Follower, RaftState::Leader);
}

// ---- Term ----

#[test]
fn term_construction() {
    let term = Term::new(5);
    assert_eq!(term.as_u64(), 5);
}

#[test]
fn term_default() {
    assert_eq!(Term::default().as_u64(), 0);
}

#[test]
fn term_display() {
    assert_eq!(Term::new(42).to_string(), "42");
}

#[test]
fn term_ordering() {
    assert!(Term::new(1) < Term::new(2));
    assert!(Term::new(5) > Term::new(3));
    assert_eq!(Term::new(1), Term::new(1));
}

#[test]
fn term_increment() {
    assert_eq!(Term::new(3).increment(), Term::new(4));
}

#[test]
fn term_add() {
    assert_eq!(Term::new(3) + 2, Term::new(5));
}

#[test]
fn term_sub() {
    assert_eq!(Term::new(5) - 2, Term::new(3));
}

// ---- LogIndex ----

#[test]
fn log_index_construction() {
    let idx = LogIndex::new(10);
    assert_eq!(idx.as_u64(), 10);
}

#[test]
fn log_index_default() {
    assert_eq!(LogIndex::default().as_u64(), 0);
}

#[test]
fn log_index_display() {
    assert_eq!(LogIndex::new(7).to_string(), "7");
}

#[test]
fn log_index_ordering() {
    assert!(LogIndex::new(1) < LogIndex::new(2));
    assert!(LogIndex::new(5) > LogIndex::new(3));
}

#[test]
fn log_index_increment() {
    assert_eq!(LogIndex::new(10).increment(), LogIndex::new(11));
}

#[test]
fn log_index_add() {
    assert_eq!(LogIndex::new(3) + 2, LogIndex::new(5));
}

#[test]
fn log_index_sub() {
    assert_eq!(LogIndex::new(5) - 2, LogIndex::new(3));
}

// ---- LogEntry ----

#[test]
fn log_entry_construction() {
    let entry = LogEntry {
        term: Term::new(1),
        index: LogIndex::new(1),
        command: "set x 42".to_owned(),
    };
    assert_eq!(entry.term, Term::new(1));
    assert_eq!(entry.index, LogIndex::new(1));
    assert_eq!(entry.command, "set x 42");
}

// ---- RaftConfig ----

#[test]
fn raft_config_default() {
    let config = RaftConfig::default();
    // Durations are kept in milliseconds.
    assert_eq!(config.election_timeout_min, 150);
    assert_eq!(config.election_timeout_max, 300);
    assert_eq!(config.heartbeat_interval, 50);
    assert_eq!(config.node_id, NodeId::new(0));
    assert!(config.peers.is_empty());
}

// ---- Edge cases ----

#[test]
fn node_id_display_and_large_values() {
    assert_eq!(NodeId::new(0).to_string(), "0");
    assert_eq!(NodeId::new(18446744073709551615).to_string(), "18446744073709551615");
    assert_eq!(Term::new(1000).to_string(), "1000");
}

#[test]
fn log_entry_equality_compares_all_fields() {
    let a = LogEntry { term: Term::new(1), index: LogIndex::new(2), command: "x".to_owned() };
    let b = LogEntry { term: Term::new(1), index: LogIndex::new(2), command: "x".to_owned() };
    let c = LogEntry { term: Term::new(2), index: LogIndex::new(2), command: "x".to_owned() };
    let d = LogEntry { term: Term::new(1), index: LogIndex::new(2), command: "y".to_owned() };
    assert_eq!(a, b);
    assert_ne!(a, c);
    assert_ne!(a, d);
    assert_eq!(a.clone(), a);
}

#[test]
fn raft_config_snapshot_defaults() {
    let config = RaftConfig::default();
    assert_eq!(config.snapshot_threshold, 1000);
    assert_eq!(config.snapshot_chunk_size, 65536);
}
