use pirc_server::raft::state::{LeaderState, PeerIndexMap, PersistentState, VolatileState};
use pirc_server::raft::types::{LogEntry, LogIndex, NodeId, Term};

// ---- PersistentState ----

#[test]
fn persistent_state_default() {
    let state: PersistentState<String> = PersistentState::default();
    assert_eq!(state.current_term, Term::default());
    assert_eq!(state.voted_for, None);
    assert!(state.log.is_empty());
}

#[test]
fn persistent_state_construction() {
    let state = PersistentState {
        current_term: Term::new(3),
        voted_for: Some(NodeId::new(1)),
        log: vec![LogEntry { term: Term::new(1), index: LogIndex::new(1), command: "cmd".to_owned() }],
    };
    assert_eq!(state.current_term, Term::new(3));
    assert_eq!(state.voted_for, Some(NodeId::new(1)));
    assert_eq!(state.log.len(), 1);
}

// ---- VolatileState ----

#[test]
fn volatile_state_default() {
    let state = VolatileState::default();
    assert_eq!(state.commit_index, LogIndex::new(0));
    assert_eq!(state.last_applied, LogIndex::new(0));
}

#[test]
fn volatile_state_construction() {
    let state = VolatileState { commit_index: LogIndex::new(5), last_applied: LogIndex::new(3) };
    assert_eq!(state.commit_index, LogIndex::new(5));
    assert_eq!(state.last_applied, LogIndex::new(3));
}

// ---- LeaderState ----

#[test]
fn leader_state_new() {
    let peers = vec![NodeId::new(2), NodeId::new(3)];
    let state = LeaderState::new(&peers, LogIndex::new(5));

    assert_eq!(state.next_index.get(NodeId::new(2)), Some(LogIndex::new(6)));
    assert_eq!(state.next_index.get(NodeId::new(3)), Some(LogIndex::new(6)));
    assert_eq!(state.match_index.get(NodeId::new(2)), Some(LogIndex::new(0)));
    assert_eq!(state.match_index.get(NodeId::new(3)), Some(LogIndex::new(0)));
}

#[test]
fn leader_state_empty_peers() {
    let state = LeaderState::new(&[], LogIndex::new(0));
    assert!(state.next_index.is_empty());
    assert!(state.match_index.is_empty());
}

// ---- PeerIndexMap ----

#[test]
fn peer_index_map_insert_replaces() {
    let mut m = PeerIndexMap::new();
    m.insert(NodeId::new(1), LogIndex::new(4));
    m.insert(NodeId::new(2), LogIndex::new(7));
    m.insert(NodeId::new(1), LogIndex::new(9));
    assert_eq!(m.len(), 2);
    assert_eq!(m.get(NodeId::new(1)), Some(LogIndex::new(9)));
    assert_eq!(m.get(NodeId::new(3)), None);
    assert!(m.contains_key(NodeId::new(2)));
}

#[test]
fn peer_index_map_counts_at_least() {
    let mut m = PeerIndexMap::new();
    m.insert(NodeId::new(1), LogIndex::new(4));
    m.insert(NodeId::new(2), LogIndex::new(7));
    m.insert(NodeId::new(3), LogIndex::new(5));
    assert_eq!(m.count_at_least(LogIndex::new(5)), 2);
    assert_eq!(m.count_at_least(LogIndex::new(8)), 0);
    assert_eq!(m.count_at_least(LogIndex::new(0)), 3);
}
