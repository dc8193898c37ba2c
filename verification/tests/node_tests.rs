use pirc_server::raft::node::RaftNode;
use pirc_server::raft::rpc::{AppendEntries, AppendEntriesResponse, RaftMessage, RequestVote, RequestVoteResponse};
use pirc_server::raft::storage::StorageOp;
use pirc_server::raft::types::{LogEntry, LogIndex, NodeId, RaftConfig, RaftState, Term};

fn config(id: u64, peers: &[u64]) -> RaftConfig {
    let mut c = RaftConfig::default();
    c.node_id = NodeId::new(id);
    c.peers = peers.iter().map(|&p| NodeId::new(p)).collect();
    c
}

fn fresh(id: u64, peers: &[u64]) -> RaftNode<String> {
    RaftNode::new(config(id, peers), Term::new(0), None, Vec::new(), None)
}

fn entry(term: u64, index: u64) -> LogEntry<String> {
    LogEntry { term: Term::new(term), index: LogIndex::new(index), command: format!("cmd-{index}") }
}

fn leader_of_three() -> RaftNode<String> {
    let mut node = fresh(1, &[2, 3]);
    let _ = node.start_election();
    let resp = RequestVoteResponse { term: node.current_term(), vote_granted: true };
    let _ = node.handle_request_vote_response(NodeId::new(2), resp);
    assert_eq!(node.state(), RaftState::Leader);
    node
}

#[test]
fn node_starts_as_follower() {
    let node = fresh(1, &[2, 3]);
    assert_eq!(node.state(), RaftState::Follower);
    assert_eq!(node.current_term(), Term::new(0));
    assert_eq!(node.voted_for(), None);
    assert_eq!(node.cluster_size(), 3);
    assert_eq!(node.quorum_size(), 2);
}

#[test]
fn node_election_asks_every_peer() {
    let mut node = fresh(1, &[2, 3]);
    let (writes, messages) = node.start_election();
    assert_eq!(node.state(), RaftState::Candidate);
    assert_eq!(node.current_term(), Term::new(1));
    assert_eq!(node.voted_for(), Some(NodeId::new(1)));
    assert_eq!(writes, vec![StorageOp::SaveTerm(Term::new(1)), StorageOp::SaveVotedFor(Some(NodeId::new(1)))]);
    assert_eq!(messages.len(), 2);
    for (_, msg) in &messages {
        assert!(matches!(msg, RaftMessage::RequestVote(r) if r.term == Term::new(1)));
    }
}

#[test]
fn node_solo_election_wins_at_once() {
    let mut node = fresh(1, &[]);
    let _ = node.start_election();
    assert_eq!(node.state(), RaftState::Leader);
    assert_eq!(node.current_leader(), Some(NodeId::new(1)));
}

#[test]
fn node_grants_one_vote_per_term() {
    let mut node = fresh(1, &[2, 3]);
    let ask = |id: u64| RequestVote {
        term: Term::new(1),
        candidate_id: NodeId::new(id),
        last_log_index: LogIndex::new(0),
        last_log_term: Term::new(0),
    };
    let (first, _) = node.handle_request_vote(ask(2));
    assert!(first.vote_granted);
    let (second, _) = node.handle_request_vote(ask(3));
    assert!(!second.vote_granted);
    let (again, _) = node.handle_request_vote(ask(2));
    assert!(again.vote_granted);
}

#[test]
fn node_refuses_vote_for_stale_log() {
    let mut node = RaftNode::new(config(1, &[2, 3]), Term::new(2), None, vec![entry(2, 1)], None);
    let (resp, _) = node.handle_request_vote(RequestVote {
        term: Term::new(3),
        candidate_id: NodeId::new(2),
        last_log_index: LogIndex::new(5),
        last_log_term: Term::new(1),
    });
    assert!(!resp.vote_granted);
    assert_eq!(node.current_term(), Term::new(3));
}

#[test]
fn node_leader_commits_on_majority() {
    let mut node = leader_of_three();
    let (idx, messages) = node.client_request("set x".to_owned());
    let idx = idx.unwrap();
    assert_eq!(messages.len(), 2);
    assert_eq!(node.volatile_state().commit_index, LogIndex::new(0));
    let _ = node.handle_append_entries_response(
        NodeId::new(2),
        AppendEntriesResponse { term: node.current_term(), success: true, match_index: idx },
    );
    assert_eq!(node.volatile_state().commit_index, idx);
    let applied = node.apply_committed();
    assert_eq!(applied, vec!["set x".to_owned()]);
}

#[test]
fn node_follower_refuses_client_request() {
    let mut node = fresh(1, &[2, 3]);
    let (idx, messages) = node.client_request("x".to_owned());
    assert!(idx.is_none());
    assert!(messages.is_empty());
}

#[test]
fn node_follower_appends_from_leader() {
    let mut node = fresh(2, &[1, 3]);
    let req = AppendEntries {
        term: Term::new(1),
        leader_id: NodeId::new(1),
        prev_log_index: LogIndex::new(0),
        prev_log_term: Term::new(0),
        entries: vec![entry(1, 1), entry(1, 2)],
        leader_commit: LogIndex::new(1),
    };
    let (resp, _) = node.handle_append_entries(req);
    assert!(resp.success);
    assert_eq!(resp.match_index, LogIndex::new(2));
    assert_eq!(node.log().len(), 2);
    assert_eq!(node.volatile_state().commit_index, LogIndex::new(1));
    assert_eq!(node.current_leader(), Some(NodeId::new(1)));
}

#[test]
fn node_rejects_append_from_stale_leader() {
    let mut node = RaftNode::new(config(2, &[1, 3]), Term::new(5), None, Vec::new(), None);
    let req = AppendEntries {
        term: Term::new(4),
        leader_id: NodeId::new(1),
        prev_log_index: LogIndex::new(0),
        prev_log_term: Term::new(0),
        entries: vec![entry(4, 1)],
        leader_commit: LogIndex::new(1),
    };
    let (resp, _) = node.handle_append_entries(req);
    assert!(!resp.success);
    assert_eq!(resp.term, Term::new(5));
    assert!(node.log().is_empty());
}

#[test]
fn node_steps_down_on_higher_term() {
    let mut node = leader_of_three();
    let (changed, writes) = node.handle_term_update(Term::new(7));
    assert!(changed);
    assert_eq!(node.state(), RaftState::Follower);
    assert_eq!(node.current_term(), Term::new(7));
    assert_eq!(writes, vec![StorageOp::SaveTerm(Term::new(7)), StorageOp::SaveVotedFor(None)]);
    let (unchanged, writes) = node.handle_term_update(Term::new(3));
    assert!(!unchanged);
    assert!(writes.is_empty());
    assert_eq!(node.current_term(), Term::new(7));
}

#[test]
fn node_restores_from_snapshot_and_log() {
    let entries = vec![entry(1, 1), entry(1, 2), entry(2, 3)];
    let node: RaftNode<String> =
        RaftNode::new(config(1, &[2]), Term::new(2), Some(NodeId::new(1)), entries, Some((vec![9, 9], LogIndex::new(2), Term::new(1))));
    assert_eq!(node.log().offset(), LogIndex::new(2));
    assert_eq!(node.log().last_index(), LogIndex::new(3));
    assert_eq!(node.log().term_at(LogIndex::new(2)), Some(Term::new(1)));
    assert_eq!(node.last_snapshot().unwrap().data, vec![9, 9]);
}

#[test]
fn node_heartbeats_reach_every_peer() {
    let node = leader_of_three();
    let beats = node.send_heartbeats();
    let mut targets: Vec<u64> = beats.iter().map(|(to, _)| to.as_u64()).collect();
    targets.sort();
    assert_eq!(targets, vec![2, 3]);
}
