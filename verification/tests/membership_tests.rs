use pirc_server::raft::membership::{ClusterMembership, MembershipChange, MembershipError};
use pirc_server::raft::types::{LogIndex, NodeId};


fn node(id: u64) -> NodeId {
    NodeId::new(id)
}

#[test]
fn new_membership_includes_self_and_peers() {
    let m = ClusterMembership::new(node(1), &[node(2), node(3)]);
    assert_eq!(m.member_count(), 3);
    assert!(m.is_member(node(1)));
    assert!(m.is_member(node(2)));
    assert!(m.is_member(node(3)));
    assert!(!m.is_member(node(4)));
}

#[test]
fn quorum_size_three_node_cluster() {
    let m = ClusterMembership::new(node(1), &[node(2), node(3)]);
    assert_eq!(m.quorum_size(), 2);
}

#[test]
fn quorum_size_five_node_cluster() {
    let m = ClusterMembership::new(node(1), &[node(2), node(3), node(4), node(5)]);
    assert_eq!(m.quorum_size(), 3);
}

#[test]
fn quorum_size_single_node() {
    let m = ClusterMembership::new(node(1), &[]);
    assert_eq!(m.quorum_size(), 1);
}

#[test]
fn initial_generation_is_zero() {
    let m = ClusterMembership::new(node(1), &[node(2)]);
    assert_eq!(m.generation(), 0);
}

#[test]
fn no_pending_change_initially() {
    let m = ClusterMembership::new(node(1), &[node(2)]);
    assert!(!m.has_pending_change());
    assert!(m.pending_change().is_none());
}

#[test]
fn begin_add_server_takes_effect_immediately() {
    let mut m = ClusterMembership::new(node(1), &[node(2), node(3)]);
    assert!(!m.is_member(node(4)));

    let addr: String = "10.0.0.4:7000".into();
    m.begin_change(LogIndex::new(5), MembershipChange::AddServer(node(4), addr));

    assert!(m.is_member(node(4)));
    assert_eq!(m.member_count(), 4);
    assert!(m.has_pending_change());
    assert_eq!(m.quorum_size(), 3);
}

#[test]
fn begin_remove_server_takes_effect_immediately() {
    let mut m = ClusterMembership::new(node(1), &[node(2), node(3)]);
    assert!(m.is_member(node(3)));

    m.begin_change(LogIndex::new(5), MembershipChange::RemoveServer(node(3)));

    assert!(!m.is_member(node(3)));
    assert_eq!(m.member_count(), 2);
    assert!(m.has_pending_change());
}

#[test]
fn commit_change_increments_generation() {
    let mut m = ClusterMembership::new(node(1), &[node(2), node(3)]);
    let addr: String = "10.0.0.4:7000".into();
    m.begin_change(LogIndex::new(5), MembershipChange::AddServer(node(4), addr));
    m.commit_change();

    assert_eq!(m.generation(), 1);
    assert!(!m.has_pending_change());
    assert!(m.is_member(node(4)));
}

#[test]
fn rollback_add_server() {
    let mut m = ClusterMembership::new(node(1), &[node(2), node(3)]);
    let addr: String = "10.0.0.4:7000".into();
    m.begin_change(LogIndex::new(5), MembershipChange::AddServer(node(4), addr));
    assert!(m.is_member(node(4)));

    m.rollback_change();
    assert!(!m.is_member(node(4)));
    assert_eq!(m.member_count(), 3);
    assert!(!m.has_pending_change());
}

#[test]
fn rollback_remove_server() {
    let mut m = ClusterMembership::new(node(1), &[node(2), node(3)]);
    m.begin_change(LogIndex::new(5), MembershipChange::RemoveServer(node(3)));
    assert!(!m.is_member(node(3)));

    m.rollback_change();
    assert!(m.is_member(node(3)));
    assert_eq!(m.member_count(), 3);
    assert!(!m.has_pending_change());
}

#[test]
fn rollback_noop_when_no_pending() {
    let mut m = ClusterMembership::new(node(1), &[node(2)]);
    m.rollback_change(); // should not panic
    assert_eq!(m.member_count(), 2);
}

#[test]
fn commit_noop_when_no_pending() {
    let mut m = ClusterMembership::new(node(1), &[node(2)]);
    m.commit_change(); // should not panic
    assert_eq!(m.generation(), 0);
}

#[test]
fn peers_excludes_self() {
    let m = ClusterMembership::new(node(1), &[node(2), node(3)]);
    let peers = m.peers(node(1));
    assert_eq!(peers.len(), 2);
    assert!(peers.contains(&node(2)));
    assert!(peers.contains(&node(3)));
    assert!(!peers.contains(&node(1)));
}

#[test]
fn pending_change_has_correct_index() {
    let mut m = ClusterMembership::new(node(1), &[node(2)]);
    let addr: String = "10.0.0.3:7000".into();
    m.begin_change(
        LogIndex::new(10),
        MembershipChange::AddServer(node(3), addr.clone()),
    );

    let pending = m.pending_change().unwrap();
    assert_eq!(pending.index, LogIndex::new(10));
    assert_eq!(
        pending.change,
        MembershipChange::AddServer(node(3), addr)
    );
}

#[test]
fn sequential_changes() {
    let mut m = ClusterMembership::new(node(1), &[node(2), node(3)]);
    let addr: String = "10.0.0.4:7000".into();

    // Add node 4
    m.begin_change(LogIndex::new(5), MembershipChange::AddServer(node(4), addr));
    m.commit_change();
    assert_eq!(m.member_count(), 4);
    assert_eq!(m.generation(), 1);

    // Remove node 3
    m.begin_change(LogIndex::new(8), MembershipChange::RemoveServer(node(3)));
    m.commit_change();
    assert_eq!(m.member_count(), 3);
    assert_eq!(m.generation(), 2);
    assert!(!m.is_member(node(3)));
    assert!(m.is_member(node(4)));
}

#[test]
fn membership_error_messages() {
    assert_eq!(MembershipError::NotLeader.to_string(), "not the leader");
    assert!(MembershipError::ChangePending(LogIndex::new(4)).to_string().contains('4'));
}

#[test]
fn rollback_after_commit_changes_nothing() {
    let mut m = ClusterMembership::new(node(1), &[node(2)]);
    m.begin_change(LogIndex::new(3), MembershipChange::RemoveServer(node(2)));
    m.commit_change();
    m.rollback_change();
    assert!(!m.is_member(node(2)));
    assert_eq!(m.member_count(), 1);
    assert_eq!(m.generation(), 1);
}

#[test]
fn rollback_of_adding_a_member_keeps_it() {
    let mut m = ClusterMembership::new(node(1), &[node(2), node(3)]);
    m.begin_change(LogIndex::new(5), MembershipChange::AddServer(node(3), "127.0.0.1:7003".to_string()));
    m.rollback_change();
    assert!(m.is_member(node(3)));
    assert_eq!(m.member_count(), 3);
    assert!(!m.has_pending_change());
    assert_eq!(m.generation(), 0);
}

#[test]
fn rollback_of_removing_a_non_member_adds_nothing() {
    let mut m = ClusterMembership::new(node(1), &[node(2)]);
    m.begin_change(LogIndex::new(5), MembershipChange::RemoveServer(node(9)));
    m.rollback_change();
    assert!(!m.is_member(node(9)));
    assert_eq!(m.member_count(), 2);
    assert!(!m.has_pending_change());
}
