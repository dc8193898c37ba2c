use pirc_server::raft::health::{HealthConfig, HealthEvent, NodeHealthMonitor, PeerStatus};
use pirc_server::raft::types::NodeId;

fn make_config(suspect_ms: u64, failure_ms: u64) -> HealthConfig {
    HealthConfig { suspect_threshold: suspect_ms, failure_threshold: failure_ms }
}

#[test]
fn peer_status_display() {
    assert_eq!(PeerStatus::Online.to_string(), "Online");
    assert_eq!(PeerStatus::Suspected.to_string(), "Suspected");
    assert_eq!(PeerStatus::Down.to_string(), "Down");
}

#[test]
fn new_monitor_starts_all_peers_online() {
    let peers = vec![NodeId::new(1), NodeId::new(2), NodeId::new(3)];
    let config = make_config(100, 200);
    let monitor = NodeHealthMonitor::new(&peers, config, 0);

    let statuses = monitor.peer_statuses();
    assert_eq!(statuses.len(), 3);
    for (_, status) in statuses {
        assert_eq!(status, PeerStatus::Online);
    }
}

#[test]
fn evaluate_no_change_when_recent() {
    let peers = vec![NodeId::new(1)];
    let config = make_config(100, 200);
    let mut monitor = NodeHealthMonitor::new(&peers, config, 1_000);

    let events = monitor.evaluate(1_000);
    // No events: the peer was just created.
    assert!(events.is_empty());
    assert_eq!(monitor.peer_status(NodeId::new(1)), Some(PeerStatus::Online));
}

#[test]
fn evaluate_transitions_to_suspected() {
    let peers = vec![NodeId::new(1)];
    let mut monitor = NodeHealthMonitor::new(&peers, make_config(10, 50), 0);
    let events = monitor.evaluate(20);
    assert_eq!(monitor.peer_status(NodeId::new(1)), Some(PeerStatus::Suspected));
    assert_eq!(events, vec![HealthEvent::NodeSuspected(NodeId::new(1))]);
}

#[test]
fn evaluate_transitions_to_down() {
    let peers = vec![NodeId::new(1)];
    let mut monitor = NodeHealthMonitor::new(&peers, make_config(10, 30), 0);
    let events = monitor.evaluate(40);
    assert_eq!(monitor.peer_status(NodeId::new(1)), Some(PeerStatus::Down));
    assert_eq!(events, vec![HealthEvent::NodeDown(NodeId::new(1))]);
}

#[test]
fn record_response_resets_to_online() {
    let peers = vec![NodeId::new(1)];
    let mut monitor = NodeHealthMonitor::new(&peers, make_config(10, 30), 0);
    let _ = monitor.evaluate(40);
    assert_eq!(monitor.peer_status(NodeId::new(1)), Some(PeerStatus::Down));
    let event = monitor.record_response(NodeId::new(1), 41);
    assert_eq!(monitor.peer_status(NodeId::new(1)), Some(PeerStatus::Online));
    assert_eq!(event, Some(HealthEvent::NodeUp(NodeId::new(1))));
}

#[test]
fn no_event_when_online_peer_responds() {
    let peers = vec![NodeId::new(1)];
    let mut monitor = NodeHealthMonitor::new(&peers, make_config(100, 200), 0);
    assert_eq!(monitor.record_response(NodeId::new(1), 5), None);
}

#[test]
fn suspected_peer_recovers_on_response() {
    let peers = vec![NodeId::new(1)];
    let mut monitor = NodeHealthMonitor::new(&peers, make_config(10, 50), 0);
    let _ = monitor.evaluate(20);
    assert_eq!(monitor.peer_status(NodeId::new(1)), Some(PeerStatus::Suspected));
    let event = monitor.record_response(NodeId::new(1), 21);
    assert_eq!(monitor.peer_status(NodeId::new(1)), Some(PeerStatus::Online));
    assert_eq!(event, Some(HealthEvent::NodeUp(NodeId::new(1))));
}

#[test]
fn add_peer_starts_online() {
    let config = make_config(100, 200);
    let mut monitor = NodeHealthMonitor::new(&[], config, 0);

    monitor.add_peer(NodeId::new(5), 0);
    assert_eq!(monitor.peer_status(NodeId::new(5)), Some(PeerStatus::Online));
}

#[test]
fn remove_peer_removes_tracking() {
    let peers = vec![NodeId::new(1)];
    let config = make_config(100, 200);
    let mut monitor = NodeHealthMonitor::new(&peers, config, 0);

    monitor.remove_peer(NodeId::new(1));
    assert_eq!(monitor.peer_status(NodeId::new(1)), None);
    assert!(monitor.peer_statuses().is_empty());
}

#[test]
fn down_peers_returns_only_down_nodes() {
    let peers = vec![NodeId::new(1), NodeId::new(2)];
    let mut monitor = NodeHealthMonitor::new(&peers, make_config(10, 30), 0);
    let _ = monitor.record_response(NodeId::new(2), 40);
    let _ = monitor.evaluate(40);
    let down = monitor.down_peers();
    assert_eq!(down.len(), 1);
    assert_eq!(down[0], NodeId::new(1));
}

#[test]
fn multiple_evaluations_no_duplicate_events() {
    let peers = vec![NodeId::new(1)];
    let config = make_config(100, 200);
    let mut monitor = NodeHealthMonitor::new(&peers, config, 0);

    // Evaluations while online emit nothing.
    assert!(monitor.evaluate(1).is_empty());
    assert!(monitor.evaluate(2).is_empty());
    assert!(monitor.evaluate(3).is_empty());
}

#[test]
fn suspected_to_down_emits_down_event() {
    let peers = vec![NodeId::new(1)];
    let mut monitor = NodeHealthMonitor::new(&peers, make_config(10, 30), 0);
    assert_eq!(monitor.evaluate(15), vec![HealthEvent::NodeSuspected(NodeId::new(1))]);
    assert_eq!(monitor.peer_status(NodeId::new(1)), Some(PeerStatus::Suspected));
    assert_eq!(monitor.evaluate(35), vec![HealthEvent::NodeDown(NodeId::new(1))]);
    assert_eq!(monitor.peer_status(NodeId::new(1)), Some(PeerStatus::Down));
}

#[test]
fn down_stays_down_without_response() {
    let peers = vec![NodeId::new(1)];
    let mut monitor = NodeHealthMonitor::new(&peers, make_config(10, 30), 0);
    assert_eq!(monitor.evaluate(40).len(), 1);
    assert!(monitor.evaluate(50).is_empty());
    assert_eq!(monitor.peer_status(NodeId::new(1)), Some(PeerStatus::Down));
}

#[test]
fn evaluating_twice_at_one_time_changes_nothing_more() {
    let peers = vec![NodeId::new(1), NodeId::new(2)];
    let mut monitor = NodeHealthMonitor::new(&peers, make_config(10, 30), 0);
    let _ = monitor.record_response(NodeId::new(2), 30);
    let first = monitor.evaluate(35);
    assert_eq!(first, vec![HealthEvent::NodeDown(NodeId::new(1))]);
    let statuses = monitor.peer_statuses();
    assert!(monitor.evaluate(35).is_empty());
    assert_eq!(monitor.peer_statuses(), statuses);
}

#[test]
fn health_config_from_heartbeat_interval() {
    let config = HealthConfig::from_heartbeat_interval(50);
    assert_eq!(config.suspect_threshold, 150);
    assert_eq!(config.failure_threshold, 300);
}

#[test]
fn record_response_unknown_peer_is_noop() {
    let config = make_config(100, 200);
    let mut monitor = NodeHealthMonitor::new(&[], config, 0);

    // Should not panic or emit events.
    assert_eq!(monitor.record_response(NodeId::new(99), 10), None);
    assert!(monitor.peer_statuses().is_empty());
}

#[test]
fn add_peer_idempotent() {
    let peers = vec![NodeId::new(1)];
    let config = make_config(100, 200);
    let mut monitor = NodeHealthMonitor::new(&peers, config, 0);

    // Adding an existing peer does not reset its state.
    monitor.add_peer(NodeId::new(1), 500);
    assert_eq!(monitor.peer_statuses().len(), 1);
}
