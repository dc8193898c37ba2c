use pirc_server::keepalive::{keepalive_step, ping_timeout_text, Keepalive, KeepaliveAction, KeepaliveEvent};

#[test]
fn tick_sends_ping_and_marks_it_pending() {
    let (s, a) = keepalive_step(Keepalive::new(), KeepaliveEvent::PingTick);
    assert!(s.ping_pending);
    assert_eq!(a, KeepaliveAction::SendPing);
}

#[test]
fn pong_clears_pending_ping() {
    let s = Keepalive { ping_pending: true };
    let (s, a) = keepalive_step(s, KeepaliveEvent::Received { pong: true });
    assert!(!s.ping_pending);
    assert_eq!(a, KeepaliveAction::Nothing);
    let (_, a) = keepalive_step(s, KeepaliveEvent::PingTimeout);
    assert_eq!(a, KeepaliveAction::Nothing);
}

#[test]
fn other_message_keeps_pending_ping() {
    let s = Keepalive { ping_pending: true };
    let (s, a) = keepalive_step(s, KeepaliveEvent::Received { pong: false });
    assert!(s.ping_pending);
    assert_eq!(a, KeepaliveAction::Nothing);
}

#[test]
fn unanswered_ping_closes_link() {
    let (s, _) = keepalive_step(Keepalive::new(), KeepaliveEvent::PingTick);
    let (_, a) = keepalive_step(s, KeepaliveEvent::PingTimeout);
    assert_eq!(a, KeepaliveAction::CloseForTimeout);
}

#[test]
fn ping_timeout_text_names_host() {
    assert_eq!(ping_timeout_text("10.0.0.9"), "Closing Link: 10.0.0.9 (Ping timeout)");
}
