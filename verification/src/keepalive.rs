//! Keepalive of a client connection: the server pings an idle client at a
//! fixed interval and closes the link when a ping goes unanswered for too
//! long. The connection loop reports what happened and carries out the
//! action returned.

use vstd::prelude::*;

verus! {

/// Milliseconds between the server's keepalive pings.
pub const PING_INTERVAL_MS: u64 = 120_000;

/// Milliseconds a client has to answer a ping.
pub const PING_TIMEOUT_MS: u64 = 60_000;

/// Keepalive state of one connection.
#[derive(Debug, Clone, Copy, PartialEq, Eq, Structural)]
pub struct Keepalive {
    /// A ping was sent and no PONG has come since.
    pub ping_pending: bool,
}

/// What happened on the connection.
#[derive(Debug, Clone, Copy, PartialEq, Eq, Structural)]
pub enum KeepaliveEvent {
    /// A message arrived from the client; `pong` tells whether it is a PONG.
    Received { pong: bool },
    /// The ping interval elapsed.
    PingTick,
    /// The ping timeout, started with the last ping, elapsed.
    PingTimeout,
}

/// What the connection loop must do next.
#[derive(Debug, Clone, Copy, PartialEq, Eq, Structural)]
pub enum KeepaliveAction {
    /// Nothing for the keepalive.
    Nothing,
    /// Send a PING and restart the ping timeout.
    SendPing,
    /// Send an ERROR (ping timeout) and close the link.
    CloseForTimeout,
}

/// The keepalive step: a PONG clears a pending ping, every other message
/// leaves it as it is; each tick sends a ping, which is then pending; the
/// timeout closes the link only while a ping is pending, and is ignored
/// otherwise.
pub open spec fn keepalive_spec(s: Keepalive, ev: KeepaliveEvent) -> (Keepalive, KeepaliveAction) {
    match ev {
        KeepaliveEvent::Received { pong } => (Keepalive { ping_pending: s.ping_pending && !pong }, KeepaliveAction::Nothing),
        KeepaliveEvent::PingTick => (Keepalive { ping_pending: true }, KeepaliveAction::SendPing),
        KeepaliveEvent::PingTimeout => if s.ping_pending {
            (s, KeepaliveAction::CloseForTimeout)
        } else {
            (s, KeepaliveAction::Nothing)
        },
    }
}

impl Keepalive {
    /// A fresh connection has no ping pending.
    pub fn new() -> (r: Self)
        ensures
            !r.ping_pending,
    {
        Keepalive { ping_pending: false }
    }
}

/// Take one keepalive step: the next state and the action to carry out.
pub fn keepalive_step(s: Keepalive, ev: KeepaliveEvent) -> (r: (Keepalive, KeepaliveAction))
    ensures
        r == keepalive_spec(s, ev),
{
    match ev {
        KeepaliveEvent::Received { pong } => (Keepalive { ping_pending: s.ping_pending && !pong }, KeepaliveAction::Nothing),
        KeepaliveEvent::PingTick => (Keepalive { ping_pending: true }, KeepaliveAction::SendPing),
        KeepaliveEvent::PingTimeout => if s.ping_pending {
            (s, KeepaliveAction::CloseForTimeout)
        } else {
            (s, KeepaliveAction::Nothing)
        },
    }
}

/// The text of the ERROR a client whose ping timed out is sent before the
/// link closes; `host` is the client's address.
pub fn ping_timeout_text(host: &str) -> (r: String)
    ensures
        r@ == "Closing Link: "@ + host@ + " (Ping timeout)"@,
{
    let mut s = "Closing Link: ".to_owned();
    s.append(host);
    s.append(" (Ping timeout)");
    s
}

/// A client that never answers is closed after one ping interval and one
/// ping timeout: a tick, then the timeout, closes the link whatever state
/// the connection was in.
pub proof fn lemma_unanswered_ping_closes(s: Keepalive)
    ensures
        keepalive_spec(keepalive_spec(s, KeepaliveEvent::PingTick).0, KeepaliveEvent::PingTimeout).1 == KeepaliveAction::CloseForTimeout,
{
}

/// A PONG after a ping keeps the link open through the next timeout.
pub proof fn lemma_pong_keeps_link(s: Keepalive)
    ensures
        keepalive_spec(keepalive_spec(s, KeepaliveEvent::Received { pong: true }).0, KeepaliveEvent::PingTimeout).1 == KeepaliveAction::Nothing,
{
}

} // verus!
