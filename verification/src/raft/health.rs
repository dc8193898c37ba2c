use vstd::prelude::*;

use super::types::NodeId;

verus! {

/// Status of a peer node as observed by the health monitor.
#[derive(Clone, Copy, Debug, PartialEq, Eq, Structural, Hash)]
pub enum PeerStatus {
    /// The peer is responding to heartbeats normally.
    Online,
    /// The peer has not responded within the suspect threshold but is not
    /// yet considered down.
    Suspected,
    /// The peer has not responded for longer than the failure threshold
    /// and is considered offline.
    Down,
}

/// The display name of a status.
pub open spec fn peer_status_name(s: PeerStatus) -> Seq<char> {
    match s {
        PeerStatus::Online => "Online"@,
        PeerStatus::Suspected => "Suspected"@,
        PeerStatus::Down => "Down"@,
    }
}

impl PeerStatus {
    /// The status's name, as it is displayed.
    pub fn to_string(&self) -> (s: String)
        ensures
            s@ == peer_status_name(*self),
    {
        match self {
            PeerStatus::Online => "Online".to_owned(),
            PeerStatus::Suspected => "Suspected".to_owned(),
            PeerStatus::Down => "Down".to_owned(),
        }
    }
}

/// Events emitted when a peer's health status changes.
#[derive(Clone, Copy, Debug, PartialEq, Eq, Structural)]
pub enum HealthEvent {
    /// A peer is now suspected of being offline.
    NodeSuspected(NodeId),
    /// A peer has been confirmed as down (no response beyond failure threshold).
    NodeDown(NodeId),
    /// A previously down or suspected peer is back online.
    NodeUp(NodeId),
}

/// Configuration for the health monitor's failure detection thresholds,
/// in milliseconds.
#[derive(Clone, Copy, Debug, PartialEq, Eq, Structural)]
pub struct HealthConfig {
    /// Time after last heartbeat response before a peer is suspected.
    pub suspect_threshold: u64,
    /// Time after last heartbeat response before a peer is marked down.
    pub failure_threshold: u64,
}

impl HealthConfig {
    /// Create a health config derived from the heartbeat interval: 3x the
    /// heartbeat for suspect and 6x for failure.
    pub fn from_heartbeat_interval(heartbeat: u64) -> (r: Self)
        requires
            heartbeat * 6 <= u64::MAX,
        ensures
            r.suspect_threshold == heartbeat * 3,
            r.failure_threshold == heartbeat * 6,
    {
        HealthConfig { suspect_threshold: heartbeat * 3, failure_threshold: heartbeat * 6 }
    }
}

/// The status a peer unseen for `elapsed` milliseconds has.
pub open spec fn status_for(config: HealthConfig, elapsed: u64) -> PeerStatus {
    if elapsed >= config.failure_threshold {
        PeerStatus::Down
    } else if elapsed >= config.suspect_threshold {
        PeerStatus::Suspected
    } else {
        PeerStatus::Online
    }
}

/// The event announcing a move to `status`.
pub open spec fn event_for(peer: NodeId, status: PeerStatus) -> HealthEvent {
    match status {
        PeerStatus::Down => HealthEvent::NodeDown(peer),
        PeerStatus::Suspected => HealthEvent::NodeSuspected(peer),
        PeerStatus::Online => HealthEvent::NodeUp(peer),
    }
}

/// Time elapsed between `since` and `now`, zero when `now` is earlier.
pub open spec fn elapsed(now: u64, since: u64) -> u64 {
    if now >= since { (now - since) as u64 } else { 0 }
}

/// A tracked peer: its identifier, status and when it was last seen (ms).
pub type PeerRecord = (NodeId, PeerStatus, u64);

/// The peers after an evaluation at `now`.
pub open spec fn evaluated(config: HealthConfig, peers: Seq<PeerRecord>, now: u64) -> Seq<PeerRecord> {
    Seq::new(peers.len(), |i: int| (peers[i].0, status_for(config, elapsed(now, peers[i].2)), peers[i].2))
}

/// The events an evaluation at `now` emits, in peer order.
pub open spec fn evaluation_events(config: HealthConfig, peers: Seq<PeerRecord>, now: u64) -> Seq<HealthEvent>
    decreases peers.len(),
{
    if peers.len() == 0 {
        Seq::empty()
    } else {
        let p = peers.last();
        let st = status_for(config, elapsed(now, p.2));
        evaluation_events(config, peers.drop_last(), now) + if st != p.1 {
            seq![event_for(p.0, st)]
        } else {
            Seq::<HealthEvent>::empty()
        }
    }
}

/// Where `peer` stands among the records, if it is tracked.
pub open spec fn record_position(peers: Seq<PeerRecord>, peer: NodeId) -> Option<int> {
    if exists|i: int| 0 <= i < peers.len() && peers[i].0 == peer {
        Some(choose|i: int| 0 <= i < peers.len() && peers[i].0 == peer)
    } else {
        None
    }
}

/// The records after `peer` answered at `now`: a tracked peer is online
/// and last seen then; an untracked one stays untracked.
pub open spec fn response_recorded(peers: Seq<PeerRecord>, peer: NodeId, now: u64) -> Seq<PeerRecord> {
    match record_position(peers, peer) {
        Some(i) => peers.update(i, (peer, PeerStatus::Online, now)),
        None => peers,
    }
}

/// The event an answer from `peer` emits: `NodeUp` when a tracked peer was
/// not online.
pub open spec fn response_event(peers: Seq<PeerRecord>, peer: NodeId) -> Option<HealthEvent> {
    match record_position(peers, peer) {
        Some(i) => if peers[i].1 != PeerStatus::Online { Some(HealthEvent::NodeUp(peer)) } else { None },
        None => None,
    }
}

/// No peer is tracked twice.
pub open spec fn unique_peers(s: Seq<PeerRecord>) -> bool {
    forall|i: int, j: int| 0 <= i < j < s.len() ==> s[i].0 != s[j].0
}

/// Monitors the health of peer nodes by tracking heartbeat responses.
///
/// The monitor keeps a status for each known peer and reports
/// [`HealthEvent`]s when status transitions occur. The caller tells it the
/// current time (in milliseconds on a monotonic clock) when a peer responds
/// and when statuses are re-evaluated.
#[derive(Debug)]
pub struct NodeHealthMonitor {
    config: HealthConfig,
    peers: Vec<PeerRecord>,
}

/// The identifiers of `s` in order of first appearance, each once.
pub open spec fn distinct(s: Seq<NodeId>) -> Seq<NodeId>
    decreases s.len(),
{
    if s.len() == 0 {
        Seq::empty()
    } else {
        let d = distinct(s.drop_last());
        if d.contains(s.last()) { d } else { d.push(s.last()) }
    }
}

/// The tracked identifiers.
pub open spec fn record_ids(s: Seq<PeerRecord>) -> Seq<NodeId> {
    Seq::new(s.len(), |i: int| s[i].0)
}

impl NodeHealthMonitor {
    pub closed spec fn wf(&self) -> bool {
        unique_peers(self.peers@)
    }

    /// The tracked peers, in the order they were added.
    pub closed spec fn records(&self) -> Seq<PeerRecord> {
        self.peers@
    }

    pub closed spec fn config_spec(&self) -> HealthConfig {
        self.config
    }

    /// The position of `peer` among the records.
    fn find(&self, peer: NodeId) -> (r: Option<usize>)
        ensures
            match r {
                Some(i) => i < self.peers@.len() && self.peers@[i as int].0 == peer,
                None => forall|i: int| 0 <= i < self.peers@.len() ==> self.peers@[i].0 != peer,
            },
    {
        let mut i: usize = 0;
        while i < self.peers.len()
            invariant
                0 <= i <= self.peers@.len(),
                forall|j: int| 0 <= j < i ==> self.peers@[j].0 != peer,
            decreases self.peers@.len() - i,
        {
            if self.peers[i].0.0 == peer.0 {
                return Some(i);
            }
            i = i + 1;
        }
        None
    }

    /// Create a new health monitor for the given peers (each once), all
    /// `Online` and last seen at `now`.
    pub fn new(peer_ids: &[NodeId], config: HealthConfig, now: u64) -> (r: Self)
        ensures
            r.wf(),
            r.config_spec() == config,
            r.records() == Seq::new(distinct(peer_ids@).len(), |i: int| (distinct(peer_ids@)[i], PeerStatus::Online, now)),
    {
        let mut m = NodeHealthMonitor { config, peers: Vec::new() };
        let mut i: usize = 0;
        while i < peer_ids.len()
            invariant
                0 <= i <= peer_ids@.len(),
                m.wf(),
                m.config == config,
                m.peers@ == Seq::new(distinct(peer_ids@.take(i as int)).len(), |k: int| (distinct(peer_ids@.take(i as int))[k], PeerStatus::Online, now)),
            decreases peer_ids@.len() - i,
        {
            let ghost before = m.peers@;
            let ghost d = distinct(peer_ids@.take(i as int));
            proof {
                assert(peer_ids@.take(i as int + 1).drop_last() =~= peer_ids@.take(i as int));
                assert(peer_ids@.take(i as int + 1).last() == peer_ids@[i as int]);
            }
            let p = peer_ids[i];
            match m.find(p) {
                Some(_) => {
                    proof {
                        let j = choose|j: int| 0 <= j < before.len() && before[j].0 == p;
                        assert(d[j] == p);
                        assert(d.contains(p));
                    }
                },
                None => {
                    proof {
                        assert(!d.contains(p)) by {
                            if d.contains(p) {
                                let j = choose|j: int| 0 <= j < d.len() && d[j] == p;
                                assert(before[j].0 == p);
                            }
                        }
                    }
                    m.peers.push((p, PeerStatus::Online, now));
                    proof {
                        assert(m.peers@ =~= Seq::new(d.push(p).len(), |k: int| (d.push(p)[k], PeerStatus::Online, now)));
                    }
                },
            }
            i = i + 1;
        }
        proof {
            assert(peer_ids@.take(peer_ids@.len() as int) =~= peer_ids@);
        }
        m
    }

    /// Record that a peer has responded at `now` (e.g. to an `AppendEntries`
    /// RPC): it is back online, last seen now. If it was suspected or down,
    /// a `NodeUp` event is returned. Unknown peers are ignored.
    pub fn record_response(&mut self, peer_id: NodeId, now: u64) -> (r: Option<HealthEvent>)
        requires
            old(self).wf(),
        ensures
            final(self).wf(),
            final(self).config_spec() == old(self).config_spec(),
            final(self).records() == response_recorded(old(self).records(), peer_id, now),
            r == response_event(old(self).records(), peer_id),
    {
        match self.find(peer_id) {
            Some(i) => {
                let old_status = self.peers[i].1;
                let ghost before = self.peers@;
                self.peers.set(i, (peer_id, PeerStatus::Online, now));
                proof {
                    let k = choose|k: int| 0 <= k < before.len() && before[k].0 == peer_id;
                    if k != i {
                        assert(before[k].0 != before[i as int].0);
                    }
                    assert forall|a: int, b: int| 0 <= a < b < self.peers@.len() implies self.peers@[a].0 != self.peers@[b].0 by {
                        assert(before[a].0 != before[b].0);
                    }
                }
                match old_status {
                    PeerStatus::Online => None,
                    _ => Some(HealthEvent::NodeUp(peer_id)),
                }
            },
            None => None,
        }
    }

    /// Evaluate all peers at `now`: each takes the status its silence calls
    /// for, and an event is returned, in peer order, for every change.
    pub fn evaluate(&mut self, now: u64) -> (r: Vec<HealthEvent>)
        requires
            old(self).wf(),
        ensures
            final(self).wf(),
            final(self).config_spec() == old(self).config_spec(),
            final(self).records() == evaluated(old(self).config_spec(), old(self).records(), now),
            r@ == evaluation_events(old(self).config_spec(), old(self).records(), now),
    {
        let ghost orig = self.peers@;
        let mut events: Vec<HealthEvent> = Vec::new();
        let mut i: usize = 0;
        while i < self.peers.len()
            invariant
                0 <= i <= self.peers@.len(),
                self.peers@.len() == orig.len(),
                self.config == old(self).config,
                orig == old(self).peers@,
                unique_peers(orig),
                forall|k: int| i <= k < orig.len() ==> #[trigger] self.peers@[k] == orig[k],
                forall|k: int| 0 <= k < i ==> #[trigger] self.peers@[k] == evaluated(self.config, orig, now)[k],
                events@ == evaluation_events(self.config, orig.take(i as int), now),
            decreases orig.len() - i,
        {
            let (peer_id, old_status, last_seen) = self.peers[i];
            let since = if now >= last_seen { now - last_seen } else { 0 };
            let new_status = if since >= self.config.failure_threshold {
                PeerStatus::Down
            } else if since >= self.config.suspect_threshold {
                PeerStatus::Suspected
            } else {
                PeerStatus::Online
            };
            proof {
                assert(orig.take(i as int + 1).drop_last() =~= orig.take(i as int));
                assert(orig.take(i as int + 1).last() == orig[i as int]);
            }
            if new_status != old_status {
                self.peers.set(i, (peer_id, new_status, last_seen));
                let ev = match new_status {
                    PeerStatus::Down => HealthEvent::NodeDown(peer_id),
                    PeerStatus::Suspected => HealthEvent::NodeSuspected(peer_id),
                    PeerStatus::Online => HealthEvent::NodeUp(peer_id),
                };
                events.push(ev);
            }
            i = i + 1;
        }
        proof {
            assert(orig.take(orig.len() as int) =~= orig);
            assert(self.peers@ =~= evaluated(self.config, orig, now));
            assert forall|a: int, b: int| 0 <= a < b < self.peers@.len() implies self.peers@[a].0 != self.peers@[b].0 by {
                assert(orig[a].0 != orig[b].0);
            }
        }
        events
    }

    /// The current status of every tracked peer.
    pub fn peer_statuses(&self) -> (r: Vec<(NodeId, PeerStatus)>)
        ensures
            r@ == Seq::new(self.records().len(), |i: int| (self.records()[i].0, self.records()[i].1)),
    {
        let mut out: Vec<(NodeId, PeerStatus)> = Vec::new();
        let mut i: usize = 0;
        while i < self.peers.len()
            invariant
                0 <= i <= self.peers@.len(),
                out@ == Seq::new(i as nat, |k: int| (self.peers@[k].0, self.peers@[k].1)),
            decreases self.peers@.len() - i,
        {
            out.push((self.peers[i].0, self.peers[i].1));
            proof {
                assert(out@ =~= Seq::new((i + 1) as nat, |k: int| (self.peers@[k].0, self.peers@[k].1)));
            }
            i = i + 1;
        }
        out
    }

    /// The status of a specific peer, if it is tracked.
    pub fn peer_status(&self, peer_id: NodeId) -> (r: Option<PeerStatus>)
        requires
            self.wf(),
        ensures
            match r {
                Some(st) => exists|i: int| 0 <= i < self.records().len() && self.records()[i].0 == peer_id && self.records()[i].1 == st,
                None => forall|i: int| 0 <= i < self.records().len() ==> self.records()[i].0 != peer_id,
            },
    {
        match self.find(peer_id) {
            Some(i) => {
                let st = self.peers[i].1;
                assert(self.records()[i as int].0 == peer_id && self.records()[i as int].1 == st);
                Some(st)
            },
            None => None,
        }
    }

    /// Start tracking a peer, `Online` and last seen at `now`; a peer
    /// already tracked keeps its state.
    pub fn add_peer(&mut self, peer_id: NodeId, now: u64)
        requires
            old(self).wf(),
        ensures
            final(self).wf(),
            final(self).config_spec() == old(self).config_spec(),
            final(self).records() == (if exists|i: int| 0 <= i < old(self).records().len() && old(self).records()[i].0 == peer_id {
                old(self).records()
            } else {
                old(self).records().push((peer_id, PeerStatus::Online, now))
            }),
    {
        match self.find(peer_id) {
            Some(_) => {},
            None => {
                let ghost before = self.peers@;
                self.peers.push((peer_id, PeerStatus::Online, now));
                proof {
                    assert forall|a: int, b: int| 0 <= a < b < self.peers@.len() implies self.peers@[a].0 != self.peers@[b].0 by {
                        if b < before.len() {
                            assert(before[a].0 != before[b].0);
                        }
                    }
                }
            },
        }
    }

    /// Stop tracking a peer.
    pub fn remove_peer(&mut self, peer_id: NodeId)
        requires
            old(self).wf(),
        ensures
            final(self).wf(),
            final(self).config_spec() == old(self).config_spec(),
            final(self).records() == old(self).records().filter(|p: PeerRecord| p.0 != peer_id),
    {
        let ghost before = self.peers@;
        let mut kept: Vec<PeerRecord> = Vec::new();
        let mut i: usize = 0;
        while i < self.peers.len()
            invariant
                0 <= i <= self.peers@.len(),
                self.peers@ == before,
                unique_peers(before),
                kept@ == before.take(i as int).filter(|p: PeerRecord| p.0 != peer_id),
                forall|a: int, b: int| 0 <= a < b < kept@.len() ==> kept@[a].0 != kept@[b].0,
                forall|a: int| 0 <= a < kept@.len() ==> before.take(i as int).contains(#[trigger] kept@[a]),
            decreases self.peers@.len() - i,
        {
            let rec = self.peers[i];
            proof {
                let f = |p: PeerRecord| p.0 != peer_id;
                assert(before.take(i as int + 1).drop_last() =~= before.take(i as int));
                assert(before.take(i as int + 1).last() == before[i as int]);
                reveal(Seq::filter);
                assert forall|a: int| 0 <= a < kept@.len() implies before.take(i as int + 1).contains(#[trigger] kept@[a]) by {
                    let j = choose|j: int| 0 <= j < i && before.take(i as int)[j] == kept@[a];
                    assert(before.take(i as int + 1)[j] == kept@[a]);
                }
                assert forall|a: int| 0 <= a < kept@.len() implies kept@[a].0 != rec.0 by {
                    let j = choose|j: int| 0 <= j < i && before.take(i as int)[j] == kept@[a];
                    assert(before[j].0 != before[i as int].0);
                }
            }
            if rec.0.0 != peer_id.0 {
                kept.push(rec);
                proof {
                    assert(kept@.last() == before.take(i as int + 1)[i as int]);
                }
            }
            i = i + 1;
        }
        proof {
            assert(before.take(before.len() as int) =~= before);
        }
        self.peers = kept;
    }

    /// The peers currently marked `Down`, in peer order.
    pub fn down_peers(&self) -> (r: Vec<NodeId>)
        ensures
            r@ == record_ids(self.records().filter(|p: PeerRecord| p.1 == PeerStatus::Down)),
    {
        let mut out: Vec<NodeId> = Vec::new();
        let ghost recs = self.peers@;
        let mut i: usize = 0;
        while i < self.peers.len()
            invariant
                0 <= i <= self.peers@.len(),
                recs == self.peers@,
                out@ == record_ids(recs.take(i as int).filter(|p: PeerRecord| p.1 == PeerStatus::Down)),
            decreases self.peers@.len() - i,
        {
            let rec = self.peers[i];
            proof {
                assert(recs.take(i as int + 1).drop_last() =~= recs.take(i as int));
                assert(recs.take(i as int + 1).last() == recs[i as int]);
                reveal(Seq::filter);
            }
            if rec.1 == PeerStatus::Down {
                out.push(rec.0);
                proof {
                    let fl = recs.take(i as int).filter(|p: PeerRecord| p.1 == PeerStatus::Down);
                    assert(record_ids(fl.push(rec)) =~= record_ids(fl).push(rec.0));
                }
            }
            i = i + 1;
        }
        proof {
            assert(recs.take(recs.len() as int) =~= recs);
        }
        out
    }
}

/// Evaluating twice at the same time changes nothing the second time and
/// reports no new event: a status change is reported once.
pub proof fn lemma_evaluate_idempotent(config: HealthConfig, peers: Seq<PeerRecord>, now: u64)
    ensures
        evaluated(config, evaluated(config, peers, now), now) == evaluated(config, peers, now),
        evaluation_events(config, evaluated(config, peers, now), now) == Seq::<HealthEvent>::empty(),
{
    assert(evaluated(config, evaluated(config, peers, now), now) =~= evaluated(config, peers, now));
    lemma_no_events_when_settled(config, evaluated(config, peers, now), now);
}

proof fn lemma_no_events_when_settled(config: HealthConfig, peers: Seq<PeerRecord>, now: u64)
    requires
        forall|i: int| 0 <= i < peers.len() ==> #[trigger] peers[i].1 == status_for(config, elapsed(now, peers[i].2)),
    ensures
        evaluation_events(config, peers, now) == Seq::<HealthEvent>::empty(),
    decreases peers.len(),
{
    if peers.len() > 0 {
        let d = peers.drop_last();
        assert forall|i: int| 0 <= i < d.len() implies #[trigger] d[i].1 == status_for(config, elapsed(now, d[i].2)) by {
            assert(d[i] == peers[i]);
        }
        lemma_no_events_when_settled(config, d, now);
        assert(peers.last().1 == status_for(config, elapsed(now, peers.last().2)));
    }
}

/// A peer that has just responded is online and stays so when evaluated at
/// the same moment, as long as the suspect threshold is above zero.
pub proof fn lemma_fresh_response_keeps_online(config: HealthConfig, now: u64)
    requires
        config.suspect_threshold > 0,
        config.failure_threshold > 0,
    ensures
        status_for(config, elapsed(now, now)) == PeerStatus::Online,
{
}

/// A tracked peer that answers is recorded online and last seen at that
/// moment, every other record stays as it was, and the answer reports it up
/// exactly when it was not online before.
pub proof fn lemma_answer_marks_peer_online(peers: Seq<PeerRecord>, peer: NodeId, now: u64, i: int)
    requires
        unique_peers(peers),
        0 <= i < peers.len(),
        peers[i].0 == peer,
    ensures
        response_recorded(peers, peer, now).len() == peers.len(),
        response_recorded(peers, peer, now)[i] == (peer, PeerStatus::Online, now),
        forall|j: int| 0 <= j < peers.len() && j != i ==> #[trigger] response_recorded(peers, peer, now)[j] == peers[j],
        response_event(peers, peer) == (if peers[i].1 != PeerStatus::Online { Some(HealthEvent::NodeUp(peer)) } else { None }),
{
    let k = choose|k: int| 0 <= k < peers.len() && peers[k].0 == peer;
    if k != i {
        assert(peers[k].0 != peers[i].0);
    }
}

} // verus!
