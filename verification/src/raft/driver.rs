use vstd::prelude::*;

use super::health::{distinct, HealthConfig, HealthEvent, NodeHealthMonitor, PeerStatus};
use super::node::{Outbound, RaftNode};
use super::rpc::{AppendEntries, AppendEntriesResponse, RaftMessage, RequestVote, RequestVoteResponse};
use super::snapshot::InstallSnapshotResponse;
use super::storage::StorageOp;
use super::log::LogModel;
use super::membership::{MembershipChange, MembershipError};
use super::types::{LogEntry, LogIndex, NodeId, RaftState, Term};
use super::health::{evaluated, evaluation_events, response_event, response_recorded};

verus! {

/// How this node's leadership changed with an event.
#[derive(Clone, Copy, Debug, PartialEq, Eq, Structural)]
pub enum Leadership {
    Unchanged,
    /// It became leader: the heartbeat timer restarts and peers are watched.
    Gained,
    /// It stopped leading: peer statuses are no longer watched.
    Lost,
}

/// What the loop around the node must do after an event: save the writes,
/// then send the messages; restart the election timer if asked; hand on the
/// health events; and, for a received snapshot, restore the state machine
/// from it and save it before telling the node it is installed.
#[derive(Debug)]
pub struct Effects<T> {
    pub writes: Vec<StorageOp>,
    pub messages: Vec<Outbound<T>>,
    pub reset_election_timer: bool,
    pub health_events: Vec<HealthEvent>,
    pub install: Option<(LogIndex, Term, Vec<u8>)>,
    pub leadership: Leadership,
}

/// The leadership change between two states of the node.
pub open spec fn leadership_change(was: RaftState, is: RaftState) -> Leadership {
    if was != RaftState::Leader && is == RaftState::Leader {
        Leadership::Gained
    } else if was == RaftState::Leader && is != RaftState::Leader {
        Leadership::Lost
    } else {
        Leadership::Unchanged
    }
}

/// Whether `msg` answers a leader's replication, so that the leader records
/// its sender as alive: an `AppendEntries` answer that is taken, or an
/// `InstallSnapshot` answer.
pub open spec fn answers_replication<T>(msg: RaftMessage<T>) -> bool {
    match msg {
        RaftMessage::AppendEntriesResponse(resp) => resp.match_index.0 < u64::MAX,
        RaftMessage::InstallSnapshotResponse(_) => true,
        _ => false,
    }
}

/// The health events an optional event makes.
pub open spec fn events_of(e: Option<HealthEvent>) -> Seq<HealthEvent> {
    match e {
        Some(e) => seq![e],
        None => Seq::empty(),
    }
}

/// A monitor that has just started watching each of `peers`, all online
/// and last seen at `now`.
pub open spec fn watching_all(m: Option<NodeHealthMonitor>, peers: Seq<NodeId>, now: u64) -> bool {
    match m {
        Some(m) => m.records() == Seq::new(
            distinct(peers).len(),
            |i: int| (distinct(peers)[i], PeerStatus::Online, now),
        ),
        None => false,
    }
}


/// An `AppendEntries` request that the node can take: its entries carry
/// indices from 1 and fit after the log.
pub open spec fn append_request_fits<T: Clone>(node: RaftNode<T>, req: AppendEntries<T>) -> bool {
    &&& node.log@.last_index() + req.entries@.len() < u64::MAX
    &&& forall|k: int| 0 <= k < req.entries@.len() ==> #[trigger] req.entries@[k].index.0 >= 1
}

/// A message the node takes; the others (malformed ones, or ones whose
/// indices are at their largest value) are dropped.
pub open spec fn message_taken<T: Clone>(node: RaftNode<T>, msg: RaftMessage<T>) -> bool {
    match msg {
        RaftMessage::AppendEntries(req) => append_request_fits(node, req),
        RaftMessage::AppendEntriesResponse(resp) => resp.match_index.0 < u64::MAX,
        _ => true,
    }
}

/// What a message from `from` does, given the node before (`old`) and after
/// (`new`): how the node changes (as its handler for the message says), the
/// answer sent back, whether the election timer restarts, and the writes to
/// save.
pub open spec fn inbound_effects<T: Clone>(old: RaftNode<T>, new: RaftNode<T>, from: NodeId, msg: RaftMessage<T>, r: Effects<T>) -> bool {
    match msg {
        RaftMessage::RequestVote(req) => {
            &&& RaftNode::vote_request_step(&old, &new, req, RequestVoteResponse {
                term: new.current_term,
                vote_granted: RaftNode::grants(&old, req),
            })
            &&& r.messages@ == seq![(from, RaftMessage::<T>::RequestVoteResponse(RequestVoteResponse {
                term: new.current_term,
                vote_granted: RaftNode::grants(&old, req),
            }))]
            &&& r.reset_election_timer == RaftNode::grants(&old, req)
            &&& r.writes@ == RaftNode::term_update_writes(&old, req.term) + (if RaftNode::grants(&old, req) {
                seq![StorageOp::SaveVotedFor(Some(req.candidate_id))]
            } else {
                Seq::<StorageOp>::empty()
            })
            &&& r.install is None
            &&& r.health_events@.len() == 0
        },
        RaftMessage::RequestVoteResponse(resp) => {
            &&& RaftNode::vote_response_step(&old, &new, from, resp, r.messages@)
            &&& r.writes@ == RaftNode::term_update_writes(&old, resp.term)
            &&& !r.reset_election_timer
            &&& r.install is None
            &&& r.health_events@.len() == 0
            &&& (old.state != RaftState::Leader && new.state == RaftState::Leader) ==> new.all_peer_messages_ok(new.peers_spec(), r.messages@)
            &&& !(old.state != RaftState::Leader && new.state == RaftState::Leader) ==> r.messages@.len() == 0
        },
        RaftMessage::AppendEntries(req) => {
            &&& r.messages@.len() == 1
            &&& r.messages@[0].0 == from
            &&& r.messages@[0].1 matches RaftMessage::AppendEntriesResponse(resp)
                && resp.term == new.current_term
                && resp.success == (req.term.0 >= old.current_term.0 && old.log@.prev_matches(req.prev_log_index.0 as int, req.prev_log_term))
                && RaftNode::append_step(&old, &new, req, resp)
            &&& r.reset_election_timer == (req.term.0 >= old.current_term.0)
            &&& r.writes@ == RaftNode::term_update_writes(&old, req.term)
            &&& r.install is None
            &&& r.health_events@.len() == 0
        },
        RaftMessage::AppendEntriesResponse(resp) => {
            &&& RaftNode::append_response_step(&old, &new, from, resp)
            &&& r.writes@ == RaftNode::term_update_writes(&old, resp.term)
            &&& r.messages@.len() == 0
            &&& !r.reset_election_timer
            &&& r.install is None
            &&& forall|i: int| 0 <= i < r.health_events@.len() ==> r.health_events@[i] == HealthEvent::NodeUp(from)
            &&& r.health_events@.len() <= 1
        },
        RaftMessage::InstallSnapshot(req) => {
            &&& RaftNode::install_step(&old, &new, req, InstallSnapshotResponse { term: new.current_term }, match r.install {
                Some((_, _, d)) => Some(d@),
                None => None,
            })
            &&& r.messages@ == seq![(from, RaftMessage::<T>::InstallSnapshotResponse(InstallSnapshotResponse { term: new.current_term }))]
            &&& r.reset_election_timer == (req.term.0 >= old.current_term.0)
            &&& r.writes@ == RaftNode::term_update_writes(&old, req.term)
            &&& r.health_events@.len() == 0
            &&& match r.install {
                Some((index, term, data)) => {
                    &&& req.term.0 >= old.current_term.0 && req.done && index.0 < u64::MAX
                    &&& index == req.last_included_index && term == req.last_included_term
                    &&& RaftNode::<T>::buffered_after(old.pending_snapshot, req) == Some(data@)
                },
                None => !(req.term.0 >= old.current_term.0 && req.done && req.last_included_index.0 < u64::MAX
                    && RaftNode::<T>::buffered_after(old.pending_snapshot, req) is Some),
            }
        },
        RaftMessage::InstallSnapshotResponse(resp) => {
            &&& RaftNode::snapshot_response_step(&old, &new, from, resp)
            &&& r.writes@ == RaftNode::term_update_writes(&old, resp.term)
            &&& r.messages@.len() == 0
            &&& !r.reset_election_timer
            &&& r.install is None
            &&& forall|i: int| 0 <= i < r.health_events@.len() ==> r.health_events@[i] == HealthEvent::NodeUp(from)
            &&& r.health_events@.len() <= 1
        },
    }
}

/// The decisions of the event loop that drives a Raft node: which handler
/// an event goes to, what is answered and to whom, when the election timer
/// restarts, and when peers' health is watched (exactly while this node
/// leads).
pub struct DriverCore<T> {
    node: RaftNode<T>,
    health: Option<NodeHealthMonitor>,
    health_config: HealthConfig,
}

impl<T: Clone> DriverCore<T> {
    /// The node is well formed and its peers are watched exactly while it
    /// leads.
    pub closed spec fn wf(&self) -> bool {
        &&& self.node.wf()
        &&& (self.health is Some <==> self.node.state == RaftState::Leader)
        &&& match self.health {
            Some(m) => m.wf() && m.config_spec() == self.health_config,
            None => true,
        }
    }

    /// The node driven.
    pub closed spec fn node_spec(&self) -> RaftNode<T> {
        self.node
    }

    /// The health monitor, while this node leads.
    pub closed spec fn health_spec(&self) -> Option<NodeHealthMonitor> {
        self.health
    }

    /// Drive `node`; peer health is judged by `health_config`.
    pub fn new(node: RaftNode<T>, health_config: HealthConfig, now: u64) -> (r: Self)
        requires
            node.wf(),
        ensures
            r.wf(),
            r.node_spec() == node,
            r.health_spec() is Some <==> node.state == RaftState::Leader,
    {
        let health = if node.state() == RaftState::Leader {
            let peers = node.peers();
            Some(NodeHealthMonitor::new(peers.as_slice(), health_config, now))
        } else {
            None
        };
        DriverCore { node, health, health_config }
    }

    /// The node driven.
    pub fn node(&self) -> (r: &RaftNode<T>)
        ensures
            *r == self.node_spec(),
    {
        &self.node
    }

    /// The health monitor, while this node leads.
    pub fn health(&self) -> (r: Option<&NodeHealthMonitor>)
        ensures
            r == (match self.health_spec() {
                Some(m) => Some(&m),
                None => None::<&NodeHealthMonitor>,
            }),
    {
        match &self.health {
            Some(m) => Some(m),
            None => None,
        }
    }

    /// Peers' health is watched exactly while the node leads, and the
    /// monitor in use judges by the configuration the driver was made with.
    pub proof fn lemma_watching_while_leading(&self)
        requires
            self.wf(),
        ensures
            self.health_spec() is Some <==> self.node_spec().state == RaftState::Leader,
            self.node_spec().wf(),
            self.health_spec() matches Some(m) ==> m.wf(),
    {
    }

    /// Effects of an event that changes nothing.
    fn nothing() -> (r: Effects<T>)
        ensures
            r.writes@.len() == 0,
            r.messages@.len() == 0,
            !r.reset_election_timer,
            r.health_events@.len() == 0,
            r.install is None,
            r.leadership == Leadership::Unchanged,
    {
        Effects {
            writes: Vec::new(),
            messages: Vec::new(),
            reset_election_timer: false,
            health_events: Vec::new(),
            install: None,
            leadership: Leadership::Unchanged,
        }
    }

    /// The election timer fired. A follower or candidate starts an election
    /// and the timer restarts; a leader, or a node whose term can not go up
    /// any more, does nothing.
    pub fn handle_election_timeout(&mut self, now: u64) -> (r: Effects<T>)
        requires
            old(self).wf(),
        ensures
            final(self).wf(),
            ({
                let old_node = old(self).node_spec();
                let new_node = final(self).node_spec();
                if old_node.state == RaftState::Leader || old_node.current_term.0 == u64::MAX {
                    &&& new_node == old_node
                    &&& final(self).health_spec() == old(self).health_spec()
                    &&& r.writes@.len() == 0 && r.messages@.len() == 0 && !r.reset_election_timer
                    &&& r.leadership == Leadership::Unchanged
                } else {
                    &&& new_node.current_term.0 == old_node.current_term.0 + 1
                    &&& new_node.voted_for == Some(old_node.config.node_id)
                    &&& new_node.log == old_node.log
                    &&& new_node.config == old_node.config
                    &&& new_node.volatile == old_node.volatile
                    &&& new_node.last_snapshot == old_node.last_snapshot
                    &&& new_node.pending_snapshot == old_node.pending_snapshot
                    &&& new_node.membership == old_node.membership
                    &&& new_node.election_tracker.votes() == set![old_node.config.node_id]
                    &&& new_node.state == RaftState::Leader ==> new_node.current_leader == Some(old_node.config.node_id)
                        && (new_node.leader_state matches Some(ls) && new_node.fresh_leader_state(ls))
                        && new_node.all_peer_messages_ok(new_node.peers_spec(), r.messages@)
                    &&& new_node.state == RaftState::Candidate ==> new_node.leader_state is None && new_node.current_leader is None
                    &&& r.writes@ == seq![StorageOp::SaveTerm(new_node.current_term), StorageOp::SaveVotedFor(Some(old_node.config.node_id))]
                    &&& r.reset_election_timer
                    &&& r.leadership == leadership_change(old_node.state, new_node.state)
                    &&& (new_node.state == RaftState::Leader) == (old_node.quorum_spec() <= 1)
                    &&& new_node.state == RaftState::Candidate ==> r.messages@.len() == old_node.peers_spec().len()
                        && forall|i: int| 0 <= i < r.messages@.len() ==> #[trigger] r.messages@[i] == (old_node.peers_spec()[i], RaftMessage::<T>::RequestVote(RequestVote {
                            term: new_node.current_term,
                            candidate_id: old_node.config.node_id,
                            last_log_index: LogIndex(old_node.log@.last_index() as u64),
                            last_log_term: old_node.log@.last_term(),
                        }))
                }
            }),
            r.health_events@.len() == 0,
            r.install is None,
            r.leadership == Leadership::Gained ==> watching_all(final(self).health_spec(), final(self).node_spec().peers_spec(), now),
    {
        if self.node.state() == RaftState::Leader || self.node.current_term().0 == u64::MAX {
            return Self::nothing();
        }
        let was = self.node.state();
        let (writes, messages) = self.node.start_election();
        let leadership = self.track_leadership(was, now);
        Effects { writes, messages, reset_election_timer: true, health_events: Vec::new(), install: None, leadership }
    }

    /// The heartbeat timer fired: a leader sends heartbeats to every peer
    /// and judges its peers' health at `now`; otherwise nothing happens.
    pub fn handle_heartbeat_tick(&mut self, now: u64) -> (r: Effects<T>)
        requires
            old(self).wf(),
        ensures
            final(self).wf(),
            final(self).node_spec() == old(self).node_spec(),
            old(self).node_spec().state != RaftState::Leader ==> r.messages@.len() == 0 && r.health_events@.len() == 0
                && final(self).health_spec() == old(self).health_spec(),
            old(self).health_spec() is Some ==> ({
                let m = old(self).health_spec()->0;
                &&& old(self).node_spec().all_peer_messages_ok(old(self).node_spec().peers_spec(), r.messages@)
                &&& r.health_events@ == evaluation_events(m.config_spec(), m.records(), now)
                &&& final(self).health_spec() is Some
                &&& final(self).health_spec()->0.records() == evaluated(m.config_spec(), m.records(), now)
            }),
            r.writes@.len() == 0,
            !r.reset_election_timer,
            r.install is None,
            r.leadership == Leadership::Unchanged,
    {
        if self.node.state() != RaftState::Leader {
            return Self::nothing();
        }
        let messages = self.node.send_heartbeats();
        let mut health_events = Vec::new();
        let mut monitor = None;
        std::mem::swap(&mut monitor, &mut self.health);
        match monitor {
            Some(mut m) => {
                health_events = m.evaluate(now);
                self.health = Some(m);
            },
            None => {},
        }
        Effects { writes: Vec::new(), messages, reset_election_timer: false, health_events, install: None, leadership: Leadership::Unchanged }
    }


    /// Record that `from` answered, if peers are watched.
    fn peer_answered(&mut self, from: NodeId, now: u64) -> (r: Vec<HealthEvent>)
        requires
            match old(self).health {
                Some(m) => m.wf() && m.config_spec() == old(self).health_config,
                None => true,
            },
        ensures
            final(self).node == old(self).node,
            final(self).health_config == old(self).health_config,
            final(self).health is Some == old(self).health is Some,
            match final(self).health {
                Some(m) => m.wf() && m.config_spec() == final(self).health_config,
                None => true,
            },
            r@.len() <= 1,
            forall|i: int| 0 <= i < r@.len() ==> r@[i] == HealthEvent::NodeUp(from),
            match old(self).health {
                Some(m) => {
                    &&& final(self).health matches Some(m2) && m2.records() == response_recorded(m.records(), from, now)
                    &&& r@ == (match response_event(m.records(), from) {
                        Some(e) => seq![e],
                        None => Seq::<HealthEvent>::empty(),
                    })
                },
                None => r@.len() == 0,
            },
    {
        let mut monitor = None;
        std::mem::swap(&mut monitor, &mut self.health);
        match monitor {
            Some(mut m) => {
                let ghost before = m.records();
                let ev = m.record_response(from, now);
                proof {
                    assert(m.records() == response_recorded(before, from, now));
                    assert(ev == response_event(before, from));
                }
                self.health = Some(m);
                match ev {
                    Some(e) => {
                        let mut v = Vec::new();
                        v.push(e);
                        assert(v@ =~= seq![e]);
                        v
                    },
                    None => Vec::new(),
                }
            },
            None => Vec::new(),
        }
    }

    /// A message from another node arrived at `now`. It goes to the node's
    /// handler; requests are answered to their sender; the election timer
    /// restarts on a granted vote or on a request from a current leader; an
    /// answer to a leader's replication proves its sender alive.
    pub fn handle_inbound_message(&mut self, from: NodeId, msg: RaftMessage<T>, now: u64) -> (r: Effects<T>)
        requires
            old(self).wf(),
        ensures
            final(self).wf(),
            r.leadership == leadership_change(old(self).node_spec().state, final(self).node_spec().state),
            final(self).node_spec().current_term.0 >= old(self).node_spec().current_term.0,
            message_taken(old(self).node_spec(), msg) ==> inbound_effects(old(self).node_spec(), final(self).node_spec(), from, msg, r),
            !message_taken(old(self).node_spec(), msg) ==> final(self).node_spec() == old(self).node_spec()
                && r.writes@.len() == 0 && r.messages@.len() == 0 && !r.reset_election_timer && r.install is None,
            r.health_events@ == (match old(self).health_spec() {
                Some(m) => if answers_replication(msg) {
                    events_of(response_event(m.records(), from))
                } else {
                    Seq::<HealthEvent>::empty()
                },
                None => Seq::<HealthEvent>::empty(),
            }),
            ((msg matches RaftMessage::AppendEntriesResponse(resp) && resp.match_index.0 < u64::MAX) || msg is InstallSnapshotResponse)
                ==> match old(self).health_spec() {
                    Some(m) => r.health_events@ == events_of(response_event(m.records(), from))
                        && (r.leadership == Leadership::Unchanged ==> (final(self).health_spec() matches Some(m2)
                            && m2.records() == response_recorded(m.records(), from, now))),
                    None => r.health_events@.len() == 0,
                },
            r.leadership == Leadership::Gained ==> watching_all(final(self).health_spec(), final(self).node_spec().peers_spec(), now),
            r.leadership == Leadership::Unchanged ==> match old(self).health_spec() {
                Some(m) => if answers_replication(msg) {
                    final(self).health_spec() matches Some(m2) && m2.records() == response_recorded(m.records(), from, now)
                } else {
                    final(self).health_spec() == old(self).health_spec()
                },
                None => final(self).health_spec() is None,
            },
    {
        let was = self.node.state();
        let old_term = self.node.current_term();
        let ghost old_node = self.node;
        let mut effects = Self::nothing();
        match msg {
            RaftMessage::RequestVote(req) => {
                let (resp, writes) = self.node.handle_request_vote(req);
                let mut messages = Vec::new();
                messages.push((from, RaftMessage::RequestVoteResponse(resp)));
                effects.writes = writes;
                effects.messages = messages;
                effects.reset_election_timer = resp.vote_granted;
                assert(resp == (RequestVoteResponse { term: self.node.current_term, vote_granted: RaftNode::grants(&old_node, req) }));
            },
            RaftMessage::RequestVoteResponse(resp) => {
                let (writes, messages) = self.node.handle_request_vote_response(from, resp);
                effects.writes = writes;
                effects.messages = messages;
            },
            RaftMessage::AppendEntries(req) => {
                let total: u128 = (self.node.log().last_index().0 as u128) + (req.entries.len() as u128);
                let mut fits = total < (u64::MAX as u128);
                let mut k: usize = 0;
                while k < req.entries.len()
                    invariant
                        k <= req.entries@.len(),
                        fits ==> forall|j: int| 0 <= j < k ==> #[trigger] req.entries@[j].index.0 >= 1,
                        !fits ==> !append_request_fits(old_node, req),
                        fits ==> old_node.log@.last_index() + req.entries@.len() < u64::MAX,
                        self.node == old_node,
                    decreases req.entries@.len() - k,
                {
                    if req.entries[k].index.0 == 0 {
                        fits = false;
                    }
                    k = k + 1;
                }
                if fits {
                    let req_term = req.term;
                    let (resp, writes) = self.node.handle_append_entries(req);
                    let mut messages = Vec::new();
                    messages.push((from, RaftMessage::AppendEntriesResponse(resp)));
                    effects.writes = writes;
                    effects.messages = messages;
                    effects.reset_election_timer = req_term.0 >= old_term.0;
                }
            },
            RaftMessage::AppendEntriesResponse(resp) => {
                if resp.match_index.0 < u64::MAX {
                    effects.writes = self.node.handle_append_entries_response(from, resp);
                    effects.health_events = self.peer_answered(from, now);
                }
            },
            RaftMessage::InstallSnapshot(req) => {
                let req_term = req.term;
                let index = req.last_included_index;
                let term = req.last_included_term;
                let (resp, writes, data) = self.node.handle_install_snapshot(req);
                let mut messages = Vec::new();
                messages.push((from, RaftMessage::InstallSnapshotResponse(resp)));
                effects.writes = writes;
                effects.messages = messages;
                effects.reset_election_timer = req_term.0 >= old_term.0;
                effects.install = match data {
                    Some(d) => Some((index, term, d)),
                    None => None,
                };
            },
            RaftMessage::InstallSnapshotResponse(resp) => {
                effects.writes = self.node.handle_install_snapshot_response(from, resp);
                effects.health_events = self.peer_answered(from, now);
            },
        }
        effects.leadership = self.track_leadership(was, now);
        effects
    }


    /// A client proposed `command`: a leader appends it to its log, sends
    /// it to its peers and commits what a majority holds (at once, when it
    /// is alone); anyone else drops it, as does a leader whose log is at
    /// its largest index.
    pub fn handle_proposal(&mut self, command: T) -> (r: (Option<LogIndex>, Effects<T>))
        requires
            old(self).wf(),
        ensures
            final(self).wf(),
            ({
                let old_node = old(self).node_spec();
                let new_node = final(self).node_spec();
                if old_node.state == RaftState::Leader && old_node.log@.last_index() + 1 < u64::MAX {
                    let idx = LogIndex((old_node.log@.last_index() + 1) as u64);
                    let appended = RaftNode { log: new_node.log, ..old_node };
                    &&& r.0 == Some(idx)
                    &&& appended.log@ == (LogModel {
                        entries: old_node.log@.entries.push(LogEntry { term: old_node.current_term, index: idx, command }),
                        ..old_node.log@
                    })
                    &&& appended.all_peer_messages_ok(old_node.peers_spec(), r.1.messages@)
                    &&& RaftNode::membership_settled(&appended.with_advanced_commit(), &new_node)
                } else {
                    &&& r.0 is None
                    &&& new_node == old_node
                    &&& r.1.messages@.len() == 0
                }
            }),
            final(self).health_spec() == (if final(self).node_spec().state == RaftState::Leader {
                old(self).health_spec()
            } else {
                None
            }),
            r.1.leadership == leadership_change(old(self).node_spec().state, final(self).node_spec().state),
            r.1.writes@.len() == 0,
            !r.1.reset_election_timer,
            r.1.health_events@.len() == 0,
            r.1.install is None,
    {
        if self.node.state() != RaftState::Leader || self.node.log().last_index().0 >= u64::MAX - 1 {
            return (None, Self::nothing());
        }
        let (index, messages) = self.node.client_request(command);
        self.node.advance_commit_index();
        let mut effects = Self::nothing();
        effects.messages = messages;
        if self.node.state() != RaftState::Leader {
            self.health = None;
            effects.leadership = Leadership::Lost;
        }
        (index, effects)
    }

    /// A membership change was proposed: the node decides whether to take
    /// it (see `RaftNode::propose_membership_change`); when it does, the
    /// entry goes to the peers and what a majority holds is committed at
    /// once, which lets the change take effect (a leader that removed
    /// itself then steps down). A node whose log is at its largest index,
    /// or whose membership generation can not go up, refuses as a
    /// non-leader does.
    pub fn handle_membership_proposal(&mut self, change: MembershipChange, command: T) -> (r: (
        Result<LogIndex, MembershipError>,
        Effects<T>,
    ))
        requires
            old(self).wf(),
        ensures
            final(self).wf(),
            ({
                let old_node = old(self).node_spec();
                let new_node = final(self).node_spec();
                if old_node.log@.last_index() + 1 < u64::MAX && old_node.membership.generation_spec() < u64::MAX {
                    &&& r.0 == old_node.proposal_outcome(change)
                    &&& r.0 is Ok ==> exists|p: RaftNode<T>| #![trigger RaftNode::proposal_taken(&old_node, &p, change, command)]
                        RaftNode::proposal_taken(&old_node, &p, change, command)
                        && p.all_peer_messages_ok(p.peers_spec(), r.1.messages@)
                        && RaftNode::membership_settled(&p.with_advanced_commit(), &new_node)
                    &&& r.0 is Err ==> new_node == old_node && r.1.messages@.len() == 0
                } else {
                    &&& r.0 == Err::<LogIndex, MembershipError>(MembershipError::NotLeader)
                    &&& new_node == old_node
                    &&& r.1.messages@.len() == 0
                }
            }),
            final(self).health_spec() == (if final(self).node_spec().state == RaftState::Leader {
                old(self).health_spec()
            } else {
                None
            }),
            r.1.leadership == leadership_change(old(self).node_spec().state, final(self).node_spec().state),
            r.1.writes@.len() == 0,
            !r.1.reset_election_timer,
            r.1.health_events@.len() == 0,
            r.1.install is None,
    {
        if self.node.log().last_index().0 >= u64::MAX - 1 || self.node.membership().generation() == u64::MAX {
            return (Err(MembershipError::NotLeader), Self::nothing());
        }
        let was = self.node.state();
        let (result, messages) = self.node.propose_membership_change(change, command);
        let mut effects = Self::nothing();
        if result.is_err() {
            return (result, effects);
        }
        self.node.advance_commit_index();
        effects.messages = messages;
        if was == RaftState::Leader && self.node.state() != RaftState::Leader {
            self.health = None;
            effects.leadership = Leadership::Lost;
        }
        (result, effects)
    }

    /// Mark the committed entries applied and hand out copies of them, in
    /// order, for the state machine and the commit channel.
    pub fn take_committed(&mut self) -> (r: Vec<LogEntry<T>>)
        requires
            old(self).wf(),
        ensures
            final(self).wf(),
            final(self).health_spec() == old(self).health_spec(),
            super::log::entries_cloned(
                old(self).node_spec().to_apply(old(self).node_spec().volatile.last_applied.0 as nat, old(self).node_spec().volatile.commit_index.0 as nat),
                r@,
            ),
            final(self).node_spec() == (RaftNode {
                volatile: super::state::VolatileState {
                    last_applied: if old(self).node_spec().volatile.last_applied.0 < old(self).node_spec().volatile.commit_index.0 {
                        old(self).node_spec().volatile.commit_index
                    } else {
                        old(self).node_spec().volatile.last_applied
                    },
                    ..old(self).node_spec().volatile
                },
                ..old(self).node_spec()
            }),
    {
        self.node.apply_committed_entries()
    }

    /// Where a snapshot of the applied state is due, if one is: the log has
    /// grown past the threshold and there is applied state not yet in a
    /// snapshot.
    pub fn snapshot_due(&self) -> (r: Option<(LogIndex, Term)>)
        requires
            self.wf(),
        ensures
            r == (if self.node_spec().log@.entries.len() >= self.node_spec().config.snapshot_threshold {
                self.node_spec().snapshot_point_spec()
            } else {
                None
            }),
    {
        if self.node.should_snapshot() {
            self.node.snapshot_point()
        } else {
            None
        }
    }

    /// Record a saved snapshot of the applied state ending at `index` in
    /// `term`, and compact the log up to it.
    pub fn complete_snapshot(&mut self, index: LogIndex, term: Term, data: Vec<u8>)
        requires
            old(self).wf(),
            index.0 < u64::MAX,
        ensures
            final(self).wf(),
            final(self).health_spec() == old(self).health_spec(),
            final(self).node_spec().log@ == old(self).node_spec().log@.compacted_to(index.0 as int),
            final(self).node_spec() == (RaftNode {
                log: final(self).node_spec().log,
                last_snapshot: Some(super::snapshot::Snapshot { last_included_index: index, last_included_term: term, data }),
                ..old(self).node_spec()
            }),
    {
        self.node.complete_snapshot(index, term, data);
    }

    /// Record a snapshot received from the leader once the state machine was
    /// restored from it and it was saved.
    pub fn finish_install_snapshot(&mut self, index: LogIndex, term: Term, data: Vec<u8>)
        requires
            old(self).wf(),
            index.0 < u64::MAX,
        ensures
            final(self).wf(),
            final(self).health_spec() == old(self).health_spec(),
            final(self).node_spec() == (RaftNode {
                volatile: super::state::VolatileState {
                    commit_index: if index.0 > old(self).node_spec().volatile.commit_index.0 { index } else { old(self).node_spec().volatile.commit_index },
                    last_applied: if index.0 > old(self).node_spec().volatile.last_applied.0 { index } else { old(self).node_spec().volatile.last_applied },
                },
                last_snapshot: Some(super::snapshot::Snapshot { last_included_index: index, last_included_term: term, data }),
                ..old(self).node_spec()
            }),
    {
        self.node.finish_install_snapshot(index, term, data);
    }

    /// Start or stop watching peers after the node's state changed from
    /// `was`, and say how leadership changed.
    fn track_leadership(&mut self, was: RaftState, now: u64) -> (r: Leadership)
        requires
            old(self).node.wf(),
            old(self).health is Some <==> was == RaftState::Leader,
            match old(self).health {
                Some(m) => m.wf() && m.config_spec() == old(self).health_config,
                None => true,
            },
        ensures
            final(self).wf(),
            final(self).node == old(self).node,
            final(self).health_config == old(self).health_config,
            r == leadership_change(was, old(self).node.state),
            r == Leadership::Gained ==> watching_all(final(self).health, old(self).node.peers_spec(), now),
            r == Leadership::Unchanged ==> final(self).health == old(self).health,
    {
        let is_leader = self.node.state() == RaftState::Leader;
        if was != RaftState::Leader && is_leader {
            let peers = self.node.peers();
            self.health = Some(NodeHealthMonitor::new(peers.as_slice(), self.health_config, now));
            Leadership::Gained
        } else if was == RaftState::Leader && !is_leader {
            self.health = None;
            Leadership::Lost
        } else {
            Leadership::Unchanged
        }
    }
}

} // verus!
