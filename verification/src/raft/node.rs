use vstd::prelude::*;

use super::election::{is_log_up_to_date, majority, up_to_date, ElectionTracker};
use super::log::{log_cloned, merge_all, LogModel, RaftLog};
use super::membership::{rolled_back, ClusterMembership};
use super::rpc::{AppendEntries, AppendEntriesResponse, RaftMessage, RequestVote, RequestVoteResponse};
use super::snapshot::Snapshot;
use super::state::{LeaderState, VolatileState};
use super::storage::StorageOp;
use super::types::{LogEntry, LogIndex, NodeId, RaftConfig, RaftState, Term};

verus! {

/// Leaving out `x` from a sequence that does not hold it leaves it whole.
proof fn lemma_filter_keeps_all_but(s: Seq<NodeId>, x: NodeId)
    requires
        !s.contains(x),
    ensures
        s.filter(|y: NodeId| y != x) == s,
    decreases s.len(),
{
    reveal(Seq::filter);
    if s.len() > 0 {
        assert(!s.drop_last().contains(x)) by {
            if s.drop_last().contains(x) {
                let j = choose|j: int| 0 <= j < s.drop_last().len() && s.drop_last()[j] == x;
                assert(s[j] == x);
            }
        }
        lemma_filter_keeps_all_but(s.drop_last(), x);
        assert(s[s.len() - 1] != x);
        assert(s.drop_last().push(s.last()) =~= s);
    }
}

/// An outbound Raft message and the node it is addressed to.
pub type Outbound<T> = (NodeId, RaftMessage<T>);

/// A Raft consensus node, independent of storage and transport.
///
/// Every handler updates the node and returns what the caller must carry
/// out: the storage writes to perform (in order, before anything else) and
/// the messages to deliver once they have succeeded.
pub struct RaftNode<T> {
    pub config: RaftConfig,
    pub state: RaftState,
    pub current_term: Term,
    pub voted_for: Option<NodeId>,
    pub log: RaftLog<T>,
    pub volatile: VolatileState,
    pub leader_state: Option<LeaderState>,
    pub current_leader: Option<NodeId>,
    pub election_tracker: ElectionTracker,
    /// The most recent snapshot, if any.
    pub last_snapshot: Option<Snapshot>,
    /// Buffer for receiving chunked snapshot data from the leader.
    pub pending_snapshot: Option<Vec<u8>>,
    /// The voting members, and the change a leader has proposed and not
    /// yet committed.
    pub membership: ClusterMembership,
}

impl<T: Clone> RaftNode<T> {
    /// Structural well-formedness: all indices fit, the election tracker
    /// counts over the current members.
    pub open spec fn wf(&self) -> bool {
        &&& self.log.wf()
        &&& self.log@.last_index() < u64::MAX
        &&& self.election_tracker.wf()
        &&& self.membership.wf()
        &&& self.election_tracker.size() == self.membership.member_set().len()
        &&& (self.membership.pending_spec() is Some ==> self.membership.generation_spec() < u64::MAX)
        &&& match self.leader_state {
            Some(ls) => ls.wf(),
            None => true,
        }
        &&& match self.last_snapshot {
            Some(snap) => snap.last_included_index.0 < u64::MAX,
            None => true,
        }
    }

    /// Total number of voting members in the cluster.
    pub open spec fn cluster_size_spec(&self) -> nat {
        self.membership.member_set().len()
    }

    /// The members other than this node, in the order they joined: those it
    /// asks for votes and replicates to.
    pub open spec fn peers_spec(&self) -> Seq<NodeId> {
        self.membership.member_seq().filter(|x: NodeId| x != self.config.node_id)
    }

    /// Majority quorum size.
    pub open spec fn quorum_spec(&self) -> nat {
        majority(self.cluster_size_spec())
    }

    /// The fields no election or vote handling touches are equal (the
    /// membership only changes when a newer term rolls a pending change back).
    pub open spec fn same_core(a: &RaftNode<T>, b: &RaftNode<T>) -> bool {
        &&& a.config == b.config
        &&& a.log == b.log
        &&& a.volatile == b.volatile
        &&& a.current_leader == b.current_leader
        &&& a.last_snapshot == b.last_snapshot
        &&& a.pending_snapshot == b.pending_snapshot
    }

    /// The node after it has seen term `t`, apart from its vote: a newer term
    /// makes it a follower with no leader state and no votes; otherwise the
    /// role, term, leader state and votes are kept.
    pub open spec fn term_seen(old: &RaftNode<T>, new: &RaftNode<T>, t: Term) -> bool {
        &&& new.election_tracker.wf()
        &&& if t.0 > old.current_term.0 {
            &&& new.current_term == t
            &&& new.state == RaftState::Follower
            &&& new.leader_state is None
            &&& new.election_tracker.votes() == Set::<NodeId>::empty()
            &&& new.election_tracker.size() == new.membership.member_set().len()
            &&& rolled_back(old.membership, new.membership)
        } else {
            &&& new.current_term == old.current_term
            &&& new.state == old.state
            &&& new.leader_state == old.leader_state
            &&& new.election_tracker == old.election_tracker
            &&& new.membership == old.membership
        }
    }

    /// The vote a node holds after seeing term `t`.
    pub open spec fn vote_after(old: &RaftNode<T>, t: Term) -> Option<NodeId> {
        if t.0 > old.current_term.0 {
            None
        } else {
            old.voted_for
        }
    }

    /// The whole node after it has seen term `t`.
    pub open spec fn term_updated(old: &RaftNode<T>, new: &RaftNode<T>, t: Term) -> bool {
        &&& Self::same_core(old, new)
        &&& Self::term_seen(old, new, t)
        &&& new.voted_for == Self::vote_after(old, t)
    }

    /// The storage writes a term update produces.
    pub open spec fn term_update_writes(old: &RaftNode<T>, t: Term) -> Seq<StorageOp> {
        if t.0 > old.current_term.0 {
            seq![StorageOp::SaveTerm(t), StorageOp::SaveVotedFor(None)]
        } else {
            Seq::empty()
        }
    }

    /// Restore a node from what storage held: the term, the vote, the log
    /// entries and the latest snapshot (its data, last index and term).
    ///
    /// A snapshot folds the log's prefix into it; when it reaches past the
    /// log, the log restarts after it. The members are this node and its
    /// peers, each once: a peer listed twice counts once, and the node
    /// itself listed as a peer is not a peer.
    pub fn new(
        config: RaftConfig,
        current_term: Term,
        voted_for: Option<NodeId>,
        entries: Vec<LogEntry<T>>,
        snapshot: Option<(Vec<u8>, LogIndex, Term)>,
    ) -> (r: Self)
        requires
            config.peers@.len() + 1 <= usize::MAX,
            entries@.len() < u64::MAX,
            snapshot_index_fits(snapshot),
        ensures
            r.wf(),
            r.cluster_size_spec() == config.peers@.to_set().insert(config.node_id).len(),
            config.peers@.no_duplicates() && !config.peers@.contains(config.node_id) ==> r.cluster_size_spec() == config.peers@.len() + 1
                && r.peers_spec() == config.peers@,
            r.state == RaftState::Follower,
            r.current_term == current_term,
            r.voted_for == voted_for,
            r.current_leader is None,
            r.leader_state is None,
            r.volatile == (VolatileState { commit_index: LogIndex(0), last_applied: LogIndex(0) }),
            r.pending_snapshot is None,
            r.election_tracker.votes() == Set::<NodeId>::empty(),
            r.config == config,
            r.last_snapshot == restored_snapshot(snapshot),
            r.log@ == restored_log(entries@, snapshot),
            match snapshot {
                Some((_, i, t)) => i.0 > 0 ==> r.log@.offset == i.0 && r.log@.last_index() >= i.0
                    && (i.0 > entries@.len() ==> r.log@.term_at(i.0 as int) == Some(t)),
                None => true,
            },
            r.membership.member_set() == config.peers@.to_set().insert(config.node_id),
            r.membership.generation_spec() == 0,
            r.membership.pending_spec() is None,
    {
        proof {
            let snap = snapshot;
            match snap {
                Some(sn) => {
                    let (d, i, t) = sn;
                    if i.0 > 0 {
                        lemma_restored_log_covers_snapshot(entries@, d, i, t);
                    }
                },
                None => {},
            }
        }
        let mut log = RaftLog::from_entries(entries);
        let last_snapshot = match snapshot {
            Some((data, last_included_index, last_included_term)) => {
                log.compact_to(last_included_index);
                if log.offset().0 < last_included_index.0 {
                    log.reset_to_snapshot(last_included_index, last_included_term);
                }
                Some(Snapshot { last_included_index, last_included_term, data })
            },
            None => None,
        };
        let membership = ClusterMembership::new(config.node_id, config.peers.as_slice());
        proof {
            membership.lemma_members();
        }
        proof {
            if config.peers@.no_duplicates() && !config.peers@.contains(config.node_id) {
            let keep = |x: NodeId| x != config.node_id;
            Seq::filter_distributes_over_add(seq![config.node_id], config.peers@, keep);
            assert(seq![config.node_id].filter(keep) =~= Seq::<NodeId>::empty()) by {
                reveal_with_fuel(Seq::filter, 2);
            }
            lemma_filter_keeps_all_but(config.peers@, config.node_id);
            assert(membership.member_seq().filter(keep) =~= config.peers@);
            }
        }
        let cluster_size = membership.member_count();
        RaftNode {
            config,
            state: RaftState::Follower,
            current_term,
            voted_for,
            log,
            volatile: VolatileState { commit_index: LogIndex(0), last_applied: LogIndex(0) },
            leader_state: None,
            current_leader: None,
            election_tracker: ElectionTracker::new(cluster_size),
            last_snapshot,
            pending_snapshot: None,
            membership,
        }
    }

    // ---- Accessors ----

    pub fn node_id(&self) -> (r: NodeId)
        ensures
            r == self.config.node_id,
    {
        self.config.node_id
    }

    pub fn state(&self) -> (r: RaftState)
        ensures
            r == self.state,
    {
        self.state
    }

    pub fn current_term(&self) -> (r: Term)
        ensures
            r == self.current_term,
    {
        self.current_term
    }

    pub fn voted_for(&self) -> (r: Option<NodeId>)
        ensures
            r == self.voted_for,
    {
        self.voted_for
    }

    pub fn current_leader(&self) -> (r: Option<NodeId>)
        ensures
            r == self.current_leader,
    {
        self.current_leader
    }

    pub fn log(&self) -> (r: &RaftLog<T>)
        ensures
            *r == self.log,
    {
        &self.log
    }

    pub fn volatile_state(&self) -> (r: &VolatileState)
        ensures
            *r == self.volatile,
    {
        &self.volatile
    }

    pub fn leader_state(&self) -> (r: Option<&LeaderState>)
        ensures
            match r {
                Some(ls) => self.leader_state == Some(*ls),
                None => self.leader_state is None,
            },
    {
        match &self.leader_state {
            Some(ls) => Some(ls),
            None => None,
        }
    }

    pub fn config(&self) -> (r: &RaftConfig)
        ensures
            *r == self.config,
    {
        &self.config
    }

    /// Total number of voting members in the cluster.
    pub fn cluster_size(&self) -> (r: usize)
        requires
            self.membership.wf(),
        ensures
            r == self.cluster_size_spec(),
    {
        self.membership.member_count()
    }

    /// Majority quorum size.
    pub fn quorum_size(&self) -> (r: usize)
        requires
            self.membership.wf(),
        ensures
            r == self.quorum_spec(),
    {
        self.membership.quorum_size()
    }

    /// The voting members, and the pending change if any.
    pub fn membership(&self) -> (r: &ClusterMembership)
        ensures
            *r == self.membership,
    {
        &self.membership
    }

    /// The members other than this node, in the order they joined.
    pub fn peers(&self) -> (r: Vec<NodeId>)
        requires
            self.membership.wf(),
        ensures
            r@ == self.peers_spec(),
    {
        self.membership.peers(self.config.node_id)
    }

    /// The nodes whose votes this node has received in the current election.
    pub fn votes_received(&self) -> (r: &[NodeId])
        requires
            self.election_tracker.wf(),
        ensures
            r@.to_set() == self.election_tracker.votes(),
    {
        self.election_tracker.voters()
    }

    /// The most recent snapshot, if any.
    pub fn last_snapshot(&self) -> (r: Option<&Snapshot>)
        ensures
            match r {
                Some(s) => self.last_snapshot == Some(*s),
                None => self.last_snapshot is None,
            },
    {
        match &self.last_snapshot {
            Some(s) => Some(s),
            None => None,
        }
    }

    /// Whether the log has grown to the snapshot threshold.
    pub fn should_snapshot(&self) -> (r: bool)
        ensures
            r == (self.log@.entries.len() >= self.config.snapshot_threshold),
    {
        self.log.len() >= self.config.snapshot_threshold
    }

    // ---- Term management ----

    fn step_down_if_newer(&mut self, received_term: Term, writes: &mut Vec<StorageOp>) -> (r: bool)
        requires
            old(self).wf(),
        ensures
            final(self).wf(),
            r == (received_term.0 > old(self).current_term.0),
            Self::term_updated(old(self), final(self), received_term),
            final(writes)@ == old(writes)@ + Self::term_update_writes(old(self), received_term),
    {
        if received_term.0 > self.current_term.0 {
            self.current_term = received_term;
            self.voted_for = None;
            self.state = RaftState::Follower;
            self.leader_state = None;
            self.membership.rollback_change();
            self.election_tracker = ElectionTracker::new(self.membership.member_count());
            writes.push(StorageOp::SaveTerm(received_term));
            writes.push(StorageOp::SaveVotedFor(None));
            return true;
        }
        false
    }

    /// Check an incoming term. If it's greater than ours, step down to
    /// Follower. Returns whether the term was updated, with the storage
    /// writes that must then be made.
    pub fn handle_term_update(&mut self, received_term: Term) -> (r: (bool, Vec<StorageOp>))
        requires
            old(self).wf(),
        ensures
            final(self).wf(),
            r.0 == (received_term.0 > old(self).current_term.0),
            Self::term_updated(old(self), final(self), received_term),
            r.1@ == Self::term_update_writes(old(self), received_term),
    {
        let mut writes = Vec::new();
        let stepped = self.step_down_if_newer(received_term, &mut writes);
        (stepped, writes)
    }

    // ---- Elections ----

    /// `ls` is the leader state a new leader starts with: every configured
    /// peer is sent entries after the last one, and has replicated nothing.
    pub open spec fn fresh_leader_state(&self, ls: LeaderState) -> bool {
        &&& ls.wf()
        &&& forall|p: NodeId| #[trigger] ls.next_index@.contains_key(p) == self.peers_spec().contains(p)
        &&& forall|p: NodeId| #[trigger] ls.match_index@.contains_key(p) == self.peers_spec().contains(p)
        &&& forall|p: NodeId| self.peers_spec().contains(p) ==> #[trigger] ls.next_index@[p] == LogIndex((self.log@.last_index() + 1) as u64)
        &&& forall|p: NodeId| self.peers_spec().contains(p) ==> #[trigger] ls.match_index@[p] == LogIndex(0)
    }

    /// `new` is `old` turned leader: it leads, with fresh leader state.
    pub open spec fn became_leader(old: &RaftNode<T>, new: &RaftNode<T>) -> bool {
        &&& new.state == RaftState::Leader
        &&& new.current_leader == Some(old.config.node_id)
        &&& new.leader_state matches Some(ls) && old.fresh_leader_state(ls)
        &&& new.config == old.config
        &&& new.current_term == old.current_term
        &&& new.voted_for == old.voted_for
        &&& new.log == old.log
        &&& new.volatile == old.volatile
        &&& new.election_tracker == old.election_tracker
        &&& new.last_snapshot == old.last_snapshot
        &&& new.pending_snapshot == old.pending_snapshot
        &&& new.membership == old.membership
    }

    /// Transition to Leader state and send initial heartbeats.
    fn become_leader(&mut self) -> (r: Vec<Outbound<T>>)
        requires
            old(self).wf(),
        ensures
            final(self).wf(),
            Self::became_leader(old(self), final(self)),
            final(self).all_peer_messages_ok(final(self).peers_spec(), r@),
    {
        self.state = RaftState::Leader;
        self.current_leader = Some(self.config.node_id);
        let peers = self.peers();
        let ls = LeaderState::new(peers.as_slice(), self.log.last_index());
        self.leader_state = Some(ls);
        self.send_heartbeats()
    }

    /// Start an election: increment the term, vote for self, and ask every
    /// peer for its vote. A node alone in its cluster wins at once and
    /// becomes leader instead.
    pub fn start_election(&mut self) -> (r: (Vec<StorageOp>, Vec<Outbound<T>>))
        requires
            old(self).wf(),
            old(self).current_term.0 < u64::MAX,
        ensures
            final(self).wf(),
            final(self).current_term.0 == old(self).current_term.0 + 1,
            final(self).voted_for == Some(old(self).config.node_id),
            final(self).election_tracker.votes() == set![old(self).config.node_id],
            final(self).config == old(self).config,
            final(self).log == old(self).log,
            final(self).volatile == old(self).volatile,
            final(self).last_snapshot == old(self).last_snapshot,
            final(self).pending_snapshot == old(self).pending_snapshot,
            final(self).membership == old(self).membership,
            r.0@ == seq![StorageOp::SaveTerm(final(self).current_term), StorageOp::SaveVotedFor(Some(old(self).config.node_id))],
            if old(self).quorum_spec() <= 1 {
                &&& final(self).state == RaftState::Leader
                &&& final(self).current_leader == Some(old(self).config.node_id)
                &&& final(self).leader_state matches Some(ls) && final(self).fresh_leader_state(ls)
                &&& final(self).all_peer_messages_ok(final(self).peers_spec(), r.1@)
            } else {
                &&& final(self).state == RaftState::Candidate
                &&& final(self).current_leader is None
                &&& final(self).leader_state is None
                &&& r.1@.len() == old(self).peers_spec().len()
                &&& forall|i: int| 0 <= i < r.1@.len() ==> #[trigger] r.1@[i] == (old(self).peers_spec()[i], RaftMessage::<T>::RequestVote(RequestVote {
                    term: final(self).current_term,
                    candidate_id: old(self).config.node_id,
                    last_log_index: LogIndex(old(self).log@.last_index() as u64),
                    last_log_term: old(self).log@.last_term(),
                }))
            },
    {
        self.current_term = Term(self.current_term.0 + 1);
        self.state = RaftState::Candidate;
        self.voted_for = Some(self.config.node_id);
        self.current_leader = None;
        self.leader_state = None;
        self.election_tracker.reset();
        self.election_tracker.record_vote(self.config.node_id);
        proof {
            assert(self.election_tracker.votes() =~= set![old(self).config.node_id]);
            assert(self.election_tracker.votes().len() == 1);
        }
        let mut writes = Vec::new();
        writes.push(StorageOp::SaveTerm(self.current_term));
        writes.push(StorageOp::SaveVotedFor(self.voted_for));
        if self.election_tracker.has_quorum() {
            let msgs = self.become_leader();
            return (writes, msgs);
        }
        let request = RequestVote {
            term: self.current_term,
            candidate_id: self.config.node_id,
            last_log_index: self.log.last_index(),
            last_log_term: self.log.last_term(),
        };
        let peers = self.peers();
        let mut msgs: Vec<Outbound<T>> = Vec::new();
        let mut i: usize = 0;
        while i < peers.len()
            invariant
                0 <= i <= peers@.len(),
                msgs@.len() == i,
                forall|j: int| 0 <= j < i ==> #[trigger] msgs@[j] == (peers@[j], RaftMessage::<T>::RequestVote(request)),
            decreases peers@.len() - i,
        {
            msgs.push((peers[i], RaftMessage::RequestVote(request)));
            i = i + 1;
        }
        (writes, msgs)
    }

    /// `new` is `old` after a `RequestVoteResponse` from `from`, sending
    /// `msgs`: once its term is seen, a candidate counts a granted vote and
    /// on a majority becomes leader and sends heartbeats; otherwise nothing
    /// more changes and nothing is sent.
    pub open spec fn vote_response_step(old: &RaftNode<T>, new: &RaftNode<T>, from: NodeId, resp: RequestVoteResponse, msgs: Seq<Outbound<T>>) -> bool {
        exists|mid: RaftNode<T>| #![trigger Self::term_updated(old, &mid, resp.term)]
            Self::term_updated(old, &mid, resp.term) && {
            if mid.state == RaftState::Candidate && resp.vote_granted {
                let votes = mid.election_tracker.votes().insert(from);
                &&& new.election_tracker.votes() == votes
                &&& if votes.len() >= mid.quorum_spec() {
                    &&& Self::became_leader(&RaftNode { election_tracker: new.election_tracker, ..mid }, new)
                    &&& new.all_peer_messages_ok(new.peers_spec(), msgs)
                } else {
                    &&& *new == (RaftNode { election_tracker: new.election_tracker, ..mid })
                    &&& msgs.len() == 0
                }
            } else {
                &&& *new == mid
                &&& msgs.len() == 0
            }
        }
    }

    /// Handle an incoming `RequestVoteResponse`: after its term is seen, a
    /// candidate counts a granted vote and becomes leader on a majority.
    pub fn handle_request_vote_response(&mut self, from: NodeId, resp: RequestVoteResponse) -> (r: (Vec<StorageOp>, Vec<Outbound<T>>))
        requires
            old(self).wf(),
        ensures
            final(self).wf(),
            r.0@ == Self::term_update_writes(old(self), resp.term),
            Self::vote_response_step(old(self), final(self), from, resp, r.1@),
    {
        let mut writes = Vec::new();
        self.step_down_if_newer(resp.term, &mut writes);
        let ghost mid = *self;
        let mut msgs: Vec<Outbound<T>> = Vec::new();
        if self.state != RaftState::Candidate {
            return (writes, msgs);
        }
        if resp.vote_granted {
            let quorum = self.election_tracker.record_vote(from);
            if quorum {
                msgs = self.become_leader();
            }
        }
        (writes, msgs)
    }

    // ---- Log replication (follower side) ----

    /// `new` is `old` acknowledging a current leader `leader`: a follower
    /// with no leader state and no votes, the rest as in `old`.
    pub open spec fn follows(old: &RaftNode<T>, new: &RaftNode<T>, leader: NodeId) -> bool {
        &&& new.state == RaftState::Follower
        &&& new.current_leader == Some(leader)
        &&& new.leader_state is None
        &&& new.election_tracker.votes() == Set::<NodeId>::empty()
        &&& new.election_tracker.wf()
        &&& new.election_tracker.size() == new.membership.member_set().len()
        &&& new.config == old.config
        &&& new.membership == old.membership
        &&& new.current_term == old.current_term
        &&& new.voted_for == old.voted_for
        &&& new.last_snapshot == old.last_snapshot
        &&& new.pending_snapshot == old.pending_snapshot
    }

    /// The commit index a follower takes from a leader's `leader_commit`,
    /// given its log ends at `last`.
    pub open spec fn followed_commit(commit: LogIndex, leader_commit: LogIndex, last: nat) -> LogIndex {
        if leader_commit.0 > commit.0 {
            if leader_commit.0 <= last { leader_commit } else { LogIndex(last as u64) }
        } else {
            commit
        }
    }

    /// `new` is `old` after an `AppendEntries` request, answered `resp`: a
    /// stale request is refused and changes nothing; otherwise, once its
    /// term is seen, the node follows the leader, checks its log against
    /// the leader's previous entry, merges the entries (dropping
    /// conflicting ones) and takes the leader's commit index up to the end
    /// of its log.
    pub open spec fn append_step(old: &RaftNode<T>, new: &RaftNode<T>, req: AppendEntries<T>, resp: AppendEntriesResponse) -> bool {
        &&& new.current_term.0 >= old.current_term.0
        &&& resp.term == new.current_term
        &&& if req.term.0 < old.current_term.0 {
            &&& *new == *old
            &&& resp == (AppendEntriesResponse { term: old.current_term, success: false, match_index: LogIndex(0) })
        } else {
            &&& new.current_term == req.term
            &&& new.voted_for == Self::vote_after(old, req.term)
            &&& Self::follows(&RaftNode { current_term: req.term, voted_for: Self::vote_after(old, req.term), membership: new.membership, ..*old }, new, req.leader_id)
            &&& if req.term.0 > old.current_term.0 {
                rolled_back(old.membership, new.membership)
            } else {
                new.membership == old.membership
            }
            &&& resp.success == old.log@.prev_matches(req.prev_log_index.0 as int, req.prev_log_term)
            &&& if resp.success {
                &&& log_cloned(merge_all(old.log@, req.entries@), new.log@)
                &&& new.volatile == (VolatileState {
                    commit_index: Self::followed_commit(old.volatile.commit_index, req.leader_commit, new.log@.last_index()),
                    ..old.volatile
                })
                &&& resp.match_index.0 == new.log@.last_index()
            } else {
                &&& new.log@ == old.log@
                &&& new.volatile == old.volatile
                &&& resp.match_index == LogIndex(0)
            }
        }
    }

    /// Handle an incoming `AppendEntries` RPC.
    ///
    /// After the leader's term is seen, a stale request is refused. Otherwise
    /// this node follows the leader, checks its log against the leader's
    /// previous entry, merges the entries (dropping conflicting ones), and
    /// takes the leader's commit index up to the end of its log.
    pub fn handle_append_entries(&mut self, req: AppendEntries<T>) -> (r: (AppendEntriesResponse, Vec<StorageOp>))
        requires
            old(self).wf(),
            old(self).log@.last_index() + req.entries@.len() < u64::MAX,
            forall|k: int| 0 <= k < req.entries@.len() ==> #[trigger] req.entries@[k].index.0 >= 1,
        ensures
            final(self).wf(),
            r.1@ == Self::term_update_writes(old(self), req.term),
            Self::append_step(old(self), final(self), req, r.0),
    {
        let mut writes = Vec::new();
        self.step_down_if_newer(req.term, &mut writes);
        if req.term.0 < self.current_term.0 {
            return (AppendEntriesResponse { term: self.current_term, success: false, match_index: LogIndex(0) }, writes);
        }
        self.state = RaftState::Follower;
        self.current_leader = Some(req.leader_id);
        self.leader_state = None;
        self.election_tracker.reset();
        let success = self.log.append_entries(req.prev_log_index, req.prev_log_term, req.entries.as_slice());
        if !success {
            return (AppendEntriesResponse { term: self.current_term, success: false, match_index: LogIndex(0) }, writes);
        }
        proof {
            super::log::lemma_merge_all_len(old(self).log@, req.entries@);
        }
        if req.leader_commit.0 > self.volatile.commit_index.0 {
            let last = self.log.last_index();
            self.volatile.commit_index = if req.leader_commit.0 <= last.0 { req.leader_commit } else { last };
        }
        (AppendEntriesResponse { term: self.current_term, success: true, match_index: self.log.last_index() }, writes)
    }

    // ---- Log replication (leader side) ----

    /// The leader's bookkeeping after `from` answered an `AppendEntries`:
    /// on success it records the peer's match index (and the next index
    /// after it); on failure it steps the next index back by one, down to 1.
    pub open spec fn after_append_response(ls: LeaderState, new_ls: LeaderState, from: NodeId, resp: AppendEntriesResponse) -> bool {
        &&& new_ls.wf()
        &&& if resp.success {
            &&& new_ls.match_index@ == ls.match_index@.insert(from, resp.match_index)
            &&& new_ls.next_index@ == ls.next_index@.insert(from, LogIndex((resp.match_index.0 + 1) as u64))
        } else {
            let next: u64 = if ls.next_index@.contains_key(from) { ls.next_index@[from].0 } else { 1 };
            &&& new_ls.match_index == ls.match_index
            &&& if next > 1 {
                new_ls.next_index@ == ls.next_index@.insert(from, LogIndex((next - 1) as u64))
            } else {
                new_ls.next_index == ls.next_index
            }
        }
    }

    /// `new` is `old` after an `AppendEntriesResponse` from `from`: once
    /// its term is seen, a leader updates its view of the peer, advances its
    /// commit index, and lets a membership change the commit covers take
    /// effect; anyone else changes nothing more.
    pub open spec fn append_response_step(old: &RaftNode<T>, new: &RaftNode<T>, from: NodeId, resp: AppendEntriesResponse) -> bool {
        exists|mid: RaftNode<T>| #![trigger Self::term_updated(old, &mid, resp.term)]
            Self::term_updated(old, &mid, resp.term) && {
            if mid.state == RaftState::Leader && mid.leader_state is Some {
                exists|ls: LeaderState| #![trigger Self::after_append_response(mid.leader_state->0, ls, from, resp)]
                    Self::after_append_response(mid.leader_state->0, ls, from, resp)
                    && Self::membership_settled(
                        &(RaftNode { leader_state: Some(ls), ..mid }).with_advanced_commit(),
                        new,
                    )
            } else {
                *new == mid
            }
        }
    }

    /// Handle an incoming `AppendEntriesResponse`: after its term is seen, a
    /// leader updates its view of the peer and advances its commit index.
    pub fn handle_append_entries_response(&mut self, from: NodeId, resp: AppendEntriesResponse) -> (r: Vec<StorageOp>)
        requires
            old(self).wf(),
            resp.match_index.0 < u64::MAX,
        ensures
            final(self).wf(),
            r@ == Self::term_update_writes(old(self), resp.term),
            Self::append_response_step(old(self), final(self), from, resp),
    {
        let mut writes = Vec::new();
        self.step_down_if_newer(resp.term, &mut writes);
        let ghost mid = *self;
        if self.state != RaftState::Leader {
            return writes;
        }
        match &mut self.leader_state {
            Some(leader) => {
                if resp.success {
                    leader.match_index.insert(from, resp.match_index);
                    leader.next_index.insert(from, LogIndex(resp.match_index.0 + 1));
                } else {
                    let next = match leader.next_index.get(from) {
                        Some(n) => n,
                        None => LogIndex(1),
                    };
                    if next.0 > 1 {
                        leader.next_index.insert(from, LogIndex(next.0 - 1));
                    }
                }
            },
            None => {
                return writes;
            },
        }
        let ghost updated = self.leader_state->0;
        assert(Self::after_append_response(mid.leader_state->0, updated, from, resp));
        self.advance_commit_index();
        writes
    }

    /// `new` is `old` after an `InstallSnapshotResponse` from `from`: once
    /// its term is seen, a leader with a snapshot records the peer as caught
    /// up to it; anything else changes nothing more.
    pub open spec fn snapshot_response_step(old: &RaftNode<T>, new: &RaftNode<T>, from: NodeId, resp: super::snapshot::InstallSnapshotResponse) -> bool {
        exists|mid: RaftNode<T>| #![trigger Self::term_updated(old, &mid, resp.term)]
            Self::term_updated(old, &mid, resp.term) && {
            if mid.state == RaftState::Leader && mid.leader_state is Some && mid.last_snapshot is Some {
                let idx = mid.last_snapshot->0.last_included_index;
                let ls = mid.leader_state->0;
                &&& new.leader_state matches Some(new_ls) && new_ls.wf()
                    && new_ls.match_index@ == ls.match_index@.insert(from, idx)
                    && new_ls.next_index@ == ls.next_index@.insert(from, LogIndex((idx.0 + 1) as u64))
                &&& *new == (RaftNode { leader_state: new.leader_state, ..mid })
            } else {
                *new == mid
            }
        }
    }

    /// Handle an incoming `InstallSnapshotResponse`: after its term is seen,
    /// a leader with a snapshot records the peer as caught up to it.
    pub fn handle_install_snapshot_response(&mut self, from: NodeId, resp: super::snapshot::InstallSnapshotResponse) -> (r: Vec<StorageOp>)
        requires
            old(self).wf(),
        ensures
            final(self).wf(),
            r@ == Self::term_update_writes(old(self), resp.term),
            Self::snapshot_response_step(old(self), final(self), from, resp),
    {
        let mut writes = Vec::new();
        self.step_down_if_newer(resp.term, &mut writes);
        if self.state != RaftState::Leader {
            return writes;
        }
        let idx = match &self.last_snapshot {
            Some(snap) => snap.last_included_index,
            None => {
                return writes;
            },
        };
        match &mut self.leader_state {
            Some(leader) => {
                leader.match_index.insert(from, idx);
                leader.next_index.insert(from, LogIndex(idx.0 + 1));
            },
            None => {},
        }
        writes
    }

    // ---- Snapshots ----

    /// Where a snapshot of the applied state would end: at `last_applied`,
    /// with that entry's term (the log's snapshot term when the entry is no
    /// longer held); nothing when nothing was applied or the latest snapshot
    /// already reaches that far.
    pub open spec fn snapshot_point_spec(&self) -> Option<(LogIndex, Term)> {
        let la = self.volatile.last_applied;
        if la.0 == 0 {
            None
        } else if self.last_snapshot matches Some(s) && s.last_included_index.0 >= la.0 {
            None
        } else {
            Some((la, match self.log@.term_at(la.0 as int) {
                Some(t) => t,
                None => self.log@.snapshot_term,
            }))
        }
    }

    /// Decide whether (and where) to take a snapshot of the applied state.
    ///
    /// The caller then serializes the state machine, saves the snapshot, and
    /// calls [`RaftNode::complete_snapshot`].
    pub fn snapshot_point(&self) -> (r: Option<(LogIndex, Term)>)
        requires
            self.wf(),
        ensures
            r == self.snapshot_point_spec(),
    {
        let last_applied = self.volatile.last_applied;
        if last_applied.0 == 0 {
            return None;
        }
        match &self.last_snapshot {
            Some(snap) => {
                if snap.last_included_index.0 >= last_applied.0 {
                    return None;
                }
            },
            None => {},
        }
        let term = match self.log.term_at(last_applied) {
            Some(t) => t,
            None => self.log.snapshot_term(),
        };
        Some((last_applied, term))
    }

    /// Record a saved snapshot of the local state ending at `index` in
    /// `term`, and compact the log up to it.
    pub fn complete_snapshot(&mut self, index: LogIndex, term: Term, data: Vec<u8>)
        requires
            old(self).wf(),
            index.0 < u64::MAX,
        ensures
            final(self).wf(),
            final(self).log@ == old(self).log@.compacted_to(index.0 as int),
            *final(self) == (RaftNode {
                log: final(self).log,
                last_snapshot: Some(Snapshot { last_included_index: index, last_included_term: term, data }),
                ..*old(self)
            }),
    {
        self.log.compact_to(index);
        self.last_snapshot = Some(Snapshot { last_included_index: index, last_included_term: term, data });
    }

    /// The snapshot data buffered after receiving chunk `req`: the first
    /// chunk starts a buffer, later chunks extend it, and a later chunk
    /// without a buffer is dropped.
    pub open spec fn buffered_after(pending: Option<Vec<u8>>, req: super::snapshot::InstallSnapshot) -> Option<Seq<u8>> {
        if req.offset == 0 {
            Some(req.data@)
        } else {
            match pending {
                Some(buf) => Some(buf@ + req.data@),
                None => None,
            }
        }
    }

    /// The log after installing a snapshot ending at `(index, term)`: the
    /// suffix after it is kept when the log holds that entry with that term,
    /// otherwise the log restarts after the snapshot.
    pub open spec fn log_after_install(log: LogModel<T>, index: LogIndex, term: Term) -> LogModel<T> {
        if log.term_at(index.0 as int) == Some(term) {
            log.compacted_to(index.0 as int)
        } else {
            LogModel { entries: Seq::empty(), offset: index.0 as nat, snapshot_term: term }
        }
    }

    /// `new` is `old` after an `InstallSnapshot` chunk, answered `resp`,
    /// with `data` the whole snapshot once its last chunk has come: a stale
    /// request changes nothing; otherwise, once its term is seen, the node
    /// follows the leader and buffers the chunk, and on the last one hands
    /// out the snapshot and resets its log to it.
    pub open spec fn install_step(
        old: &RaftNode<T>,
        new: &RaftNode<T>,
        req: super::snapshot::InstallSnapshot,
        resp: super::snapshot::InstallSnapshotResponse,
        data: Option<Seq<u8>>,
    ) -> bool {
        &&& resp.term == new.current_term
        &&& new.current_term.0 >= old.current_term.0
        &&& if req.term.0 < old.current_term.0 {
            &&& *new == *old
            &&& data is None
        } else {
            let buffered = Self::buffered_after(old.pending_snapshot, req);
            &&& new.current_term == req.term
            &&& new.voted_for == Self::vote_after(old, req.term)
            &&& new.state == RaftState::Follower
            &&& new.current_leader == Some(req.leader_id)
            &&& new.leader_state is None
            &&& new.election_tracker.votes() == Set::<NodeId>::empty()
            &&& new.config == old.config
            &&& new.volatile == old.volatile
            &&& new.last_snapshot == old.last_snapshot
            &&& if req.term.0 > old.current_term.0 {
                rolled_back(old.membership, new.membership)
            } else {
                new.membership == old.membership
            }
            &&& if req.done && buffered is Some && req.last_included_index.0 < u64::MAX {
                &&& data == buffered
                &&& new.pending_snapshot is None
                &&& new.log@ == Self::log_after_install(old.log@, req.last_included_index, req.last_included_term)
            } else {
                &&& data is None
                &&& new.log == old.log
                &&& match buffered {
                    Some(b) => new.pending_snapshot matches Some(p) && p@ == b,
                    None => new.pending_snapshot == old.pending_snapshot,
                }
            }
        }
    }

    /// Handle an incoming `InstallSnapshot` chunk.
    ///
    /// After the leader's term is seen, a stale request is answered with the
    /// current term. Otherwise this node follows the leader and buffers the
    /// chunk. On the final chunk the buffer is taken and the log is fitted to
    /// the snapshot (unless the snapshot ends at the largest index, after
    /// which no entry could follow: the chunks then stay buffered); the assembled data is returned for the caller to restore
    /// the state machine from and save, before it calls
    /// [`RaftNode::finish_install_snapshot`].
    pub fn handle_install_snapshot(&mut self, req: super::snapshot::InstallSnapshot) -> (r: (super::snapshot::InstallSnapshotResponse, Vec<StorageOp>, Option<Vec<u8>>))
        requires
            old(self).wf(),
        ensures
            final(self).wf(),
            r.1@ == Self::term_update_writes(old(self), req.term),
            Self::install_step(old(self), final(self), req, r.0, match r.2 {
                Some(d) => Some(d@),
                None => None,
            }),
    {
        let mut writes = Vec::new();
        self.step_down_if_newer(req.term, &mut writes);
        if req.term.0 < self.current_term.0 {
            return (super::snapshot::InstallSnapshotResponse { term: self.current_term }, writes, None);
        }
        self.state = RaftState::Follower;
        self.current_leader = Some(req.leader_id);
        self.leader_state = None;
        self.election_tracker.reset();
        let super::snapshot::InstallSnapshot { term: _, leader_id: _, last_included_index, last_included_term, offset, data, done } = req;
        if offset == 0 {
            self.pending_snapshot = Some(data);
        } else {
            match self.pending_snapshot.take() {
                Some(mut buf) => {
                    let mut more = data;
                    buf.append(&mut more);
                    self.pending_snapshot = Some(buf);
                },
                None => {
                    return (super::snapshot::InstallSnapshotResponse { term: self.current_term }, writes, None);
                },
            }
        }
        if !done || last_included_index.0 == u64::MAX {
            return (super::snapshot::InstallSnapshotResponse { term: self.current_term }, writes, None);
        }
        let snapshot_data = match self.pending_snapshot.take() {
            Some(d) => d,
            None => Vec::new(),
        };
        let keep_suffix = match self.log.term_at(last_included_index) {
            Some(t) => t.0 == last_included_term.0,
            None => false,
        };
        if keep_suffix {
            self.log.compact_to(last_included_index);
        } else {
            self.log.reset_to_snapshot(last_included_index, last_included_term);
        }
        (super::snapshot::InstallSnapshotResponse { term: self.current_term }, writes, Some(snapshot_data))
    }

    /// Record a snapshot received from the leader (ending at `index` in
    /// `term`) once the state machine was restored from it and it was saved:
    /// the commit and applied indices reach at least its end.
    pub fn finish_install_snapshot(&mut self, index: LogIndex, term: Term, data: Vec<u8>)
        requires
            old(self).wf(),
            index.0 < u64::MAX,
        ensures
            final(self).wf(),
            *final(self) == (RaftNode {
                volatile: VolatileState {
                    commit_index: if index.0 > old(self).volatile.commit_index.0 { index } else { old(self).volatile.commit_index },
                    last_applied: if index.0 > old(self).volatile.last_applied.0 { index } else { old(self).volatile.last_applied },
                },
                last_snapshot: Some(Snapshot { last_included_index: index, last_included_term: term, data }),
                ..*old(self)
            }),
    {
        if index.0 > self.volatile.commit_index.0 {
            self.volatile.commit_index = index;
        }
        if index.0 > self.volatile.last_applied.0 {
            self.volatile.last_applied = index;
        }
        self.last_snapshot = Some(Snapshot { last_included_index: index, last_included_term: term, data });
    }

    // ---- Voting ----

    /// Whether a node grants `req`: the term is current, it has not voted
    /// for another candidate in that term, and the candidate's log is at
    /// least as up-to-date as its own.
    pub open spec fn grants(old: &RaftNode<T>, req: RequestVote) -> bool {
        &&& req.term.0 >= old.current_term.0
        &&& (Self::vote_after(old, req.term) is None || Self::vote_after(old, req.term) == Some(req.candidate_id))
        &&& up_to_date(req.last_log_term, req.last_log_index, old.log@.last_term(), LogIndex(old.log@.last_index() as u64))
    }

    /// `new` is `old` after a `RequestVote` request, answered `resp`: once
    /// its term is seen, the vote is granted as `grants` says and recorded.
    pub open spec fn vote_request_step(old: &RaftNode<T>, new: &RaftNode<T>, req: RequestVote, resp: RequestVoteResponse) -> bool {
        &&& Self::same_core(old, new)
        &&& Self::term_seen(old, new, req.term)
        &&& resp.vote_granted == Self::grants(old, req)
        &&& resp.term == new.current_term
        &&& new.voted_for == (if resp.vote_granted { Some(req.candidate_id) } else { Self::vote_after(old, req.term) })
    }

    /// Handle an incoming `RequestVote` RPC.
    ///
    /// The candidate's term is seen first; the vote is then granted when the
    /// term is current, this node has not voted for another candidate in it,
    /// and the candidate's log is at least as up-to-date as its own.
    pub fn handle_request_vote(&mut self, req: RequestVote) -> (r: (RequestVoteResponse, Vec<StorageOp>))
        requires
            old(self).wf(),
        ensures
            final(self).wf(),
            Self::vote_request_step(old(self), final(self), req, r.0),
            r.1@ == Self::term_update_writes(old(self), req.term) + (if r.0.vote_granted {
                seq![StorageOp::SaveVotedFor(Some(req.candidate_id))]
            } else {
                Seq::<StorageOp>::empty()
            }),
    {
        let mut writes = Vec::new();
        self.step_down_if_newer(req.term, &mut writes);
        if req.term.0 < self.current_term.0 {
            return (RequestVoteResponse { term: self.current_term, vote_granted: false }, writes);
        }
        let can_vote = match self.voted_for {
            None => true,
            Some(id) => id.0 == req.candidate_id.0,
        };
        if !can_vote {
            return (RequestVoteResponse { term: self.current_term, vote_granted: false }, writes);
        }
        let log_ok = is_log_up_to_date(req.last_log_term, req.last_log_index, self.log.last_term(), self.log.last_index());
        if !log_ok {
            return (RequestVoteResponse { term: self.current_term, vote_granted: false }, writes);
        }
        self.voted_for = Some(req.candidate_id);
        writes.push(StorageOp::SaveVotedFor(Some(req.candidate_id)));
        (RequestVoteResponse { term: self.current_term, vote_granted: true }, writes)
    }
}

impl<T: Clone> RaftNode<T> {
    /// Seeing a term never lowers the node's term, and leaves it at least at
    /// the term seen.
    pub proof fn lemma_term_never_decreases(a: &RaftNode<T>, b: &RaftNode<T>, t: Term)
        requires
            Self::term_seen(a, b, t),
        ensures
            b.current_term.0 >= a.current_term.0,
            b.current_term.0 >= t.0,
    {
    }

    /// A node votes for at most one candidate per term: once it has granted
    /// `r1`, it refuses any other candidate asking in the same term.
    pub proof fn lemma_single_vote_per_term(a: &RaftNode<T>, b: &RaftNode<T>, r1: RequestVote, r2: RequestVote)
        requires
            Self::grants(a, r1),
            Self::term_seen(a, b, r1.term),
            b.voted_for == Some(r1.candidate_id),
            r2.term == b.current_term,
            r2.candidate_id != r1.candidate_id,
        ensures
            !Self::grants(b, r2),
    {
    }
}

/// A stored snapshot's index leaves room for one more entry.
pub open spec fn snapshot_index_fits(snapshot: Option<(Vec<u8>, LogIndex, Term)>) -> bool {
    match snapshot {
        Some(s) => s.1.0 < u64::MAX,
        None => true,
    }
}

/// The snapshot a node restored from storage starts with.
pub open spec fn restored_snapshot(snapshot: Option<(Vec<u8>, LogIndex, Term)>) -> Option<Snapshot> {
    match snapshot {
        Some(s) => Some(Snapshot { last_included_index: s.1, last_included_term: s.2, data: s.0 }),
        None => None,
    }
}

/// A node restored with a snapshot ending at index `i` in term `t` starts
/// after the snapshot: its log is compacted up to `i`, reaches at least `i`,
/// and has term `t` at `i` (the stored log's own term there, where it
/// holds an entry at `i`).
pub proof fn lemma_restored_log_covers_snapshot<T>(entries: Seq<LogEntry<T>>, data: Vec<u8>, i: LogIndex, t: Term)
    requires
        i.0 > 0,
    ensures
        restored_log(entries, Some((data, i, t))).offset == i.0,
        restored_log(entries, Some((data, i, t))).last_index() >= i.0,
        i.0 > entries.len() ==> restored_log(entries, Some((data, i, t))).term_at(i.0 as int) == Some(t),
        i.0 <= entries.len() ==> restored_log(entries, Some((data, i, t))).term_at(i.0 as int) == Some(entries[i.0 - 1].term),
        i.0 <= entries.len() ==> restored_log(entries, Some((data, i, t))).entries == entries.skip(i.0 as int),
{
}


/// The log a node restored from storage starts with: the stored entries,
/// with a stored snapshot folded in, or restarting after the snapshot when
/// the snapshot reaches past them.
pub open spec fn restored_log<T>(entries: Seq<LogEntry<T>>, snapshot: Option<(Vec<u8>, LogIndex, Term)>) -> LogModel<T> {
    let base = LogModel { entries, offset: 0nat, snapshot_term: Term(0) };
    match snapshot {
        None => base,
        Some(s) => if base.compacted_to(s.1.0 as int).offset < s.1.0 {
            LogModel { entries: Seq::empty(), offset: s.1.0 as nat, snapshot_term: s.2 }
        } else {
            base.compacted_to(s.1.0 as int)
        },
    }
}

} // verus!
