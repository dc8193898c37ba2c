use vstd::prelude::*;

use super::election::ElectionTracker;
use super::log::entries_cloned;
use super::membership::{begun, MembershipChange, MembershipError};
use super::node::{Outbound, RaftNode};
use super::rpc::{AppendEntries, RaftMessage};
use super::snapshot::{InstallSnapshot, Snapshot};
use super::state::{count_at_least, LeaderState};
use super::types::{entry_cloned, LogEntry, LogIndex, NodeId, RaftState, Term};

verus! {

/// The chunks `(offset, bytes, done)` in which `data` is sent from byte
/// `off` on, `size` bytes at a time (all at once when `size` is 0). Empty
/// data still makes one, final, chunk.
pub open spec fn chunks_from(data: Seq<u8>, size: nat, off: nat) -> Seq<(nat, Seq<u8>, bool)>
    decreases data.len() - off,
{
    if size == 0 || off + size >= data.len() {
        seq![(off, data.subrange(off as int, data.len() as int), true)]
    } else {
        seq![(off, data.subrange(off as int, (off + size) as int), false)] + chunks_from(data, size, off + size)
    }
}

/// Every chunk covers a non-empty stretch, except the only chunk of empty data.
proof fn lemma_chunks_nonempty(data: Seq<u8>, size: nat, off: nat)
    requires
        off <= data.len(),
    ensures
        chunks_from(data, size, off).len() >= 1,
    decreases data.len() - off,
{
    if !(size == 0 || off + size >= data.len()) {
        lemma_chunks_nonempty(data, size, off + size);
    }
}

impl<T: Clone> RaftNode<T> {
    /// The next index the leader records for `peer` (1 when unknown).
    pub open spec fn next_index_for(&self, peer: NodeId) -> u64 {
        match self.leader_state {
            Some(ls) => if ls.next_index@.contains_key(peer) { ls.next_index@[peer].0 } else { 1 },
            None => 1,
        }
    }

    /// The peer needs entries that were compacted into the snapshot.
    pub open spec fn needs_snapshot(&self, next: u64) -> bool {
        self.log@.offset > 0 && next <= self.log@.offset
    }

    /// `m` is the `AppendEntries` this leader sends `peer`: entries from the
    /// peer's next index on, after the entry just before it.
    pub open spec fn is_append_entries_for(&self, peer: NodeId, m: Outbound<T>) -> bool {
        let next = self.next_index_for(peer);
        let prev: u64 = if next > 0 { (next - 1) as u64 } else { 0 };
        let prev_term = if prev > 0 {
            match self.log@.term_at(prev as int) {
                Some(t) => t,
                None => Term(0),
            }
        } else {
            Term(0)
        };
        &&& m.0 == peer
        &&& m.1 matches RaftMessage::AppendEntries(ae)
        &&& ae.term == self.current_term
        &&& ae.leader_id == self.config.node_id
        &&& ae.prev_log_index == LogIndex(prev)
        &&& ae.prev_log_term == prev_term
        &&& entries_cloned(self.log@.suffix_from(next as int), ae.entries@)
        &&& ae.leader_commit == self.volatile.commit_index
    }

    /// `m` carries chunk `c` of snapshot `s` to `peer`.
    pub open spec fn is_snapshot_chunk_for(&self, peer: NodeId, s: Snapshot, c: (nat, Seq<u8>, bool), m: Outbound<T>) -> bool {
        &&& m.0 == peer
        &&& m.1 matches RaftMessage::InstallSnapshot(is)
        &&& is.term == self.current_term
        &&& is.leader_id == self.config.node_id
        &&& is.last_included_index == s.last_included_index
        &&& is.last_included_term == s.last_included_term
        &&& is.offset == c.0
        &&& is.data@ == c.1
        &&& is.done == c.2
    }

    /// How many messages replication sends `peer`.
    pub open spec fn peer_message_count(&self, peer: NodeId) -> nat {
        if !(self.state == RaftState::Leader && self.leader_state is Some) {
            0
        } else if self.needs_snapshot(self.next_index_for(peer)) {
            match self.last_snapshot {
                Some(s) => chunks_from(s.data@, self.config.snapshot_chunk_size as nat, 0).len(),
                None => 0,
            }
        } else {
            1
        }
    }

    /// `msgs` is what replication sends `peer`: nothing unless leader; the
    /// snapshot in chunks when the peer is behind the compaction point (or
    /// nothing when there is no snapshot); otherwise one `AppendEntries`.
    pub open spec fn peer_messages_ok(&self, peer: NodeId, msgs: Seq<Outbound<T>>) -> bool {
        &&& msgs.len() == self.peer_message_count(peer)
        &&& if !(self.state == RaftState::Leader && self.leader_state is Some) {
            true
        } else if self.needs_snapshot(self.next_index_for(peer)) {
            match self.last_snapshot {
                Some(s) => {
                    let cs = chunks_from(s.data@, self.config.snapshot_chunk_size as nat, 0);
                    forall|i: int| 0 <= i < msgs.len() ==> #[trigger] self.is_snapshot_chunk_for(peer, s, cs[i], msgs[i])
                },
                None => true,
            }
        } else {
            self.is_append_entries_for(peer, msgs[0])
        }
    }

    /// `msgs` is what replication sends each of `peers`, in order.
    pub open spec fn all_peer_messages_ok(&self, peers: Seq<NodeId>, msgs: Seq<Outbound<T>>) -> bool
        decreases peers.len(),
    {
        if peers.len() == 0 {
            msgs.len() == 0
        } else {
            let c = self.peer_message_count(peers.last());
            &&& msgs.len() >= c
            &&& self.peer_messages_ok(peers.last(), msgs.skip(msgs.len() - c))
            &&& self.all_peer_messages_ok(peers.drop_last(), msgs.take(msgs.len() - c))
        }
    }

    /// Send `AppendEntries` to a specific peer with entries from its
    /// `next_index` onward, or the snapshot when those entries were compacted.
    ///
    /// This is the core replication mechanism: the leader sends log entries
    /// that the peer is missing. If the peer has no missing entries, this
    /// acts as a heartbeat. A non-leader sends nothing.
    pub fn replicate_to_peer(&self, peer_id: NodeId) -> (r: Vec<Outbound<T>>)
        requires
            self.wf(),
        ensures
            self.peer_messages_ok(peer_id, r@),
    {
        let mut out = Vec::new();
        self.replicate_into(peer_id, &mut out);
        assert(out@.skip(0) =~= out@);
        out
    }

    /// Send `AppendEntries` (or snapshots) to every configured peer, in the
    /// configured order. A non-leader sends nothing.
    pub fn send_append_entries_to_all(&self) -> (r: Vec<Outbound<T>>)
        requires
            self.wf(),
        ensures
            self.all_peer_messages_ok(self.peers_spec(), r@),
    {
        let mut out: Vec<Outbound<T>> = Vec::new();
        if self.state != RaftState::Leader {
            proof {
                self.lemma_no_messages_unless_leader(self.peers_spec());
            }
            return out;
        }
        let peers = self.peers();
        let mut i: usize = 0;
        while i < peers.len()
            invariant
                self.wf(),
                peers@ == self.peers_spec(),
                0 <= i <= peers@.len(),
                self.all_peer_messages_ok(peers@.take(i as int), out@),
            decreases peers@.len() - i,
        {
            let ghost before = out@;
            let peer = peers[i];
            self.replicate_into(peer, &mut out);
            proof {
                let c = self.peer_message_count(peer);
                let ps = peers@.take(i as int + 1);
                assert(ps.drop_last() =~= peers@.take(i as int));
                assert(ps.last() == peer);
                assert(out@.take(out@.len() - c) =~= before);
            }
            i = i + 1;
        }
        proof {
            assert(peers@.take(peers@.len() as int) =~= peers@);
        }
        out
    }

    /// Heartbeats are the regular replication messages to every peer.
    pub fn send_heartbeats(&self) -> (r: Vec<Outbound<T>>)
        requires
            self.wf(),
        ensures
            self.all_peer_messages_ok(self.peers_spec(), r@),
    {
        self.send_append_entries_to_all()
    }

    proof fn lemma_no_messages_unless_leader(&self, peers: Seq<NodeId>)
        requires
            self.state != RaftState::Leader,
        ensures
            self.all_peer_messages_ok(peers, Seq::empty()),
        decreases peers.len(),
    {
        if peers.len() > 0 {
            self.lemma_no_messages_unless_leader(peers.drop_last());
            assert(Seq::<Outbound<T>>::empty().take(0) =~= Seq::<Outbound<T>>::empty());
            assert(Seq::<Outbound<T>>::empty().skip(0) =~= Seq::<Outbound<T>>::empty());
        }
    }

    /// The leader's own vote towards a quorum: one while it is a member.
    pub open spec fn own_vote(&self) -> nat {
        if self.membership.member_set().contains(self.config.node_id) {
            1
        } else {
            0
        }
    }

    /// Index `n` may be committed by this leader: it holds an entry of the
    /// current term there, and a quorum of the members (the leader counting
    /// itself while it is one) has replicated up to it.
    pub open spec fn committable(&self, n: nat) -> bool {
        &&& self.log@.term_at(n as int) == Some(self.current_term)
        &&& match self.leader_state {
            Some(ls) => self.own_vote() + count_at_least(ls.match_index.pairs(), n as u64) >= self.quorum_spec(),
            None => false,
        }
    }

    /// The highest committable index in `(lo, n]`, or `lo` when there is none.
    pub open spec fn highest_committable(&self, n: nat, lo: nat) -> nat
        decreases n,
    {
        if n <= lo {
            lo
        } else if self.committable(n) {
            n
        } else {
            self.highest_committable((n - 1) as nat, lo)
        }
    }

    /// The highest committable index lies between `lo` and `n` (when above
    /// `lo`), and is committable when above `lo`.
    pub proof fn lemma_highest_bounds(&self, n: nat, lo: nat)
        ensures
            self.highest_committable(n, lo) >= lo,
            n >= lo ==> self.highest_committable(n, lo) <= n,
            self.highest_committable(n, lo) > lo ==> self.committable(self.highest_committable(n, lo)),
        decreases n,
    {
        if n > lo && !self.committable(n) {
            self.lemma_highest_bounds((n - 1) as nat, lo);
        }
    }

    /// The commit index after `advance_commit_index`.
    pub open spec fn advanced_commit(&self) -> nat {
        if self.state == RaftState::Leader && self.leader_state is Some {
            self.highest_committable(self.log@.last_index(), self.volatile.commit_index.0 as nat)
        } else {
            self.volatile.commit_index.0 as nat
        }
    }

    /// The node with its commit index advanced as far as a majority allows.
    pub open spec fn with_advanced_commit(&self) -> RaftNode<T> {
        RaftNode {
            volatile: super::state::VolatileState {
                commit_index: LogIndex(self.advanced_commit() as u64),
                ..self.volatile
            },
            ..*self
        }
    }

    /// `new` is `old` once a membership change that `old` has committed
    /// takes effect: it is no longer pending and the generation goes up,
    /// and a leader that removed itself steps down. Without such a change
    /// nothing happens.
    pub open spec fn membership_settled(old: &RaftNode<T>, new: &RaftNode<T>) -> bool {
        match old.membership.pending_spec() {
            Some((idx, c)) => if old.state == RaftState::Leader && idx.0 <= old.volatile.commit_index.0 {
                &&& new.membership.wf()
                &&& new.membership.member_seq() == old.membership.member_seq()
                &&& new.membership.member_set() == old.membership.member_set()
                &&& new.membership.pending_spec() is None
                &&& new.membership.generation_spec() == old.membership.generation_spec() + 1
                &&& if c == MembershipChange::RemoveServer(old.config.node_id) {
                    *new == (RaftNode {
                        state: RaftState::Follower,
                        leader_state: None,
                        current_leader: None,
                        membership: new.membership,
                        ..*old
                    })
                } else {
                    *new == (RaftNode { membership: new.membership, ..*old })
                }
            } else {
                *new == *old
            },
            None => *new == *old,
        }
    }

    /// Let a committed membership change take effect.
    fn settle_membership(&mut self)
        requires
            old(self).wf(),
        ensures
            final(self).wf(),
            Self::membership_settled(old(self), final(self)),
    {
        if self.state != RaftState::Leader {
            return;
        }
        let (index, removes_self) = match self.membership.pending_change() {
            Some(p) => {
                let removes_self = match &p.change {
                    MembershipChange::RemoveServer(x) => x.0 == self.config.node_id.0,
                    MembershipChange::AddServer(_, _) => false,
                };
                (p.index, removes_self)
            },
            None => {
                return;
            },
        };
        if index.0 > self.volatile.commit_index.0 {
            return;
        }
        self.membership.commit_change();
        if removes_self {
            self.state = RaftState::Follower;
            self.leader_state = None;
            self.current_leader = None;
        }
    }

    /// Advance the commit index based on majority replication.
    ///
    /// The commit index becomes the highest N above it such that a majority
    /// has replicated up to N and `log[N].term == current_term`. Per Raft
    /// safety, only entries from the current term are committed directly;
    /// earlier-term entries are committed indirectly. A membership change
    /// the commit covers then takes effect.
    pub fn advance_commit_index(&mut self)
        requires
            old(self).wf(),
        ensures
            final(self).wf(),
            Self::membership_settled(&old(self).with_advanced_commit(), final(self)),
    {
        self.advance_commit_only();
        self.settle_membership();
    }

    fn advance_commit_only(&mut self)
        requires
            old(self).wf(),
        ensures
            final(self).wf(),
            *final(self) == old(self).with_advanced_commit(),
    {
        if self.state != RaftState::Leader {
            return;
        }
        let leader = match &self.leader_state {
            Some(l) => l,
            None => {
                return;
            },
        };
        let last_index = self.log.last_index();
        let current_commit = self.volatile.commit_index;
        let quorum = self.quorum_size();
        let own: usize = if self.membership.is_member(self.config.node_id) {
            1
        } else {
            0
        };
        let mut new_commit = current_commit;
        let mut n = last_index.0;
        while n > current_commit.0
            invariant_except_break
                self.highest_committable(n as nat, current_commit.0 as nat)
                    == self.highest_committable(last_index.0 as nat, current_commit.0 as nat),
                new_commit == current_commit,
            invariant
                self.wf(),
                self.state == RaftState::Leader,
                self.leader_state == Some(*leader),
                quorum == self.quorum_spec(),
                own == self.own_vote(),
                last_index.0 == self.log@.last_index(),
                current_commit == self.volatile.commit_index,
            ensures
                new_commit.0 == self.highest_committable(last_index.0 as nat, current_commit.0 as nat),
            decreases n,
        {
            let idx = LogIndex(n);
            match self.log.term_at(idx) {
                Some(entry_term) => {
                    if entry_term.0 == self.current_term.0 {
                        let replicated = leader.match_index.count_at_least(idx);
                        if replicated >= quorum - own {
                            new_commit = idx;
                            break;
                        }
                    }
                },
                None => {},
            }
            n = n - 1;
        }
        proof {
            self.lemma_highest_bounds(last_index.0 as nat, current_commit.0 as nat);
        }
        if new_commit.0 > current_commit.0 {
            self.volatile.commit_index = new_commit;
        }
    }

    /// The committed entries not yet applied: those held in
    /// `(last_applied, commit_index]`, in order.
    pub open spec fn to_apply(&self, from: nat, to: nat) -> Seq<LogEntry<T>>
        decreases to - from,
    {
        if to <= from {
            Seq::empty()
        } else if self.log@.holds(to as int) {
            self.to_apply(from, (to - 1) as nat).push(self.log@.at(to as int))
        } else {
            self.to_apply(from, (to - 1) as nat)
        }
    }

    /// Mark all committed entries applied, returning copies of the held
    /// ones from `last_applied + 1` up to `commit_index`, in order, for the
    /// caller to apply (entries already folded into a snapshot are skipped).
    pub fn apply_committed_entries(&mut self) -> (r: Vec<LogEntry<T>>)
        requires
            old(self).wf(),
        ensures
            final(self).wf(),
            entries_cloned(old(self).to_apply(old(self).volatile.last_applied.0 as nat, old(self).volatile.commit_index.0 as nat), r@),
            *final(self) == (RaftNode {
                volatile: super::state::VolatileState {
                    last_applied: if old(self).volatile.last_applied.0 < old(self).volatile.commit_index.0 {
                        old(self).volatile.commit_index
                    } else {
                        old(self).volatile.last_applied
                    },
                    ..old(self).volatile
                },
                ..*old(self)
            }),
    {
        let mut applied: Vec<LogEntry<T>> = Vec::new();
        let commit = self.volatile.commit_index.0;
        let first = self.volatile.last_applied.0;
        let mut last = first;
        while last < commit
            invariant
                self.wf(),
                first <= last,
                last <= commit || last == first,
                entries_cloned(self.to_apply(first as nat, last as nat), applied@),
            decreases commit - last,
        {
            last = last + 1;
            let idx = LogIndex(last);
            match self.log.get(idx) {
                Some(entry) => {
                    let c = entry.clone();
                    applied.push(c);
                },
                None => {},
            }
            proof {
                let prev = self.to_apply(first as nat, (last - 1) as nat);
                assert forall|i: int| 0 <= i < prev.len() implies #[trigger] entry_cloned(self.to_apply(first as nat, last as nat)[i], applied@[i]) by {
                    assert(entry_cloned(prev[i], applied@[i]));
                }
            }
        }
        if last > first {
            self.volatile.last_applied = LogIndex(last);
        }
        applied
    }

    /// Apply committed entries: mark them applied and return copies of their
    /// commands, in order.
    pub fn apply_committed(&mut self) -> (r: Vec<T>)
        requires
            old(self).wf(),
        ensures
            final(self).wf(),
            r@.len() == old(self).to_apply(old(self).volatile.last_applied.0 as nat, old(self).volatile.commit_index.0 as nat).len(),
            forall|i: int| 0 <= i < r@.len() ==> cloned(
                #[trigger] old(self).to_apply(old(self).volatile.last_applied.0 as nat, old(self).volatile.commit_index.0 as nat)[i].command,
                r@[i],
            ),
            final(self).volatile.last_applied == (if old(self).volatile.last_applied.0 < old(self).volatile.commit_index.0 {
                old(self).volatile.commit_index
            } else {
                old(self).volatile.last_applied
            }),
            final(self).volatile.commit_index == old(self).volatile.commit_index,
            final(self).log == old(self).log,
    {
        let mut applied: Vec<T> = Vec::new();
        let commit = self.volatile.commit_index.0;
        let first = self.volatile.last_applied.0;
        let mut last = first;
        while last < commit
            invariant
                self.wf(),
                first <= last,
                last <= commit || last == first,
                applied@.len() == self.to_apply(first as nat, last as nat).len(),
                forall|i: int| 0 <= i < applied@.len() ==> cloned(#[trigger] self.to_apply(first as nat, last as nat)[i].command, applied@[i]),
            decreases commit - last,
        {
            last = last + 1;
            let idx = LogIndex(last);
            match self.log.get(idx) {
                Some(entry) => {
                    let c = entry.command.clone();
                    applied.push(c);
                },
                None => {},
            }
            proof {
                let prev = self.to_apply(first as nat, (last - 1) as nat);
                assert forall|i: int| 0 <= i < prev.len() implies cloned(#[trigger] self.to_apply(first as nat, last as nat)[i].command, applied@[i]) by {
                    assert(cloned(prev[i].command, applied@[i]));
                }
            }
        }
        if last > first {
            self.volatile.last_applied = LogIndex(last);
        }
        applied
    }

    /// Append a new command to the leader's log and start replication.
    ///
    /// Returns the log index of the new entry (or `None` if this node is not
    /// the leader) and the replication messages to send.
    pub fn client_request(&mut self, command: T) -> (r: (Option<LogIndex>, Vec<Outbound<T>>))
        requires
            old(self).wf(),
            old(self).log@.last_index() + 1 < u64::MAX,
        ensures
            final(self).wf(),
            if old(self).state == RaftState::Leader {
                let idx = LogIndex((old(self).log@.last_index() + 1) as u64);
                &&& r.0 == Some(idx)
                &&& final(self).log@ == (super::log::LogModel {
                    entries: old(self).log@.entries.push(LogEntry { term: old(self).current_term, index: idx, command }),
                    ..old(self).log@
                })
                &&& *final(self) == (RaftNode { log: final(self).log, ..*old(self) })
                &&& final(self).all_peer_messages_ok(final(self).peers_spec(), r.1@)
            } else {
                &&& r.0 is None
                &&& r.1@.len() == 0
                &&& *final(self) == *old(self)
            },
    {
        if self.state != RaftState::Leader {
            return (None, Vec::new());
        }
        let index = LogIndex(self.log.last_index().0 + 1);
        let entry = LogEntry { term: self.current_term, index, command };
        self.log.append(entry);
        let msgs = self.send_append_entries_to_all();
        (Some(index), msgs)
    }

    /// The commit index holds an entry of the current term: this leader has
    /// committed in its own term.
    pub open spec fn committed_in_current_term(&self) -> bool {
        &&& self.volatile.commit_index.0 > 0
        &&& self.log@.term_at(self.volatile.commit_index.0 as int) == Some(self.current_term)
    }

    /// Whether an entry of the current term has been committed.
    pub fn has_committed_in_current_term(&self) -> (r: bool)
        requires
            self.wf(),
        ensures
            r == self.committed_in_current_term(),
    {
        let ci = self.volatile.commit_index;
        if ci.0 == 0 {
            return false;
        }
        match self.log.term_at(ci) {
            Some(t) => t.0 == self.current_term.0,
            None => false,
        }
    }

    /// What a proposal of `change` gives: the index its entry goes to, or
    /// why it is refused. Only a leader that has committed in its current
    /// term and has no change pending may propose; a server can only be
    /// added if it is not a member, and removed if it is one and not the
    /// last.
    pub open spec fn proposal_outcome(&self, change: MembershipChange) -> Result<LogIndex, MembershipError> {
        let members = self.membership.member_set();
        if self.state != RaftState::Leader {
            Err(MembershipError::NotLeader)
        } else if !self.committed_in_current_term() {
            Err(MembershipError::NoCurrentTermCommit)
        } else if let Some((pending_index, _)) = self.membership.pending_spec() {
            Err(MembershipError::ChangePending(pending_index))
        } else {
            match change {
                MembershipChange::AddServer(n, _) => if members.contains(n) {
                    Err(MembershipError::AlreadyMember(n))
                } else {
                    Ok(LogIndex((self.log@.last_index() + 1) as u64))
                },
                MembershipChange::RemoveServer(n) => if !members.contains(n) {
                    Err(MembershipError::NotMember(n))
                } else if members.len() == 1 {
                    Err(MembershipError::CannotRemoveLastMember)
                } else {
                    Ok(LogIndex((self.log@.last_index() + 1) as u64))
                },
            }
        }
    }

    /// The leader's bookkeeping once `change`, whose entry is at `idx`,
    /// takes effect: an added server is to be sent entries after the new
    /// one and has replicated nothing; a removed one is forgotten.
    pub open spec fn leader_state_after_change(
        old: Option<LeaderState>,
        new: Option<LeaderState>,
        change: MembershipChange,
        idx: LogIndex,
    ) -> bool {
        match old {
            Some(ols) => new matches Some(nls) && nls.wf() && match change {
                MembershipChange::AddServer(n, _) => {
                    &&& nls.next_index@ == ols.next_index@.insert(n, LogIndex((idx.0 + 1) as u64))
                    &&& nls.match_index@ == ols.match_index@.insert(n, LogIndex(0))
                },
                MembershipChange::RemoveServer(n) => {
                    &&& nls.next_index@ == ols.next_index@.remove(n)
                    &&& nls.match_index@ == ols.match_index@.remove(n)
                },
            },
            None => new is None,
        }
    }

    /// `new` is `old` once it has taken a proposal of `change`: `command`
    /// is appended to the log, the new membership takes effect with the
    /// change pending at the new entry, the leader's bookkeeping follows,
    /// and the election tracker counts over the new members.
    pub open spec fn proposal_taken(old: &RaftNode<T>, new: &RaftNode<T>, change: MembershipChange, command: T) -> bool {
        let idx = LogIndex((old.log@.last_index() + 1) as u64);
        &&& new.log@ == (super::log::LogModel {
            entries: old.log@.entries.push(LogEntry { term: old.current_term, index: idx, command }),
            ..old.log@
        })
        &&& begun(old.membership, new.membership, idx, change)
        &&& Self::leader_state_after_change(old.leader_state, new.leader_state, change, idx)
        &&& new.election_tracker.votes() == Set::<NodeId>::empty()
        &&& *new == (RaftNode {
            log: new.log,
            membership: new.membership,
            leader_state: new.leader_state,
            election_tracker: new.election_tracker,
            ..*old
        })
    }

    /// Propose a membership change (single-server change).
    ///
    /// A leader that has committed an entry in its current term, with no
    /// change pending, appends `command` (the entry that carries the change)
    /// and lets the new membership take effect at once: quorums count over
    /// it, an added server is replicated to, a removed one no longer. The
    /// change is pending until its entry commits. Returns the entry's index,
    /// or why the change is refused (nothing changes then), with the
    /// replication messages to send.
    pub fn propose_membership_change(&mut self, change: MembershipChange, command: T) -> (r: (
        Result<LogIndex, MembershipError>,
        Vec<Outbound<T>>,
    ))
        requires
            old(self).wf(),
            old(self).log@.last_index() + 1 < u64::MAX,
            old(self).membership.generation_spec() < u64::MAX,
        ensures
            final(self).wf(),
            r.0 == old(self).proposal_outcome(change),
            r.0 is Err ==> *final(self) == *old(self) && r.1@.len() == 0,
            r.0 is Ok ==> Self::proposal_taken(old(self), final(self), change, command),
            r.0 is Ok ==> final(self).all_peer_messages_ok(final(self).peers_spec(), r.1@),
    {
        if self.state != RaftState::Leader {
            return (Err(MembershipError::NotLeader), Vec::new());
        }
        if !self.has_committed_in_current_term() {
            return (Err(MembershipError::NoCurrentTermCommit), Vec::new());
        }
        match self.membership.pending_change() {
            Some(p) => {
                return (Err(MembershipError::ChangePending(p.index)), Vec::new());
            },
            None => {},
        }
        match &change {
            MembershipChange::AddServer(n, _) => {
                if self.membership.is_member(*n) {
                    return (Err(MembershipError::AlreadyMember(*n)), Vec::new());
                }
            },
            MembershipChange::RemoveServer(n) => {
                if !self.membership.is_member(*n) {
                    return (Err(MembershipError::NotMember(*n)), Vec::new());
                }
                if self.membership.member_count() == 1 {
                    return (Err(MembershipError::CannotRemoveLastMember), Vec::new());
                }
            },
        }
        let index = LogIndex(self.log.last_index().0 + 1);
        self.log.append(LogEntry { term: self.current_term, index, command });
        match &mut self.leader_state {
            Some(ls) => {
                match &change {
                    MembershipChange::AddServer(n, _) => {
                        ls.next_index.insert(*n, LogIndex(index.0 + 1));
                        ls.match_index.insert(*n, LogIndex(0));
                    },
                    MembershipChange::RemoveServer(n) => {
                        ls.next_index.remove(*n);
                        ls.match_index.remove(*n);
                    },
                }
            },
            None => {},
        }
        self.membership.begin_change(index, change);
        self.election_tracker = ElectionTracker::new(self.membership.member_count());
        let msgs = self.send_append_entries_to_all();
        (Ok(index), msgs)
    }

    fn push_snapshot_chunks(&self, peer: NodeId, snap: &Snapshot, out: &mut Vec<Outbound<T>>)
        requires
            snap.data@.len() <= u64::MAX,
        ensures
            final(out)@.len() == old(out)@.len() + chunks_from(snap.data@, self.config.snapshot_chunk_size as nat, 0).len(),
            final(out)@.take(old(out)@.len() as int) == old(out)@,
            forall|i: int| 0 <= i < chunks_from(snap.data@, self.config.snapshot_chunk_size as nat, 0).len() ==> #[trigger] self.is_snapshot_chunk_for(
                peer,
                *snap,
                chunks_from(snap.data@, self.config.snapshot_chunk_size as nat, 0)[i],
                final(out)@[old(out)@.len() + i],
            ),
    {
        let ghost cs = chunks_from(snap.data@, self.config.snapshot_chunk_size as nat, 0);
        let ghost start = out@.len();
        let len = snap.data.len();
        let size = self.config.snapshot_chunk_size;
        let mut off: usize = 0;
        let mut emitted: Ghost<nat> = Ghost(0);
        loop
            invariant_except_break
                emitted@ + chunks_from(snap.data@, size as nat, off as nat).len() == cs.len(),
                forall|j: int| 0 <= j < chunks_from(snap.data@, size as nat, off as nat).len() ==>
                    #[trigger] chunks_from(snap.data@, size as nat, off as nat)[j] == cs[emitted@ + j],
            invariant
                off <= len,
                len == snap.data@.len(),
                size == self.config.snapshot_chunk_size,
                out@.len() == start + emitted@,
                out@.take(start as int) == old(out)@,
                start == old(out)@.len(),
                cs == chunks_from(snap.data@, self.config.snapshot_chunk_size as nat, 0),
                len <= u64::MAX,
                forall|i: int| 0 <= i < emitted@ ==> #[trigger] self.is_snapshot_chunk_for(peer, *snap, cs[i], out@[start + i]),
            ensures
                emitted@ == cs.len(),
                out@.len() == start + emitted@,
                out@.take(start as int) == old(out)@,
                forall|i: int| 0 <= i < emitted@ ==> #[trigger] self.is_snapshot_chunk_for(peer, *snap, cs[i], out@[start + i]),
            decreases len - off + (if size == 0 || off + size >= len { 0int } else { 1int }),
        {
            let ghost rest = chunks_from(snap.data@, size as nat, off as nat);
            let last = size == 0 || size >= len - off;
            let end = if last { len } else { off + size };
            let chunk = vstd::slice::slice_subrange(snap.data.as_slice(), off, end);
            let data = vstd::slice::slice_to_vec(chunk);
            let msg = InstallSnapshot {
                term: self.current_term,
                leader_id: self.config.node_id,
                last_included_index: snap.last_included_index,
                last_included_term: snap.last_included_term,
                offset: off as u64,
                data,
                done: last,
            };
            let ghost prev_out = out@;
            out.push((peer, RaftMessage::InstallSnapshot(msg)));
            proof {
                assert(rest[0] == cs[emitted@ as int]);
                assert(out@.take(start as int) =~= prev_out.take(start as int));
                assert forall|i: int| 0 <= i < emitted@ + 1 implies #[trigger] self.is_snapshot_chunk_for(peer, *snap, cs[i], out@[start + i]) by {
                    if i < emitted@ {
                        assert(out@[start + i] == prev_out[start + i]);
                    }
                }
            }
            if last {
                proof {
                    assert(rest.len() == 1);
                    emitted@ = emitted@ + 1;
                }
                break;
            }
            proof {
                let next = chunks_from(snap.data@, size as nat, (off + size) as nat);
                assert(rest == seq![rest[0]] + next);
                assert forall|j: int| 0 <= j < next.len() implies #[trigger] next[j] == cs[emitted@ + 1 + j] by {
                    assert(next[j] == rest[j + 1]);
                }
                emitted@ = emitted@ + 1;
            }
            off = end;
        }
    }

    fn replicate_into(&self, peer_id: NodeId, out: &mut Vec<Outbound<T>>)
        requires
            self.wf(),
        ensures
            final(out)@.len() == old(out)@.len() + self.peer_message_count(peer_id),
            final(out)@.take(old(out)@.len() as int) == old(out)@,
            self.peer_messages_ok(peer_id, final(out)@.skip(old(out)@.len() as int)),
    {
        let ghost start = out@.len();
        if self.state != RaftState::Leader {
            assert(out@.skip(start as int) =~= Seq::<Outbound<T>>::empty());
            assert(out@.take(start as int) =~= out@);
            return;
        }
        let leader = match &self.leader_state {
            Some(l) => l,
            None => {
                assert(out@.skip(start as int) =~= Seq::<Outbound<T>>::empty());
                assert(out@.take(start as int) =~= out@);
                return;
            },
        };
        let next_idx = match leader.next_index.get(peer_id) {
            Some(n) => n,
            None => LogIndex(1),
        };
        let off = self.log.offset();
        if off.0 > 0 && next_idx.0 <= off.0 {
            match &self.last_snapshot {
                Some(snap) => {
                    let n = snap.data.len();
                    assert(n <= u64::MAX);
                    self.push_snapshot_chunks(peer_id, snap, out);
                    proof {
                        let cs = chunks_from(snap.data@, self.config.snapshot_chunk_size as nat, 0);
                        let sent = out@.skip(start as int);
                        assert forall|i: int| 0 <= i < sent.len() implies #[trigger] self.is_snapshot_chunk_for(peer_id, *snap, cs[i], sent[i]) by {
                            assert(sent[i] == out@[start + i]);
                        }
                    }
                },
                None => {
                    assert(out@.skip(start as int) =~= Seq::<Outbound<T>>::empty());
                    assert(out@.take(start as int) =~= out@);
                },
            }
            return;
        }
        let prev_log_index = if next_idx.0 > 0 { LogIndex(next_idx.0 - 1) } else { LogIndex(0) };
        let prev_log_term = if prev_log_index.0 > 0 {
            match self.log.term_at(prev_log_index) {
                Some(t) => t,
                None => Term(0),
            }
        } else {
            Term(0)
        };
        let slice = self.log.entries_from(next_idx);
        let entries = clone_entries(slice);
        let ae = AppendEntries {
            term: self.current_term,
            leader_id: self.config.node_id,
            prev_log_index,
            prev_log_term,
            entries,
            leader_commit: self.volatile.commit_index,
        };
        out.push((peer_id, RaftMessage::AppendEntries(ae)));
        proof {
            assert(out@.skip(start as int) =~= seq![out@[start as int]]);
            assert(out@.take(start as int) =~= old(out)@);
        }
    }
}

/// Copies of the given entries, in order.
pub fn clone_entries<T: Clone>(s: &[LogEntry<T>]) -> (r: Vec<LogEntry<T>>)
    ensures
        entries_cloned(s@, r@),
{
    let mut out: Vec<LogEntry<T>> = Vec::new();
    let mut i: usize = 0;
    while i < s.len()
        invariant
            0 <= i <= s@.len(),
            out@.len() == i,
            forall|j: int| 0 <= j < i ==> #[trigger] entry_cloned(s@[j], out@[j]),
        decreases s@.len() - i,
    {
        let c = s[i].clone();
        out.push(c);
        i = i + 1;
    }
    out
}

/// The receiver's buffer after a chunk at `c.0` carrying `c.1`: the first
/// chunk starts it, a later chunk extends it, and is dropped without one.
pub open spec fn chunk_step(buf: Option<Seq<u8>>, c: (nat, Seq<u8>, bool)) -> Option<Seq<u8>> {
    if c.0 == 0 {
        Some(c.1)
    } else {
        match buf {
            Some(b) => Some(b + c.1),
            None => None,
        }
    }
}

/// The receiver's buffer after the chunks `cs`, in order.
pub open spec fn fold_chunks(buf: Option<Seq<u8>>, cs: Seq<(nat, Seq<u8>, bool)>) -> Option<Seq<u8>>
    decreases cs.len(),
{
    if cs.len() == 0 {
        buf
    } else {
        fold_chunks(chunk_step(buf, cs[0]), cs.drop_first())
    }
}

proof fn lemma_fold_from(data: Seq<u8>, size: nat, off: nat, buf: Option<Seq<u8>>)
    requires
        off <= data.len(),
        off == 0 || buf == Some(data.subrange(0, off as int)),
    ensures
        fold_chunks(buf, chunks_from(data, size, off)) == Some(data),
        chunks_from(data, size, off).last().2,
        forall|i: int| 0 <= i < chunks_from(data, size, off).len() - 1 ==> !(#[trigger] chunks_from(data, size, off)[i]).2,
    decreases data.len() - off,
{
    let cs = chunks_from(data, size, off);
    let nb = chunk_step(buf, cs[0]);
    assert(fold_chunks(buf, cs) == fold_chunks(nb, cs.drop_first()));
    if size == 0 || off + size >= data.len() {
        assert(cs[0] == (off, data.subrange(off as int, data.len() as int), true));
        assert(cs.drop_first() =~= Seq::<(nat, Seq<u8>, bool)>::empty());
        if off == 0 {
            assert(data.subrange(0, data.len() as int) =~= data);
        } else {
            assert(data.subrange(0, off as int) + data.subrange(off as int, data.len() as int) =~= data);
        }
    } else {
        let rest = chunks_from(data, size, off + size);
        assert(cs[0] == (off, data.subrange(off as int, (off + size) as int), false));
        assert(cs.drop_first() =~= rest);
        if off == 0 {
            assert(data.subrange(0, size as int) =~= data.subrange(0, (off + size) as int));
        } else {
            assert(data.subrange(0, off as int) + data.subrange(off as int, (off + size) as int) =~= data.subrange(0, (off + size) as int));
        }
        lemma_fold_from(data, size, off + size, nb);
        assert forall|i: int| 0 <= i < cs.len() - 1 implies !(#[trigger] cs[i]).2 by {
            if i > 0 {
                assert(cs[i] == rest[i - 1]);
            }
        }
        assert(cs.last() == rest.last());
    }
}

/// A snapshot sent in chunks is rebuilt whole by the receiver: folding the
/// chunks into its buffer, whatever it held before, yields exactly the
/// snapshot's data; only the last chunk is marked done.
pub proof fn lemma_snapshot_chunks_reassemble(data: Seq<u8>, size: nat, buf: Option<Seq<u8>>)
    ensures
        fold_chunks(buf, chunks_from(data, size, 0)) == Some(data),
        chunks_from(data, size, 0).len() >= 1,
        chunks_from(data, size, 0)[0].0 == 0,
        chunks_from(data, size, 0).last().2,
        forall|i: int| 0 <= i < chunks_from(data, size, 0).len() - 1 ==> !(#[trigger] chunks_from(data, size, 0)[i]).2,
{
    lemma_chunks_nonempty(data, size, 0);
    lemma_fold_from(data, size, 0, buf);
}

impl<T: Clone> RaftNode<T> {
    /// A leader only ever advances its commit index, and only to an index
    /// holding an entry of its current term that a quorum has replicated.
    pub proof fn lemma_commit_advances_safely(&self)
        ensures
            self.advanced_commit() >= self.volatile.commit_index.0,
            self.advanced_commit() > self.volatile.commit_index.0 ==> self.committable(self.advanced_commit()),
            self.advanced_commit() > self.volatile.commit_index.0 ==> self.advanced_commit() <= self.log@.last_index(),
    {
        if self.state == RaftState::Leader && self.leader_state is Some {
            self.lemma_highest_bounds(self.log@.last_index(), self.volatile.commit_index.0 as nat);
        }
    }
}

impl<T: Clone> RaftNode<T> {
    /// A proposed membership change that a newer term rolls back before it
    /// commits leaves the members, the cluster size and the generation as
    /// they were before the proposal, with nothing pending.
    pub proof fn lemma_newer_term_undoes_proposal(
        old: &RaftNode<T>,
        proposed: &RaftNode<T>,
        after: &RaftNode<T>,
        change: MembershipChange,
        command: T,
        t: Term,
    )
        requires
            old.wf(),
            old.proposal_outcome(change) is Ok,
            Self::proposal_taken(old, proposed, change, command),
            Self::term_updated(proposed, after, t),
            t.0 > proposed.current_term.0,
        ensures
            after.membership.member_set() == old.membership.member_set(),
            after.cluster_size_spec() == old.cluster_size_spec(),
            after.membership.pending_spec() is None,
            after.membership.generation_spec() == old.membership.generation_spec(),
            after.state == RaftState::Follower,
    {
        let idx = LogIndex((old.log@.last_index() + 1) as u64);
        super::membership::lemma_rollback_undoes_begin(old.membership, proposed.membership, after.membership, idx, change);
    }

    /// Once a change commits, the members stay those the change made, the
    /// generation goes up by one and nothing is pending; the leader steps
    /// down exactly when the change removed it.
    pub proof fn lemma_commit_settles_membership(old: &RaftNode<T>, new: &RaftNode<T>, idx: LogIndex, c: MembershipChange)
        requires
            old.state == RaftState::Leader,
            old.membership.pending_spec() == Some((idx, c)),
            idx.0 <= old.volatile.commit_index.0,
            Self::membership_settled(old, new),
        ensures
            new.membership.member_set() == old.membership.member_set(),
            new.membership.pending_spec() is None,
            new.membership.generation_spec() == old.membership.generation_spec() + 1,
            new.state == RaftState::Follower <==> c == MembershipChange::RemoveServer(old.config.node_id),
            new.log == old.log,
            new.volatile == old.volatile,
    {
    }
}

} // verus!
