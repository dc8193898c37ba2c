use vstd::prelude::*;

use super::election::majority;
use super::node_set::NodeSet;
use super::types::{decimal, LogIndex, NodeId};

verus! {

/// A membership change operation for the Raft cluster: a server (with its
/// network address, as written in configuration) joins, or one leaves.
///
/// Only one membership change can be in progress at a time.
#[derive(Debug, PartialEq, Eq)]
pub enum MembershipChange {
    AddServer(NodeId, String),
    RemoveServer(NodeId),
}

impl Clone for MembershipChange {
    fn clone(&self) -> (r: Self)
        ensures
            r == *self,
    {
        match self {
            MembershipChange::AddServer(id, addr) => {
                let a = addr.clone();
                MembershipChange::AddServer(*id, a)
            },
            MembershipChange::RemoveServer(id) => MembershipChange::RemoveServer(*id),
        }
    }
}

/// The node a change is about.
pub open spec fn change_node(c: MembershipChange) -> NodeId {
    match c {
        MembershipChange::AddServer(n, _) => n,
        MembershipChange::RemoveServer(n) => n,
    }
}

/// The members once `c` takes effect.
pub open spec fn apply_change(members: Set<NodeId>, c: MembershipChange) -> Set<NodeId> {
    match c {
        MembershipChange::AddServer(n, _) => members.insert(n),
        MembershipChange::RemoveServer(n) => members.remove(n),
    }
}

/// The members once `c` is undone.
pub open spec fn undo_change(members: Set<NodeId>, c: MembershipChange) -> Set<NodeId> {
    match c {
        MembershipChange::AddServer(n, _) => members.remove(n),
        MembershipChange::RemoveServer(n) => members.insert(n),
    }
}

/// The members, in the order they joined, once `c` takes effect: an added
/// server comes last.
pub open spec fn seq_apply(members: Seq<NodeId>, c: MembershipChange) -> Seq<NodeId> {
    match c {
        MembershipChange::AddServer(n, _) => if members.contains(n) {
            members
        } else {
            members.push(n)
        },
        MembershipChange::RemoveServer(n) => members.filter(|x: NodeId| x != n),
    }
}

/// The members, in the order they joined, once `c` is undone: a removed
/// server comes back last.
pub open spec fn seq_undo(members: Seq<NodeId>, c: MembershipChange) -> Seq<NodeId> {
    match c {
        MembershipChange::AddServer(n, _) => members.filter(|x: NodeId| x != n),
        MembershipChange::RemoveServer(n) => if members.contains(n) {
            members
        } else {
            members.push(n)
        },
    }
}

/// Whether `c` changes `members`: an added server is not a member yet, a
/// removed one is.
pub open spec fn changes_members(members: Set<NodeId>, c: MembershipChange) -> bool {
    match c {
        MembershipChange::AddServer(n, _) => !members.contains(n),
        MembershipChange::RemoveServer(n) => members.contains(n),
    }
}

/// `new` is `old` once `change`, appended at `index`, has begun: the change
/// takes effect and is pending, and whether it changed the members is
/// remembered.
pub open spec fn begun(old: ClusterMembership, new: ClusterMembership, index: LogIndex, change: MembershipChange) -> bool {
    &&& new.wf()
    &&& new.member_set() == apply_change(old.member_set(), change)
    &&& new.member_seq() == seq_apply(old.member_seq(), change)
    &&& new.generation_spec() == old.generation_spec()
    &&& new.pending_spec() == Some((index, change))
    &&& new.pending_changed_members() == changes_members(old.member_set(), change)
}

/// `new` is `old` with its pending change, if any, undone: what the change
/// did to the members is reverted (nothing, when it changed nothing),
/// nothing is pending any more and the generation stays.
pub open spec fn rolled_back(old: ClusterMembership, new: ClusterMembership) -> bool {
    &&& new.wf()
    &&& new.pending_spec() is None
    &&& new.generation_spec() == old.generation_spec()
    &&& new.member_set() == (match old.pending_spec() {
        Some(p) => if old.pending_changed_members() {
            undo_change(old.member_set(), p.1)
        } else {
            old.member_set()
        },
        None => old.member_set(),
    })
    &&& new.member_seq() == (match old.pending_spec() {
        Some(p) => if old.pending_changed_members() {
            seq_undo(old.member_seq(), p.1)
        } else {
            old.member_seq()
        },
        None => old.member_seq(),
    })
}

/// A membership change that has been appended to the log but not yet committed.
#[derive(Debug)]
pub struct PendingChange {
    /// The log index where this change was appended.
    pub index: LogIndex,
    /// The change itself.
    pub change: MembershipChange,
}

/// Errors that can occur when proposing a membership change.
#[derive(Debug)]
pub enum MembershipError {
    NotLeader,
    ChangePending(LogIndex),
    NoCurrentTermCommit,
    AlreadyMember(NodeId),
    NotMember(NodeId),
    CannotRemoveLastMember,
}

/// The message of a membership error, as it is displayed.
pub open spec fn membership_error_message(e: MembershipError) -> Seq<char> {
    match e {
        MembershipError::NotLeader => "not the leader"@,
        MembershipError::ChangePending(i) => "a membership change is already pending at index "@ + decimal(i.0 as nat),
        MembershipError::NoCurrentTermCommit => "leader has not committed an entry in the current term yet"@,
        MembershipError::AlreadyMember(n) => "server "@ + decimal(n.0 as nat) + " is already a member"@,
        MembershipError::NotMember(n) => "server "@ + decimal(n.0 as nat) + " is not a member"@,
        MembershipError::CannotRemoveLastMember => "cannot remove the last member"@,
    }
}

impl MembershipError {
    /// The error's message, as it is displayed.
    pub fn to_string(&self) -> (s: String)
        ensures
            s@ == membership_error_message(*self),
    {
        match self {
            MembershipError::NotLeader => "not the leader".to_owned(),
            MembershipError::ChangePending(i) => {
                let mut s = "a membership change is already pending at index ".to_owned();
                let n = i.to_string();
                s.append(n.as_str());
                s
            },
            MembershipError::NoCurrentTermCommit => "leader has not committed an entry in the current term yet".to_owned(),
            MembershipError::AlreadyMember(n) => {
                let mut s = "server ".to_owned();
                let d = n.to_string();
                s.append(d.as_str());
                s.append(" is already a member");
                s
            },
            MembershipError::NotMember(n) => {
                let mut s = "server ".to_owned();
                let d = n.to_string();
                s.append(d.as_str());
                s.append(" is not a member");
                s
            },
            MembershipError::CannotRemoveLastMember => "cannot remove the last member".to_owned(),
        }
    }
}

/// Tracks the current cluster membership and pending changes.
#[derive(Debug)]
pub struct ClusterMembership {
    /// The current set of voting members (including self).
    members: NodeSet,
    /// Generation counter, incremented on each committed membership change.
    generation: u64,
    /// The pending (uncommitted) membership change, if any.
    pending_change: Option<PendingChange>,
    /// Whether the pending change altered the members (a rollback undoes
    /// only what it did).
    pending_changed: bool,
}

impl ClusterMembership {
    pub closed spec fn wf(&self) -> bool {
        self.members.wf()
    }

    /// The current voting members.
    pub closed spec fn member_set(&self) -> Set<NodeId> {
        self.members@
    }

    /// The members in the order they joined.
    pub closed spec fn member_seq(&self) -> Seq<NodeId> {
        self.members.seq()
    }

    pub closed spec fn generation_spec(&self) -> u64 {
        self.generation
    }

    /// Whether the pending change altered the members.
    pub closed spec fn pending_changed_members(&self) -> bool {
        self.pending_changed
    }

    pub closed spec fn pending_spec(&self) -> Option<(LogIndex, MembershipChange)> {
        match self.pending_change {
            Some(p) => Some((p.index, p.change)),
            None => None,
        }
    }

    /// The member sequence holds the member set, once each.
    pub proof fn lemma_members(&self)
        requires
            self.wf(),
        ensures
            self.member_seq().no_duplicates(),
            self.member_seq().to_set() == self.member_set(),
            self.member_seq().len() == self.member_set().len(),
            self.member_set().finite(),
    {
        self.members.lemma_seq();
    }

    /// Create a new membership from the initial cluster configuration:
    /// this node (`self_id`) and the other voting members (`peers`).
    pub fn new(self_id: NodeId, peers: &[NodeId]) -> (r: Self)
        ensures
            r.wf(),
            r.member_set() == peers@.to_set().insert(self_id),
            peers@.no_duplicates() && !peers@.contains(self_id) ==> r.member_seq() == seq![self_id] + peers@,
            r.generation_spec() == 0,
            r.pending_spec() is None,
            !r.pending_changed_members(),
    {
        let mut members = NodeSet::new();
        members.insert(self_id);
        let ghost distinct = peers@.no_duplicates() && !peers@.contains(self_id);
        assert(seq![self_id] + peers@.take(0) =~= seq![self_id]);
        let mut i: usize = 0;
        while i < peers.len()
            invariant
                0 <= i <= peers@.len(),
                members.wf(),
                members@ == peers@.take(i as int).to_set().insert(self_id),
                distinct == (peers@.no_duplicates() && !peers@.contains(self_id)),
                distinct ==> members.seq() == seq![self_id] + peers@.take(i as int),
            decreases peers@.len() - i,
        {
            proof {
                if distinct {
                    assert(peers@[i as int] != self_id);
                    assert(!peers@.take(i as int).contains(peers@[i as int]));
                    assert(!peers@.take(i as int).to_set().contains(peers@[i as int]));
                }
            }
            members.insert(peers[i]);
            proof {
                if distinct {
                    assert(seq![self_id] + peers@.take(i as int + 1) =~= (seq![self_id] + peers@.take(i as int)).push(peers@[i as int]));
                }
            }
            proof {
                assert(peers@.take(i as int + 1) =~= peers@.take(i as int).push(peers@[i as int]));
                peers@.take(i as int).lemma_push_to_set_commute(peers@[i as int]);
            }
            i = i + 1;
        }
        proof {
            assert(peers@.take(peers@.len() as int) =~= peers@);
        }
        ClusterMembership { members, generation: 0, pending_change: None, pending_changed: false }
    }

    /// The current voting members.
    pub fn members(&self) -> (r: &[NodeId])
        requires
            self.wf(),
        ensures
            r@ == self.member_seq(),
            r@.to_set() == self.member_set(),
    {
        proof {
            self.members.lemma_seq();
        }
        self.members.as_slice()
    }

    /// The number of voting members.
    pub fn member_count(&self) -> (r: usize)
        requires
            self.wf(),
        ensures
            r == self.member_set().len(),
    {
        self.members.len()
    }

    /// Majority quorum size for the current membership.
    pub fn quorum_size(&self) -> (r: usize)
        requires
            self.wf(),
        ensures
            r == majority(self.member_set().len()),
    {
        self.members.len() / 2 + 1
    }

    /// The current generation counter.
    pub fn generation(&self) -> (r: u64)
        ensures
            r == self.generation_spec(),
    {
        self.generation
    }

    /// Whether a membership change is currently pending (uncommitted).
    pub fn has_pending_change(&self) -> (r: bool)
        ensures
            r == self.pending_spec() is Some,
    {
        self.pending_change.is_some()
    }

    /// The pending change, if any.
    pub fn pending_change(&self) -> (r: Option<&PendingChange>)
        ensures
            match r {
                Some(p) => self.pending_spec() == Some((p.index, p.change)),
                None => self.pending_spec() is None,
            },
    {
        match &self.pending_change {
            Some(p) => Some(p),
            None => None,
        }
    }

    /// Whether a node is a voting member.
    pub fn is_member(&self, node_id: NodeId) -> (r: bool)
        ensures
            r == self.member_set().contains(node_id),
    {
        self.members.contains(node_id)
    }

    /// Record that a membership change has been appended to the log at `index`.
    ///
    /// The new configuration takes effect immediately, not when committed.
    pub fn begin_change(&mut self, index: LogIndex, change: MembershipChange)
        requires
            old(self).wf(),
        ensures
            begun(*old(self), *final(self), index, change),
    {
        proof {
            self.members.lemma_seq();
        }
        let changed = match &change {
            MembershipChange::AddServer(node_id, _) => {
                let was = self.members.contains(*node_id);
                self.members.insert(*node_id);
                !was
            },
            MembershipChange::RemoveServer(node_id) => {
                let was = self.members.contains(*node_id);
                self.members.remove(*node_id);
                was
            },
        };
        self.pending_change = Some(PendingChange { index, change });
        self.pending_changed = changed;
    }

    /// Mark the pending membership change as committed: the generation
    /// counter goes up and nothing is pending any more.
    pub fn commit_change(&mut self)
        requires
            old(self).wf(),
            old(self).pending_spec() is Some ==> old(self).generation_spec() < u64::MAX,
        ensures
            final(self).wf(),
            final(self).member_set() == old(self).member_set(),
            final(self).member_seq() == old(self).member_seq(),
            final(self).pending_spec() is None,
            final(self).generation_spec() == (if old(self).pending_spec() is Some {
                (old(self).generation_spec() + 1) as u64
            } else {
                old(self).generation_spec()
            }),
    {
        if self.pending_change.is_some() {
            self.generation = self.generation + 1;
            self.pending_change = None;
        }
        self.pending_changed = false;
    }

    /// Roll back the pending membership change (e.g. on leader step-down),
    /// reverting the membership to what it was before `begin_change`: a
    /// server the change added is removed again, one it removed is added
    /// back, and a change that altered nothing leaves the members alone.
    pub fn rollback_change(&mut self)
        requires
            old(self).wf(),
        ensures
            rolled_back(*old(self), *final(self)),
    {
        proof {
            self.members.lemma_seq();
        }
        let changed = self.pending_changed;
        self.pending_changed = false;
        match self.pending_change.take() {
            Some(pending) => if changed {
                match &pending.change {
                    MembershipChange::AddServer(node_id, _) => {
                        self.members.remove(*node_id);
                    },
                    MembershipChange::RemoveServer(node_id) => {
                        self.members.insert(*node_id);
                    },
                }
            },
            None => {},
        }
    }

    /// All members except `self_id`.
    pub fn peers(&self, self_id: NodeId) -> (r: Vec<NodeId>)
        requires
            self.wf(),
        ensures
            r@ == self.member_seq().filter(|x: NodeId| x != self_id),
            r@.to_set() == self.member_set().remove(self_id),
    {
        let r = self.members.without(self_id);
        proof {
            self.members.lemma_seq();
            let s = self.members.seq();
            let f = |x: NodeId| x != self_id;
            assert forall|x: NodeId| r@.to_set().contains(x) <==> self.members@.remove(self_id).contains(x) by {
                if self.members@.remove(self_id).contains(x) {
                    assert(s.contains(x));
                    let j = choose|j: int| 0 <= j < s.len() && s[j] == x;
                    s.lemma_filter_contains(f, j);
                }
                if r@.to_set().contains(x) {
                    s.lemma_filter_contains_rev(f, x);
                    let j = choose|j: int| 0 <= j < s.filter(f).len() && s.filter(f)[j] == x;
                    s.lemma_filter_pred(f, j);
                }
            }
            assert(r@.to_set() =~= self.members@.remove(self_id));
        }
        r
    }
}

/// Undoing a change that altered the members gives them back; a change
/// that altered nothing left them as they were.
proof fn lemma_undo_after_apply(members: Set<NodeId>, c: MembershipChange)
    ensures
        changes_members(members, c) ==> undo_change(apply_change(members, c), c) == members,
        !changes_members(members, c) ==> apply_change(members, c) == members,
{
    match c {
        MembershipChange::AddServer(n, _) => {
            if changes_members(members, c) {
                assert(members.insert(n).remove(n) =~= members);
            } else {
                assert(members.insert(n) =~= members);
            }
        },
        MembershipChange::RemoveServer(n) => {
            if changes_members(members, c) {
                assert(members.remove(n).insert(n) =~= members);
            } else {
                assert(members.remove(n) =~= members);
            }
        },
    }
}

/// Rolling back right after `begin_change` reverts the membership: the
/// members and the generation are those before the change, and nothing is
/// pending, whatever the change was.
pub proof fn lemma_rollback_undoes_begin(
    before: ClusterMembership,
    begun_m: ClusterMembership,
    after: ClusterMembership,
    index: LogIndex,
    change: MembershipChange,
)
    requires
        before.wf(),
        begun(before, begun_m, index, change),
        rolled_back(begun_m, after),
    ensures
        after.member_set() == before.member_set(),
        after.generation_spec() == before.generation_spec(),
        after.pending_spec() is None,
{
    lemma_undo_after_apply(before.member_set(), change);
}

/// Single-server changes keep quorums overlapping: when the members change
/// by the one server that `c` adds or removes, every majority of the members
/// before the change shares a member with every majority of the members
/// after it. This is what makes one change at a time safe.
pub proof fn lemma_single_change_quorums_overlap(
    members: Set<NodeId>,
    c: MembershipChange,
    before: Set<NodeId>,
    after: Set<NodeId>,
)
    requires
        members.finite(),
        before.subset_of(members),
        after.subset_of(apply_change(members, c)),
        before.len() >= majority(members.len()),
        after.len() >= majority(apply_change(members, c).len()),
    ensures
        exists|n: NodeId| before.contains(n) && after.contains(n),
{
    let changed = apply_change(members, c);
    let n = change_node(c);
    let all = members.union(changed);
    let m = members.len();
    vstd::set::axiom_set_insert_len(members, n);
    vstd::set::axiom_set_remove_len(members, n);
    match c {
        MembershipChange::AddServer(_, _) => {
            assert(all =~= changed);
        },
        MembershipChange::RemoveServer(_) => {
            assert(all =~= members);
        },
    }
    assert(changed.finite());
    assert(all.finite());
    assert(changed.len() == m + 1 || changed.len() == m || changed.len() + 1 == m);
    assert(all.len() == (if changed.len() > m { changed.len() } else { m }));
    vstd::set_lib::lemma_len_subset(before, members);
    vstd::set_lib::lemma_len_subset(after, changed);
    if !(exists|x: NodeId| before.contains(x) && after.contains(x)) {
        assert(before.disjoint(after));
        vstd::set_lib::lemma_set_disjoint_lens(before, after);
        assert((before + after).subset_of(all));
        vstd::set_lib::lemma_len_subset(before + after, all);
        let k = changed.len();
        assert(m / 2 + 1 + k / 2 + 1 > (if k > m { k } else { m })) by (nonlinear_arith)
            requires
                k == m + 1 || k == m || k + 1 == m,
        ;
        assert(false);
    }
}

} // verus!
