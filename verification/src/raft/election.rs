use vstd::prelude::*;

use super::node_set::NodeSet;
use super::types::{LogIndex, NodeId, RaftConfig, Term};

verus! {

/// Majority of a cluster of `n` nodes.
pub open spec fn majority(n: nat) -> nat {
    n / 2 + 1
}

/// Tracks election-specific state: the votes received in this election.
#[derive(Debug)]
pub struct ElectionTracker {
    votes: NodeSet,
    cluster_size: usize,
}

impl ElectionTracker {
    /// The voters so far.
    pub closed spec fn votes(&self) -> Set<NodeId> {
        self.votes@
    }

    /// The voters so far, in the order their votes arrived.
    pub closed spec fn vote_order(&self) -> Seq<NodeId> {
        self.votes.seq()
    }

    /// Size of the cluster the election runs in.
    pub closed spec fn size(&self) -> nat {
        self.cluster_size as nat
    }

    pub closed spec fn wf(&self) -> bool {
        self.votes.wf()
    }

    /// Create a new election tracker for a cluster of the given size.
    pub fn new(cluster_size: usize) -> (r: Self)
        ensures
            r.wf(),
            r.votes() == Set::<NodeId>::empty(),
            r.vote_order() == Seq::<NodeId>::empty(),
            r.size() == cluster_size,
    {
        let votes = NodeSet::new();
        proof {
            votes.lemma_seq();
        }
        ElectionTracker { votes, cluster_size }
    }

    /// Record a vote from a node. Returns `true` if quorum is now reached.
    pub fn record_vote(&mut self, from: NodeId) -> (r: bool)
        requires
            old(self).wf(),
        ensures
            final(self).wf(),
            final(self).votes() == old(self).votes().insert(from),
            final(self).size() == old(self).size(),
            r == (final(self).votes().len() >= majority(final(self).size())),
    {
        self.votes.insert(from);
        self.has_quorum()
    }

    /// Whether the quorum (majority) has been reached.
    pub fn has_quorum(&self) -> (r: bool)
        requires
            self.wf(),
        ensures
            r == (self.votes().len() >= majority(self.size())),
    {
        self.votes.len() >= self.quorum_size()
    }

    /// Required number of votes for a majority.
    pub fn quorum_size(&self) -> (r: usize)
        ensures
            r == majority(self.size()),
    {
        self.cluster_size / 2 + 1
    }

    /// How many votes have been received.
    pub fn vote_count(&self) -> (r: usize)
        requires
            self.wf(),
        ensures
            r == self.votes().len(),
    {
        self.votes.len()
    }

    /// Reset votes for a new election.
    pub fn reset(&mut self)
        ensures
            final(self).wf(),
            final(self).votes() == Set::<NodeId>::empty(),
            final(self).vote_order() == Seq::<NodeId>::empty(),
            final(self).size() == old(self).size(),
    {
        self.votes = NodeSet::new();
        proof {
            self.votes.lemma_seq();
        }
    }

    /// The nodes that have voted.
    pub fn voters(&self) -> (r: &[NodeId])
        requires
            self.wf(),
        ensures
            r@.to_set() == self.votes(),
            r@.no_duplicates(),
    {
        proof {
            self.votes.lemma_seq();
        }
        self.votes.as_slice()
    }
}

/// Number of the node's peers whose identifier is below its own.
pub open spec fn rank_below(peers: Seq<NodeId>, own: u64) -> nat
    decreases peers.len(),
{
    if peers.len() == 0 {
        0
    } else {
        rank_below(peers.drop_last(), own) + if peers.last().0 < own { 1nat } else { 0nat }
    }
}

/// The node's place in the deterministic succession order: how many cluster
/// members have a lower identifier, and how many members there are.
///
/// Lower identifiers get shorter election timeouts (higher priority).
pub fn election_rank(config: &RaftConfig) -> (r: (usize, usize))
    requires
        config.peers@.len() < usize::MAX,
    ensures
        r.0 == rank_below(config.peers@, config.node_id.0),
        r.1 == config.peers@.len() + 1,
        r.0 < r.1,
{
    let own = config.node_id.0;
    let mut position: usize = 0;
    let mut i: usize = 0;
    while i < config.peers.len()
        invariant
            0 <= i <= config.peers@.len(),
            position == rank_below(config.peers@.take(i as int), own),
            position <= i,
        decreases config.peers@.len() - i,
    {
        proof {
            assert(config.peers@.take(i as int + 1).drop_last() =~= config.peers@.take(i as int));
        }
        if config.peers[i].0 < own {
            position = position + 1;
        }
        i = i + 1;
    }
    proof {
        assert(config.peers@.take(config.peers@.len() as int) =~= config.peers@);
    }
    (position, config.peers.len() + 1)
}

/// A candidate's log (ending at `cand_index` in `cand_term`) is at least as
/// up-to-date as ours: a later last term, or the same last term and a log at
/// least as long.
pub open spec fn up_to_date(cand_term: Term, cand_index: LogIndex, our_term: Term, our_index: LogIndex) -> bool {
    cand_term.0 > our_term.0 || (cand_term.0 == our_term.0 && cand_index.0 >= our_index.0)
}

/// Check whether a candidate's log is at least as up-to-date as ours.
///
/// Compares `last_log_term` first, then `last_log_index`.
pub fn is_log_up_to_date(
    candidate_last_term: Term,
    candidate_last_index: LogIndex,
    our_last_term: Term,
    our_last_index: LogIndex,
) -> (r: bool)
    ensures
        r == up_to_date(candidate_last_term, candidate_last_index, our_last_term, our_last_index),
{
    candidate_last_term.0 > our_last_term.0 || (candidate_last_term.0 == our_last_term.0
        && candidate_last_index.0 >= our_last_index.0)
}

/// "At least as up-to-date" is a total preorder: any two logs compare one
/// way or the other, and the comparison is transitive.
pub proof fn lemma_up_to_date_total_preorder(a_t: Term, a_i: LogIndex, b_t: Term, b_i: LogIndex, c_t: Term, c_i: LogIndex)
    ensures
        up_to_date(a_t, a_i, b_t, b_i) || up_to_date(b_t, b_i, a_t, a_i),
        up_to_date(a_t, a_i, a_t, a_i),
        up_to_date(a_t, a_i, b_t, b_i) && up_to_date(b_t, b_i, c_t, c_i) ==> up_to_date(a_t, a_i, c_t, c_i),
{
}

} // verus!
