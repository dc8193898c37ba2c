use vstd::prelude::*;

use super::types::{LogEntry, LogIndex, NodeId, Term};

verus! {

/// Raft persistent state (must be persisted to stable storage before responding to RPCs).
#[derive(Debug)]
pub struct PersistentState<T> {
    /// Latest term this server has seen.
    pub current_term: Term,
    /// Candidate that received this server's vote in the current term.
    pub voted_for: Option<NodeId>,
    /// The replicated log entries.
    pub log: Vec<LogEntry<T>>,
}

impl<T> Default for PersistentState<T> {
    fn default() -> (r: Self)
        ensures
            r.current_term == Term(0),
            r.voted_for is None,
            r.log@.len() == 0,
    {
        PersistentState { current_term: Term(0), voted_for: None, log: Vec::new() }
    }
}

/// Raft volatile state (kept on all servers, rebuilt after restart).
#[derive(Clone, Copy, Debug, PartialEq, Eq, Structural)]
pub struct VolatileState {
    /// Index of the highest log entry known to be committed.
    pub commit_index: LogIndex,
    /// Index of the highest log entry applied to the state machine.
    pub last_applied: LogIndex,
}

impl Default for VolatileState {
    fn default() -> (r: Self)
        ensures
            r.commit_index == LogIndex(0),
            r.last_applied == LogIndex(0),
    {
        VolatileState { commit_index: LogIndex(0), last_applied: LogIndex(0) }
    }
}

/// Number of pairs in `s` whose index is at least `idx`.
pub open spec fn count_at_least(s: Seq<(NodeId, LogIndex)>, idx: u64) -> nat
    decreases s.len(),
{
    if s.len() == 0 {
        0
    } else {
        count_at_least(s.drop_last(), idx) + if s.last().1.0 >= idx { 1nat } else { 0nat }
    }
}

/// The map that `s` describes, later pairs overriding earlier ones.
pub open spec fn pairs_to_map(s: Seq<(NodeId, LogIndex)>) -> Map<NodeId, LogIndex>
    decreases s.len(),
{
    if s.len() == 0 {
        Map::empty()
    } else {
        pairs_to_map(s.drop_last()).insert(s.last().0, s.last().1)
    }
}

/// No node appears twice among the pairs.
pub open spec fn unique_keys(s: Seq<(NodeId, LogIndex)>) -> bool {
    forall|i: int, j: int| 0 <= i < j < s.len() ==> s[i].0 != s[j].0
}

proof fn lemma_pairs_to_map_index(s: Seq<(NodeId, LogIndex)>, k: NodeId)
    requires
        unique_keys(s),
    ensures
        pairs_to_map(s).contains_key(k) <==> exists|i: int| 0 <= i < s.len() && s[i].0 == k,
        forall|i: int| 0 <= i < s.len() && s[i].0 == k ==> pairs_to_map(s)[k] == s[i].1,
    decreases s.len(),
{
    if s.len() > 0 {
        let d = s.drop_last();
        lemma_pairs_to_map_index(d, k);
        if pairs_to_map(s).contains_key(k) && k != s.last().0 {
            let i = choose|i: int| 0 <= i < d.len() && d[i].0 == k;
            assert(s[i].0 == k);
        }
        if exists|i: int| 0 <= i < s.len() && s[i].0 == k {
            let i = choose|i: int| 0 <= i < s.len() && s[i].0 == k;
            if i < s.len() - 1 {
                assert(d[i].0 == k);
            }
        }
        assert forall|i: int| 0 <= i < s.len() && s[i].0 == k implies pairs_to_map(s)[k] == s[i].1 by {
            if i < s.len() - 1 {
                assert(d[i] == s[i]);
                assert(s.last().0 != k);
            }
        }
    }
}

/// Per-peer log indices, one per node.
#[derive(Debug)]
pub struct PeerIndexMap {
    pairs: Vec<(NodeId, LogIndex)>,
}

impl View for PeerIndexMap {
    type V = Map<NodeId, LogIndex>;

    closed spec fn view(&self) -> Map<NodeId, LogIndex> {
        pairs_to_map(self.pairs@)
    }
}

impl PeerIndexMap {
    pub closed spec fn wf(&self) -> bool {
        unique_keys(self.pairs@)
    }

    /// The pairs, in insertion order.
    pub closed spec fn pairs(&self) -> Seq<(NodeId, LogIndex)> {
        self.pairs@
    }

    /// The pairs describe the map, one per key.
    pub proof fn lemma_pairs(&self, k: NodeId)
        requires
            self.wf(),
        ensures
            unique_keys(self.pairs()),
            self@ == pairs_to_map(self.pairs()),
            self@.contains_key(k) <==> exists|i: int| 0 <= i < self.pairs().len() && self.pairs()[i].0 == k,
    {
        lemma_pairs_to_map_index(self.pairs@, k);
    }

    pub fn new() -> (r: Self)
        ensures
            r.wf(),
            r@ == Map::<NodeId, LogIndex>::empty(),
            r.pairs() == Seq::<(NodeId, LogIndex)>::empty(),
    {
        PeerIndexMap { pairs: Vec::new() }
    }

    fn find(&self, peer: NodeId) -> (r: Option<usize>)
        requires
            self.wf(),
        ensures
            match r {
                Some(i) => i < self.pairs@.len() && self.pairs@[i as int].0 == peer,
                None => forall|i: int| 0 <= i < self.pairs@.len() ==> self.pairs@[i].0 != peer,
            },
    {
        let mut i: usize = 0;
        while i < self.pairs.len()
            invariant
                0 <= i <= self.pairs@.len(),
                forall|j: int| 0 <= j < i ==> self.pairs@[j].0 != peer,
            decreases self.pairs@.len() - i,
        {
            if self.pairs[i].0.0 == peer.0 {
                return Some(i);
            }
            i = i + 1;
        }
        None
    }

    /// The index recorded for `peer`.
    pub fn get(&self, peer: NodeId) -> (r: Option<LogIndex>)
        requires
            self.wf(),
        ensures
            r == (if self@.contains_key(peer) { Some(self@[peer]) } else { None::<LogIndex> }),
    {
        proof {
            lemma_pairs_to_map_index(self.pairs@, peer);
        }
        match self.find(peer) {
            Some(i) => Some(self.pairs[i].1),
            None => None,
        }
    }

    /// Whether an index is recorded for `peer`.
    pub fn contains_key(&self, peer: NodeId) -> (r: bool)
        requires
            self.wf(),
        ensures
            r == self@.contains_key(peer),
    {
        proof {
            lemma_pairs_to_map_index(self.pairs@, peer);
        }
        self.find(peer).is_some()
    }

    /// Number of peers recorded.
    pub fn len(&self) -> (r: usize)
        requires
            self.wf(),
        ensures
            r == self.pairs().len(),
            r == self@.dom().len(),
    {
        proof {
            lemma_unique_pairs_dom_len(self.pairs@);
        }
        self.pairs.len()
    }

    /// Whether no peer is recorded.
    pub fn is_empty(&self) -> (r: bool)
        requires
            self.wf(),
        ensures
            r == (self@.dom().len() == 0),
    {
        proof {
            lemma_unique_pairs_dom_len(self.pairs@);
        }
        self.pairs.len() == 0
    }

    /// Record `idx` for `peer`, replacing any earlier value.
    pub fn insert(&mut self, peer: NodeId, idx: LogIndex)
        requires
            old(self).wf(),
        ensures
            final(self).wf(),
            final(self)@ == old(self)@.insert(peer, idx),
            forall|i: int| 0 <= i < old(self).pairs().len() && old(self).pairs()[i].0 != peer ==>
                #[trigger] final(self).pairs()[i] == old(self).pairs()[i],
            final(self).pairs().len() == old(self).pairs().len() + (if old(self)@.contains_key(peer) { 0int } else { 1int }),
    {
        proof {
            lemma_pairs_to_map_index(self.pairs@, peer);
        }
        match self.find(peer) {
            Some(i) => {
                let ghost before = self.pairs@;
                self.pairs.set(i, (peer, idx));
                proof {
                    assert forall|a: int, b: int| 0 <= a < b < self.pairs@.len() implies self.pairs@[a].0 != self.pairs@[b].0 by {
                        assert(before[a].0 != before[b].0);
                    }
                    assert forall|k: NodeId| pairs_to_map(self.pairs@).dom().contains(k) <==> (pairs_to_map(before).dom().contains(k) || k == peer) by {
                        lemma_pairs_to_map_index(self.pairs@, k);
                        lemma_pairs_to_map_index(before, k);
                        if k == peer {
                            assert(self.pairs@[i as int].0 == k);
                        }
                        if exists|j: int| 0 <= j < before.len() && before[j].0 == k {
                            let j = choose|j: int| 0 <= j < before.len() && before[j].0 == k;
                            assert(self.pairs@[j].0 == k);
                        }
                        if exists|j: int| 0 <= j < self.pairs@.len() && self.pairs@[j].0 == k {
                            let j = choose|j: int| 0 <= j < self.pairs@.len() && self.pairs@[j].0 == k;
                            if j != i {
                                assert(before[j].0 == k);
                            }
                        }
                    }
                    assert(pairs_to_map(self.pairs@).dom() =~= pairs_to_map(before).insert(peer, idx).dom());
                    assert(pairs_to_map(self.pairs@) =~= pairs_to_map(before).insert(peer, idx)) by {
                        assert forall|k: NodeId| #![auto] pairs_to_map(self.pairs@).contains_key(k) implies pairs_to_map(self.pairs@)[k] == pairs_to_map(before).insert(peer, idx)[k] by {
                            lemma_pairs_to_map_index(self.pairs@, k);
                            lemma_pairs_to_map_index(before, k);
                            let j = choose|j: int| 0 <= j < self.pairs@.len() && self.pairs@[j].0 == k;
                            if j != i {
                                assert(before[j].0 == k);
                            }
                        }
                    }
                }
            },
            None => {
                let ghost before = self.pairs@;
                self.pairs.push((peer, idx));
                proof {
                    assert(self.pairs@.drop_last() =~= before);
                    assert forall|a: int, b: int| 0 <= a < b < self.pairs@.len() implies self.pairs@[a].0 != self.pairs@[b].0 by {
                        if b < before.len() {
                            assert(before[a].0 != before[b].0);
                        }
                    }
                }
            },
        }
    }

    /// Forget `peer`.
    pub fn remove(&mut self, peer: NodeId)
        requires
            old(self).wf(),
        ensures
            final(self).wf(),
            final(self)@ == old(self)@.remove(peer),
    {
        match self.find(peer) {
            Some(i) => {
                let ghost before = self.pairs@;
                self.pairs.remove(i);
                proof {
                    let after = self.pairs@;
                    assert forall|j: int| 0 <= j < after.len() implies #[trigger] after[j] == (if j < i {
                        before[j]
                    } else {
                        before[j + 1]
                    }) by {}
                    assert forall|a: int, b: int| 0 <= a < b < after.len() implies after[a].0 != after[b].0 by {
                        let a1 = if a < i { a } else { a + 1 };
                        let b1 = if b < i { b } else { b + 1 };
                        assert(before[a1].0 != before[b1].0);
                    }
                    assert forall|k: NodeId| #![auto] pairs_to_map(after).contains_key(k) <==> pairs_to_map(before).remove(peer).contains_key(k) by {
                        lemma_pairs_to_map_index(after, k);
                        lemma_pairs_to_map_index(before, k);
                        if exists|j: int| 0 <= j < after.len() && after[j].0 == k {
                            let j = choose|j: int| 0 <= j < after.len() && after[j].0 == k;
                            let j1 = if j < i { j } else { j + 1 };
                            assert(before[j1].0 == k);
                            assert(j1 != i);
                        }
                        if k != peer && exists|j: int| 0 <= j < before.len() && before[j].0 == k {
                            let j = choose|j: int| 0 <= j < before.len() && before[j].0 == k;
                            assert(j != i);
                            let j0 = if j < i { j } else { j - 1 };
                            assert(after[j0].0 == k);
                        }
                    }
                    assert(pairs_to_map(after) =~= pairs_to_map(before).remove(peer)) by {
                        assert forall|k: NodeId| #![auto] pairs_to_map(after).contains_key(k) implies pairs_to_map(after)[k] == pairs_to_map(before).remove(peer)[k] by {
                            lemma_pairs_to_map_index(after, k);
                            lemma_pairs_to_map_index(before, k);
                            let j = choose|j: int| 0 <= j < after.len() && after[j].0 == k;
                            let j1 = if j < i { j } else { j + 1 };
                            assert(before[j1] == after[j]);
                        }
                    }
                }
            },
            None => {
                proof {
                    lemma_pairs_to_map_index(self.pairs@, peer);
                    assert(pairs_to_map(self.pairs@) =~= pairs_to_map(self.pairs@).remove(peer));
                }
            },
        }
    }

    /// Number of peers whose recorded index is at least `idx`.
    pub fn count_at_least(&self, idx: LogIndex) -> (r: usize)
        ensures
            r == count_at_least(self.pairs(), idx.0),
            r <= self.pairs().len(),
    {
        let mut n: usize = 0;
        let mut i: usize = 0;
        while i < self.pairs.len()
            invariant
                0 <= i <= self.pairs@.len(),
                n == count_at_least(self.pairs@.take(i as int), idx.0),
                n <= i,
            decreases self.pairs@.len() - i,
        {
            proof {
                assert(self.pairs@.take(i as int + 1).drop_last() =~= self.pairs@.take(i as int));
            }
            if self.pairs[i].1.0 >= idx.0 {
                n = n + 1;
            }
            i = i + 1;
        }
        proof {
            assert(self.pairs@.take(self.pairs@.len() as int) =~= self.pairs@);
        }
        n
    }
}

proof fn lemma_unique_pairs_dom_len(s: Seq<(NodeId, LogIndex)>)
    requires
        unique_keys(s),
    ensures
        pairs_to_map(s).dom().len() == s.len(),
        pairs_to_map(s).dom().finite(),
    decreases s.len(),
{
    if s.len() > 0 {
        let d = s.drop_last();
        lemma_unique_pairs_dom_len(d);
        lemma_pairs_to_map_index(d, s.last().0);
        assert(!pairs_to_map(d).contains_key(s.last().0)) by {
            if pairs_to_map(d).contains_key(s.last().0) {
                let i = choose|i: int| 0 <= i < d.len() && d[i].0 == s.last().0;
                assert(s[i].0 == s[s.len() - 1].0);
            }
        }
    }
}

/// Raft volatile state kept only on the leader (reinitialized after election).
#[derive(Debug)]
pub struct LeaderState {
    /// For each peer, index of the next log entry to send.
    pub next_index: PeerIndexMap,
    /// For each peer, index of the highest log entry known to be replicated.
    pub match_index: PeerIndexMap,
}

impl LeaderState {
    pub open spec fn wf(&self) -> bool {
        self.next_index.wf() && self.match_index.wf()
    }

    /// Initialize leader state for the given set of peers.
    ///
    /// `next_index` is set to `last_log_index + 1` for each peer,
    /// and `match_index` is set to 0.
    pub fn new(peers: &[NodeId], last_log_index: LogIndex) -> (r: Self)
        requires
            last_log_index.0 < u64::MAX,
        ensures
            r.wf(),
            forall|p: NodeId| #[trigger] r.next_index@.contains_key(p) == peers@.contains(p),
            forall|p: NodeId| #[trigger] r.match_index@.contains_key(p) == peers@.contains(p),
            forall|p: NodeId| peers@.contains(p) ==> #[trigger] r.next_index@[p] == LogIndex((last_log_index.0 + 1) as u64),
            forall|p: NodeId| peers@.contains(p) ==> #[trigger] r.match_index@[p] == LogIndex(0),
    {
        let next = LogIndex(last_log_index.0 + 1);
        let mut next_index = PeerIndexMap::new();
        let mut match_index = PeerIndexMap::new();
        let mut i: usize = 0;
        while i < peers.len()
            invariant
                0 <= i <= peers@.len(),
                next.0 == last_log_index.0 + 1,
                next_index.wf(),
                match_index.wf(),
                forall|p: NodeId| #[trigger] next_index@.contains_key(p) == peers@.take(i as int).contains(p),
                forall|p: NodeId| #[trigger] match_index@.contains_key(p) == peers@.take(i as int).contains(p),
                forall|p: NodeId| peers@.take(i as int).contains(p) ==> #[trigger] next_index@[p] == next,
                forall|p: NodeId| peers@.take(i as int).contains(p) ==> #[trigger] match_index@[p] == LogIndex(0),
            decreases peers@.len() - i,
        {
            let p = peers[i];
            next_index.insert(p, next);
            match_index.insert(p, LogIndex(0));
            proof {
                assert forall|q: NodeId| peers@.take(i as int + 1).contains(q) <==> (peers@.take(i as int).contains(q) || q == p) by {
                    if peers@.take(i as int + 1).contains(q) {
                        let j = choose|j: int| 0 <= j < i + 1 && #[trigger] peers@.take(i as int + 1)[j] == q;
                        if j < i {
                            assert(peers@.take(i as int)[j] == q);
                        }
                    }
                    if peers@.take(i as int).contains(q) {
                        let j = choose|j: int| 0 <= j < i && #[trigger] peers@.take(i as int)[j] == q;
                        assert(peers@.take(i as int + 1)[j] == q);
                    }
                    if q == p {
                        assert(peers@.take(i as int + 1)[i as int] == q);
                    }
                }
            }
            i = i + 1;
        }
        proof {
            assert(peers@.take(peers@.len() as int) =~= peers@);
        }
        LeaderState { next_index, match_index }
    }
}

} // verus!
