use std::collections::HashMap;

use vstd::prelude::*;
use vstd::std_specs::iter::IteratorSpec;

use super::types::NodeId;

verus! {

broadcast use vstd::std_specs::hash::group_hash_axioms;

/// The addresses that a list of entries gives, by node id; an id given twice
/// keeps its last address.
pub open spec fn addresses_from(s: Seq<(NodeId, String)>) -> Map<u64, Seq<char>>
    decreases s.len(),
{
    if s.len() == 0 {
        Map::empty()
    } else {
        addresses_from(s.drop_last()).insert(s.last().0.0, s.last().1@)
    }
}

/// Addresses as values.
pub open spec fn addresses_view(m: Map<u64, String>) -> Map<u64, Seq<char>> {
    Map::new(|k: u64| m.contains_key(k), |k: u64| m[k]@)
}

/// Maps node ids to their network addresses (`host:port`).
#[derive(Debug)]
pub struct PeerMap {
    peers: HashMap<u64, String>,
}

impl View for PeerMap {
    type V = Map<u64, Seq<char>>;

    closed spec fn view(&self) -> Map<u64, Seq<char>> {
        addresses_view(self.peers@)
    }
}

proof fn lemma_addresses_insert(m: Map<u64, String>, k: u64, v: String)
    ensures
        addresses_view(m.insert(k, v)) == addresses_view(m).insert(k, v@),
{
    assert(addresses_view(m.insert(k, v)) =~= addresses_view(m).insert(k, v@));
}

proof fn lemma_addresses_remove(m: Map<u64, String>, k: u64)
    ensures
        addresses_view(m.remove(k)) == addresses_view(m).remove(k),
{
    assert(addresses_view(m.remove(k)) =~= addresses_view(m).remove(k));
}

impl PeerMap {
    /// A map of the given entries.
    pub fn new(entries: Vec<(NodeId, String)>) -> (r: Self)
        ensures
            r@ == addresses_from(entries@),
    {
        let mut peers: HashMap<u64, String> = HashMap::new();
        let mut i: usize = 0;
        assert(entries@.take(0) =~= Seq::<(NodeId, String)>::empty());
        assert(addresses_view(peers@) =~= Map::<u64, Seq<char>>::empty());
        while i < entries.len()
            invariant
                i <= entries@.len(),
                addresses_view(peers@) == addresses_from(entries@.take(i as int)),
            decreases entries@.len() - i,
        {
            proof {
                assert(entries@.take(i + 1).drop_last() =~= entries@.take(i as int));
                assert(entries@.take(i + 1).last() == entries@[i as int]);
            }
            let id = entries[i].0;
            let addr = entries[i].1.clone();
            proof {
                lemma_addresses_insert(peers@, id.0, addr);
            }
            let _ = peers.insert(id.0, addr);
            i = i + 1;
        }
        assert(entries@.take(entries@.len() as int) =~= entries@);
        PeerMap { peers }
    }

    /// The address of a node.
    pub fn get(&self, id: NodeId) -> (r: Option<&String>)
        ensures
            match r {
                Some(a) => self@.contains_key(id.0) && a@ == self@[id.0],
                None => !self@.contains_key(id.0),
            },
    {
        self.peers.get(&id.0)
    }

    /// Add a node or change its address, returning the address it had.
    pub fn insert(&mut self, id: NodeId, addr: String) -> (r: Option<String>)
        ensures
            final(self)@ == old(self)@.insert(id.0, addr@),
            match r {
                Some(a) => old(self)@.contains_key(id.0) && a@ == old(self)@[id.0],
                None => !old(self)@.contains_key(id.0),
            },
    {
        proof {
            lemma_addresses_insert(self.peers@, id.0, addr);
        }
        self.peers.insert(id.0, addr)
    }

    /// Remove a node, returning the address it had.
    pub fn remove(&mut self, id: NodeId) -> (r: Option<String>)
        ensures
            final(self)@ == old(self)@.remove(id.0),
            match r {
                Some(a) => old(self)@.contains_key(id.0) && a@ == old(self)@[id.0],
                None => !old(self)@.contains_key(id.0),
            },
    {
        proof {
            lemma_addresses_remove(self.peers@, id.0);
        }
        self.peers.remove(&id.0)
    }

    /// Number of nodes.
    pub fn len(&self) -> (r: usize)
        ensures
            r == self@.len(),
    {
        assert(self@.dom() =~= self.peers@.dom());
        self.peers.len()
    }

    /// Whether there is no node.
    pub fn is_empty(&self) -> (r: bool)
        ensures
            r == (self@.len() == 0),
    {
        assert(self@.dom() =~= self.peers@.dom());
        self.peers.len() == 0
    }

    /// The node ids, each once, in no particular order.
    pub fn node_ids(&self) -> (r: Vec<NodeId>)
        ensures
            forall|i: int| 0 <= i < r@.len() ==> self@.contains_key(#[trigger] r@[i].0),
            forall|k: u64| #[trigger] self@.contains_key(k) ==> exists|i: int| 0 <= i < r@.len() && r@[i].0 == k,
            r@.len() == self@.len(),
    {
        let ghost all = vstd::std_specs::hash::spec_keys_iter(&self.peers).remaining();
        let mut out: Vec<NodeId> = Vec::new();
        for k in it: self.peers.keys()
            invariant
                all == vstd::std_specs::hash::spec_keys_iter(&self.peers).remaining(),
                it.seq() == all,
                out@.len() == it.index(),
                forall|j: int| 0 <= j < out@.len() ==> (#[trigger] out@[j]).0 == *all[j],
        {
            out.push(NodeId(*k));
        }
        proof {
            assert(out@.len() == all.len());
            assert forall|i: int| 0 <= i < out@.len() implies self@.contains_key(#[trigger] out@[i].0) by {
                assert(all.unref().to_set().contains(*all[i])) by {
                    assert(all.unref()[i] == *all[i]);
                }
            }
            assert forall|k: u64| #[trigger] self@.contains_key(k) implies exists|i: int| 0 <= i < out@.len() && out@[i].0 == k by {
                assert(all.unref().to_set().contains(k));
                let i = choose|i: int| 0 <= i < all.unref().len() && all.unref()[i] == k;
                assert(out@[i].0 == k);
            }
            assert(self@.dom() =~= self.peers@.dom());
        }
        out
    }

    /// Every node with its address, each once, in no particular order.
    pub fn entries(&self) -> (r: Vec<(NodeId, String)>)
        ensures
            forall|i: int| 0 <= i < r@.len() ==> self@.contains_key(#[trigger] r@[i].0.0) && r@[i].1@ == self@[r@[i].0.0],
            forall|k: u64| #[trigger] self@.contains_key(k) ==> exists|i: int| 0 <= i < r@.len() && r@[i].0.0 == k,
            forall|i: int, j: int| 0 <= i < j < r@.len() ==> (#[trigger] r@[i]).0.0 != (#[trigger] r@[j]).0.0,
            r@.len() == self@.len(),
    {
        let ghost all = vstd::std_specs::hash::spec_hash_map_iter(&self.peers).remaining();
        let mut out: Vec<(NodeId, String)> = Vec::new();
        for (k, v) in it: self.peers.iter()
            invariant
                all == vstd::std_specs::hash::spec_hash_map_iter(&self.peers).remaining(),
                it.seq() == all,
                out@.len() == it.index(),
                forall|j: int| 0 <= j < out@.len() ==> (#[trigger] out@[j]).0.0 == *all[j].0 && out@[j].1 == *all[j].1,
        {
            out.push((NodeId(*k), v.clone()));
        }
        proof {
            assert(out@.len() == all.len());
            assert forall|i: int| 0 <= i < out@.len() implies self@.contains_key(#[trigger] out@[i].0.0) && out@[i].1@ == self@[out@[i].0.0] by {
                assert(self.peers@[*all[i].0] == *all[i].1);
            }
            assert forall|i: int, j: int| 0 <= i < j < out@.len() implies (#[trigger] out@[i]).0.0 != (#[trigger] out@[j]).0.0 by {
                if out@[i].0.0 == out@[j].0.0 {
                    assert(self.peers@[*all[i].0] == *all[i].1);
                    assert(self.peers@[*all[j].0] == *all[j].1);
                    assert(all[i] == all[j]);
                }
            }
            assert forall|k: u64| #[trigger] self@.contains_key(k) implies exists|i: int| 0 <= i < out@.len() && out@[i].0.0 == k by {
                assert(self.peers@.contains_key(k));
                assert(all.contains((&k, &self.peers@[k])));
                let j = choose|j: int| 0 <= j < all.len() && all[j] == (&k, &self.peers@[k]);
                assert(out@[j].0.0 == k);
            }
            assert(self@.dom() =~= self.peers@.dom());
        }
        out
    }
}

impl Clone for PeerMap {
    fn clone(&self) -> (r: Self)
        ensures
            r@ == self@,
    {
        let entries = self.entries();
        let r = PeerMap::new(entries);
        proof {
            lemma_addresses_from_distinct(entries@);
            assert(r@ =~= self@);
        }
        r
    }
}

proof fn lemma_addresses_from_distinct(s: Seq<(NodeId, String)>)
    requires
        forall|i: int, j: int| 0 <= i < j < s.len() ==> (#[trigger] s[i]).0.0 != (#[trigger] s[j]).0.0,
    ensures
        forall|k: u64| #[trigger] addresses_from(s).contains_key(k) <==> exists|i: int| 0 <= i < s.len() && s[i].0.0 == k,
        forall|i: int| 0 <= i < s.len() ==> #[trigger] addresses_from(s)[s[i].0.0] == s[i].1@,
    decreases s.len(),
{
    if s.len() > 0 {
        let d = s.drop_last();
        lemma_addresses_from_distinct(d);
        assert forall|k: u64| #[trigger] addresses_from(s).contains_key(k) <==> exists|i: int| 0 <= i < s.len() && s[i].0.0 == k by {
            if addresses_from(d).contains_key(k) {
                let i = choose|i: int| 0 <= i < d.len() && d[i].0.0 == k;
                assert(s[i] == d[i]);
            }
            if exists|i: int| 0 <= i < s.len() && s[i].0.0 == k {
                let i = choose|i: int| 0 <= i < s.len() && s[i].0.0 == k;
                if i < d.len() {
                    assert(d[i] == s[i]);
                }
            }
        }
        assert forall|i: int| 0 <= i < s.len() implies #[trigger] addresses_from(s)[s[i].0.0] == s[i].1@ by {
            if i < d.len() {
                assert(d[i] == s[i]);
                assert(addresses_from(d)[d[i].0.0] == d[i].1@);
            }
        }
    }
}

/// Which node a Raft connection comes from: the first of `ids` whose
/// address has the connection's IP (`same_ip[i]` tells for `ids[i]`), or,
/// for an unknown IP, the node id formed from the connection's IPv4
/// address as a number (`v4`; 0 for an IPv6 connection).
pub fn identify_peer(ids: &[NodeId], same_ip: &[bool], v4: Option<u32>) -> (r: NodeId)
    requires
        ids@.len() == same_ip@.len(),
    ensures
        (exists|i: int| 0 <= i < ids@.len() && same_ip@[i] && r == ids@[i]
            && forall|j: int| 0 <= j < i ==> !same_ip@[j])
        || ((forall|j: int| 0 <= j < ids@.len() ==> !same_ip@[j]) && r.0 == match v4 {
            Some(n) => n as u64,
            None => 0u64,
        }),
{
    let mut i: usize = 0;
    while i < ids.len()
        invariant
            ids@.len() == same_ip@.len(),
            i <= ids@.len(),
            forall|j: int| 0 <= j < i ==> !same_ip@[j],
        decreases ids@.len() - i,
    {
        if same_ip[i] {
            return ids[i];
        }
        i = i + 1;
    }
    match v4 {
        Some(n) => NodeId(n as u64),
        None => NodeId(0),
    }
}

} // verus!
