use std::collections::HashMap;

use vstd::prelude::*;
use vstd::std_specs::iter::IteratorSpec;

use crate::keyed::{ascii_lower, to_ascii_lowercase, StrMap, StrSet};
use crate::raft::cluster_command::ClusterCommand;
use crate::raft::health::HealthEvent;
use crate::raft::types::NodeId;

verus! {

broadcast use vstd::std_specs::hash::group_hash_axioms;

/// The index as values: each user's home node, and for each node the users
/// it lists (the reverse index), all keyed by lowercased nickname.
#[verifier::ext_equal]
pub struct IndexView {
    pub homes: Map<Seq<char>, NodeId>,
    pub residents: Map<u64, Set<Seq<char>>>,
}

/// The reverse index as values.
pub open spec fn residents_view(m: Map<u64, StrSet>) -> Map<u64, Set<Seq<char>>> {
    Map::new(|n: u64| m.contains_key(n), |n: u64| m[n]@)
}

/// The users that the reverse index lists for `node`.
pub open spec fn residents_of(rev: Map<u64, Set<Seq<char>>>, node: u64) -> Set<Seq<char>> {
    if rev.contains_key(node) {
        rev[node]
    } else {
        Set::empty()
    }
}

/// The reverse index with `key` taken off `node`'s list; a list left empty
/// is dropped.
pub open spec fn resident_removed(rev: Map<u64, Set<Seq<char>>>, node: u64, key: Seq<char>) -> Map<u64, Set<Seq<char>>> {
    if rev.contains_key(node) {
        let s = rev[node].remove(key);
        if s.is_empty() {
            rev.remove(node)
        } else {
            rev.insert(node, s)
        }
    } else {
        rev
    }
}

/// The index after homing `key` on `node`: it leaves its former node's list
/// if it moves, and joins `node`'s.
pub open spec fn home_set(v: IndexView, key: Seq<char>, node: NodeId) -> IndexView {
    let rev = if v.homes.contains_key(key) && v.homes[key].0 != node.0 {
        resident_removed(v.residents, v.homes[key].0, key)
    } else {
        v.residents
    };
    IndexView { homes: v.homes.insert(key, node), residents: rev.insert(node.0, residents_of(rev, node.0).insert(key)) }
}

/// The index without the user `key`.
pub open spec fn user_removed(v: IndexView, key: Seq<char>) -> IndexView {
    if v.homes.contains_key(key) {
        IndexView { homes: v.homes.remove(key), residents: resident_removed(v.residents, v.homes[key].0, key) }
    } else {
        v
    }
}

/// The index with the user `old_key`, homed on `n`, known as `new_key`
/// instead, on the same node.
pub open spec fn relisted(u: IndexView, old_key: Seq<char>, new_key: Seq<char>, n: NodeId) -> IndexView {
    IndexView {
        homes: u.homes.remove(old_key).insert(new_key, n),
        residents: if u.residents.contains_key(n.0) {
            u.residents.insert(n.0, u.residents[n.0].remove(old_key).insert(new_key))
        } else {
            u.residents
        },
    }
}

/// The index with user `old_key` renamed to `new_key` on its node: a user
/// that held `new_key` before loses it (and leaves its node's list) first.
pub open spec fn user_renamed(v: IndexView, old_key: Seq<char>, new_key: Seq<char>) -> IndexView {
    if v.homes.contains_key(old_key) {
        let u = if old_key != new_key {
            user_removed(v, new_key)
        } else {
            v
        };
        relisted(u, old_key, new_key, v.homes[old_key])
    } else {
        v
    }
}

/// A node's list without `key`; the others keep their order.
pub open spec fn unlisted(s: Seq<Seq<char>>, key: Seq<char>) -> Seq<Seq<char>> {
    s.filter(|x: Seq<char>| x != key)
}

/// A node's list with `key` added last, unless it is listed already.
pub open spec fn listed_last(s: Seq<Seq<char>>, key: Seq<char>) -> Seq<Seq<char>> {
    if s.contains(key) {
        s
    } else {
        s.push(key)
    }
}

/// Node `n`'s list once `key` is homed on `node`, having been homed on
/// `former` (if anywhere): it joins the end of `node`'s list and leaves its
/// former node's.
pub open spec fn listing_after_home(l: Seq<Seq<char>>, n: u64, key: Seq<char>, node: NodeId, former: Option<NodeId>) -> Seq<Seq<char>> {
    if n == node.0 {
        listed_last(l, key)
    } else if former matches Some(m) && m.0 == n {
        unlisted(l, key)
    } else {
        l
    }
}

/// The home of `key` in `v`, if it has one.
pub open spec fn home_of(v: IndexView, key: Seq<char>) -> Option<NodeId> {
    if v.homes.contains_key(key) {
        Some(v.homes[key])
    } else {
        None
    }
}

/// Node `n`'s list once the user `key` is removed.
pub open spec fn listing_after_removal(l: Seq<Seq<char>>, n: u64, v: IndexView, key: Seq<char>) -> Seq<Seq<char>> {
    if home_of(v, key) matches Some(m) && m.0 == n {
        unlisted(l, key)
    } else {
        l
    }
}

/// Node `n`'s list once the user `old_key` is renamed to `new_key`: a user
/// who held `new_key` leaves its node's list first; then, on the renamed
/// user's node (when it has a list, `has_list`), `old_key` leaves the list
/// and `new_key` joins its end.
pub open spec fn listing_after_rename(
    l: Seq<Seq<char>>,
    n: u64,
    v: IndexView,
    old_key: Seq<char>,
    new_key: Seq<char>,
    has_list: bool,
) -> Seq<Seq<char>> {
    if v.homes.contains_key(old_key) {
        let h = v.homes[old_key];
        let l1 = if old_key != new_key {
            listing_after_removal(l, n, v, new_key)
        } else {
            l
        };
        if n == h.0 && has_list {
            listed_last(unlisted(l1, old_key), new_key)
        } else {
            l1
        }
    } else {
        l
    }
}

/// The reverse index lists exactly the users homed on each node, and no
/// node with none.
pub open spec fn index_consistent(v: IndexView) -> bool {
    &&& forall|n: u64| #[trigger] v.residents.contains_key(n) ==> !v.residents[n].is_empty()
    &&& forall|n: u64, k: Seq<char>| #[trigger] v.residents.contains_key(n) && #[trigger] v.residents[n].contains(k) ==> v.homes.contains_key(k) && v.homes[k].0 == n
    &&& forall|k: Seq<char>| #[trigger] v.homes.contains_key(k) ==> v.residents.contains_key(v.homes[k].0) && v.residents[v.homes[k].0].contains(k)
}

/// Tracks which users are homed to which nodes.
///
/// The commit consumer updates it as entries are committed; the migration
/// service reads it when a node goes down to find the users to move. A
/// reverse index lists the users of each node, so that they are found
/// without a scan of all users.
#[derive(Debug)]
pub struct UserNodeIndex {
    /// Home node by lowercased nickname.
    user_to_node: StrMap<NodeId>,
    /// Lowercased nicknames homed on each node.
    node_to_users: HashMap<u64, StrSet>,
}

impl View for UserNodeIndex {
    type V = IndexView;

    closed spec fn view(&self) -> IndexView {
        IndexView { homes: self.user_to_node@, residents: residents_view(self.node_to_users@) }
    }
}

proof fn lemma_residents_insert(m: Map<u64, StrSet>, n: u64, s: StrSet)
    ensures
        residents_view(m.insert(n, s)) == residents_view(m).insert(n, s@),
{
    assert(residents_view(m.insert(n, s)) =~= residents_view(m).insert(n, s@));
}

proof fn lemma_residents_remove(m: Map<u64, StrSet>, n: u64)
    ensures
        residents_view(m.remove(n)) == residents_view(m).remove(n),
{
    assert(residents_view(m.remove(n)) =~= residents_view(m).remove(n));
}

impl UserNodeIndex {
    /// The users that node `n`'s list holds, in the order they were listed.
    pub closed spec fn listing(&self, n: u64) -> Seq<Seq<char>> {
        if self.node_to_users@.contains_key(n) {
            self.node_to_users@[n].order()
        } else {
            Seq::empty()
        }
    }

    pub fn new() -> (r: Self)
        ensures
            r@.homes == Map::<Seq<char>, NodeId>::empty(),
            r@.residents == Map::<u64, Set<Seq<char>>>::empty(),
            index_consistent(r@),
            forall|n: u64| #[trigger] r.listing(n) == Seq::<Seq<char>>::empty(),
    {
        let r = UserNodeIndex { user_to_node: StrMap::new(), node_to_users: HashMap::new() };
        assert(r@.residents =~= Map::<u64, Set<Seq<char>>>::empty());
        r
    }

    /// Take `key` off `node`'s list, dropping the list if it is left empty.
    fn drop_resident(&mut self, node: u64, key: &String)
        ensures
            final(self)@ == (IndexView { residents: resident_removed(old(self)@.residents, node, key@), ..old(self)@ }),
            forall|n: u64| #[trigger] final(self).listing(n) == (if n == node {
                unlisted(old(self).listing(n), key@)
            } else {
                old(self).listing(n)
            }),
    {
        proof {
            lemma_residents_remove(self.node_to_users@, node);
            crate::keyed::lemma_filter_keeps_all(Seq::<Seq<char>>::empty(), key@);
        }
        match self.node_to_users.remove(&node) {
            Some(mut users) => {
                users.remove(key.as_str());
                if !users.is_empty() {
                    proof {
                        lemma_residents_insert(self.node_to_users@, node, users);
                    }
                    let _ = self.node_to_users.insert(node, users);
                }
            },
            None => {},
        }
        assert(self@ =~= (IndexView { residents: resident_removed(old(self)@.residents, node, key@), ..old(self)@ }));
        assert forall|n: u64| #[trigger] self.listing(n) == (if n == node {
            unlisted(old(self).listing(n), key@)
        } else {
            old(self).listing(n)
        }) by {
            if n == node && old(self).node_to_users@.contains_key(n) && !self.node_to_users@.contains_key(n) {
                assert(unlisted(old(self).listing(n), key@) =~= Seq::<Seq<char>>::empty());
            }
        }
    }

    /// Record a user's home node (on registration or migration).
    pub fn set_home_node(&mut self, nickname: &str, node_id: NodeId)
        ensures
            final(self)@ == home_set(old(self)@, ascii_lower(nickname@), node_id),
            forall|n: u64| #[trigger] final(self).listing(n) == listing_after_home(
                old(self).listing(n),
                n,
                ascii_lower(nickname@),
                node_id,
                home_of(old(self)@, ascii_lower(nickname@)),
            ),
    {
        let key = to_ascii_lowercase(nickname);
        let former = match self.user_to_node.get(key.as_str()) {
            Some(n) => Some(*n),
            None => None,
        };
        match former {
            Some(old_node) => {
                if old_node.0 != node_id.0 {
                    self.drop_resident(old_node.0, &key);
                }
            },
            None => {},
        }
        let ghost mid = *self;
        let ghost k = key@;
        self.user_to_node.insert(key.clone(), node_id);
        proof {
            lemma_residents_remove(self.node_to_users@, node_id.0);
        }
        let mut users = match self.node_to_users.remove(&node_id.0) {
            Some(s) => s,
            None => StrSet::new(),
        };
        users.insert(key);
        proof {
            lemma_residents_insert(self.node_to_users@, node_id.0, users);
        }
        let _ = self.node_to_users.insert(node_id.0, users);
        assert(self@ =~= home_set(old(self)@, ascii_lower(nickname@), node_id));
        proof {
            assert forall|n: u64| #[trigger] self.listing(n) == listing_after_home(
                old(self).listing(n),
                n,
                k,
                node_id,
                home_of(old(self)@, k),
            ) by {
                if n == node_id.0 {
                    assert(mid.listing(n) == old(self).listing(n));
                } else {
                    assert(self.listing(n) == mid.listing(n));
                }
            }
        }
    }

    /// Remove the user whose lowercased nickname is `key`.
    fn remove_key(&mut self, key: &String)
        ensures
            final(self)@ == user_removed(old(self)@, key@),
            forall|n: u64| #[trigger] final(self).listing(n) == listing_after_removal(old(self).listing(n), n, old(self)@, key@),
    {
        match self.user_to_node.remove(key.as_str()) {
            Some(node) => {
                self.drop_resident(node.0, key);
            },
            None => {
                assert(old(self)@.homes.remove(key@) =~= old(self)@.homes);
            },
        }
        assert(self@ =~= user_removed(old(self)@, key@));
    }

    /// Remove a user (on quit or kill).
    pub fn remove_user(&mut self, nickname: &str)
        ensures
            final(self)@ == user_removed(old(self)@, ascii_lower(nickname@)),
            forall|n: u64| #[trigger] final(self).listing(n) == listing_after_removal(old(self).listing(n), n, old(self)@, ascii_lower(nickname@)),
    {
        let key = to_ascii_lowercase(nickname);
        self.remove_key(&key);
    }

    /// Move a user's record to a new nickname.
    pub fn rename_user(&mut self, old_nick: &str, new_nick: &str)
        ensures
            final(self)@ == user_renamed(old(self)@, ascii_lower(old_nick@), ascii_lower(new_nick@)),
            forall|n: u64| #[trigger] final(self).listing(n) == listing_after_rename(
                old(self).listing(n),
                n,
                old(self)@,
                ascii_lower(old_nick@),
                ascii_lower(new_nick@),
                final(self)@.residents.contains_key(n),
            ),
    {
        let old_key = to_ascii_lowercase(old_nick);
        let new_key = to_ascii_lowercase(new_nick);
        let home = match self.user_to_node.get(old_key.as_str()) {
            Some(n) => Some(*n),
            None => None,
        };
        match home {
            Some(node) => {
                if !(old_key == new_key) {
                    self.remove_key(&new_key);
                }
                let ghost mid = *self;
                assert forall|x: u64| #[trigger] mid.listing(x) == (if old_key@ != new_key@ {
                    listing_after_removal(old(self).listing(x), x, old(self)@, new_key@)
                } else {
                    old(self).listing(x)
                }) by {}
                let _ = self.user_to_node.remove(old_key.as_str());
                self.user_to_node.insert(new_key.clone(), node);
                proof {
                    lemma_residents_remove(self.node_to_users@, node.0);
                }
                match self.node_to_users.remove(&node.0) {
                    Some(mut users) => {
                        users.remove(old_key.as_str());
                        users.insert(new_key);
                        proof {
                            lemma_residents_insert(self.node_to_users@, node.0, users);
                        }
                        let _ = self.node_to_users.insert(node.0, users);
                        assert(self.node_to_users@.contains_key(node.0));
                        assert(self.listing(node.0) == listed_last(unlisted(mid.listing(node.0), old_key@), new_key@));
                    },
                    None => {
                        assert(!mid.node_to_users@.contains_key(node.0));
                    },
                }
                assert forall|x: u64| x != node.0 implies #[trigger] self.listing(x) == mid.listing(x) by {}
                assert(home_of(old(self)@, old_key@) == Some(node));
                assert forall|x: u64| #[trigger] self.listing(x) == listing_after_rename(
                    old(self).listing(x),
                    x,
                    old(self)@,
                    old_key@,
                    new_key@,
                    self@.residents.contains_key(x),
                ) by {
                    assert(self@.residents.contains_key(x) == self.node_to_users@.contains_key(x));
                    if x == node.0 && self.node_to_users@.contains_key(x) {
                        assert(self.listing(x) == listed_last(unlisted(mid.listing(x), old_key@), new_key@));
                    } else {
                        assert(self.listing(x) == mid.listing(x));
                    }
                }
            },
            None => {},
        }
        assert(self@ =~= user_renamed(old(self)@, ascii_lower(old_nick@), ascii_lower(new_nick@)));
    }

    /// The nicknames that the reverse index lists for a node, each once, in
    /// the order they were listed.
    pub fn users_on_node(&self, node_id: NodeId) -> (r: Vec<String>)
        ensures
            r@.len() == self.listing(node_id.0).len(),
            forall|i: int| 0 <= i < r@.len() ==> #[trigger] r@[i]@ == self.listing(node_id.0)[i],
            forall|i: int| 0 <= i < r@.len() ==> residents_of(self@.residents, node_id.0).contains(#[trigger] r@[i]@),
            forall|k: Seq<char>| #[trigger] residents_of(self@.residents, node_id.0).contains(k) ==> exists|i: int| 0 <= i < r@.len() && r@[i]@ == k,
            r@.len() == residents_of(self@.residents, node_id.0).len(),
    {
        match self.node_to_users.get(&node_id.0) {
            Some(users) => users.items(),
            None => {
                assert(Set::<Seq<char>>::empty().len() == 0);
                Vec::new()
            },
        }
    }

    /// The nodes that the reverse index lists users for, each once.
    pub fn active_nodes(&self) -> (r: Vec<NodeId>)
        ensures
            forall|i: int| 0 <= i < r@.len() ==> self@.residents.contains_key(#[trigger] r@[i].0),
            forall|n: u64| #[trigger] self@.residents.contains_key(n) ==> exists|i: int| 0 <= i < r@.len() && r@[i].0 == n,
            r@.len() == self@.residents.dom().len(),
    {
        let ghost all = vstd::std_specs::hash::spec_keys_iter(&self.node_to_users).remaining();
        let mut out: Vec<NodeId> = Vec::new();
        for k in it: self.node_to_users.keys()
            invariant
                all == vstd::std_specs::hash::spec_keys_iter(&self.node_to_users).remaining(),
                it.seq() == all,
                out@.len() == it.index(),
                forall|j: int| 0 <= j < out@.len() ==> (#[trigger] out@[j]).0 == *all[j],
        {
            out.push(NodeId(*k));
        }
        proof {
            assert(out@.len() == all.len());
            assert forall|i: int| 0 <= i < out@.len() implies self@.residents.contains_key(#[trigger] out@[i].0) by {
                assert(all.unref().to_set().contains(*all[i])) by {
                    assert(all.unref()[i] == *all[i]);
                }
            }
            assert forall|n: u64| #[trigger] self@.residents.contains_key(n) implies exists|i: int| 0 <= i < out@.len() && out@[i].0 == n by {
                assert(all.unref().to_set().contains(n));
                let i = choose|i: int| 0 <= i < all.unref().len() && all.unref()[i] == n;
                assert(out@[i].0 == n);
            }
            assert(self@.residents.dom() =~= self.node_to_users@.dom());
        }
        out
    }
}

impl Default for UserNodeIndex {
    fn default() -> (r: Self)
        ensures
            r@.homes == Map::<Seq<char>, NodeId>::empty(),
            r@.residents == Map::<u64, Set<Seq<char>>>::empty(),
    {
        Self::new()
    }
}

/// What a committed command does to the index: registration with a home
/// node and migration set the home node, quit and kill remove the user, and
/// a nick change renames it.
pub open spec fn index_after(v: IndexView, cmd: ClusterCommand) -> IndexView {
    match cmd {
        ClusterCommand::UserRegistered { nickname, home_node, .. } => match home_node {
            Some(node) => home_set(v, ascii_lower(nickname@), node),
            None => v,
        },
        ClusterCommand::UserMigrated { nickname, to_node, .. } => home_set(v, ascii_lower(nickname@), to_node),
        ClusterCommand::UserQuit { nickname, .. } => user_removed(v, ascii_lower(nickname@)),
        ClusterCommand::UserKilled { nickname, .. } => user_removed(v, ascii_lower(nickname@)),
        ClusterCommand::NickChanged { old_nick, new_nick } => user_renamed(v, ascii_lower(old_nick@), ascii_lower(new_nick@)),
        _ => v,
    }
}

/// Update the user-node index from a committed cluster command, to keep it
/// in step with the replicated state.
pub fn update_user_node_index(index: &mut UserNodeIndex, command: &ClusterCommand)
    ensures
        final(index)@ == index_after(old(index)@, *command),
        match *command {
            ClusterCommand::UserQuit { nickname, .. } => !final(index)@.homes.contains_key(ascii_lower(nickname@)),
            ClusterCommand::UserKilled { nickname, .. } => !final(index)@.homes.contains_key(ascii_lower(nickname@)),
            _ => true,
        },
{
    match command {
        ClusterCommand::UserRegistered { nickname, home_node, .. } => match home_node {
            Some(node) => {
                index.set_home_node(nickname.as_str(), *node);
            },
            None => {},
        },
        ClusterCommand::UserMigrated { nickname, to_node, .. } => {
            index.set_home_node(nickname.as_str(), *to_node);
        },
        ClusterCommand::UserQuit { nickname, .. } => {
            index.remove_user(nickname.as_str());
        },
        ClusterCommand::UserKilled { nickname, .. } => {
            index.remove_user(nickname.as_str());
        },
        ClusterCommand::NickChanged { old_nick, new_nick } => {
            index.rename_user(old_nick.as_str(), new_nick.as_str());
        },
        _ => {},
    }
}

/// The peers other than `failed`, in order.
pub open spec fn peers_without(peers: Seq<NodeId>, failed: NodeId) -> Seq<NodeId>
    decreases peers.len(),
{
    if peers.len() == 0 {
        peers
    } else {
        let rest = peers_without(peers.drop_last(), failed);
        if peers.last().0 != failed.0 {
            rest.push(peers.last())
        } else {
            rest
        }
    }
}

/// The nodes that can take over the users of `failed`: the peers other than
/// it, and this node unless it is the one that failed.
pub open spec fn survivor_candidates(failed: NodeId, self_id: NodeId, peers: Seq<NodeId>) -> Seq<NodeId> {
    let others = peers_without(peers, failed);
    if self_id.0 != failed.0 {
        others.push(self_id)
    } else {
        others
    }
}

/// Node ids never decrease along the sequence.
pub open spec fn ascending_ids(s: Seq<NodeId>) -> bool {
    forall|i: int, j: int| 0 <= i < j < s.len() ==> (#[trigger] s[i]).0 <= (#[trigger] s[j]).0
}

/// Insert `n` after every node whose id is not above its own.
fn insert_by_id(sorted: &mut Vec<NodeId>, n: NodeId)
    requires
        ascending_ids(old(sorted)@),
    ensures
        ascending_ids(final(sorted)@),
        final(sorted)@.to_multiset() == old(sorted)@.to_multiset().insert(n),
{
    let mut p: usize = 0;
    while p < sorted.len() && sorted[p].0 <= n.0
        invariant
            p <= sorted@.len(),
            forall|j: int| 0 <= j < p ==> (#[trigger] sorted@[j]).0 <= n.0,
        decreases sorted@.len() - p,
    {
        p = p + 1;
    }
    let ghost before = sorted@;
    proof {
        vstd::seq_lib::to_multiset_insert(before, p as int, n);
    }
    sorted.insert(p, n);
    assert forall|i: int, j: int| 0 <= i < j < sorted@.len() implies (#[trigger] sorted@[i]).0 <= (#[trigger] sorted@[j]).0 by {
        if i < p && j < p {
            assert(before[i].0 <= before[j].0);
        } else if i < p && j == p {
        } else if i < p {
            assert(before[i].0 <= before[j - 1].0);
        } else if i == p {
            assert(before[j - 1].0 > n.0 || j - 1 >= p);
            assert(before[p as int].0 > n.0);
            assert(before[p as int].0 <= before[j - 1].0 || j - 1 == p);
        } else {
            assert(before[i - 1].0 <= before[j - 1].0);
        }
    }
}

/// The nodes that can take over the users of `failed`, in ascending id
/// order.
pub fn surviving_nodes(failed: NodeId, self_id: NodeId, peers: &[NodeId]) -> (r: Vec<NodeId>)
    ensures
        ascending_ids(r@),
        r@.to_multiset() == survivor_candidates(failed, self_id, peers@).to_multiset(),
{
    let mut sorted: Vec<NodeId> = Vec::new();
    let ghost mut kept: Seq<NodeId> = Seq::empty();
    let mut i: usize = 0;
    assert(peers@.take(0) =~= Seq::<NodeId>::empty());
    assert(sorted@ =~= peers_without(peers@.take(0), failed));
    while i < peers.len()
        invariant
            i <= peers@.len(),
            ascending_ids(sorted@),
            sorted@.to_multiset() == peers_without(peers@.take(i as int), failed).to_multiset(),
        decreases peers@.len() - i,
    {
        proof {
            assert(peers@.take(i + 1).drop_last() =~= peers@.take(i as int));
            assert(peers@.take(i + 1).last() == peers@[i as int]);
        }
        let n = peers[i];
        if n.0 != failed.0 {
            proof {
                vstd::seq_lib::to_multiset_build(peers_without(peers@.take(i as int), failed), n);
            }
            insert_by_id(&mut sorted, n);
        }
        i = i + 1;
    }
    assert(peers@.take(peers@.len() as int) =~= peers@);
    if self_id.0 != failed.0 {
        proof {
            vstd::seq_lib::to_multiset_build(peers_without(peers@, failed), self_id);
        }
        insert_by_id(&mut sorted, self_id);
    }
    sorted
}

/// The migration commands for `affected`, the users of a failed node: the
/// `i`-th user goes to the `i`-th surviving node, round-robin.
pub fn migration_commands(failed: NodeId, surviving: &[NodeId], affected: &[String]) -> (r: Vec<ClusterCommand>)
    requires
        surviving@.len() > 0,
    ensures
        r@.len() == affected@.len(),
        forall|i: int| 0 <= i < r@.len() ==> #[trigger] r@[i] == (ClusterCommand::UserMigrated {
            nickname: affected@[i],
            from_node: failed,
            to_node: surviving@[i % (surviving@.len() as int)],
        }),
{
    let mut out: Vec<ClusterCommand> = Vec::new();
    let mut i: usize = 0;
    while i < affected.len()
        invariant
            i <= affected@.len(),
            surviving@.len() > 0,
            out@.len() == i,
            forall|j: int| 0 <= j < i ==> #[trigger] out@[j] == (ClusterCommand::UserMigrated {
                nickname: affected@[j],
                from_node: failed,
                to_node: surviving@[j % (surviving@.len() as int)],
            }),
        decreases affected@.len() - i,
    {
        let target = surviving[i % surviving.len()];
        out.push(ClusterCommand::UserMigrated { nickname: affected[i].clone(), from_node: failed, to_node: target });
        i = i + 1;
    }
    out
}

/// The nickname a migration command moves.
pub open spec fn migration_nick(c: ClusterCommand) -> Seq<char> {
    match c {
        ClusterCommand::UserMigrated { nickname, .. } => nickname@,
        _ => Seq::empty(),
    }
}

/// What the migration service proposes on a health event: nothing unless a
/// node went down, this node leads, and some node survives; then one
/// migration per user that the index lists on the failed node, in the
/// order of its list, spread round-robin over the surviving nodes in
/// ascending id order.
pub fn migration_plan(event: &HealthEvent, is_leader: bool, index: &UserNodeIndex, self_id: NodeId, peer_ids: &[NodeId]) -> (r: Vec<ClusterCommand>)
    ensures
        !(event is NodeDown) || !is_leader || survivor_candidates(event->NodeDown_0, self_id, peer_ids@).len() == 0 ==> r@.len() == 0,
        event is NodeDown && is_leader && survivor_candidates(event->NodeDown_0, self_id, peer_ids@).len() > 0 ==> {
            let failed = event->NodeDown_0;
            let listed = residents_of(index@.residents, failed.0);
            &&& r@.len() == listed.len()
            &&& r@.len() == index.listing(failed.0).len()
            &&& forall|i: int| 0 <= i < r@.len() ==> migration_nick(#[trigger] r@[i]) == index.listing(failed.0)[i]
            &&& exists|surviving: Seq<NodeId>|
                #![trigger surviving.to_multiset()]
                ascending_ids(surviving) && surviving.to_multiset() == survivor_candidates(failed, self_id, peer_ids@).to_multiset()
                    && forall|i: int| 0 <= i < r@.len() ==> (#[trigger] r@[i] is UserMigrated)
                        && listed.contains(migration_nick(r@[i])) && r@[i]->from_node == failed && r@[i]->to_node == surviving[i % (surviving.len() as int)]
            &&& forall|k: Seq<char>| #[trigger] listed.contains(k) ==> exists|i: int| 0 <= i < r@.len() && migration_nick(#[trigger] r@[i]) == k
        },
{
    match event {
        HealthEvent::NodeDown(failed) => {
            if !is_leader {
                return Vec::new();
            }
            let surviving = surviving_nodes(*failed, self_id, peer_ids);
            proof {
                surviving@.to_multiset_ensures();
                survivor_candidates(*failed, self_id, peer_ids@).to_multiset_ensures();
            }
            if surviving.len() == 0 {
                return Vec::new();
            }
            let affected = index.users_on_node(*failed);
            let r = migration_commands(*failed, surviving.as_slice(), affected.as_slice());
            proof {
                assert forall|k: Seq<char>| #[trigger] residents_of(index@.residents, failed.0).contains(k) implies exists|i: int| 0 <= i < r@.len() && migration_nick(#[trigger] r@[i]) == k by {
                    let i = choose|i: int| 0 <= i < affected@.len() && affected@[i]@ == k;
                    assert(migration_nick(r@[i]) == k);
                }
            }
            r
        },
        _ => Vec::new(),
    }
}

/// In a consistent index, the users listed for a node are exactly the
/// users homed on it.
pub proof fn lemma_residents_are_homes(v: IndexView, n: u64, k: Seq<char>)
    requires
        index_consistent(v),
    ensures
        residents_of(v.residents, n).contains(k) <==> (v.homes.contains_key(k) && v.homes[k].0 == n),
{
}

/// Homing a user keeps the index consistent.
pub proof fn lemma_home_set_consistent(v: IndexView, key: Seq<char>, node: NodeId)
    requires
        index_consistent(v),
    ensures
        index_consistent(home_set(v, key, node)),
{
    let w = home_set(v, key, node);
    let rev = if v.homes.contains_key(key) && v.homes[key].0 != node.0 {
        resident_removed(v.residents, v.homes[key].0, key)
    } else {
        v.residents
    };
    assert forall|n: u64, k: Seq<char>| #[trigger] w.residents.contains_key(n) && #[trigger] w.residents[n].contains(k) implies w.homes.contains_key(k) && w.homes[k].0 == n by {
        if n != node.0 && k != key {
            assert(v.residents.contains_key(n) && v.residents[n].contains(k));
        }
        if n != node.0 && k == key {
            assert(v.residents.contains_key(n) && v.residents[n].contains(k));
        }
    }
    assert forall|k: Seq<char>| #[trigger] w.homes.contains_key(k) implies w.residents.contains_key(w.homes[k].0) && w.residents[w.homes[k].0].contains(k) by {
        if k != key {
            let n = v.homes[k].0;
            assert(v.residents[n].contains(k));
            if n != node.0 && v.homes.contains_key(key) && v.homes[key].0 == n {
                assert(rev[n] == v.residents[n].remove(key));
                assert(rev[n].contains(k));
            }
        }
    }
    assert forall|n: u64| #[trigger] w.residents.contains_key(n) implies !w.residents[n].is_empty() by {
        if n == node.0 {
            assert(w.residents[n].contains(key));
        } else {
            assert(rev.contains_key(n));
        }
    }
}

/// Removing a user keeps the index consistent.
pub proof fn lemma_user_removed_consistent(v: IndexView, key: Seq<char>)
    requires
        index_consistent(v),
    ensures
        index_consistent(user_removed(v, key)),
{
    let w = user_removed(v, key);
    if v.homes.contains_key(key) {
        let hn = v.homes[key].0;
        assert forall|n: u64, k: Seq<char>| #[trigger] w.residents.contains_key(n) && #[trigger] w.residents[n].contains(k) implies w.homes.contains_key(k) && w.homes[k].0 == n by {
            assert(v.residents.contains_key(n) && v.residents[n].contains(k));
        }
        assert forall|k: Seq<char>| #[trigger] w.homes.contains_key(k) implies w.residents.contains_key(w.homes[k].0) && w.residents[w.homes[k].0].contains(k) by {
            let n = v.homes[k].0;
            assert(v.residents[n].contains(k));
            if n == hn {
                assert(v.residents[hn].remove(key).contains(k));
            }
        }
    }
}

/// Relisting a user under a nickname that no one else holds keeps the
/// index consistent.
proof fn lemma_relisted_consistent(v: IndexView, old_key: Seq<char>, new_key: Seq<char>)
    requires
        index_consistent(v),
        v.homes.contains_key(old_key),
        old_key == new_key || !v.homes.contains_key(new_key),
    ensures
        index_consistent(relisted(v, old_key, new_key, v.homes[old_key])),
{
    let w = relisted(v, old_key, new_key, v.homes[old_key]);
    {
        let hn = v.homes[old_key].0;
        assert(v.residents.contains_key(hn));
        assert forall|n: u64, k: Seq<char>| #[trigger] w.residents.contains_key(n) && #[trigger] w.residents[n].contains(k) implies w.homes.contains_key(k) && w.homes[k].0 == n by {
            if k != new_key {
                assert(v.residents.contains_key(n) && v.residents[n].contains(k));
            }
        }
        assert forall|k: Seq<char>| #[trigger] w.homes.contains_key(k) implies w.residents.contains_key(w.homes[k].0) && w.residents[w.homes[k].0].contains(k) by {
            if k != new_key {
                let n = v.homes[k].0;
                assert(v.residents[n].contains(k));
            }
        }
        assert forall|n: u64| #[trigger] w.residents.contains_key(n) implies !w.residents[n].is_empty() by {
            if n == hn {
                assert(w.residents[n].contains(new_key));
            }
        }
    }
}

/// Renaming a user keeps the index consistent, also onto a nickname that
/// already has a home.
pub proof fn lemma_user_renamed_consistent(v: IndexView, old_key: Seq<char>, new_key: Seq<char>)
    requires
        index_consistent(v),
    ensures
        index_consistent(user_renamed(v, old_key, new_key)),
{
    if v.homes.contains_key(old_key) {
        if old_key != new_key {
            let u = user_removed(v, new_key);
            lemma_user_removed_consistent(v, new_key);
            assert(u.homes.contains_key(old_key) && u.homes[old_key] == v.homes[old_key]);
            lemma_relisted_consistent(u, old_key, new_key);
        } else {
            lemma_relisted_consistent(v, old_key, new_key);
        }
    }
}

/// A user who quits or is killed has no home any more and is listed on no
/// node; every other user keeps their home.
pub proof fn lemma_gone_user_unhomed(v: IndexView, cmd: ClusterCommand)
    requires
        index_consistent(v),
        cmd is UserQuit || cmd is UserKilled,
    ensures
        ({
            let nick = match cmd {
                ClusterCommand::UserQuit { nickname, .. } => nickname@,
                ClusterCommand::UserKilled { nickname, .. } => nickname@,
                _ => Seq::empty(),
            };
            let key = ascii_lower(nick);
            let w = index_after(v, cmd);
            &&& !w.homes.contains_key(key)
            &&& forall|n: u64| !residents_of(w.residents, n).contains(key)
            &&& forall|k: Seq<char>| k != key ==> (#[trigger] w.homes.contains_key(k) == v.homes.contains_key(k)
                && (v.homes.contains_key(k) ==> w.homes[k] == v.homes[k]))
        }),
{
    let nick = match cmd {
        ClusterCommand::UserQuit { nickname, .. } => nickname@,
        ClusterCommand::UserKilled { nickname, .. } => nickname@,
        _ => Seq::empty(),
    };
    let key = ascii_lower(nick);
    lemma_user_removed_consistent(v, key);
    let w = index_after(v, cmd);
    assert(w == user_removed(v, key));
    assert forall|n: u64| !residents_of(w.residents, n).contains(key) by {
        lemma_residents_are_homes(w, n, key);
    }
}

/// Every committed command keeps the index consistent.
pub proof fn lemma_index_update_consistent(v: IndexView, cmd: ClusterCommand)
    requires
        index_consistent(v),
    ensures
        index_consistent(index_after(v, cmd)),
{
    match cmd {
        ClusterCommand::UserRegistered { nickname, home_node, .. } => match home_node {
            Some(node) => lemma_home_set_consistent(v, ascii_lower(nickname@), node),
            None => {},
        },
        ClusterCommand::UserMigrated { nickname, to_node, .. } => lemma_home_set_consistent(v, ascii_lower(nickname@), to_node),
        ClusterCommand::UserQuit { nickname, .. } => lemma_user_removed_consistent(v, ascii_lower(nickname@)),
        ClusterCommand::UserKilled { nickname, .. } => lemma_user_removed_consistent(v, ascii_lower(nickname@)),
        ClusterCommand::NickChanged { old_nick, new_nick } => lemma_user_renamed_consistent(v, ascii_lower(old_nick@), ascii_lower(new_nick@)),
        _ => {},
    }
}

} // verus!
