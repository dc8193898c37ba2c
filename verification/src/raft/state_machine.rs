use std::collections::HashMap;

use vstd::prelude::*;
use vstd::std_specs::iter::IteratorSpec;

use super::cluster_command::{ClusterCommand, TopicInfo};
use super::snapshot::SnapshotError;
use super::types::NodeId;
use crate::keyed::{ascii_lower, lemma_str_pairs_map_at, lemma_str_pairs_map_skip, str_pairs_map, to_ascii_lowercase, unique_str_keys, StrMap, StrSet};

verus! {

broadcast use vstd::std_specs::hash::group_hash_axioms;

/// The contents of an optional string.
pub open spec fn opt_str(o: Option<String>) -> Option<Seq<char>> {
    match o {
        Some(s) => Some(s@),
        None => None,
    }
}

/// A replicated user, as values.
#[verifier::ext_equal]
pub struct UserView {
    pub nickname: Seq<char>,
    pub username: Seq<char>,
    pub realname: Seq<char>,
    pub hostname: Seq<char>,
    pub modes: Set<Seq<char>>,
    pub away_message: Option<Seq<char>>,
    pub signon_time: u64,
    pub home_node: Option<NodeId>,
    pub is_oper: bool,
}

/// A ban list entry, as values.
pub struct BanView {
    pub mask: Seq<char>,
    pub who_set: Seq<char>,
    pub timestamp: u64,
}

/// A replicated channel, as values. Member statuses are keyed by the
/// lowercased nickname.
#[verifier::ext_equal]
pub struct ChannelView {
    pub name: Seq<char>,
    pub topic: Option<(Seq<char>, Seq<char>, u64)>,
    pub modes: Set<Seq<char>>,
    pub members: Map<Seq<char>, Seq<char>>,
    pub ban_list: Seq<BanView>,
    pub invite_list: Set<Seq<char>>,
    pub key: Option<Seq<char>>,
    pub user_limit: Option<u32>,
    pub created_at: u64,
}

/// A cluster server, as values.
pub struct ServerView {
    pub node_id: NodeId,
    pub addr: Seq<char>,
}

/// The whole replicated state, as values: users and channels keyed by their
/// lowercased names, servers by node id.
#[verifier::ext_equal]
pub struct MachineView {
    pub users: Map<Seq<char>, UserView>,
    pub channels: Map<Seq<char>, ChannelView>,
    pub servers: Map<u64, ServerView>,
}

/// Serializable representation of a user's state for cluster replication:
/// the parts of a live session that every node keeps a copy of.
#[derive(Debug)]
pub struct ReplicatedUser {
    pub nickname: String,
    pub username: String,
    pub realname: String,
    pub hostname: String,
    pub modes: StrSet,
    pub away_message: Option<String>,
    pub signon_time: u64,
    pub home_node: Option<NodeId>,
    pub is_oper: bool,
}

impl View for ReplicatedUser {
    type V = UserView;

    open spec fn view(&self) -> UserView {
        UserView {
            nickname: self.nickname@,
            username: self.username@,
            realname: self.realname@,
            hostname: self.hostname@,
            modes: self.modes@,
            away_message: opt_str(self.away_message),
            signon_time: self.signon_time,
            home_node: self.home_node,
            is_oper: self.is_oper,
        }
    }
}

/// Serializable representation of a channel's ban list entry.
#[derive(Debug, PartialEq, Eq)]
pub struct ReplicatedBanEntry {
    pub mask: String,
    pub who_set: String,
    pub timestamp: u64,
}

impl View for ReplicatedBanEntry {
    type V = BanView;

    open spec fn view(&self) -> BanView {
        BanView { mask: self.mask@, who_set: self.who_set@, timestamp: self.timestamp }
    }
}

impl Clone for ReplicatedBanEntry {
    fn clone(&self) -> (r: Self)
        ensures
            r == *self,
    {
        ReplicatedBanEntry { mask: self.mask.clone(), who_set: self.who_set.clone(), timestamp: self.timestamp }
    }
}

/// Serializable representation of a channel's state for cluster replication.
#[derive(Debug)]
pub struct ReplicatedChannel {
    pub name: String,
    /// Text, who set it, and when.
    pub topic: Option<(String, String, u64)>,
    pub modes: StrSet,
    /// Member status by lowercased nickname.
    pub members: StrMap<String>,
    pub ban_list: Vec<ReplicatedBanEntry>,
    pub invite_list: StrSet,
    pub key: Option<String>,
    pub user_limit: Option<u32>,
    pub created_at: u64,
}

/// The contents of a topic.
pub open spec fn topic_view(t: Option<(String, String, u64)>) -> Option<(Seq<char>, Seq<char>, u64)> {
    match t {
        Some(t) => Some((t.0@, t.1@, t.2)),
        None => None,
    }
}

/// Member statuses as values.
pub open spec fn members_view(m: Map<Seq<char>, String>) -> Map<Seq<char>, Seq<char>> {
    Map::new(|k: Seq<char>| m.contains_key(k), |k: Seq<char>| m[k]@)
}

/// Ban entries as values.
pub open spec fn bans_view(s: Seq<ReplicatedBanEntry>) -> Seq<BanView> {
    Seq::new(s.len(), |i: int| s[i]@)
}

impl View for ReplicatedChannel {
    type V = ChannelView;

    open spec fn view(&self) -> ChannelView {
        ChannelView {
            name: self.name@,
            topic: topic_view(self.topic),
            modes: self.modes@,
            members: members_view(self.members@),
            ban_list: bans_view(self.ban_list@),
            invite_list: self.invite_list@,
            key: opt_str(self.key),
            user_limit: self.user_limit,
            created_at: self.created_at,
        }
    }
}

/// Serializable representation of a cluster server node; its address is
/// kept as written (`host:port`).
#[derive(Debug, PartialEq, Eq)]
pub struct ReplicatedServer {
    pub node_id: NodeId,
    pub addr: String,
}

impl View for ReplicatedServer {
    type V = ServerView;

    open spec fn view(&self) -> ServerView {
        ServerView { node_id: self.node_id, addr: self.addr@ }
    }
}


impl Clone for ReplicatedUser {
    fn clone(&self) -> (r: Self)
        ensures
            r@ == self@,
    {
        let r = ReplicatedUser {
            nickname: self.nickname.clone(),
            username: self.username.clone(),
            realname: self.realname.clone(),
            hostname: self.hostname.clone(),
            modes: self.modes.clone(),
            away_message: match &self.away_message {
                Some(m) => Some(m.clone()),
                None => None,
            },
            signon_time: self.signon_time,
            home_node: self.home_node,
            is_oper: self.is_oper,
        };
        assert(r@ =~= self@);
        r
    }
}

impl Clone for ReplicatedChannel {
    fn clone(&self) -> (r: Self)
        ensures
            r@ == self@,
    {
        let mut bans: Vec<ReplicatedBanEntry> = Vec::new();
        let mut i: usize = 0;
        while i < self.ban_list.len()
            invariant
                i <= self.ban_list@.len(),
                bans@ == self.ban_list@.take(i as int),
            decreases self.ban_list@.len() - i,
        {
            bans.push(self.ban_list[i].clone());
            assert(bans@ =~= self.ban_list@.take(i + 1));
            i = i + 1;
        }
        assert(bans@ =~= self.ban_list@);
        let r = ReplicatedChannel {
            name: self.name.clone(),
            topic: match &self.topic {
                Some(t) => Some((t.0.clone(), t.1.clone(), t.2)),
                None => None,
            },
            modes: self.modes.clone(),
            members: self.members.clone(),
            ban_list: bans,
            invite_list: self.invite_list.clone(),
            key: match &self.key {
                Some(k) => Some(k.clone()),
                None => None,
            },
            user_limit: self.user_limit,
            created_at: self.created_at,
        };
        assert(r@ =~= self@);
        r
    }
}

impl Clone for ReplicatedServer {
    fn clone(&self) -> (r: Self)
        ensures
            r == *self,
    {
        ReplicatedServer { node_id: self.node_id, addr: self.addr.clone() }
    }
}

/// Users keyed as in a snapshot; a key given twice keeps its first user.
pub open spec fn users_from_pairs(s: Seq<(String, ReplicatedUser)>) -> Map<Seq<char>, UserView>
    decreases s.len(),
{
    if s.len() == 0 {
        Map::empty()
    } else {
        users_from_pairs(s.skip(1)).insert(s[0].0@, s[0].1@)
    }
}

/// Channels keyed as in a snapshot; a key given twice keeps its first channel.
pub open spec fn channels_from_pairs(s: Seq<(String, ReplicatedChannel)>) -> Map<Seq<char>, ChannelView>
    decreases s.len(),
{
    if s.len() == 0 {
        Map::empty()
    } else {
        channels_from_pairs(s.skip(1)).insert(s[0].0@, s[0].1@)
    }
}

/// Servers keyed as in a snapshot; a key given twice keeps its first server.
pub open spec fn servers_from_pairs(s: Seq<(u64, ReplicatedServer)>) -> Map<u64, ServerView>
    decreases s.len(),
{
    if s.len() == 0 {
        Map::empty()
    } else {
        servers_from_pairs(s.skip(1)).insert(s[0].0, s[0].1@)
    }
}

/// The state a snapshot's parts describe.
pub open spec fn machine_from_parts(
    users: Seq<(String, ReplicatedUser)>,
    channels: Seq<(String, ReplicatedChannel)>,
    servers: Seq<(u64, ReplicatedServer)>,
) -> MachineView {
    MachineView {
        users: users_from_pairs(users),
        channels: channels_from_pairs(channels),
        servers: servers_from_pairs(servers),
    }
}

proof fn lemma_users_exported(t: Seq<(String, ReplicatedUser)>, out: Seq<(String, ReplicatedUser)>)
    requires
        unique_str_keys(t),
        out.len() == t.len(),
        forall|i: int| 0 <= i < t.len() ==> (#[trigger] out[i]).0@ == t[i].0@ && out[i].1@ == t[i].1@,
    ensures
        users_from_pairs(out) == users_view(str_pairs_map(t)),
    decreases t.len(),
{
    if t.len() == 0 {
        assert(users_view(str_pairs_map(t)) =~= Map::<Seq<char>, UserView>::empty());
    } else {
        lemma_str_pairs_map_skip(t);
        assert forall|i: int| 0 <= i < t.skip(1).len() implies (#[trigger] out.skip(1)[i]).0@ == t.skip(1)[i].0@ && out.skip(1)[i].1@ == t.skip(1)[i].1@ by {
            assert(out.skip(1)[i] == out[i + 1]);
            assert(t.skip(1)[i] == t[i + 1]);
        }
        lemma_users_exported(t.skip(1), out.skip(1));
        lemma_users_view_insert(str_pairs_map(t.skip(1)), t[0].0@, t[0].1);
    }
}

proof fn lemma_channels_exported(t: Seq<(String, ReplicatedChannel)>, out: Seq<(String, ReplicatedChannel)>)
    requires
        unique_str_keys(t),
        out.len() == t.len(),
        forall|i: int| 0 <= i < t.len() ==> (#[trigger] out[i]).0@ == t[i].0@ && out[i].1@ == t[i].1@,
    ensures
        channels_from_pairs(out) == channels_view(str_pairs_map(t)),
    decreases t.len(),
{
    if t.len() == 0 {
        assert(channels_view(str_pairs_map(t)) =~= Map::<Seq<char>, ChannelView>::empty());
    } else {
        lemma_str_pairs_map_skip(t);
        assert forall|i: int| 0 <= i < t.skip(1).len() implies (#[trigger] out.skip(1)[i]).0@ == t.skip(1)[i].0@ && out.skip(1)[i].1@ == t.skip(1)[i].1@ by {
            assert(out.skip(1)[i] == out[i + 1]);
            assert(t.skip(1)[i] == t[i + 1]);
        }
        lemma_channels_exported(t.skip(1), out.skip(1));
        lemma_channels_view_insert(str_pairs_map(t.skip(1)), t[0].0@, t[0].1);
    }
}

/// No node id is given twice.
pub open spec fn unique_ids(s: Seq<(u64, ReplicatedServer)>) -> bool {
    forall|i: int, j: int| 0 <= i < s.len() && 0 <= j < s.len() && i != j ==> (#[trigger] s[i]).0 != (#[trigger] s[j]).0
}

proof fn lemma_servers_from_unique(s: Seq<(u64, ReplicatedServer)>)
    requires
        unique_ids(s),
    ensures
        forall|k: u64| #[trigger] servers_from_pairs(s).contains_key(k) <==> exists|i: int| 0 <= i < s.len() && (#[trigger] s[i]).0 == k,
        forall|i: int| 0 <= i < s.len() ==> #[trigger] servers_from_pairs(s)[s[i].0] == s[i].1@,
    decreases s.len(),
{
    if s.len() > 0 {
        let r = s.skip(1);
        assert forall|a: int, b: int| 0 <= a < r.len() && 0 <= b < r.len() && a != b implies (#[trigger] r[a]).0 != (#[trigger] r[b]).0 by {
            assert(r[a] == s[a + 1]);
            assert(r[b] == s[b + 1]);
        }
        lemma_servers_from_unique(r);
        assert forall|k: u64| #[trigger] servers_from_pairs(s).contains_key(k) <==> exists|i: int| 0 <= i < s.len() && (#[trigger] s[i]).0 == k by {
            if servers_from_pairs(r).contains_key(k) {
                let j = choose|j: int| 0 <= j < r.len() && (#[trigger] r[j]).0 == k;
                assert(s[j + 1] == r[j]);
            }
            if exists|i: int| 0 <= i < s.len() && (#[trigger] s[i]).0 == k {
                let i = choose|i: int| 0 <= i < s.len() && (#[trigger] s[i]).0 == k;
                if i > 0 {
                    assert(r[i - 1] == s[i]);
                }
            }
        }
        assert forall|i: int| 0 <= i < s.len() implies #[trigger] servers_from_pairs(s)[s[i].0] == s[i].1@ by {
            if i > 0 {
                assert(r[i - 1] == s[i]);
                assert(s[i].0 != s[0].0);
                assert(servers_from_pairs(r)[r[i - 1].0] == r[i - 1].1@);
            }
        }
    }
}

/// Users as values.
pub open spec fn users_view(m: Map<Seq<char>, ReplicatedUser>) -> Map<Seq<char>, UserView> {
    Map::new(|k: Seq<char>| m.contains_key(k), |k: Seq<char>| m[k]@)
}

/// Channels as values.
pub open spec fn channels_view(m: Map<Seq<char>, ReplicatedChannel>) -> Map<Seq<char>, ChannelView> {
    Map::new(|k: Seq<char>| m.contains_key(k), |k: Seq<char>| m[k]@)
}

/// Servers as values.
pub open spec fn servers_view(m: Map<u64, ReplicatedServer>) -> Map<u64, ServerView> {
    Map::new(|k: u64| m.contains_key(k), |k: u64| m[k]@)
}

/// The cluster state machine that applies committed Raft log entries to
/// replicated IRC state.
///
/// It owns copies of user and channel state, not the live registries with
/// connection handles; those are updated separately by the commit consumer.
#[derive(Debug)]
pub struct ClusterStateMachine {
    users: StrMap<ReplicatedUser>,
    channels: StrMap<ReplicatedChannel>,
    servers: HashMap<u64, ReplicatedServer>,
}

impl View for ClusterStateMachine {
    type V = MachineView;

    closed spec fn view(&self) -> MachineView {
        MachineView {
            users: users_view(self.users@),
            channels: channels_view(self.channels@),
            servers: servers_view(self.servers@),
        }
    }
}

/// The empty state.
pub open spec fn empty_machine() -> MachineView {
    MachineView { users: Map::empty(), channels: Map::empty(), servers: Map::empty() }
}

/// A channel as it is first created, under the name it was first given.
pub open spec fn fresh_channel(name: Seq<char>) -> ChannelView {
    ChannelView {
        name,
        topic: None,
        modes: Set::empty(),
        members: Map::empty(),
        ban_list: Seq::empty(),
        invite_list: Set::empty(),
        key: None,
        user_limit: None,
        created_at: 0,
    }
}

/// The channel called `name` (in any case), or a fresh one if there is none.
pub open spec fn channel_or_fresh(chs: Map<Seq<char>, ChannelView>, name: Seq<char>) -> ChannelView {
    if chs.contains_key(ascii_lower(name)) {
        chs[ascii_lower(name)]
    } else {
        fresh_channel(name)
    }
}

/// The contents of a list of strings, as a set.
pub open spec fn str_set(v: Seq<String>) -> Set<Seq<char>> {
    Set::new(|m: Seq<char>| exists|i: int| 0 <= i < v.len() && (#[trigger] v[i])@ == m)
}

/// Modes after adding `added`, then removing `removed`.
pub open spec fn modes_after(modes: Set<Seq<char>>, added: Seq<String>, removed: Seq<String>) -> Set<Seq<char>> {
    modes.union(str_set(added)).difference(str_set(removed))
}

/// Member statuses after applying each change in turn; a change for a nick
/// that is not a member is ignored.
pub open spec fn status_changes(members: Map<Seq<char>, Seq<char>>, changes: Seq<(String, String)>) -> Map<Seq<char>, Seq<char>>
    decreases changes.len(),
{
    if changes.len() == 0 {
        members
    } else {
        let m = status_changes(members, changes.drop_last());
        let k = ascii_lower(changes.last().0@);
        if m.contains_key(k) {
            m.insert(k, changes.last().1@)
        } else {
            m
        }
    }
}

/// The ban list without the entries of `mask`, in order.
pub open spec fn bans_without(bans: Seq<BanView>, mask: Seq<char>) -> Seq<BanView>
    decreases bans.len(),
{
    if bans.len() == 0 {
        bans
    } else {
        let rest = bans_without(bans.drop_last(), mask);
        if bans.last().mask != mask {
            rest.push(bans.last())
        } else {
            rest
        }
    }
}

/// A channel whose member `old_key`, if present, now goes by `new_key` with
/// the same status.
pub open spec fn member_renamed(ch: ChannelView, old_key: Seq<char>, new_key: Seq<char>) -> ChannelView {
    if ch.members.contains_key(old_key) {
        ChannelView { members: ch.members.remove(old_key).insert(new_key, ch.members[old_key]), ..ch }
    } else {
        ch
    }
}

/// A channel without the member `key`.
pub open spec fn member_stripped(ch: ChannelView, key: Seq<char>) -> ChannelView {
    ChannelView { members: ch.members.remove(key), ..ch }
}

/// Every channel with `old_key` renamed to `new_key`.
pub open spec fn channels_renamed(chs: Map<Seq<char>, ChannelView>, old_key: Seq<char>, new_key: Seq<char>) -> Map<Seq<char>, ChannelView> {
    Map::new(|k: Seq<char>| chs.contains_key(k), |k: Seq<char>| member_renamed(chs[k], old_key, new_key))
}

/// Every channel without the member `key`.
pub open spec fn channels_stripped(chs: Map<Seq<char>, ChannelView>, key: Seq<char>) -> Map<Seq<char>, ChannelView> {
    Map::new(|k: Seq<char>| chs.contains_key(k), |k: Seq<char>| member_stripped(chs[k], key))
}

/// The channels that still have members.
pub open spec fn channels_pruned(chs: Map<Seq<char>, ChannelView>) -> Map<Seq<char>, ChannelView> {
    Map::new(|k: Seq<char>| chs.contains_key(k) && !chs[k].members.is_empty(), |k: Seq<char>| chs[k])
}

/// The user under `key` replaced by `u`, if there is such a user.
pub open spec fn user_updated(st: MachineView, key: Seq<char>, u: UserView) -> MachineView {
    if st.users.contains_key(key) {
        MachineView { users: st.users.insert(key, u), ..st }
    } else {
        st
    }
}

/// The channel called `name` (created if needed) replaced by `ch`.
pub open spec fn channel_put(st: MachineView, name: Seq<char>, ch: ChannelView) -> MachineView {
    MachineView { channels: st.channels.insert(ascii_lower(name), ch), ..st }
}

/// A user as registered.
pub open spec fn registered_user(
    nickname: Seq<char>,
    username: Seq<char>,
    realname: Seq<char>,
    hostname: Seq<char>,
    signon_time: u64,
    home_node: Option<NodeId>,
) -> UserView {
    UserView {
        nickname,
        username,
        realname,
        hostname,
        modes: Set::empty(),
        away_message: None,
        signon_time,
        home_node,
        is_oper: false,
    }
}

/// A nick change: the user record moves to the new key under the new nick,
/// and every channel membership follows it.
pub open spec fn nick_changed(st: MachineView, old_nick: Seq<char>, new_nick: Seq<char>) -> MachineView {
    let old_key = ascii_lower(old_nick);
    let new_key = ascii_lower(new_nick);
    let users = if st.users.contains_key(old_key) {
        st.users.remove(old_key).insert(new_key, UserView { nickname: new_nick, ..st.users[old_key] })
    } else {
        st.users
    };
    MachineView { users, channels: channels_renamed(st.channels, old_key, new_key), ..st }
}

/// A user leaves the network: the record goes, its memberships go, and every
/// channel left without members is dropped.
pub open spec fn user_gone(st: MachineView, nickname: Seq<char>) -> MachineView {
    let key = ascii_lower(nickname);
    MachineView {
        users: st.users.remove(key),
        channels: channels_pruned(channels_stripped(st.channels, key)),
        ..st
    }
}

/// A member leaves one channel, which is dropped if no member is left; a
/// channel that does not exist is not created.
pub open spec fn member_left(st: MachineView, channel: Seq<char>, nickname: Seq<char>) -> MachineView {
    let ck = ascii_lower(channel);
    if st.channels.contains_key(ck) {
        let ch = member_stripped(st.channels[ck], ascii_lower(nickname));
        if ch.members.is_empty() {
            MachineView { channels: st.channels.remove(ck), ..st }
        } else {
            MachineView { channels: st.channels.insert(ck, ch), ..st }
        }
    } else {
        st
    }
}

/// The topic of a command, as values.
pub open spec fn topic_info_view(t: Option<TopicInfo>) -> Option<(Seq<char>, Seq<char>, u64)> {
    match t {
        Some(t) => Some((t.text@, t.who@, t.timestamp)),
        None => None,
    }
}

/// What applying `cmd` does to the replicated state.
pub open spec fn apply_spec(st: MachineView, cmd: ClusterCommand) -> MachineView {
    match cmd {
        ClusterCommand::UserRegistered { nickname, username, realname, hostname, signon_time, home_node, .. } => MachineView {
            users: st.users.insert(
                ascii_lower(nickname@),
                registered_user(nickname@, username@, realname@, hostname@, signon_time, home_node),
            ),
            ..st
        },
        ClusterCommand::NickChanged { old_nick, new_nick } => nick_changed(st, old_nick@, new_nick@),
        ClusterCommand::UserQuit { nickname, .. } => user_gone(st, nickname@),
        ClusterCommand::UserKilled { nickname, .. } => user_gone(st, nickname@),
        ClusterCommand::UserAway { nickname, message } => {
            let k = ascii_lower(nickname@);
            user_updated(st, k, UserView { away_message: opt_str(message), ..st.users[k] })
        },
        ClusterCommand::UserModeChanged { nickname, modes_added, modes_removed } => {
            let k = ascii_lower(nickname@);
            let u = st.users[k];
            user_updated(st, k, UserView { modes: modes_after(u.modes, modes_added@, modes_removed@), ..u })
        },
        ClusterCommand::ChannelJoined { nickname, channel, status } => {
            let ch = channel_or_fresh(st.channels, channel@);
            channel_put(st, channel@, ChannelView { members: ch.members.insert(ascii_lower(nickname@), status@), ..ch })
        },
        ClusterCommand::ChannelParted { nickname, channel, .. } => member_left(st, channel@, nickname@),
        ClusterCommand::UserKicked { channel, nickname, .. } => member_left(st, channel@, nickname@),
        ClusterCommand::TopicSet { channel, topic } => {
            let ch = channel_or_fresh(st.channels, channel@);
            channel_put(st, channel@, ChannelView { topic: topic_info_view(topic), ..ch })
        },
        ClusterCommand::ChannelModeChanged { channel, modes_added, modes_removed, key, user_limit, member_status_changes } => {
            let ch = channel_or_fresh(st.channels, channel@);
            channel_put(st, channel@, ChannelView {
                modes: modes_after(ch.modes, modes_added@, modes_removed@),
                key: if key is Some { opt_str(key) } else { ch.key },
                user_limit: if user_limit is Some { user_limit } else { ch.user_limit },
                members: status_changes(ch.members, member_status_changes@),
                ..ch
            })
        },
        ClusterCommand::BanAdded { channel, mask, who_set, timestamp } => {
            let ch = channel_or_fresh(st.channels, channel@);
            channel_put(st, channel@, ChannelView {
                ban_list: ch.ban_list.push(BanView { mask: mask@, who_set: who_set@, timestamp }),
                ..ch
            })
        },
        ClusterCommand::BanRemoved { channel, mask } => {
            let ck = ascii_lower(channel@);
            if st.channels.contains_key(ck) {
                let ch = st.channels[ck];
                MachineView {
                    channels: st.channels.insert(ck, ChannelView { ban_list: bans_without(ch.ban_list, mask@), ..ch }),
                    ..st
                }
            } else {
                st
            }
        },
        ClusterCommand::InviteAdded { channel, nickname } => {
            let ch = channel_or_fresh(st.channels, channel@);
            channel_put(st, channel@, ChannelView { invite_list: ch.invite_list.insert(ascii_lower(nickname@)), ..ch })
        },
        ClusterCommand::OperGranted { nickname } => {
            let k = ascii_lower(nickname@);
            user_updated(st, k, UserView { is_oper: true, ..st.users[k] })
        },
        ClusterCommand::ServerAdded { node_id, addr } => MachineView {
            servers: st.servers.insert(node_id.0, ServerView { node_id, addr: addr@ }),
            ..st
        },
        ClusterCommand::ServerRemoved { node_id } => MachineView { servers: st.servers.remove(node_id.0), ..st },
        ClusterCommand::UserMigrated { nickname, to_node, .. } => {
            let k = ascii_lower(nickname@);
            user_updated(st, k, UserView { home_node: Some(to_node), ..st.users[k] })
        },
        ClusterCommand::Noop { .. } => st,
    }
}


proof fn lemma_users_view_insert(m: Map<Seq<char>, ReplicatedUser>, k: Seq<char>, u: ReplicatedUser)
    ensures
        users_view(m.insert(k, u)) == users_view(m).insert(k, u@),
{
    assert(users_view(m.insert(k, u)) =~= users_view(m).insert(k, u@));
}

proof fn lemma_users_view_remove(m: Map<Seq<char>, ReplicatedUser>, k: Seq<char>)
    ensures
        users_view(m.remove(k)) == users_view(m).remove(k),
{
    assert(users_view(m.remove(k)) =~= users_view(m).remove(k));
}

proof fn lemma_channels_view_insert(m: Map<Seq<char>, ReplicatedChannel>, k: Seq<char>, c: ReplicatedChannel)
    ensures
        channels_view(m.insert(k, c)) == channels_view(m).insert(k, c@),
{
    assert(channels_view(m.insert(k, c)) =~= channels_view(m).insert(k, c@));
}

proof fn lemma_channels_view_remove(m: Map<Seq<char>, ReplicatedChannel>, k: Seq<char>)
    ensures
        channels_view(m.remove(k)) == channels_view(m).remove(k),
{
    assert(channels_view(m.remove(k)) =~= channels_view(m).remove(k));
}

proof fn lemma_servers_view_insert(m: Map<u64, ReplicatedServer>, k: u64, v: ReplicatedServer)
    ensures
        servers_view(m.insert(k, v)) == servers_view(m).insert(k, v@),
{
    assert(servers_view(m.insert(k, v)) =~= servers_view(m).insert(k, v@));
}

proof fn lemma_servers_view_remove(m: Map<u64, ReplicatedServer>, k: u64)
    ensures
        servers_view(m.remove(k)) == servers_view(m).remove(k),
{
    assert(servers_view(m.remove(k)) =~= servers_view(m).remove(k));
}

proof fn lemma_members_view_insert(m: Map<Seq<char>, String>, k: Seq<char>, v: String)
    ensures
        members_view(m.insert(k, v)) == members_view(m).insert(k, v@),
{
    assert(members_view(m.insert(k, v)) =~= members_view(m).insert(k, v@));
}

proof fn lemma_members_view_remove(m: Map<Seq<char>, String>, k: Seq<char>)
    ensures
        members_view(m.remove(k)) == members_view(m).remove(k),
{
    assert(members_view(m.remove(k)) =~= members_view(m).remove(k));
}

proof fn lemma_str_set_step(v: Seq<String>, i: int)
    requires
        0 <= i < v.len(),
    ensures
        str_set(v.take(i + 1)) == str_set(v.take(i)).insert(v[i]@),
{
    let a = str_set(v.take(i + 1));
    let b = str_set(v.take(i)).insert(v[i]@);
    assert forall|m: Seq<char>| a.contains(m) <==> b.contains(m) by {
        if a.contains(m) {
            let j = choose|j: int| 0 <= j < v.take(i + 1).len() && (#[trigger] v.take(i + 1)[j])@ == m;
            if j < i {
                assert(v.take(i)[j] == v.take(i + 1)[j]);
            }
        }
        if str_set(v.take(i)).contains(m) {
            let j = choose|j: int| 0 <= j < v.take(i).len() && (#[trigger] v.take(i)[j])@ == m;
            assert(v.take(i + 1)[j] == v.take(i)[j]);
        }
        if m == v[i]@ {
            assert(v.take(i + 1)[i] == v[i]);
        }
    }
    assert(a =~= b);
}

/// Apply the mode changes of a command: first the added ones, then the
/// removed ones.
fn change_modes(set: &mut StrSet, added: &Vec<String>, removed: &Vec<String>)
    ensures
        final(set)@ == modes_after(old(set)@, added@, removed@),
{
    let ghost s0 = set@;
    let mut i: usize = 0;
    assert(str_set(added@.take(0)) =~= Set::<Seq<char>>::empty());
    while i < added.len()
        invariant
            i <= added@.len(),
            set@ == s0.union(str_set(added@.take(i as int))),
        decreases added@.len() - i,
    {
        set.insert(added[i].clone());
        proof {
            lemma_str_set_step(added@, i as int);
            assert(set@ =~= s0.union(str_set(added@.take(i + 1))));
        }
        i = i + 1;
    }
    assert(added@.take(added@.len() as int) =~= added@);
    let ghost s1 = set@;
    let mut j: usize = 0;
    assert(str_set(removed@.take(0)) =~= Set::<Seq<char>>::empty());
    assert(s1 =~= s1.difference(str_set(removed@.take(0))));
    while j < removed.len()
        invariant
            j <= removed@.len(),
            set@ == s1.difference(str_set(removed@.take(j as int))),
        decreases removed@.len() - j,
    {
        set.remove(removed[j].as_str());
        proof {
            lemma_str_set_step(removed@, j as int);
            assert(set@ =~= s1.difference(str_set(removed@.take(j + 1))));
        }
        j = j + 1;
    }
    assert(removed@.take(removed@.len() as int) =~= removed@);
}

/// Apply member status changes in order, ignoring nicks that are not members.
fn change_statuses(members: &mut StrMap<String>, changes: &Vec<(String, String)>)
    ensures
        members_view(final(members)@) == status_changes(members_view(old(members)@), changes@),
{
    let ghost m0 = members_view(members@);
    let mut i: usize = 0;
    assert(changes@.take(0) =~= Seq::<(String, String)>::empty());
    while i < changes.len()
        invariant
            i <= changes@.len(),
            members_view(members@) == status_changes(m0, changes@.take(i as int)),
        decreases changes@.len() - i,
    {
        let nick_key = to_ascii_lowercase(changes[i].0.as_str());
        proof {
            assert(changes@.take(i + 1).drop_last() =~= changes@.take(i as int));
            assert(changes@.take(i + 1).last() == changes@[i as int]);
        }
        if members.contains_key(nick_key.as_str()) {
            let status = changes[i].1.clone();
            proof {
                lemma_members_view_insert(members@, nick_key@, status);
            }
            members.insert(nick_key, status);
        }
        i = i + 1;
    }
    assert(changes@.take(changes@.len() as int) =~= changes@);
}

/// The ban list without the entries of `mask`, in order.
fn bans_kept(bans: &Vec<ReplicatedBanEntry>, mask: &String) -> (r: Vec<ReplicatedBanEntry>)
    ensures
        bans_view(r@) == bans_without(bans_view(bans@), mask@),
{
    let mut out: Vec<ReplicatedBanEntry> = Vec::new();
    let mut i: usize = 0;
    assert(bans_view(bans@.take(0)) =~= Seq::<BanView>::empty());
    assert(bans_view(out@) =~= Seq::<BanView>::empty());
    while i < bans.len()
        invariant
            i <= bans@.len(),
            bans_view(out@) == bans_without(bans_view(bans@.take(i as int)), mask@),
        decreases bans@.len() - i,
    {
        proof {
            assert(bans_view(bans@.take(i + 1)).drop_last() =~= bans_view(bans@.take(i as int)));
            assert(bans_view(bans@.take(i + 1)).last() == bans@[i as int]@);
        }
        if bans[i].mask != *mask {
            let b = bans[i].clone();
            let ghost prev = out@;
            out.push(b);
            proof {
                assert(bans_view(out@) =~= bans_view(prev).push(b@));
            }
        }
        i = i + 1;
    }
    assert(bans@.take(bans@.len() as int) =~= bans@);
    out
}

/// The contents of an optional string reference.
pub open spec fn opt_str_ref(o: Option<&String>) -> Option<Seq<char>> {
    match o {
        Some(s) => Some(s@),
        None => None,
    }
}

/// A channel with member `old_key` renamed to `new_key`, or, with no new
/// key, without that member.
pub open spec fn member_moved(ch: ChannelView, old_key: Seq<char>, new_key: Option<Seq<char>>) -> ChannelView {
    match new_key {
        Some(nk) => member_renamed(ch, old_key, nk),
        None => member_stripped(ch, old_key),
    }
}

proof fn lemma_members_empty(m: Map<Seq<char>, String>)
    ensures
        (m == Map::<Seq<char>, String>::empty()) == members_view(m).is_empty(),
{
    if members_view(m).is_empty() {
        assert forall|k: Seq<char>| !m.contains_key(k) by {
            if m.contains_key(k) {
                assert(members_view(m).dom().contains(k));
            }
        }
        assert(m =~= Map::<Seq<char>, String>::empty());
    }
    if m == Map::<Seq<char>, String>::empty() {
        assert(members_view(m).dom() =~= Set::<Seq<char>>::empty());
    }
}

proof fn lemma_pointwise_channels(
    orig: Seq<(String, ReplicatedChannel)>,
    now: Seq<(String, ReplicatedChannel)>,
    f: spec_fn(ChannelView) -> ChannelView,
)
    requires
        unique_str_keys(orig),
        now.len() == orig.len(),
        forall|j: int| 0 <= j < orig.len() ==> (#[trigger] now[j]).0 == orig[j].0 && now[j].1@ == f(orig[j].1@),
    ensures
        unique_str_keys(now),
        channels_view(str_pairs_map(now)) == Map::new(
            |k: Seq<char>| str_pairs_map(orig).contains_key(k),
            |k: Seq<char>| f(str_pairs_map(orig)[k]@),
        ),
{
    assert forall|a: int, b: int| 0 <= a < now.len() && 0 <= b < now.len() && a != b implies (#[trigger] now[a]).0@ != (#[trigger] now[b]).0@ by {
        assert(orig[a].0@ != orig[b].0@);
    }
    let x = channels_view(str_pairs_map(now));
    let y = Map::new(|k: Seq<char>| str_pairs_map(orig).contains_key(k), |k: Seq<char>| f(str_pairs_map(orig)[k]@));
    assert forall|k: Seq<char>| #[trigger] x.contains_key(k) <==> y.contains_key(k) by {
        if x.contains_key(k) {
            let j = choose|j: int| 0 <= j < now.len() && (#[trigger] now[j]).0@ == k;
            lemma_str_pairs_map_at(orig, j);
        }
        if y.contains_key(k) {
            let j = choose|j: int| 0 <= j < orig.len() && (#[trigger] orig[j]).0@ == k;
            lemma_str_pairs_map_at(now, j);
        }
    }
    assert forall|k: Seq<char>| #[trigger] x.contains_key(k) implies x[k] == y[k] by {
        let j = choose|j: int| 0 <= j < now.len() && (#[trigger] now[j]).0@ == k;
        lemma_str_pairs_map_at(now, j);
        lemma_str_pairs_map_at(orig, j);
    }
    assert(x =~= y);
}

/// A channel as it is first created.
fn new_channel(name: &str) -> (r: ReplicatedChannel)
    ensures
        r@ == fresh_channel(name@),
{
    let r = ReplicatedChannel {
        name: name.to_owned(),
        topic: None,
        modes: StrSet::new(),
        members: StrMap::new(),
        ban_list: Vec::new(),
        invite_list: StrSet::new(),
        key: None,
        user_limit: None,
        created_at: 0,
    };
    assert(members_view(r.members@) =~= Map::<Seq<char>, Seq<char>>::empty());
    assert(bans_view(r.ban_list@) =~= Seq::<BanView>::empty());
    assert(r@ =~= fresh_channel(name@));
    r
}

fn export_users(m: &StrMap<ReplicatedUser>) -> (r: Vec<(String, ReplicatedUser)>)
    ensures
        users_from_pairs(r@) == users_view(m@),
{
    proof {
        use_type_invariant(m);
        m.lemma_pairs();
    }
    let n = m.len();
    let mut out: Vec<(String, ReplicatedUser)> = Vec::new();
    let mut i: usize = 0;
    while i < n
        invariant
            n == m.pairs().len(),
            i <= n,
            out@.len() == i,
            forall|j: int| 0 <= j < i ==> (#[trigger] out@[j]).0@ == m.pairs()[j].0@ && out@[j].1@ == m.pairs()[j].1@,
        decreases n - i,
    {
        out.push((m.key_at(i).clone(), m.value_at(i).clone()));
        i = i + 1;
    }
    proof {
        lemma_users_exported(m.pairs(), out@);
    }
    out
}

fn export_channels(m: &StrMap<ReplicatedChannel>) -> (r: Vec<(String, ReplicatedChannel)>)
    ensures
        channels_from_pairs(r@) == channels_view(m@),
{
    proof {
        use_type_invariant(m);
        m.lemma_pairs();
    }
    let n = m.len();
    let mut out: Vec<(String, ReplicatedChannel)> = Vec::new();
    let mut i: usize = 0;
    while i < n
        invariant
            n == m.pairs().len(),
            i <= n,
            out@.len() == i,
            forall|j: int| 0 <= j < i ==> (#[trigger] out@[j]).0@ == m.pairs()[j].0@ && out@[j].1@ == m.pairs()[j].1@,
        decreases n - i,
    {
        out.push((m.key_at(i).clone(), m.value_at(i).clone()));
        i = i + 1;
    }
    proof {
        lemma_channels_exported(m.pairs(), out@);
    }
    out
}

fn export_servers(m: &HashMap<u64, ReplicatedServer>) -> (r: Vec<(u64, ReplicatedServer)>)
    ensures
        servers_from_pairs(r@) == servers_view(m@),
{
    let ghost all = vstd::std_specs::hash::spec_hash_map_iter(m).remaining();
    let mut out: Vec<(u64, ReplicatedServer)> = Vec::new();
    for (k, v) in it: m.iter()
        invariant
            all == vstd::std_specs::hash::spec_hash_map_iter(m).remaining(),
            it.seq() == all,
            out@.len() == it.index(),
            forall|j: int| 0 <= j < out@.len() ==> (#[trigger] out@[j]).0 == *all[j].0 && out@[j].1 == *all[j].1,
    {
        out.push((*k, v.clone()));
    }
    assert(out@.len() == all.len());
    proof {
        assert forall|a: int, b: int| 0 <= a < out@.len() && 0 <= b < out@.len() && a != b implies (#[trigger] out@[a]).0 != (#[trigger] out@[b]).0 by {
            if out@[a].0 == out@[b].0 {
                assert(m@[*all[a].0] == *all[a].1);
                assert(m@[*all[b].0] == *all[b].1);
                assert(all[a] == all[b]);
            }
        }
        lemma_servers_from_unique(out@);
        let x = servers_from_pairs(out@);
        let y = servers_view(m@);
        assert forall|k: u64| #[trigger] x.contains_key(k) <==> y.contains_key(k) by {
            if y.contains_key(k) {
                assert(m@.contains_key(k));
                assert(all.contains((&k, &m@[k])));
                let j = choose|j: int| 0 <= j < all.len() && all[j] == (&k, &m@[k]);
                assert(out@[j].0 == k);
            }
            if x.contains_key(k) {
                let j = choose|j: int| 0 <= j < out@.len() && (#[trigger] out@[j]).0 == k;
                assert(m@.contains_key(*all[j].0));
            }
        }
        assert forall|k: u64| #[trigger] x.contains_key(k) implies x[k] == y[k] by {
            let j = choose|j: int| 0 <= j < out@.len() && (#[trigger] out@[j]).0 == k;
            assert(m@[*all[j].0] == *all[j].1);
            assert(x[out@[j].0] == out@[j].1@);
        }
        assert(x =~= y);
    }
    out
}

impl Default for ClusterStateMachine {
    fn default() -> (r: Self)
        ensures
            r@ == empty_machine(),
    {
        Self::new()
    }
}

/// The answer and the state after restoring a state whose view is `current`
/// from a snapshot of `len` bytes that decoded to `decoded`: an empty
/// snapshot clears the state; otherwise the decoded state replaces it, or,
/// where the bytes did not decode, it is kept and the decoder's message
/// returned.
pub open spec fn restored(
    current: MachineView,
    len: nat,
    decoded: Result<ClusterStateMachine, String>,
) -> (Result<(), SnapshotError>, MachineView) {
    if len == 0 {
        (Ok(()), empty_machine())
    } else {
        match decoded {
            Ok(st) => (Ok(()), st@),
            Err(e) => (Err(SnapshotError::InvalidData(e)), current),
        }
    }
}

/// A snapshot round trip gives the state back: when a state's exported
/// parts are rebuilt into a state and a (non-empty) snapshot of them is
/// restored, whatever state restores it ends up as the exported one.
pub proof fn lemma_snapshot_round_trip(
    exported: MachineView,
    users: Seq<(String, ReplicatedUser)>,
    channels: Seq<(String, ReplicatedChannel)>,
    servers: Seq<(u64, ReplicatedServer)>,
    rebuilt: ClusterStateMachine,
    current: MachineView,
    len: nat,
)
    requires
        machine_from_parts(users, channels, servers) == exported,
        rebuilt@ == machine_from_parts(users, channels, servers),
        len > 0,
    ensures
        restored(current, len, Ok(rebuilt)) == (Ok::<(), SnapshotError>(()), exported),
{
}

/// A channel mode change sets the key and the user limit it carries and
/// leaves them as they were when it carries none (a new channel has
/// neither); the channel exists afterwards, and every other channel is left
/// as it was.
pub proof fn lemma_mode_change_keeps_unset_key(
    st: MachineView,
    channel: String,
    modes_added: Vec<String>,
    modes_removed: Vec<String>,
    key: Option<String>,
    user_limit: Option<u32>,
    member_status_changes: Vec<(String, String)>,
)
    ensures
        ({
            let new = apply_spec(st, ClusterCommand::ChannelModeChanged { channel, modes_added, modes_removed, key, user_limit, member_status_changes });
            let ck = ascii_lower(channel@);
            &&& new.channels.contains_key(ck)
            &&& key matches Some(k) ==> new.channels[ck].key == Some(k@)
            &&& key is None && st.channels.contains_key(ck) ==> new.channels[ck].key == st.channels[ck].key
            &&& key is None && !st.channels.contains_key(ck) ==> new.channels[ck].key is None
            &&& user_limit matches Some(l) ==> new.channels[ck].user_limit == Some(l)
            &&& user_limit is None && st.channels.contains_key(ck) ==> new.channels[ck].user_limit == st.channels[ck].user_limit
            &&& forall|c: Seq<char>| c != ck ==> (#[trigger] new.channels.contains_key(c) == st.channels.contains_key(c)
                && (st.channels.contains_key(c) ==> new.channels[c] == st.channels[c]))
            &&& new.users == st.users
        }),
{
}

/// After a user quits or is killed, no user record and no channel
/// membership of theirs is left, and no channel is left without members.
pub proof fn lemma_user_gone_leaves_no_trace(st: MachineView, nickname: Seq<char>)
    ensures
        ({
            let after = user_gone(st, nickname);
            let key = ascii_lower(nickname);
            &&& !after.users.contains_key(key)
            &&& forall|k: Seq<char>| #[trigger] after.channels.contains_key(k) ==> !after.channels[k].members.is_empty() && !after.channels[k].members.contains_key(key)
        }),
{
}

/// The nickname that a command updating one user's record is about.
pub open spec fn user_update_target(cmd: ClusterCommand) -> Option<Seq<char>> {
    match cmd {
        ClusterCommand::UserAway { nickname, .. } => Some(nickname@),
        ClusterCommand::UserModeChanged { nickname, .. } => Some(nickname@),
        ClusterCommand::OperGranted { nickname } => Some(nickname@),
        ClusterCommand::UserMigrated { nickname, .. } => Some(nickname@),
        _ => None,
    }
}

/// A command that updates the record of a user who is not there changes
/// nothing.
pub proof fn lemma_absent_user_untouched(st: MachineView, cmd: ClusterCommand, nickname: Seq<char>)
    requires
        user_update_target(cmd) == Some(nickname),
        !st.users.contains_key(ascii_lower(nickname)),
    ensures
        apply_spec(st, cmd) == st,
{
}

impl ClusterStateMachine {
    /// Creates a new empty state machine.
    pub fn new() -> (r: Self)
        ensures
            r@ == empty_machine(),
    {
        let r = ClusterStateMachine { users: StrMap::new(), channels: StrMap::new(), servers: HashMap::new() };
        assert(r@ =~= empty_machine());
        r
    }

    /// The replicated user state, if the user exists (nicknames match in any
    /// case).
    pub fn get_user(&self, nickname: &str) -> (r: Option<&ReplicatedUser>)
        ensures
            match r {
                Some(u) => self@.users.contains_key(ascii_lower(nickname@)) && u@ == self@.users[ascii_lower(nickname@)],
                None => !self@.users.contains_key(ascii_lower(nickname@)),
            },
    {
        let key = to_ascii_lowercase(nickname);
        self.users.get(key.as_str())
    }

    /// The replicated channel state, if the channel exists (names match in any
    /// case).
    pub fn get_channel(&self, name: &str) -> (r: Option<&ReplicatedChannel>)
        ensures
            match r {
                Some(c) => self@.channels.contains_key(ascii_lower(name@)) && c@ == self@.channels[ascii_lower(name@)],
                None => !self@.channels.contains_key(ascii_lower(name@)),
            },
    {
        let key = to_ascii_lowercase(name);
        self.channels.get(key.as_str())
    }


    /// Take the channel called `channel` out of the map, or make a fresh one
    /// under that name.
    fn take_channel(&mut self, channel: &str) -> (r: (String, ReplicatedChannel))
        ensures
            r.0@ == ascii_lower(channel@),
            r.1@ == channel_or_fresh(old(self)@.channels, channel@),
            final(self).channels@ == old(self).channels@.remove(r.0@),
            final(self)@ == (MachineView { channels: old(self)@.channels.remove(r.0@), ..old(self)@ }),
            final(self).users@ == old(self).users@,
            final(self).servers@ == old(self).servers@,
    {
        let key = to_ascii_lowercase(channel);
        proof {
            lemma_channels_view_remove(self.channels@, key@);
        }
        let r = match self.channels.remove(key.as_str()) {
            Some(ch) => (key, ch),
            None => (key, new_channel(channel)),
        };
        assert(self@ =~= (MachineView { channels: old(self)@.channels.remove(r.0@), ..old(self)@ }));
        r
    }

    /// Put back a channel taken by [`Self::take_channel`], changed.
    fn put_channel(&mut self, key: String, ch: ReplicatedChannel)
        ensures
            final(self)@ == (MachineView { channels: old(self)@.channels.insert(key@, ch@), ..old(self)@ }),
    {
        proof {
            lemma_channels_view_insert(self.channels@, key@, ch);
        }
        self.channels.insert(key, ch);
        assert(self@ =~= (MachineView { channels: old(self)@.channels.insert(key@, ch@), ..old(self)@ }));
    }

    /// Rename member `old_key` to `new_key` in every channel, or, with no new
    /// key, drop that member everywhere. Channels are neither added nor
    /// removed.
    fn move_member(&mut self, old_key: &String, new_key: Option<&String>)
        ensures
            final(self)@ == (MachineView {
                channels: Map::new(
                    |k: Seq<char>| old(self)@.channels.contains_key(k),
                    |k: Seq<char>| member_moved(old(self)@.channels[k], old_key@, opt_str_ref(new_key)),
                ),
                ..old(self)@
            }),
    {
        let ghost orig = self.channels.pairs();
        let ghost nk = opt_str_ref(new_key);
        proof {
            use_type_invariant(&self.channels);
            self.channels.lemma_pairs();
        }
        let n = self.channels.len();
        let mut i: usize = 0;
        while i < n
            invariant
                n == orig.len(),
                i <= n,
                unique_str_keys(orig),
                old(self).channels@ == str_pairs_map(orig),
                self.channels.pairs().len() == n,
                forall|j: int| 0 <= j < n ==> (#[trigger] self.channels.pairs()[j]).0 == orig[j].0,
                forall|j: int| 0 <= j < i ==> (#[trigger] self.channels.pairs()[j]).1@ == member_moved(orig[j].1@, old_key@, nk),
                forall|j: int| i <= j < n ==> (#[trigger] self.channels.pairs()[j]).1 == orig[j].1,
                self.users@ == old(self).users@,
                self.servers@ == old(self).servers@,
                nk == opt_str_ref(new_key),
            decreases n - i,
        {
            let mut ch = self.channels.replace_value_at(i, new_channel(""));
            let ghost before = ch@;
            let ghost m0 = ch.members@;
            match new_key {
                Some(new_key) => {
                    if let Some(status) = ch.members.remove(old_key.as_str()) {
                        ch.members.insert(new_key.clone(), status);
                        proof {
                            lemma_members_view_remove(m0, old_key@);
                            lemma_members_view_insert(m0.remove(old_key@), new_key@, status);
                        }
                    } else {
                        assert(m0.remove(old_key@) =~= m0);
                    }
                },
                None => {
                    let _ = ch.members.remove(old_key.as_str());
                    proof {
                        lemma_members_view_remove(m0, old_key@);
                    }
                },
            }
            assert(ch@ =~= member_moved(before, old_key@, nk));
            let _ = self.channels.replace_value_at(i, ch);
            i = i + 1;
        }
        proof {
            use_type_invariant(&self.channels);
            self.channels.lemma_pairs();
            lemma_pointwise_channels(orig, self.channels.pairs(), |c: ChannelView| member_moved(c, old_key@, nk));
            assert(self@ =~= (MachineView {
                channels: Map::new(
                    |k: Seq<char>| old(self)@.channels.contains_key(k),
                    |k: Seq<char>| member_moved(old(self)@.channels[k], old_key@, opt_str_ref(new_key)),
                ),
                ..old(self)@
            }));
        }
    }

    /// Drop every channel that has no member left.
    fn prune_empty_channels(&mut self)
        ensures
            final(self)@ == (MachineView { channels: channels_pruned(old(self)@.channels), ..old(self)@ }),
    {
        let ghost m0 = self.channels@;
        let mut i: usize = 0;
        while i < self.channels.len()
            invariant
                forall|k: Seq<char>| #[trigger] self.channels@.contains_key(k) ==> m0.contains_key(k) && self.channels@[k] == m0[k],
                forall|k: Seq<char>| #[trigger] m0.contains_key(k) && !m0[k]@.members.is_empty() ==> self.channels@.contains_key(k),
                forall|a: int| 0 <= a < i ==> !(#[trigger] self.channels.pairs()[a]).1@.members.is_empty(),
                i <= self.channels.pairs().len(),
                self.users@ == old(self).users@,
                self.servers@ == old(self).servers@,
                m0 == old(self).channels@,
            decreases self.channels.pairs().len() - i,
        {
            proof {
                lemma_members_empty(self.channels.pairs()[i as int].1.members@);
            }
            if self.channels.value_at(i).members.is_empty() {
                let ghost before = self.channels.pairs();
                let (_, _) = self.channels.remove_at(i);
                assert forall|a: int| 0 <= a < i implies !(#[trigger] self.channels.pairs()[a]).1@.members.is_empty() by {
                    assert(self.channels.pairs()[a] == before[a]);
                }
            } else {
                i = i + 1;
            }
        }
        proof {
            use_type_invariant(&self.channels);
            self.channels.lemma_pairs();
            let x = channels_view(self.channels@);
            let y = channels_pruned(channels_view(m0));
            assert forall|k: Seq<char>| #[trigger] x.contains_key(k) <==> y.contains_key(k) by {
                if x.contains_key(k) {
                    let a = choose|a: int| 0 <= a < self.channels.pairs().len() && (#[trigger] self.channels.pairs()[a]).0@ == k;
                    assert(!self.channels.pairs()[a].1@.members.is_empty());
                }
            }
            assert(x =~= y);
            assert(self@ =~= (MachineView { channels: channels_pruned(old(self)@.channels), ..old(self)@ }));
        }
    }


    /// Take the user `nickname` (in any case) out of the map, if there is one.
    fn take_user(&mut self, nickname: &String) -> (r: (String, Option<ReplicatedUser>))
        ensures
            r.0@ == ascii_lower(nickname@),
            match r.1 {
                Some(u) => old(self)@.users.contains_key(r.0@) && u@ == old(self)@.users[r.0@],
                None => !old(self)@.users.contains_key(r.0@),
            },
            final(self)@ == (MachineView { users: old(self)@.users.remove(r.0@), ..old(self)@ }),
    {
        let key = to_ascii_lowercase(nickname.as_str());
        proof {
            lemma_users_view_remove(self.users@, key@);
        }
        let found = self.users.remove(key.as_str());
        assert(self@ =~= (MachineView { users: old(self)@.users.remove(key@), ..old(self)@ }));
        (key, found)
    }

    /// Put back a user taken by [`Self::take_user`], changed.
    fn put_user(&mut self, key: String, user: ReplicatedUser)
        ensures
            final(self)@ == (MachineView { users: old(self)@.users.insert(key@, user@), ..old(self)@ }),
    {
        proof {
            lemma_users_view_insert(self.users@, key@, user);
        }
        self.users.insert(key, user);
        assert(self@ =~= (MachineView { users: old(self)@.users.insert(key@, user@), ..old(self)@ }));
    }

    fn apply_user_registered(
        &mut self,
        nickname: &String,
        username: &String,
        realname: &String,
        hostname: &String,
        signon_time: u64,
        home_node: Option<NodeId>,
    )
        ensures
            final(self)@ == (MachineView {
                users: old(self)@.users.insert(
                    ascii_lower(nickname@),
                    registered_user(nickname@, username@, realname@, hostname@, signon_time, home_node),
                ),
                ..old(self)@
            }),
    {
        let key = to_ascii_lowercase(nickname.as_str());
        let user = ReplicatedUser {
            nickname: nickname.clone(),
            username: username.clone(),
            realname: realname.clone(),
            hostname: hostname.clone(),
            modes: StrSet::new(),
            away_message: None,
            signon_time,
            home_node,
            is_oper: false,
        };
        assert(user@ =~= registered_user(nickname@, username@, realname@, hostname@, signon_time, home_node));
        self.put_user(key, user);
    }

    fn apply_nick_changed(&mut self, old_nick: &String, new_nick: &String)
        ensures
            final(self)@ == nick_changed(old(self)@, old_nick@, new_nick@),
    {
        let (old_key, found) = self.take_user(old_nick);
        let new_key = to_ascii_lowercase(new_nick.as_str());
        let ghost mid = self@;
        match found {
            Some(mut user) => {
                let ghost u0 = user@;
                user.nickname = new_nick.clone();
                assert(user@ =~= (UserView { nickname: new_nick@, ..u0 }));
                self.put_user(new_key.clone(), user);
            },
            None => {
                assert(old(self)@.users.remove(old_key@) =~= old(self)@.users);
            },
        }
        self.move_member(&old_key, Some(&new_key));
        assert(self@ =~= nick_changed(old(self)@, old_nick@, new_nick@));
    }

    fn apply_user_gone(&mut self, nickname: &String)
        ensures
            final(self)@ == user_gone(old(self)@, nickname@),
    {
        let (key, _) = self.take_user(nickname);
        self.move_member(&key, None);
        let ghost mid = self@;
        self.prune_empty_channels();
        assert(mid.channels =~= channels_stripped(old(self)@.channels, key@));
        assert(self@ =~= user_gone(old(self)@, nickname@));
    }

    fn apply_member_left(&mut self, channel: &String, nickname: &String)
        ensures
            final(self)@ == member_left(old(self)@, channel@, nickname@),
    {
        let chan_key = to_ascii_lowercase(channel.as_str());
        let nick_key = to_ascii_lowercase(nickname.as_str());
        proof {
            lemma_channels_view_remove(self.channels@, chan_key@);
        }
        match self.channels.remove(chan_key.as_str()) {
            Some(mut ch) => {
                let ghost c0 = ch@;
                let ghost m0 = ch.members@;
                let _ = ch.members.remove(nick_key.as_str());
                proof {
                    lemma_members_view_remove(m0, nick_key@);
                    lemma_members_empty(ch.members@);
                }
                assert(ch@ =~= member_stripped(c0, nick_key@));
                if !ch.members.is_empty() {
                    self.put_channel(chan_key, ch);
                }
            },
            None => {
                assert(old(self).channels@.remove(chan_key@) =~= old(self).channels@);
            },
        }
        assert(self@ =~= member_left(old(self)@, channel@, nickname@));
    }

    /// Apply a committed command to the replicated state.
    pub fn apply(&mut self, command: &ClusterCommand)
        ensures
            final(self)@ == apply_spec(old(self)@, *command),
    {
        match command {
            ClusterCommand::UserRegistered { nickname, username, realname, hostname, signon_time, home_node, .. } => {
                self.apply_user_registered(nickname, username, realname, hostname, *signon_time, *home_node);
            },
            ClusterCommand::NickChanged { old_nick, new_nick } => {
                self.apply_nick_changed(old_nick, new_nick);
            },
            ClusterCommand::UserQuit { nickname, .. } => {
                self.apply_user_gone(nickname);
            },
            ClusterCommand::UserKilled { nickname, .. } => {
                self.apply_user_gone(nickname);
            },
            ClusterCommand::UserAway { nickname, message } => {
                let (key, found) = self.take_user(nickname);
                match found {
                    Some(mut user) => {
                        let ghost u0 = user@;
                        user.away_message = match message {
                            Some(m) => Some(m.clone()),
                            None => None,
                        };
                        assert(user@ =~= (UserView { away_message: opt_str(*message), ..u0 }));
                        self.put_user(key, user);
                    },
                    None => {},
                }
                assert(self@ =~= apply_spec(old(self)@, *command));
            },
            ClusterCommand::UserModeChanged { nickname, modes_added, modes_removed } => {
                let (key, found) = self.take_user(nickname);
                match found {
                    Some(mut user) => {
                        let ghost u0 = user@;
                        change_modes(&mut user.modes, modes_added, modes_removed);
                        assert(user@ =~= (UserView { modes: modes_after(u0.modes, modes_added@, modes_removed@), ..u0 }));
                        self.put_user(key, user);
                    },
                    None => {},
                }
                assert(self@ =~= apply_spec(old(self)@, *command));
            },
            ClusterCommand::ChannelJoined { nickname, channel, status } => {
                let (key, mut ch) = self.take_channel(channel.as_str());
                let ghost c0 = ch@;
                let nick_key = to_ascii_lowercase(nickname.as_str());
                proof {
                    lemma_members_view_insert(ch.members@, nick_key@, *status);
                }
                ch.members.insert(nick_key, status.clone());
                assert(ch@ =~= (ChannelView { members: c0.members.insert(ascii_lower(nickname@), status@), ..c0 }));
                self.put_channel(key, ch);
                assert(self@ =~= apply_spec(old(self)@, *command));
            },
            ClusterCommand::ChannelParted { nickname, channel, .. } => {
                self.apply_member_left(channel, nickname);
            },
            ClusterCommand::UserKicked { channel, nickname, .. } => {
                self.apply_member_left(channel, nickname);
            },
            ClusterCommand::TopicSet { channel, topic } => {
                let (key, mut ch) = self.take_channel(channel.as_str());
                let ghost c0 = ch@;
                ch.topic = match topic {
                    Some(t) => Some((t.text.clone(), t.who.clone(), t.timestamp)),
                    None => None,
                };
                assert(ch@ =~= (ChannelView { topic: topic_info_view(*topic), ..c0 }));
                self.put_channel(key, ch);
                assert(self@ =~= apply_spec(old(self)@, *command));
            },
            ClusterCommand::ChannelModeChanged {
                channel,
                modes_added,
                modes_removed,
                key: new_key,
                user_limit,
                member_status_changes,
            } => {
                let (key, mut ch) = self.take_channel(channel.as_str());
                let ghost c0 = ch@;
                change_modes(&mut ch.modes, modes_added, modes_removed);
                match new_key {
                    Some(k) => {
                        ch.key = Some(k.clone());
                    },
                    None => {},
                }
                match user_limit {
                    Some(l) => {
                        ch.user_limit = Some(*l);
                    },
                    None => {},
                }
                change_statuses(&mut ch.members, member_status_changes);
                assert(ch@ =~= (ChannelView {
                    modes: modes_after(c0.modes, modes_added@, modes_removed@),
                    key: if new_key is Some { opt_str(*new_key) } else { c0.key },
                    user_limit: if user_limit is Some { *user_limit } else { c0.user_limit },
                    members: status_changes(c0.members, member_status_changes@),
                    ..c0
                }));
                self.put_channel(key, ch);
                assert(self@ =~= apply_spec(old(self)@, *command));
            },
            ClusterCommand::BanAdded { channel, mask, who_set, timestamp } => {
                let (key, mut ch) = self.take_channel(channel.as_str());
                let ghost c0 = ch@;
                let ghost b0 = ch.ban_list@;
                let entry = ReplicatedBanEntry { mask: mask.clone(), who_set: who_set.clone(), timestamp: *timestamp };
                ch.ban_list.push(entry);
                assert(bans_view(ch.ban_list@) =~= bans_view(b0).push(entry@));
                assert(ch@ =~= (ChannelView {
                    ban_list: c0.ban_list.push(BanView { mask: mask@, who_set: who_set@, timestamp: *timestamp }),
                    ..c0
                }));
                self.put_channel(key, ch);
                assert(self@ =~= apply_spec(old(self)@, *command));
            },
            ClusterCommand::BanRemoved { channel, mask } => {
                let chan_key = to_ascii_lowercase(channel.as_str());
                proof {
                    lemma_channels_view_remove(self.channels@, chan_key@);
                }
                match self.channels.remove(chan_key.as_str()) {
                    Some(mut ch) => {
                        let ghost c0 = ch@;
                        let kept = bans_kept(&ch.ban_list, mask);
                        ch.ban_list = kept;
                        assert(ch@ =~= (ChannelView { ban_list: bans_without(c0.ban_list, mask@), ..c0 }));
                        self.put_channel(chan_key, ch);
                    },
                    None => {
                        assert(old(self).channels@.remove(chan_key@) =~= old(self).channels@);
                    },
                }
                assert(self@ =~= apply_spec(old(self)@, *command));
            },
            ClusterCommand::InviteAdded { channel, nickname } => {
                let (key, mut ch) = self.take_channel(channel.as_str());
                let ghost c0 = ch@;
                ch.invite_list.insert(to_ascii_lowercase(nickname.as_str()));
                assert(ch@ =~= (ChannelView { invite_list: c0.invite_list.insert(ascii_lower(nickname@)), ..c0 }));
                self.put_channel(key, ch);
                assert(self@ =~= apply_spec(old(self)@, *command));
            },
            ClusterCommand::OperGranted { nickname } => {
                let (key, found) = self.take_user(nickname);
                match found {
                    Some(mut user) => {
                        let ghost u0 = user@;
                        user.is_oper = true;
                        assert(user@ =~= (UserView { is_oper: true, ..u0 }));
                        self.put_user(key, user);
                    },
                    None => {},
                }
                assert(self@ =~= apply_spec(old(self)@, *command));
            },
            ClusterCommand::ServerAdded { node_id, addr } => {
                let server = ReplicatedServer { node_id: *node_id, addr: addr.clone() };
                proof {
                    lemma_servers_view_insert(self.servers@, node_id.0, server);
                }
                let _ = self.servers.insert(node_id.as_u64(), server);
                assert(self@ =~= apply_spec(old(self)@, *command));
            },
            ClusterCommand::ServerRemoved { node_id } => {
                proof {
                    lemma_servers_view_remove(self.servers@, node_id.0);
                }
                let id = node_id.as_u64();
                let _ = self.servers.remove(&id);
                assert(self@ =~= apply_spec(old(self)@, *command));
            },
            ClusterCommand::UserMigrated { nickname, to_node, .. } => {
                let (key, found) = self.take_user(nickname);
                match found {
                    Some(mut user) => {
                        let ghost u0 = user@;
                        user.home_node = Some(*to_node);
                        assert(user@ =~= (UserView { home_node: Some(*to_node), ..u0 }));
                        self.put_user(key, user);
                    },
                    None => {},
                }
                assert(self@ =~= apply_spec(old(self)@, *command));
            },
            ClusterCommand::Noop { .. } => {},
        }
    }


    /// The state's parts, as a snapshot holds them: users and channels under
    /// their keys, servers under their node ids.
    pub fn export_parts(&self) -> (r: (Vec<(String, ReplicatedUser)>, Vec<(String, ReplicatedChannel)>, Vec<(u64, ReplicatedServer)>))
        ensures
            machine_from_parts(r.0@, r.1@, r.2@) == self@,
    {
        let users = export_users(&self.users);
        let channels = export_channels(&self.channels);
        let servers = export_servers(&self.servers);
        assert(machine_from_parts(users@, channels@, servers@) =~= self@);
        (users, channels, servers)
    }

    /// The state that a snapshot's parts describe.
    pub fn from_parts(
        users: Vec<(String, ReplicatedUser)>,
        channels: Vec<(String, ReplicatedChannel)>,
        servers: Vec<(u64, ReplicatedServer)>,
    ) -> (r: Self)
        ensures
            r@ == machine_from_parts(users@, channels@, servers@),
    {
        let ghost su = users@;
        let mut rest = users;
        let mut user_map: StrMap<ReplicatedUser> = StrMap::new();
        assert(su.skip(su.len() as int) =~= Seq::<(String, ReplicatedUser)>::empty());
        assert(users_view(user_map@) =~= Map::<Seq<char>, UserView>::empty());
        while rest.len() > 0
            invariant
                rest@.len() <= su.len(),
                rest@ == su.take(rest@.len() as int),
                users_view(user_map@) == users_from_pairs(su.skip(rest@.len() as int)),
            decreases rest@.len(),
        {
            let ghost i = rest@.len() - 1;
            match rest.pop() {
                Some((k, u)) => {
                    proof {
                        assert(su.skip(i).skip(1) =~= su.skip(i + 1));
                        assert(su.skip(i)[0] == su[i]);
                        lemma_users_view_insert(user_map@, k@, u);
                    }
                    user_map.insert(k, u);
                },
                None => {},
            }
            assert(rest@ =~= su.take(i));
        }
        assert(su.skip(0) =~= su);
        let ghost sc = channels@;
        let mut rest = channels;
        let mut channel_map: StrMap<ReplicatedChannel> = StrMap::new();
        assert(sc.skip(sc.len() as int) =~= Seq::<(String, ReplicatedChannel)>::empty());
        assert(channels_view(channel_map@) =~= Map::<Seq<char>, ChannelView>::empty());
        while rest.len() > 0
            invariant
                rest@.len() <= sc.len(),
                rest@ == sc.take(rest@.len() as int),
                channels_view(channel_map@) == channels_from_pairs(sc.skip(rest@.len() as int)),
            decreases rest@.len(),
        {
            let ghost i = rest@.len() - 1;
            match rest.pop() {
                Some((k, c)) => {
                    proof {
                        assert(sc.skip(i).skip(1) =~= sc.skip(i + 1));
                        assert(sc.skip(i)[0] == sc[i]);
                        lemma_channels_view_insert(channel_map@, k@, c);
                    }
                    channel_map.insert(k, c);
                },
                None => {},
            }
            assert(rest@ =~= sc.take(i));
        }
        assert(sc.skip(0) =~= sc);
        let ghost ss = servers@;
        let mut rest = servers;
        let mut server_map: HashMap<u64, ReplicatedServer> = HashMap::new();
        assert(ss.skip(ss.len() as int) =~= Seq::<(u64, ReplicatedServer)>::empty());
        assert(servers_view(server_map@) =~= Map::<u64, ServerView>::empty());
        while rest.len() > 0
            invariant
                rest@.len() <= ss.len(),
                rest@ == ss.take(rest@.len() as int),
                servers_view(server_map@) == servers_from_pairs(ss.skip(rest@.len() as int)),
            decreases rest@.len(),
        {
            let ghost i = rest@.len() - 1;
            match rest.pop() {
                Some((k, v)) => {
                    proof {
                        assert(ss.skip(i).skip(1) =~= ss.skip(i + 1));
                        assert(ss.skip(i)[0] == ss[i]);
                        lemma_servers_view_insert(server_map@, k, v);
                    }
                    let _ = server_map.insert(k, v);
                },
                None => {},
            }
            assert(rest@ =~= ss.take(i));
        }
        assert(ss.skip(0) =~= ss);
        let r = ClusterStateMachine { users: user_map, channels: channel_map, servers: server_map };
        assert(r@ =~= machine_from_parts(users@, channels@, servers@));
        r
    }

    /// Forget every user, channel and server.
    pub fn clear(&mut self)
        ensures
            final(self)@ == empty_machine(),
    {
        self.users = StrMap::new();
        self.channels = StrMap::new();
        self.servers.clear();
        assert(self@ =~= empty_machine());
    }

    /// Restore from a snapshot whose bytes `decoded` is the decoding of: an
    /// empty snapshot clears the state; otherwise the decoded state replaces
    /// the current one, or, where the bytes did not decode, the state is kept
    /// and the decoder's message is returned.
    pub fn restore(&mut self, snapshot: &[u8], decoded: Result<ClusterStateMachine, String>) -> (r: Result<(), SnapshotError>)
        ensures
            (r, final(self)@) == restored(old(self)@, snapshot@.len(), decoded),
            snapshot@.len() == 0 ==> r is Ok && final(self)@ == empty_machine(),
            snapshot@.len() > 0 ==> match decoded {
                Ok(st) => r is Ok && final(self)@ == st@,
                Err(e) => r == Err::<(), SnapshotError>(SnapshotError::InvalidData(e)) && final(self)@ == old(self)@,
            },
    {
        if snapshot.len() == 0 {
            self.clear();
            return Ok(());
        }
        match decoded {
            Ok(st) => {
                *self = st;
                Ok(())
            },
            Err(e) => Err(SnapshotError::InvalidData(e)),
        }
    }

    /// Number of replicated users.
    pub fn user_count(&self) -> (r: usize)
        ensures
            r == self@.users.len(),
    {
        let r = self.users.len();
        assert(self@.users.dom() =~= self.users@.dom());
        r
    }

    /// Number of replicated channels.
    pub fn channel_count(&self) -> (r: usize)
        ensures
            r == self@.channels.len(),
    {
        let r = self.channels.len();
        assert(self@.channels.dom() =~= self.channels@.dom());
        r
    }

    /// Number of replicated servers.
    pub fn server_count(&self) -> (r: usize)
        ensures
            r == self@.servers.len(),
    {
        let r = self.servers.len();
        assert(self@.servers.dom() =~= self.servers@.dom());
        r
    }
}

} // verus!
