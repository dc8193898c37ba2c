use vstd::prelude::*;

use super::types::NodeId;

verus! {

/// Topic metadata for [`ClusterCommand::TopicSet`].
#[derive(Debug, PartialEq, Eq)]
pub struct TopicInfo {
    pub text: String,
    pub who: String,
    /// Unix timestamp.
    pub timestamp: u64,
}

impl Clone for TopicInfo {
    fn clone(&self) -> (r: Self)
        ensures
            r == *self,
    {
        TopicInfo { text: self.text.clone(), who: self.who.clone(), timestamp: self.timestamp }
    }
}

/// Represents all IRC state mutations replicated across the cluster via Raft.
///
/// Each variant captures a discrete state change that must be applied
/// consistently on every node. Server addresses are kept as written
/// (`host:port`).
#[derive(Debug, PartialEq, Eq)]
#[allow(inconsistent_fields)]
pub enum ClusterCommand {
    /// A new user has completed registration.
    UserRegistered {
        connection_id: u64,
        nickname: String,
        username: String,
        realname: String,
        hostname: String,
        /// Unix timestamp (seconds since epoch).
        signon_time: u64,
        /// The node where this user is homed. Used for migration tracking.
        home_node: Option<NodeId>,
    },
    /// A user changed their nickname.
    NickChanged { old_nick: String, new_nick: String },
    /// A user disconnected.
    UserQuit { nickname: String, reason: Option<String> },
    /// A user set or cleared their away status (`None`: no longer away).
    UserAway { nickname: String, message: Option<String> },
    /// A user's server-level modes changed.
    UserModeChanged { nickname: String, modes_added: Vec<String>, modes_removed: Vec<String> },
    /// A user joined a channel with an initial member status.
    ChannelJoined { nickname: String, channel: String, status: String },
    /// A user left a channel.
    ChannelParted { nickname: String, channel: String, reason: Option<String> },
    /// A channel's topic was set or cleared (`None`).
    TopicSet { channel: String, topic: Option<TopicInfo> },
    /// A channel's modes changed.
    ChannelModeChanged {
        channel: String,
        modes_added: Vec<String>,
        modes_removed: Vec<String>,
        key: Option<String>,
        user_limit: Option<u32>,
        /// Changes to member status within the channel (nick, status).
        member_status_changes: Vec<(String, String)>,
    },
    /// A ban was added to a channel.
    BanAdded { channel: String, mask: String, who_set: String, timestamp: u64 },
    /// A ban was removed from a channel.
    BanRemoved { channel: String, mask: String },
    /// A user was invited to a channel.
    InviteAdded { channel: String, nickname: String },
    /// A user was kicked from a channel.
    UserKicked { channel: String, nickname: String, who: String, reason: Option<String> },
    /// A user was killed (forcibly disconnected by an operator).
    UserKilled { nickname: String, reason: String },
    /// A user was granted IRC operator privileges.
    OperGranted { nickname: String },
    /// A server was added to the cluster.
    ServerAdded { node_id: NodeId, addr: String },
    /// A server was removed from the cluster.
    ServerRemoved { node_id: NodeId },
    /// A user was migrated from one server to another (failover).
    UserMigrated { nickname: String, from_node: NodeId, to_node: NodeId },
    /// A no-op command used for membership change log entries.
    Noop { description: String },
}

/// `b` holds the same command as `a`: the same variant and fields, lists
/// compared by their contents.
pub open spec fn same_command(a: ClusterCommand, b: ClusterCommand) -> bool {
    match (a, b) {
        (
            ClusterCommand::UserModeChanged { nickname: n1, modes_added: a1, modes_removed: r1 },
            ClusterCommand::UserModeChanged { nickname: n2, modes_added: a2, modes_removed: r2 },
        ) => n1 == n2 && a1@ == a2@ && r1@ == r2@,
        (
            ClusterCommand::ChannelModeChanged { channel: c1, modes_added: a1, modes_removed: r1, key: k1, user_limit: l1, member_status_changes: m1 },
            ClusterCommand::ChannelModeChanged { channel: c2, modes_added: a2, modes_removed: r2, key: k2, user_limit: l2, member_status_changes: m2 },
        ) => c1 == c2 && a1@ == a2@ && r1@ == r2@ && k1 == k2 && l1 == l2 && m1@ == m2@,
        _ => a == b,
    }
}

fn clone_opt_string(o: &Option<String>) -> (r: Option<String>)
    ensures
        r == *o,
{
    match o {
        Some(s) => Some(s.clone()),
        None => None,
    }
}

fn clone_strings(v: &Vec<String>) -> (r: Vec<String>)
    ensures
        r@ == v@,
{
    let mut r: Vec<String> = Vec::new();
    let mut i: usize = 0;
    while i < v.len()
        invariant
            i <= v@.len(),
            r@ == v@.take(i as int),
        decreases v@.len() - i,
    {
        r.push(v[i].clone());
        assert(v@.take(i as int + 1) =~= v@.take(i as int).push(v@[i as int]));
        i = i + 1;
    }
    assert(v@.take(v@.len() as int) =~= v@);
    r
}

fn clone_string_pairs(v: &Vec<(String, String)>) -> (r: Vec<(String, String)>)
    ensures
        r@ == v@,
{
    let mut r: Vec<(String, String)> = Vec::new();
    let mut i: usize = 0;
    while i < v.len()
        invariant
            i <= v@.len(),
            r@ == v@.take(i as int),
        decreases v@.len() - i,
    {
        let a = v[i].0.clone();
        let b = v[i].1.clone();
        r.push((a, b));
        assert(v@.take(i as int + 1) =~= v@.take(i as int).push(v@[i as int]));
        i = i + 1;
    }
    assert(v@.take(v@.len() as int) =~= v@);
    r
}

impl Clone for ClusterCommand {
    fn clone(&self) -> (r: Self)
        ensures
            same_command(*self, r),
    {
        match self {
            ClusterCommand::UserRegistered { connection_id, nickname, username, realname, hostname, signon_time, home_node } => ClusterCommand::UserRegistered {
                connection_id: *connection_id,
                nickname: nickname.clone(),
                username: username.clone(),
                realname: realname.clone(),
                hostname: hostname.clone(),
                signon_time: *signon_time,
                home_node: *home_node,
            },
            ClusterCommand::NickChanged { old_nick, new_nick } => ClusterCommand::NickChanged { old_nick: old_nick.clone(), new_nick: new_nick.clone() },
            ClusterCommand::UserQuit { nickname, reason } => ClusterCommand::UserQuit { nickname: nickname.clone(), reason: clone_opt_string(reason) },
            ClusterCommand::UserAway { nickname, message } => ClusterCommand::UserAway { nickname: nickname.clone(), message: clone_opt_string(message) },
            ClusterCommand::UserModeChanged { nickname, modes_added, modes_removed } => ClusterCommand::UserModeChanged {
                nickname: nickname.clone(),
                modes_added: clone_strings(modes_added),
                modes_removed: clone_strings(modes_removed),
            },
            ClusterCommand::ChannelJoined { nickname, channel, status } => ClusterCommand::ChannelJoined {
                nickname: nickname.clone(),
                channel: channel.clone(),
                status: status.clone(),
            },
            ClusterCommand::ChannelParted { nickname, channel, reason } => ClusterCommand::ChannelParted {
                nickname: nickname.clone(),
                channel: channel.clone(),
                reason: clone_opt_string(reason),
            },
            ClusterCommand::TopicSet { channel, topic } => ClusterCommand::TopicSet {
                channel: channel.clone(),
                topic: match topic {
                    Some(t) => Some(t.clone()),
                    None => None,
                },
            },
            ClusterCommand::ChannelModeChanged { channel, modes_added, modes_removed, key, user_limit, member_status_changes } => ClusterCommand::ChannelModeChanged {
                channel: channel.clone(),
                modes_added: clone_strings(modes_added),
                modes_removed: clone_strings(modes_removed),
                key: clone_opt_string(key),
                user_limit: *user_limit,
                member_status_changes: clone_string_pairs(member_status_changes),
            },
            ClusterCommand::BanAdded { channel, mask, who_set, timestamp } => ClusterCommand::BanAdded {
                channel: channel.clone(),
                mask: mask.clone(),
                who_set: who_set.clone(),
                timestamp: *timestamp,
            },
            ClusterCommand::BanRemoved { channel, mask } => ClusterCommand::BanRemoved { channel: channel.clone(), mask: mask.clone() },
            ClusterCommand::InviteAdded { channel, nickname } => ClusterCommand::InviteAdded { channel: channel.clone(), nickname: nickname.clone() },
            ClusterCommand::UserKicked { channel, nickname, who, reason } => ClusterCommand::UserKicked {
                channel: channel.clone(),
                nickname: nickname.clone(),
                who: who.clone(),
                reason: clone_opt_string(reason),
            },
            ClusterCommand::UserKilled { nickname, reason } => ClusterCommand::UserKilled { nickname: nickname.clone(), reason: reason.clone() },
            ClusterCommand::OperGranted { nickname } => ClusterCommand::OperGranted { nickname: nickname.clone() },
            ClusterCommand::ServerAdded { node_id, addr } => ClusterCommand::ServerAdded { node_id: *node_id, addr: addr.clone() },
            ClusterCommand::ServerRemoved { node_id } => ClusterCommand::ServerRemoved { node_id: *node_id },
            ClusterCommand::UserMigrated { nickname, from_node, to_node } => ClusterCommand::UserMigrated {
                nickname: nickname.clone(),
                from_node: *from_node,
                to_node: *to_node,
            },
            ClusterCommand::Noop { description } => ClusterCommand::Noop { description: description.clone() },
        }
    }
}

} // verus!
