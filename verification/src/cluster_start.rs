//! How a server starts as a cluster member: where its configuration file
//! is, who it is and which peers it starts with when it bootstraps a
//! cluster, joins one or rejoins one, the Raft configuration it runs with,
//! and the first node id it hands out to servers that join through it.

use vstd::prelude::*;

use crate::raft::types::{decimal, u64_to_string, NodeId, RaftConfig};

verus! {

// ---------------------------------------------------------------------
// The command line
// ---------------------------------------------------------------------

/// What the command line says of the configuration file.
#[derive(Debug, PartialEq, Eq)]
pub enum ConfigArg {
    /// No `--config` flag: the default configuration is used.
    Absent,
    /// `--config` followed by the file's path.
    Path(String),
    /// `--config` as the last argument, with no path after it.
    MissingPath,
}

/// What the arguments from `i` on say of the configuration file: the first
/// `--config` decides.
pub open spec fn config_arg_from(args: Seq<Seq<char>>, i: int) -> Option<Option<Seq<char>>>
    decreases args.len() - i,
{
    if i < 0 || i >= args.len() {
        None
    } else if args[i] == "--config"@ {
        if i + 1 < args.len() {
            Some(Some(args[i + 1]))
        } else {
            Some(None)
        }
    } else {
        config_arg_from(args, i + 1)
    }
}

/// Finds the configuration file's path among the command-line arguments
/// (the program's name first): the argument after the first `--config`.
pub fn config_path_arg(args: &Vec<String>) -> (r: ConfigArg)
    ensures
        match config_arg_from(args@.map_values(|a: String| a@), 1) {
            None => r == ConfigArg::Absent,
            Some(None) => r == ConfigArg::MissingPath,
            Some(Some(p)) => r matches ConfigArg::Path(q) && q@ == p,
        },
{
    let ghost views = args@.map_values(|a: String| a@);
    let flag = "--config".to_owned();
    let mut i: usize = 1;
    while i < args.len()
        invariant
            1 <= i,
            views == args@.map_values(|a: String| a@),
            flag@ == "--config"@,
            config_arg_from(views, 1) == config_arg_from(views, i as int),
        decreases args@.len() - i,
    {
        if args[i] == flag {
            if i + 1 < args.len() {
                return ConfigArg::Path(args[i + 1].clone());
            }
            return ConfigArg::MissingPath;
        }
        i = i + 1;
    }
    ConfigArg::Absent
}

// ---------------------------------------------------------------------
// Starting points
// ---------------------------------------------------------------------

/// Election timeout bounds and heartbeat interval, in milliseconds, where
/// the configuration leaves them out.
pub const DEFAULT_ELECTION_TIMEOUT_MIN_MS: u64 = 150;
pub const DEFAULT_ELECTION_TIMEOUT_MAX_MS: u64 = 300;
pub const DEFAULT_HEARTBEAT_INTERVAL_MS: u64 = 50;

/// Node ids a server hands out to joining servers start this far above
/// its own.
pub const ASSIGNED_ID_OFFSET: u64 = 1000;

/// Who a server is in the cluster when it starts, whom it starts with,
/// and the first node id it hands out.
#[derive(Debug)]
pub struct MemberStart {
    pub node_id: NodeId,
    /// Its cluster-facing address.
    pub self_addr: String,
    /// The other members and their addresses.
    pub peers: Vec<(NodeId, String)>,
    pub next_node_id: u64,
}

/// A member start as plain values.
pub open spec fn start_view(s: MemberStart) -> (NodeId, Seq<char>, Seq<(NodeId, Seq<char>)>, u64) {
    (s.node_id, s.self_addr@, s.peers@.map_values(|p: (NodeId, String)| (p.0, p.1@)), s.next_node_id)
}

/// The entries of `s` that are not about `id`, in order.
pub open spec fn without_node(s: Seq<(NodeId, Seq<char>)>, id: NodeId) -> Seq<(NodeId, Seq<char>)>
    decreases s.len(),
{
    if s.len() == 0 {
        Seq::empty()
    } else if s.last().0 == id {
        without_node(s.drop_last(), id)
    } else {
        without_node(s.drop_last(), id).push(s.last())
    }
}

/// The entries of `s` that carry an address, with it, in order.
pub open spec fn with_address(s: Seq<(NodeId, Option<Seq<char>>)>) -> Seq<(NodeId, Seq<char>)>
    decreases s.len(),
{
    if s.len() == 0 {
        Seq::empty()
    } else {
        match s.last().1 {
            Some(a) => with_address(s.drop_last()).push((s.last().0, a)),
            None => with_address(s.drop_last()),
        }
    }
}

/// The first node id a server with id `id` hands out.
pub fn first_assigned_id(id: NodeId) -> (r: u64)
    requires
        id.0 + ASSIGNED_ID_OFFSET <= u64::MAX,
    ensures
        r == id.0 + ASSIGNED_ID_OFFSET,
{
    id.0 + ASSIGNED_ID_OFFSET
}

/// A server that bootstraps a new cluster is its only member; it needs a
/// node id from its configuration.
pub fn bootstrap_start(config_node_id: Option<NodeId>, self_addr: String) -> (r: Result<MemberStart, String>)
    requires
        config_node_id matches Some(id) ==> id.0 + ASSIGNED_ID_OFFSET <= u64::MAX,
    ensures
        match config_node_id {
            Some(id) => r matches Ok(s) && start_view(s) == (id, self_addr@, Seq::<(NodeId, Seq<char>)>::empty(), (id.0 + ASSIGNED_ID_OFFSET) as u64),
            None => r matches Err(m) && m@ == "bootstrap mode requires cluster.node_id"@,
        },
{
    match config_node_id {
        Some(id) => {
            let s = MemberStart { node_id: id, self_addr, peers: Vec::new(), next_node_id: first_assigned_id(id) };
            assert(s.peers@.map_values(|p: (NodeId, String)| (p.0, p.1@)) =~= Seq::<(NodeId, Seq<char>)>::empty());
            Ok(s)
        },
        None => Err("bootstrap mode requires cluster.node_id".to_owned()),
    }
}

/// The port a server listens on for its cluster peers: the configured Raft
/// port, or else the IRC port.
pub fn cluster_port(raft_port: Option<u16>, irc_port: u16) -> (r: u16)
    ensures
        r == match raft_port {
            Some(p) => p,
            None => irc_port,
        },
{
    match raft_port {
        Some(p) => p,
        None => irc_port,
    }
}

/// The `host:port` text of a cluster address.
pub fn host_port_text(host: &str, port: u16) -> (r: String)
    ensures
        r@ == host@ + ":"@ + decimal(port as nat),
{
    let mut s = host.to_owned();
    s.append(":");
    let p = u64_to_string(port as u64);
    s.append(p.as_str());
    s
}

/// The cluster address of a server bound to `host` on `port`: `host:port`
/// when that text reads as a socket address (`reads`), else the wildcard
/// address `0.0.0.0` on the same port.
pub fn cluster_addr_text(host: &str, port: u16, reads: bool) -> (r: String)
    ensures
        reads ==> r@ == host@ + ":"@ + decimal(port as nat),
        !reads ==> r@ == "0.0.0.0:"@ + decimal(port as nat),
{
    if reads {
        host_port_text(host, port)
    } else {
        let r = host_port_text("0.0.0.0", port);
        proof {
            reveal_strlit("0.0.0.0");
            reveal_strlit("0.0.0.0:");
            reveal_strlit(":");
            assert("0.0.0.0"@ + ":"@ =~= "0.0.0.0:"@);
            assert(r@ =~= "0.0.0.0:"@ + decimal(port as nat));
        }
        r
    }
}

/// What a server that joins a cluster needs from its configuration: the
/// invite key and the address of a member to join through, checked in
/// that order. `address_error` is why the join address does not read as a
/// socket address (`None` when it does).
pub fn join_settings(
    invite_key: Option<String>,
    join_address: Option<String>,
    address_error: Option<String>,
) -> (r: Result<(String, String), String>)
    ensures
        match (invite_key, join_address) {
            (Some(k), Some(a)) => match address_error {
                None => r matches Ok(p) && p.0@ == k@ && p.1@ == a@,
                Some(e) => r matches Err(m) && m@ == "invalid cluster.join_address: "@ + e@,
            },
            (None, _) => r matches Err(m) && m@ == "join mode requires cluster.invite_key"@,
            (Some(_), None) => r matches Err(m) && m@ == "join mode requires cluster.join_address"@,
        },
{
    match invite_key {
        None => Err("join mode requires cluster.invite_key".to_owned()),
        Some(k) => match join_address {
            None => Err("join mode requires cluster.join_address".to_owned()),
            Some(a) => match address_error {
                None => Ok((k, a)),
                Some(e) => {
                    let mut m = "invalid cluster.join_address: ".to_owned();
                    m.append(e.as_str());
                    Err(m)
                },
            },
        },
    }
}

/// The members a joining server starts with: those the cluster's welcome
/// lists, without the server itself.
pub fn join_peers(assigned: NodeId, topology: &Vec<(NodeId, String)>) -> (r: Vec<(NodeId, String)>)
    ensures
        r@.map_values(|p: (NodeId, String)| (p.0, p.1@)) == without_node(
            topology@.map_values(|p: (NodeId, String)| (p.0, p.1@)),
            assigned,
        ),
{
    let ghost all = topology@.map_values(|p: (NodeId, String)| (p.0, p.1@));
    let mut out: Vec<(NodeId, String)> = Vec::new();
    let mut i: usize = 0;
    while i < topology.len()
        invariant
            i <= topology@.len(),
            all == topology@.map_values(|p: (NodeId, String)| (p.0, p.1@)),
            out@.map_values(|p: (NodeId, String)| (p.0, p.1@)) == without_node(all.take(i as int), assigned),
        decreases topology@.len() - i,
    {
        let ghost before = out@;
        assert(all.take(i + 1).drop_last() =~= all.take(i as int));
        let (id, addr) = (topology[i].0, &topology[i].1);
        if id.0 != assigned.0 {
            out.push((id, addr.clone()));
            assert(out@.map_values(|p: (NodeId, String)| (p.0, p.1@)) =~= before.map_values(
                |p: (NodeId, String)| (p.0, p.1@),
            ).push(all[i as int]));
        }
        i = i + 1;
    }
    assert(all.take(topology@.len() as int) =~= all);
    out
}

/// A server that joined through a welcome starts with the node id the
/// welcome assigned it and the other members the welcome listed.
pub fn join_start(assigned: NodeId, topology: &Vec<(NodeId, String)>, self_addr: String) -> (r: MemberStart)
    requires
        assigned.0 + ASSIGNED_ID_OFFSET <= u64::MAX,
    ensures
        start_view(r) == (
            assigned,
            self_addr@,
            without_node(topology@.map_values(|p: (NodeId, String)| (p.0, p.1@)), assigned),
            (assigned.0 + ASSIGNED_ID_OFFSET) as u64,
        ),
{
    let peers = join_peers(assigned, topology);
    MemberStart { node_id: assigned, self_addr, peers, next_node_id: first_assigned_id(assigned) }
}

/// A server that rejoins starts from the cluster state it persisted when
/// there is one. Without it, it starts from its configuration: the node
/// id there (which it needs), the configured peers whose addresses are
/// valid (`Some` address), and its configured address.
pub fn rejoin_start(
    persisted: Option<MemberStart>,
    config_node_id: Option<NodeId>,
    config_peers: &Vec<(NodeId, Option<String>)>,
    config_self_addr: String,
) -> (r: Result<MemberStart, String>)
    requires
        persisted is None ==> (config_node_id matches Some(id) ==> id.0 + ASSIGNED_ID_OFFSET <= u64::MAX),
    ensures
        match persisted {
            Some(p) => r matches Ok(s) && start_view(s) == start_view(p),
            None => match config_node_id {
                Some(id) => r matches Ok(s) && start_view(s) == (
                    id,
                    config_self_addr@,
                    with_address(config_peers@.map_values(|p: (NodeId, Option<String>)| (p.0, match p.1 {
                        Some(a) => Some(a@),
                        None => None,
                    }))),
                    (id.0 + ASSIGNED_ID_OFFSET) as u64,
                ),
                None => r matches Err(m) && m@ == "rejoin mode requires cluster.node_id"@,
            },
        },
{
    match persisted {
        Some(p) => Ok(p),
        None => match config_node_id {
            Some(id) => {
                let ghost all = config_peers@.map_values(|p: (NodeId, Option<String>)| (p.0, match p.1 {
                    Some(a) => Some(a@),
                    None => None,
                }));
                let mut peers: Vec<(NodeId, String)> = Vec::new();
                let mut i: usize = 0;
                while i < config_peers.len()
                    invariant
                        i <= config_peers@.len(),
                        all == config_peers@.map_values(|p: (NodeId, Option<String>)| (p.0, match p.1 {
                            Some(a) => Some(a@),
                            None => None,
                        })),
                        peers@.map_values(|p: (NodeId, String)| (p.0, p.1@)) == with_address(all.take(i as int)),
                    decreases config_peers@.len() - i,
                {
                    let ghost before = peers@;
                    assert(all.take(i + 1).drop_last() =~= all.take(i as int));
                    match &config_peers[i].1 {
                        Some(a) => {
                            peers.push((config_peers[i].0, a.clone()));
                            assert(peers@.map_values(|p: (NodeId, String)| (p.0, p.1@)) =~= before.map_values(
                                |p: (NodeId, String)| (p.0, p.1@),
                            ).push((config_peers@[i as int].0, a@)));
                        },
                        None => {},
                    }
                    i = i + 1;
                }
                assert(all.take(config_peers@.len() as int) =~= all);
                Ok(MemberStart { node_id: id, self_addr: config_self_addr, peers, next_node_id: first_assigned_id(id) })
            },
            None => Err("rejoin mode requires cluster.node_id".to_owned()),
        },
    }
}

/// The Raft configuration a member runs with: its node id, its peers' ids
/// in order, and the configured timings, each defaulting where the
/// configuration leaves it out; the rest as by default.
pub fn member_raft_config(
    start: &MemberStart,
    election_timeout_min_ms: Option<u64>,
    election_timeout_max_ms: Option<u64>,
    heartbeat_interval_ms: Option<u64>,
) -> (r: RaftConfig)
    ensures
        r.node_id == start.node_id,
        r.peers@ == start.peers@.map_values(|p: (NodeId, String)| p.0),
        r.election_timeout_min == (match election_timeout_min_ms {
            Some(v) => v,
            None => DEFAULT_ELECTION_TIMEOUT_MIN_MS,
        }),
        r.election_timeout_max == (match election_timeout_max_ms {
            Some(v) => v,
            None => DEFAULT_ELECTION_TIMEOUT_MAX_MS,
        }),
        r.heartbeat_interval == (match heartbeat_interval_ms {
            Some(v) => v,
            None => DEFAULT_HEARTBEAT_INTERVAL_MS,
        }),
        r.snapshot_threshold == 1000,
        r.snapshot_chunk_size == 65536,
{
    let mut ids: Vec<NodeId> = Vec::new();
    let mut i: usize = 0;
    while i < start.peers.len()
        invariant
            i <= start.peers@.len(),
            ids@ == start.peers@.take(i as int).map_values(|p: (NodeId, String)| p.0),
        decreases start.peers@.len() - i,
    {
        ids.push(start.peers[i].0);
        assert(start.peers@.take(i + 1).map_values(|p: (NodeId, String)| p.0) =~= start.peers@.take(
            i as int,
        ).map_values(|p: (NodeId, String)| p.0).push(start.peers@[i as int].0));
        i = i + 1;
    }
    assert(start.peers@.take(start.peers@.len() as int) =~= start.peers@);
    let mut config = RaftConfig::default();
    config.node_id = start.node_id;
    config.peers = ids;
    config.election_timeout_min = match election_timeout_min_ms {
        Some(v) => v,
        None => DEFAULT_ELECTION_TIMEOUT_MIN_MS,
    };
    config.election_timeout_max = match election_timeout_max_ms {
        Some(v) => v,
        None => DEFAULT_ELECTION_TIMEOUT_MAX_MS,
    };
    config.heartbeat_interval = match heartbeat_interval_ms {
        Some(v) => v,
        None => DEFAULT_HEARTBEAT_INTERVAL_MS,
    };
    config
}

} // verus!
