use vstd::prelude::*;
use vstd::std_specs::ops::AddSpecImpl;
use vstd::std_specs::ops::SubSpecImpl;
use vstd::std_specs::cmp::PartialEqSpec;
use vstd::std_specs::cmp::PartialEqSpecImpl;

verus! {

/// Decimal representation of a natural number, most significant digit first.
pub open spec fn decimal(n: nat) -> Seq<char>
    decreases n,
{
    if n < 10 {
        seq![digit_char(n)]
    } else {
        decimal(n / 10).push(digit_char(n % 10))
    }
}

/// The ASCII digit for a value below ten.
pub open spec fn digit_char(d: nat) -> char {
    if d == 0 { '0' }
    else if d == 1 { '1' }
    else if d == 2 { '2' }
    else if d == 3 { '3' }
    else if d == 4 { '4' }
    else if d == 5 { '5' }
    else if d == 6 { '6' }
    else if d == 7 { '7' }
    else if d == 8 { '8' }
    else { '9' }
}

/// Formats an unsigned integer in decimal (`u64::to_string`).
#[verifier::external_body]
pub(crate) fn u64_to_string(n: u64) -> (s: String)
    ensures
        s@ == decimal(n as nat),
{
    n.to_string()
}

/// Identifier of a node (server) in the cluster.
#[derive(Clone, Copy, Debug, PartialEq, Eq, Structural, Hash, PartialOrd, Ord)]
pub struct NodeId(pub u64);

impl NodeId {
    pub fn new(value: u64) -> (r: Self)
        ensures
            r.0 == value,
    {
        NodeId(value)
    }

    pub fn as_u64(self) -> (r: u64)
        ensures
            r == self.0,
    {
        self.0
    }

    /// The identifier in decimal.
    pub fn to_string(&self) -> (s: String)
        ensures
            s@ == decimal(self.0 as nat),
    {
        u64_to_string(self.0)
    }
}

/// The role of a Raft node in the cluster.
#[derive(Clone, Copy, Debug, PartialEq, Eq, Structural, Hash)]
pub enum RaftState {
    Follower,
    Candidate,
    Leader,
}

/// The display name of a role.
pub open spec fn raft_state_name(s: RaftState) -> Seq<char> {
    match s {
        RaftState::Follower => "Follower"@,
        RaftState::Candidate => "Candidate"@,
        RaftState::Leader => "Leader"@,
    }
}

impl RaftState {
    /// The role's name, as it is displayed.
    pub fn to_string(&self) -> (s: String)
        ensures
            s@ == raft_state_name(*self),
    {
        match self {
            RaftState::Follower => "Follower".to_owned(),
            RaftState::Candidate => "Candidate".to_owned(),
            RaftState::Leader => "Leader".to_owned(),
        }
    }
}

/// A Raft election term (monotonically increasing epoch).
#[derive(Clone, Copy, Debug, PartialEq, Eq, Structural, Hash, PartialOrd, Ord)]
pub struct Term(pub u64);

impl Term {
    pub fn new(value: u64) -> (r: Self)
        ensures
            r.0 == value,
    {
        Term(value)
    }

    pub fn as_u64(self) -> (r: u64)
        ensures
            r == self.0,
    {
        self.0
    }

    /// The next term.
    pub fn increment(self) -> (r: Self)
        requires
            self.0 < u64::MAX,
        ensures
            r.0 == self.0 + 1,
    {
        Term(self.0 + 1)
    }

    /// The term in decimal.
    pub fn to_string(&self) -> (s: String)
        ensures
            s@ == decimal(self.0 as nat),
    {
        u64_to_string(self.0)
    }
}

impl Default for Term {
    fn default() -> (r: Self)
        ensures
            r.0 == 0,
    {
        Term(0)
    }
}

impl std::ops::Add<u64> for Term {
    type Output = Term;

    fn add(self, rhs: u64) -> (r: Term) {
        Term(self.0 + rhs)
    }
}

impl AddSpecImpl<u64> for Term {
    open spec fn obeys_add_spec() -> bool {
        true
    }

    open spec fn add_req(self, rhs: u64) -> bool {
        self.0 + rhs <= u64::MAX
    }

    open spec fn add_spec(self, rhs: u64) -> Term {
        Term((self.0 + rhs) as u64)
    }
}

impl std::ops::Sub<u64> for Term {
    type Output = Term;

    fn sub(self, rhs: u64) -> (r: Term) {
        Term(self.0 - rhs)
    }
}

impl SubSpecImpl<u64> for Term {
    open spec fn obeys_sub_spec() -> bool {
        true
    }

    open spec fn sub_req(self, rhs: u64) -> bool {
        self.0 >= rhs
    }

    open spec fn sub_spec(self, rhs: u64) -> Term {
        Term((self.0 - rhs) as u64)
    }
}

/// A position in the Raft log (1-indexed, 0 means "no entries").
#[derive(Clone, Copy, Debug, PartialEq, Eq, Structural, Hash, PartialOrd, Ord)]
pub struct LogIndex(pub u64);

impl LogIndex {
    pub fn new(value: u64) -> (r: Self)
        ensures
            r.0 == value,
    {
        LogIndex(value)
    }

    pub fn as_u64(self) -> (r: u64)
        ensures
            r == self.0,
    {
        self.0
    }

    /// The next index.
    pub fn increment(self) -> (r: Self)
        requires
            self.0 < u64::MAX,
        ensures
            r.0 == self.0 + 1,
    {
        LogIndex(self.0 + 1)
    }

    /// The index in decimal.
    pub fn to_string(&self) -> (s: String)
        ensures
            s@ == decimal(self.0 as nat),
    {
        u64_to_string(self.0)
    }
}

impl Default for LogIndex {
    fn default() -> (r: Self)
        ensures
            r.0 == 0,
    {
        LogIndex(0)
    }
}

impl std::ops::Add<u64> for LogIndex {
    type Output = LogIndex;

    fn add(self, rhs: u64) -> (r: LogIndex) {
        LogIndex(self.0 + rhs)
    }
}

impl AddSpecImpl<u64> for LogIndex {
    open spec fn obeys_add_spec() -> bool {
        true
    }

    open spec fn add_req(self, rhs: u64) -> bool {
        self.0 + rhs <= u64::MAX
    }

    open spec fn add_spec(self, rhs: u64) -> LogIndex {
        LogIndex((self.0 + rhs) as u64)
    }
}

impl std::ops::Sub<u64> for LogIndex {
    type Output = LogIndex;

    fn sub(self, rhs: u64) -> (r: LogIndex) {
        LogIndex(self.0 - rhs)
    }
}

impl SubSpecImpl<u64> for LogIndex {
    open spec fn obeys_sub_spec() -> bool {
        true
    }

    open spec fn sub_req(self, rhs: u64) -> bool {
        self.0 >= rhs
    }

    open spec fn sub_spec(self, rhs: u64) -> LogIndex {
        LogIndex((self.0 - rhs) as u64)
    }
}

/// A single entry in the Raft replicated log.
#[derive(Debug)]
pub struct LogEntry<T> {
    pub term: Term,
    pub index: LogIndex,
    pub command: T,
}

/// `b` is a copy of `a`: same term and index, and a command cloned from `a`'s.
pub open spec fn entry_cloned<T: Clone>(a: LogEntry<T>, b: LogEntry<T>) -> bool {
    &&& a.term == b.term
    &&& a.index == b.index
    &&& cloned(a.command, b.command)
}

impl<T: Clone> Clone for LogEntry<T> {
    fn clone(&self) -> (r: Self)
        ensures
            entry_cloned(*self, r),
    {
        LogEntry { term: self.term, index: self.index, command: self.command.clone() }
    }
}

impl<T: PartialEq> PartialEq for LogEntry<T> {
    fn eq(&self, other: &Self) -> (r: bool) {
        self.term.0 == other.term.0 && self.index.0 == other.index.0 && self.command == other.command
    }
}

impl<T: PartialEq> PartialEqSpecImpl for LogEntry<T> {
    open spec fn obeys_eq_spec() -> bool {
        T::obeys_eq_spec()
    }

    open spec fn eq_spec(&self, other: &Self) -> bool {
        self.term == other.term && self.index == other.index && self.command.eq_spec(&other.command)
    }
}

/// Configuration for Raft consensus behavior. Durations are in milliseconds.
#[derive(Debug)]
pub struct RaftConfig {
    /// Minimum election timeout in milliseconds.
    pub election_timeout_min: u64,
    /// Maximum election timeout in milliseconds.
    pub election_timeout_max: u64,
    /// Interval between leader heartbeats, in milliseconds.
    pub heartbeat_interval: u64,
    /// This node's identifier.
    pub node_id: NodeId,
    /// Peer node identifiers: the other members.
    pub peers: Vec<NodeId>,
    /// Number of log entries after which a snapshot should be taken.
    pub snapshot_threshold: usize,
    /// Maximum number of bytes per `InstallSnapshot` chunk.
    pub snapshot_chunk_size: usize,
}

impl Clone for RaftConfig {
    fn clone(&self) -> (r: Self)
        ensures
            r.election_timeout_min == self.election_timeout_min,
            r.election_timeout_max == self.election_timeout_max,
            r.heartbeat_interval == self.heartbeat_interval,
            r.node_id == self.node_id,
            r.peers@ == self.peers@,
            r.snapshot_threshold == self.snapshot_threshold,
            r.snapshot_chunk_size == self.snapshot_chunk_size,
    {
        let peers = self.peers.clone();
        assert(peers@ =~= self.peers@);
        RaftConfig {
            election_timeout_min: self.election_timeout_min,
            election_timeout_max: self.election_timeout_max,
            heartbeat_interval: self.heartbeat_interval,
            node_id: self.node_id,
            peers,
            snapshot_threshold: self.snapshot_threshold,
            snapshot_chunk_size: self.snapshot_chunk_size,
        }
    }
}

impl Default for RaftConfig {
    fn default() -> (r: Self)
        ensures
            r.election_timeout_min == 150,
            r.election_timeout_max == 300,
            r.heartbeat_interval == 50,
            r.node_id == NodeId(0),
            r.peers@.len() == 0,
            r.snapshot_threshold == 1000,
            r.snapshot_chunk_size == 65536,
    {
        RaftConfig {
            election_timeout_min: 150,
            election_timeout_max: 300,
            heartbeat_interval: 50,
            node_id: NodeId(0),
            peers: Vec::new(),
            snapshot_threshold: 1000,
            snapshot_chunk_size: 65536,
        }
    }
}

} // verus!
