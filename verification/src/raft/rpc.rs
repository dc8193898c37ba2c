use vstd::prelude::*;

use super::snapshot::{InstallSnapshot, InstallSnapshotResponse};
use super::types::{LogEntry, LogIndex, NodeId, Term};

verus! {

/// `RequestVote` RPC (sent by candidates to gather votes).
#[derive(Clone, Copy, Debug, PartialEq, Eq, Structural)]
pub struct RequestVote {
    pub term: Term,
    pub candidate_id: NodeId,
    pub last_log_index: LogIndex,
    pub last_log_term: Term,
}

/// Response to a `RequestVote` RPC.
#[derive(Clone, Copy, Debug, PartialEq, Eq, Structural)]
pub struct RequestVoteResponse {
    pub term: Term,
    pub vote_granted: bool,
}

/// `AppendEntries` RPC (sent by leader to replicate log entries and as heartbeat).
#[derive(Debug)]
pub struct AppendEntries<T> {
    pub term: Term,
    pub leader_id: NodeId,
    pub prev_log_index: LogIndex,
    pub prev_log_term: Term,
    pub entries: Vec<LogEntry<T>>,
    pub leader_commit: LogIndex,
}

/// Response to an `AppendEntries` RPC.
#[derive(Clone, Copy, Debug, PartialEq, Eq, Structural)]
pub struct AppendEntriesResponse {
    pub term: Term,
    pub success: bool,
    pub match_index: LogIndex,
}

/// Envelope for all Raft RPC message types.
#[derive(Debug)]
pub enum RaftMessage<T> {
    RequestVote(RequestVote),
    RequestVoteResponse(RequestVoteResponse),
    AppendEntries(AppendEntries<T>),
    AppendEntriesResponse(AppendEntriesResponse),
    InstallSnapshot(InstallSnapshot),
    InstallSnapshotResponse(InstallSnapshotResponse),
}

} // verus!
