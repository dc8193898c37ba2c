use vstd::prelude::*;
use vstd::std_specs::convert::FromSpecImpl;

use super::storage::StorageError;
use super::types::{LogIndex, NodeId, Term};

verus! {

/// A point-in-time snapshot of the state machine plus metadata about the
/// log position it covers.
#[derive(Debug, PartialEq, Eq)]
pub struct Snapshot {
    /// Index of the last log entry included in this snapshot.
    pub last_included_index: LogIndex,
    /// Term of the last log entry included in this snapshot.
    pub last_included_term: Term,
    /// Serialized state machine state.
    pub data: Vec<u8>,
}

impl Clone for Snapshot {
    fn clone(&self) -> (r: Self)
        ensures
            r.last_included_index == self.last_included_index,
            r.last_included_term == self.last_included_term,
            r.data@ == self.data@,
    {
        let data = self.data.clone();
        assert(data@ =~= self.data@);
        Snapshot { last_included_index: self.last_included_index, last_included_term: self.last_included_term, data }
    }
}

/// `InstallSnapshot` RPC sent by the leader to transfer a snapshot to a
/// follower that is too far behind to catch up via log replication.
#[derive(Debug, PartialEq, Eq)]
pub struct InstallSnapshot {
    /// Leader's current term.
    pub term: Term,
    /// Leader's node ID (so follower can redirect clients).
    pub leader_id: NodeId,
    /// Index of the last log entry in the snapshot.
    pub last_included_index: LogIndex,
    /// Term of the last log entry in the snapshot.
    pub last_included_term: Term,
    /// Byte offset into the snapshot data for this chunk.
    pub offset: u64,
    /// Raw snapshot data bytes (chunk).
    pub data: Vec<u8>,
    /// True if this is the final chunk.
    pub done: bool,
}

impl Clone for InstallSnapshot {
    fn clone(&self) -> (r: Self)
        ensures
            r.term == self.term,
            r.leader_id == self.leader_id,
            r.last_included_index == self.last_included_index,
            r.last_included_term == self.last_included_term,
            r.offset == self.offset,
            r.data@ == self.data@,
            r.done == self.done,
    {
        let data = self.data.clone();
        assert(data@ =~= self.data@);
        InstallSnapshot {
            term: self.term,
            leader_id: self.leader_id,
            last_included_index: self.last_included_index,
            last_included_term: self.last_included_term,
            offset: self.offset,
            data,
            done: self.done,
        }
    }
}

/// Response to an `InstallSnapshot` RPC.
#[derive(Clone, Copy, Debug, PartialEq, Eq, Structural)]
pub struct InstallSnapshotResponse {
    /// Current term of the responding node (for leader to update itself).
    pub term: Term,
}

/// Errors that can occur during snapshot operations.
#[derive(Debug)]
pub enum SnapshotError {
    InvalidData(String),
    Storage(StorageError),
}

impl From<StorageError> for SnapshotError {
    fn from(e: StorageError) -> (r: SnapshotError)
        ensures
            r == SnapshotError::Storage(e),
    {
        SnapshotError::Storage(e)
    }
}

impl FromSpecImpl<StorageError> for SnapshotError {
    open spec fn obeys_from_spec() -> bool {
        true
    }

    open spec fn from_spec(v: StorageError) -> SnapshotError {
        SnapshotError::Storage(v)
    }
}

impl SnapshotError {
    /// The error's message, as it is displayed.
    pub fn to_string(&self) -> (s: String)
        ensures
            match self {
                SnapshotError::InvalidData(m) => s@ == "invalid snapshot data: "@ + m@,
                SnapshotError::Storage(e) => s@.len() >= 15 && s@.take(15) == "storage error: "@,
            },
    {
        match self {
            SnapshotError::InvalidData(m) => {
                let mut s = "invalid snapshot data: ".to_owned();
                s.append(m.as_str());
                s
            },
            SnapshotError::Storage(e) => {
                let mut s = "storage error: ".to_owned();
                let m = e.to_string();
                s.append(m.as_str());
                proof {
                    reveal_strlit("storage error: ");
                    assert(s@.take(15) =~= "storage error: "@);
                }
                s
            },
        }
    }
}

/// Trait for the application-level state machine that Raft replicates.
///
/// Committed commands are applied to it, snapshots are taken of it, and it
/// is restored from snapshots.
pub trait StateMachine<T> {
    /// Apply a committed command to the state machine.
    fn apply(&mut self, command: &T);

    /// Serialize the current state machine state to a byte vector.
    fn snapshot(&self) -> Vec<u8>;

    /// Restore the state machine from a previously serialized snapshot.
    fn restore(&mut self, snapshot: &[u8]) -> Result<(), SnapshotError>;
}

/// A no-op state machine for use when the application handles state
/// management externally (e.g. via the commit channel).
#[derive(Debug)]
pub struct NullStateMachine;

impl NullStateMachine {
    /// Its snapshot is empty.
    pub fn snapshot_bytes(&self) -> (r: Vec<u8>)
        ensures
            r@.len() == 0,
    {
        Vec::new()
    }
}

impl<T> StateMachine<T> for NullStateMachine {
    fn apply(&mut self, _command: &T) {
    }

    fn snapshot(&self) -> Vec<u8> {
        self.snapshot_bytes()
    }

    fn restore(&mut self, _snapshot: &[u8]) -> Result<(), SnapshotError> {
        Ok(())
    }
}

} // verus!
