use vstd::prelude::*;
use vstd::std_specs::convert::FromSpecImpl;

use super::log::{LogModel, RaftLog};
use super::types::{LogEntry, NodeId, Term};

verus! {

/// Platform I/O error, carried through as is.
#[verifier::external_type_specification]
#[verifier::external_body]
pub struct ExIoError(std::io::Error);

/// The message of an I/O error (`std::io::Error`'s `Display`).
///
/// Nothing is stated of the text: it comes from the platform.
#[verifier::external_body]
fn io_error_message(e: &std::io::Error) -> String {
    e.to_string()
}

/// Errors that can occur during storage operations.
#[derive(Debug)]
pub enum StorageError {
    Io(std::io::Error),
    Serialization(String),
    Deserialization(String),
    Corrupted(String),
}

impl From<std::io::Error> for StorageError {
    fn from(e: std::io::Error) -> (r: StorageError)
        ensures
            r is Io,
    {
        StorageError::Io(e)
    }
}

impl FromSpecImpl<std::io::Error> for StorageError {
    open spec fn obeys_from_spec() -> bool {
        true
    }

    open spec fn from_spec(v: std::io::Error) -> StorageError {
        StorageError::Io(v)
    }
}

impl StorageError {
    /// The error's message, as it is displayed.
    pub fn to_string(&self) -> (s: String)
        ensures
            match self {
                StorageError::Io(_) => s@.len() >= 11 && s@.take(11) == "I/O error: "@,
                StorageError::Serialization(m) => s@ == "serialization error: "@ + m@,
                StorageError::Deserialization(m) => s@ == "deserialization error: "@ + m@,
                StorageError::Corrupted(m) => s@ == "corrupted data: "@ + m@,
            },
    {
        match self {
            StorageError::Io(e) => {
                let mut s = "I/O error: ".to_owned();
                let m = io_error_message(e);
                s.append(m.as_str());
                proof {
                    reveal_strlit("I/O error: ");
                    assert(s@.take(11) =~= "I/O error: "@);
                }
                s
            },
            StorageError::Serialization(m) => {
                let mut s = "serialization error: ".to_owned();
                s.append(m.as_str());
                s
            },
            StorageError::Deserialization(m) => {
                let mut s = "deserialization error: ".to_owned();
                s.append(m.as_str());
                s
            },
            StorageError::Corrupted(m) => {
                let mut s = "corrupted data: ".to_owned();
                s.append(m.as_str());
                s
            },
        }
    }
}

/// A write to stable storage that must complete, in order, before the node
/// acts on the decision that produced it (replies, sends).
#[derive(Clone, Copy, Debug, PartialEq, Eq, Structural)]
pub enum StorageOp {
    SaveTerm(Term),
    SaveVotedFor(Option<NodeId>),
}

/// Whether the store holds an entry at `e`'s index with `e`'s term.
pub open spec fn stored_matches<T>(stored: Seq<LogEntry<T>>, e: LogEntry<T>) -> bool {
    exists|j: int| 0 <= j < stored.len() && stored[j].index == e.index && stored[j].term == e.term
}

/// The last index the store holds (0 when it holds nothing).
pub open spec fn stored_last<T>(stored: Seq<LogEntry<T>>) -> nat {
    if stored.len() == 0 {
        0
    } else {
        stored.last().index.0 as nat
    }
}

/// `i` is where the stored log must be rewritten from to match the node's
/// log `m`: the index of the first held entry that the store lacks (an
/// entry with the same index and term), or, when the store holds them all
/// but runs past the log's end, the index just after it.
pub open spec fn is_store_cut<T>(stored: Seq<LogEntry<T>>, m: LogModel<T>, i: Option<u64>) -> bool {
    match i {
        Some(i) => {
            ||| exists|k: int| 0 <= k < m.entries.len() && !stored_matches(stored, #[trigger] m.entries[k]) && i == m.entries[k].index.0
                && forall|j: int| 0 <= j < k ==> stored_matches(stored, #[trigger] m.entries[j])
            ||| (forall|k: int| 0 <= k < m.entries.len() ==> stored_matches(stored, #[trigger] m.entries[k]))
                && stored_last(stored) > m.last_index() && i == m.last_index() + 1
        },
        None => {
            &&& forall|k: int| 0 <= k < m.entries.len() ==> stored_matches(stored, #[trigger] m.entries[k])
            &&& stored_last(stored) <= m.last_index()
        },
    }
}

/// Where the stored log `stored` must be rewritten from so that it holds the
/// node's log: the entries from the returned index on are truncated from the
/// store and the log's entries from there appended; `None` when the store is
/// already in line.
pub fn stored_log_cut<T: Clone>(stored: &Vec<LogEntry<T>>, log: &RaftLog<T>) -> (r: Option<u64>)
    requires
        log.wf(),
        log@.last_index() < u64::MAX,
    ensures
        is_store_cut(stored@, log@, r),
{
    let held = log.all_entries();
    let mut k: usize = 0;
    while k < held.len()
        invariant
            held@ == log@.entries,
            k <= held@.len(),
            forall|j: int| 0 <= j < k ==> stored_matches(stored@, #[trigger] held@[j]),
        decreases held@.len() - k,
    {
        let e = &held[k];
        let mut found = false;
        let mut j: usize = 0;
        while j < stored.len()
            invariant
                j <= stored@.len(),
                found ==> stored_matches(stored@, *e),
                !found ==> forall|t: int| 0 <= t < j ==> !(stored@[t].index == e.index && stored@[t].term == e.term),
            decreases stored@.len() - j,
        {
            if stored[j].index.0 == e.index.0 && stored[j].term.0 == e.term.0 {
                found = true;
            }
            j = j + 1;
        }
        if !found {
            return Some(e.index.0);
        }
        k = k + 1;
    }
    let last = log.last_index().0;
    let stored_end = if stored.len() == 0 {
        0
    } else {
        stored[stored.len() - 1].index.0
    };
    if stored_end > last {
        Some(last + 1)
    } else {
        None
    }
}

} // verus!
