use vstd::prelude::*;

use super::types::{entry_cloned, LogEntry, LogIndex, Term};

verus! {

/// Abstract contents of a Raft log: the entries still held, preceded by a
/// compacted prefix of `offset` entries whose last term was `snapshot_term`.
pub struct LogModel<T> {
    pub entries: Seq<LogEntry<T>>,
    pub offset: nat,
    pub snapshot_term: Term,
}

impl<T> LogModel<T> {
    /// Index of the last entry (0 when the log never held one).
    pub open spec fn last_index(self) -> nat {
        self.offset + self.entries.len()
    }

    /// Term of the last entry, or of the snapshot when no entry is held.
    pub open spec fn last_term(self) -> Term {
        if self.entries.len() > 0 {
            self.entries.last().term
        } else {
            self.snapshot_term
        }
    }

    /// Whether the entry at 1-based index `i` is held.
    pub open spec fn holds(self, i: int) -> bool {
        self.offset < i <= self.last_index()
    }

    /// The entry at 1-based index `i` (meaningful when `holds(i)`).
    pub open spec fn at(self, i: int) -> LogEntry<T> {
        self.entries[i - self.offset - 1]
    }

    /// Term of the entry at index `i`: the snapshot's term at the offset,
    /// the entry's term where it is held, nothing elsewhere.
    pub open spec fn term_at(self, i: int) -> Option<Term> {
        if i > 0 && i == self.offset {
            Some(self.snapshot_term)
        } else if self.holds(i) {
            Some(self.at(i).term)
        } else {
            None
        }
    }

    /// The held entries with indices in `[from, to)`; empty when `from` is 0,
    /// not below `to`, compacted, or beyond the end.
    pub open spec fn slice(self, from: int, to: int) -> Seq<LogEntry<T>> {
        if from == 0 || from >= to || from <= self.offset || from > self.last_index() {
            Seq::empty()
        } else {
            let end = if to - 1 < self.last_index() { to - 1 } else { self.last_index() as int };
            self.entries.subrange(from - self.offset - 1, end - self.offset)
        }
    }

    /// The held entries from index `from` on; empty when `from` is 0,
    /// compacted, or beyond the end.
    pub open spec fn suffix_from(self, from: int) -> Seq<LogEntry<T>> {
        if from == 0 || from <= self.offset || from > self.last_index() {
            Seq::empty()
        } else {
            self.entries.skip(from - self.offset - 1)
        }
    }

    /// The log without the entries from index `i` on (a no-op for 0).
    pub open spec fn truncated_from(self, i: int) -> LogModel<T> {
        if i == 0 {
            self
        } else {
            let keep = if i - 1 <= self.offset {
                0
            } else if i - 1 - self.offset >= self.entries.len() {
                self.entries.len() as int
            } else {
                i - 1 - self.offset
            };
            LogModel { entries: self.entries.take(keep), ..self }
        }
    }

    /// The log with the entries up to `i` folded into the snapshot; a no-op
    /// unless `i` is a held index.
    pub open spec fn compacted_to(self, i: int) -> LogModel<T> {
        if self.holds(i) {
            LogModel {
                entries: self.entries.skip(i - self.offset),
                offset: i as nat,
                snapshot_term: self.at(i).term,
            }
        } else {
            self
        }
    }

    /// The log after the leader's consistency check at `(prev_index, prev_term)`.
    pub open spec fn prev_matches(self, prev_index: int, prev_term: Term) -> bool {
        prev_index == 0 || self.term_at(prev_index) == Some(prev_term)
    }
}

/// One step of conflict resolution: place `e` at its index, dropping a
/// conflicting entry (different term) and all that follow it.
pub open spec fn merge_one<T>(m: LogModel<T>, e: LogEntry<T>) -> LogModel<T> {
    let idx = e.index.0 as int;
    if idx <= m.offset {
        m
    } else if idx - m.offset <= m.entries.len() {
        if m.entries[idx - m.offset - 1].term != e.term {
            LogModel { entries: m.entries.take(idx - m.offset - 1).push(e), ..m }
        } else {
            m
        }
    } else {
        LogModel { entries: m.entries.push(e), ..m }
    }
}

/// Conflict resolution for a whole batch of entries, in order.
pub open spec fn merge_all<T>(m: LogModel<T>, es: Seq<LogEntry<T>>) -> LogModel<T>
    decreases es.len(),
{
    if es.len() == 0 {
        m
    } else {
        merge_one(merge_all(m, es.drop_last()), es.last())
    }
}

/// How many of `m`'s held entries a merge of `es` leaves in place: all of
/// them, up to the first one it replaces.
pub open spec fn merge_kept<T>(m: LogModel<T>, es: Seq<LogEntry<T>>) -> int
    decreases es.len(),
{
    if es.len() == 0 {
        m.entries.len() as int
    } else {
        let k = merge_kept(m, es.drop_last());
        let mm = merge_all(m, es.drop_last());
        let idx = es.last().index.0 as int;
        if idx > mm.offset && idx - mm.offset <= mm.entries.len() && mm.entries[idx - mm.offset - 1].term != es.last().term {
            if idx - mm.offset - 1 < k {
                idx - mm.offset - 1
            } else {
                k
            }
        } else {
            k
        }
    }
}

/// A merge of entries that all come after index `p` leaves every held
/// entry up to `p` in place.
pub proof fn lemma_merge_keeps_prefix<T>(m: LogModel<T>, es: Seq<LogEntry<T>>, p: int)
    requires
        m.offset <= p <= m.last_index(),
        forall|i: int| 0 <= i < es.len() ==> #[trigger] es[i].index.0 > p,
    ensures
        merge_kept(m, es) >= p - m.offset,
    decreases es.len(),
{
    if es.len() > 0 {
        let pre = es.drop_last();
        assert forall|i: int| 0 <= i < pre.len() implies #[trigger] pre[i].index.0 > p by {
            assert(pre[i] == es[i]);
        }
        lemma_merge_keeps_prefix(m, pre, p);
        lemma_merge_all_len(m, pre);
        assert(es.last() == es[es.len() - 1]);
    }
}

/// `b` holds copies of the entries of `a`, at the same positions.
pub open spec fn entries_cloned<T: Clone>(a: Seq<LogEntry<T>>, b: Seq<LogEntry<T>>) -> bool {
    &&& a.len() == b.len()
    &&& forall|i: int| 0 <= i < a.len() ==> #[trigger] entry_cloned(a[i], b[i])
}

/// `b` is `a` with every entry copied.
pub open spec fn log_cloned<T: Clone>(a: LogModel<T>, b: LogModel<T>) -> bool {
    &&& entries_cloned(a.entries, b.entries)
    &&& a.offset == b.offset
    &&& a.snapshot_term == b.snapshot_term
}

/// Merging never grows the log by more than one entry per merged entry.
pub proof fn lemma_merge_all_len<T>(m: LogModel<T>, es: Seq<LogEntry<T>>)
    ensures
        merge_all(m, es).entries.len() <= m.entries.len() + es.len(),
        merge_all(m, es).offset == m.offset,
        merge_all(m, es).snapshot_term == m.snapshot_term,
    decreases es.len(),
{
    if es.len() > 0 {
        lemma_merge_all_len(m, es.drop_last());
    }
}

/// Merging copies instead of the entries themselves gives a copy of the result.
proof fn lemma_merge_one_cloned<T: Clone>(a: LogModel<T>, b: LogModel<T>, e: LogEntry<T>, c: LogEntry<T>)
    requires
        log_cloned(a, b),
        entry_cloned(e, c),
    ensures
        log_cloned(merge_one(a, e), merge_one(b, c)),
{
    let ra = merge_one(a, e);
    let rb = merge_one(b, c);
    let idx = e.index.0 as int;
    if idx <= a.offset {
    } else if idx - a.offset <= a.entries.len() {
        assert(entry_cloned(a.entries[idx - a.offset - 1], b.entries[idx - a.offset - 1]));
        if a.entries[idx - a.offset - 1].term != e.term {
            assert forall|i: int| 0 <= i < ra.entries.len() implies #[trigger] entry_cloned(ra.entries[i], rb.entries[i]) by {
                if i < idx - a.offset - 1 {
                    assert(entry_cloned(a.entries[i], b.entries[i]));
                }
            }
        }
    } else {
        assert forall|i: int| 0 <= i < ra.entries.len() implies #[trigger] entry_cloned(ra.entries[i], rb.entries[i]) by {
            if i < a.entries.len() {
                assert(entry_cloned(a.entries[i], b.entries[i]));
            }
        }
    }
}

/// The entries carry consecutive indices.
pub open spec fn consecutive<T>(es: Seq<LogEntry<T>>) -> bool {
    forall|i: int| 0 <= i < es.len() ==> #[trigger] es[i].index.0 == es[0].index.0 + i
}

/// The first entry continues the log: it is not compacted and leaves no gap.
pub open spec fn attaches<T>(m: LogModel<T>, es: Seq<LogEntry<T>>) -> bool {
    es.len() > 0 ==> m.offset < es[0].index.0 <= m.last_index() + 1
}

/// Every entry of `es` sits in `m` at its index, with its term.
pub open spec fn placed<T>(m: LogModel<T>, es: Seq<LogEntry<T>>) -> bool {
    forall|i: int| 0 <= i < es.len() ==> m.holds(#[trigger] es[i].index.0 as int) && m.at(es[i].index.0 as int).term == es[i].term
}

/// After a batch of consecutive entries that continues the log has been
/// merged, every entry of the batch sits at its index with its term, the
/// entries before the batch are untouched, and the log reaches at least the
/// batch's last index.
pub proof fn lemma_merge_places<T>(m: LogModel<T>, es: Seq<LogEntry<T>>)
    requires
        consecutive(es),
        attaches(m, es),
    ensures
        placed(merge_all(m, es), es),
        merge_all(m, es).offset == m.offset,
        es.len() > 0 ==> merge_all(m, es).last_index() >= es.last().index.0,
        es.len() > 0 ==> forall|j: int| m.offset < j < es[0].index.0 ==> merge_all(m, es).holds(j) && #[trigger] merge_all(m, es).at(j) == m.at(j),
    decreases es.len(),
{
    lemma_merge_all_len(m, es);
    if es.len() == 0 {
        return;
    }
    let pre = es.drop_last();
    let e = es.last();
    let n = es.len() as int;
    assert(e.index.0 == es[0].index.0 + n - 1);
    if n >= 2 {
        assert forall|i: int| 0 <= i < pre.len() implies #[trigger] pre[i].index.0 == pre[0].index.0 + i by {
            assert(pre[i] == es[i]);
            assert(pre[0] == es[0]);
        }
        assert(pre[0] == es[0]);
        lemma_merge_places(m, pre);
        assert(pre.last() == es[n - 2]);
    }
    let mp = merge_all(m, pre);
    lemma_merge_all_len(m, pre);
    assert(mp.offset == m.offset);
    assert(e.index.0 <= mp.last_index() + 1);
    let r = merge_one(mp, e);
    assert(r == merge_all(m, es));
    let idx = e.index.0 as int;
    assert(idx > mp.offset);
    assert forall|i: int| 0 <= i < es.len() implies r.holds(#[trigger] es[i].index.0 as int) && r.at(es[i].index.0 as int).term == es[i].term by {
        if i < n - 1 {
            assert(pre[i] == es[i]);
            assert(mp.holds(pre[i].index.0 as int));
            assert(es[i].index.0 < idx);
        }
    }
    assert forall|j: int| m.offset < j < es[0].index.0 implies r.holds(j) && #[trigger] r.at(j) == m.at(j) by {
        if n >= 2 {
            assert(pre[0] == es[0]);
            assert(mp.holds(j) && mp.at(j) == m.at(j));
        }
    }
}

/// Merging entries that already sit at their indices with their terms
/// changes nothing.
pub proof fn lemma_merge_placed_noop<T>(m: LogModel<T>, es: Seq<LogEntry<T>>)
    requires
        placed(m, es),
    ensures
        merge_all(m, es) == m,
    decreases es.len(),
{
    if es.len() > 0 {
        let pre = es.drop_last();
        assert forall|i: int| 0 <= i < pre.len() implies m.holds(#[trigger] pre[i].index.0 as int) && m.at(pre[i].index.0 as int).term == pre[i].term by {
            assert(pre[i] == es[i]);
        }
        lemma_merge_placed_noop(m, pre);
        assert(m.holds(es[es.len() - 1].index.0 as int));
    }
}

/// Receiving the same batch of consecutive entries twice leaves the log as
/// receiving it once: replicated appends are idempotent.
pub proof fn lemma_append_entries_idempotent<T>(m: LogModel<T>, es: Seq<LogEntry<T>>)
    requires
        consecutive(es),
        attaches(m, es),
    ensures
        merge_all(merge_all(m, es), es) == merge_all(m, es),
{
    lemma_merge_places(m, es);
    lemma_merge_placed_noop(merge_all(m, es), es);
}

/// Every entry of `es` is either folded into `m`'s snapshot or sits in `m`
/// at its index with its term: merging `es` changes nothing.
pub open spec fn settled<T>(m: LogModel<T>, es: Seq<LogEntry<T>>) -> bool {
    forall|i: int| 0 <= i < es.len() ==> (#[trigger] es[i].index.0 <= m.offset
        || (m.holds(es[i].index.0 as int) && m.at(es[i].index.0 as int).term == es[i].term))
}

/// Merging two batches one after the other is merging them joined.
proof fn lemma_merge_concat<T>(m: LogModel<T>, a: Seq<LogEntry<T>>, b: Seq<LogEntry<T>>)
    ensures
        merge_all(m, a + b) == merge_all(merge_all(m, a), b),
    decreases b.len(),
{
    if b.len() == 0 {
        assert(a + b =~= a);
    } else {
        lemma_merge_concat(m, a, b.drop_last());
        assert((a + b).drop_last() =~= a + b.drop_last());
        assert((a + b).last() == b.last());
    }
}

/// Entries already folded into the snapshot are skipped by a merge.
proof fn lemma_merge_compacted_noop<T>(m: LogModel<T>, a: Seq<LogEntry<T>>)
    requires
        forall|i: int| 0 <= i < a.len() ==> #[trigger] a[i].index.0 <= m.offset,
    ensures
        merge_all(m, a) == m,
    decreases a.len(),
{
    if a.len() > 0 {
        let pre = a.drop_last();
        assert forall|i: int| 0 <= i < pre.len() implies #[trigger] pre[i].index.0 <= m.offset by {
            assert(pre[i] == a[i]);
        }
        lemma_merge_compacted_noop(m, pre);
        assert(a.last() == a[a.len() - 1]);
    }
}

/// Some entry of `es` conflicts with `m`: `m` holds an entry at its index
/// in another term.
pub open spec fn conflicts<T>(m: LogModel<T>, es: Seq<LogEntry<T>>) -> bool {
    exists|i: int| 0 <= i < es.len() && m.holds(#[trigger] es[i].index.0 as int) && m.at(es[i].index.0 as int).term != es[i].term
}

/// When a consecutive batch that continues the log conflicts with it, the
/// conflicting entry and everything after it go: the merged log ends exactly
/// at the batch's last entry, whatever the log held beyond it.
pub proof fn lemma_conflict_cuts_log<T>(m: LogModel<T>, es: Seq<LogEntry<T>>)
    requires
        consecutive(es),
        attaches(m, es),
        conflicts(m, es),
    ensures
        merge_all(m, es).last_index() == es.last().index.0,
    decreases es.len(),
{
    let n = es.len() as int;
    let pre = es.drop_last();
    let e = es.last();
    assert(e == es[n - 1]);
    assert(e.index.0 == es[0].index.0 + n - 1);
    lemma_merge_all_len(m, pre);
    if n >= 2 {
        assert(pre[0] == es[0]);
        assert forall|i: int| 0 <= i < pre.len() implies #[trigger] pre[i].index.0 == pre[0].index.0 + i by {
            assert(pre[i] == es[i]);
        }
    }
    if conflicts(m, pre) {
        lemma_conflict_cuts_log(m, pre);
        assert(pre.last() == es[n - 2]);
    } else {
        let c = choose|i: int| 0 <= i < es.len() && m.holds(#[trigger] es[i].index.0 as int) && m.at(es[i].index.0 as int).term != es[i].term;
        if c < n - 1 {
            assert(pre[c] == es[c]);
        }
        assert(c == n - 1);
        assert(m.holds(e.index.0 as int));
        assert forall|j: int| 0 <= j < pre.len() implies m.holds(#[trigger] pre[j].index.0 as int) && m.at(pre[j].index.0 as int).term == pre[j].term by {
            assert(pre[j] == es[j]);
            assert(es[j].index.0 == es[0].index.0 + j);
        }
        lemma_merge_placed_noop(m, pre);
    }
}

/// A log that holds a copy of a consecutive batch merged in after a matching
/// consistency check has every entry of the batch folded into its snapshot
/// or at its index with its term, and still passes the same check: sending
/// it the same batch again changes nothing, compacted or not.
pub proof fn lemma_merged_copy_settled<T: Clone>(m: LogModel<T>, es: Seq<LogEntry<T>>, l: LogModel<T>, prev_index: int, prev_term: Term)
    requires
        consecutive(es),
        es.len() > 0 ==> es[0].index.0 == prev_index + 1,
        0 <= prev_index,
        m.prev_matches(prev_index, prev_term),
        log_cloned(merge_all(m, es), l),
    ensures
        settled(l, es),
        l.prev_matches(prev_index, prev_term),
{
    lemma_merge_all_len(m, es);
    let r = merge_all(m, es);
    let off = m.offset as int;
    if es.len() > 0 && es[0].index.0 <= off {
        // Only a check at index 0 passes below the snapshot.
        assert(prev_index == 0);
        let c = if off - prev_index < es.len() { off - prev_index } else { es.len() as int };
        let a = es.take(c);
        let b = es.skip(c);
        assert forall|i: int| 0 <= i < a.len() implies #[trigger] a[i].index.0 <= m.offset by {
            assert(a[i] == es[i]);
            assert(es[i].index.0 == es[0].index.0 + i);
        }
        lemma_merge_compacted_noop(m, a);
        assert(a + b =~= es);
        lemma_merge_concat(m, a, b);
        if b.len() > 0 {
            assert(b[0] == es[c]);
            assert(es[c].index.0 == es[0].index.0 + c);
            assert forall|i: int| 0 <= i < b.len() implies #[trigger] b[i].index.0 == b[0].index.0 + i by {
                assert(b[i] == es[c + i]);
            }
            lemma_merge_places(m, b);
            assert forall|i: int| 0 <= i < es.len() implies (#[trigger] es[i].index.0 <= l.offset
                || (l.holds(es[i].index.0 as int) && l.at(es[i].index.0 as int).term == es[i].term)) by {
                assert(es[i].index.0 == es[0].index.0 + i);
                if i >= c {
                    assert(b[i - c] == es[i]);
                    let j = es[i].index.0 as int;
                    assert(r.holds(j));
                    assert(entry_cloned(r.entries[j - r.offset - 1], l.entries[j - l.offset - 1]));
                }
            }
        } else {
            assert forall|i: int| 0 <= i < es.len() implies (#[trigger] es[i].index.0 <= l.offset
                || (l.holds(es[i].index.0 as int) && l.at(es[i].index.0 as int).term == es[i].term)) by {
                assert(es[i].index.0 == es[0].index.0 + i);
            }
        }
    } else {
        if es.len() > 0 {
            assert(prev_index <= m.last_index());
            assert(attaches(m, es));
            lemma_merge_places(m, es);
        }
        assert forall|i: int| 0 <= i < es.len() implies (#[trigger] es[i].index.0 <= l.offset
            || (l.holds(es[i].index.0 as int) && l.at(es[i].index.0 as int).term == es[i].term)) by {
            let j = es[i].index.0 as int;
            assert(r.holds(j));
            assert(entry_cloned(r.entries[j - r.offset - 1], l.entries[j - l.offset - 1]));
        }
        if prev_index > 0 {
            if prev_index == m.offset {
            } else {
                assert(m.holds(prev_index));
                if es.len() > 0 {
                    assert(r.holds(prev_index) && r.at(prev_index) == m.at(prev_index));
                } else {
                    assert(r == m);
                }
                assert(entry_cloned(r.entries[prev_index - r.offset - 1], l.entries[prev_index - l.offset - 1]));
            }
        }
    }
}

/// Compacting to a held index keeps the last index, and the term (and entry)
/// at every index from the compaction point on.
pub proof fn lemma_compaction_preserves_suffix<T>(m: LogModel<T>, i: int, j: int)
    requires
        m.holds(i),
        i <= j,
    ensures
        m.compacted_to(i).last_index() == m.last_index(),
        m.compacted_to(i).last_term() == m.last_term(),
        m.compacted_to(i).term_at(j) == m.term_at(j),
        j > i ==> (m.compacted_to(i).holds(j) == m.holds(j)),
        j > i && m.holds(j) ==> m.compacted_to(i).at(j) == m.at(j),
{
}

/// In-memory replicated log for Raft consensus.
///
/// Log indices are 1-based: the first entry has index 1, and index 0
/// means "no entries". Entries up to `offset` may have been compacted into a
/// snapshot; the entry at `LogIndex(i)` is stored at `entries[i - offset - 1]`.
#[derive(Debug)]
pub struct RaftLog<T> {
    entries: Vec<LogEntry<T>>,
    offset: LogIndex,
    snapshot_term: Term,
}

impl<T> View for RaftLog<T> {
    type V = LogModel<T>;

    closed spec fn view(&self) -> LogModel<T> {
        LogModel { entries: self.entries@, offset: self.offset.0 as nat, snapshot_term: self.snapshot_term }
    }
}

impl<T: Clone> RaftLog<T> {
    /// Every index of the log fits in a `u64`.
    pub open spec fn wf(&self) -> bool {
        self@.last_index() <= u64::MAX
    }

    pub fn new() -> (r: Self)
        ensures
            r.wf(),
            r@.entries.len() == 0,
            r@.offset == 0,
            r@.snapshot_term == Term(0),
    {
        RaftLog { entries: Vec::new(), offset: LogIndex(0), snapshot_term: Term(0) }
    }

    /// Create a log holding the given entries (e.g. loaded from storage).
    pub fn from_entries(entries: Vec<LogEntry<T>>) -> (r: Self)
        ensures
            r.wf(),
            r@.entries == entries@,
            r@.offset == 0,
            r@.snapshot_term == Term(0),
    {
        let n = entries.len();
        assert(n <= u64::MAX);
        RaftLog { entries, offset: LogIndex(0), snapshot_term: Term(0) }
    }

    /// Append an entry to the end of the log.
    pub fn append(&mut self, entry: LogEntry<T>)
        requires
            old(self).wf(),
            old(self)@.last_index() < u64::MAX,
        ensures
            final(self).wf(),
            final(self)@ == (LogModel { entries: old(self)@.entries.push(entry), ..old(self)@ }),
    {
        self.entries.push(entry);
    }

    /// Get the entry at the given 1-based log index.
    pub fn get(&self, index: LogIndex) -> (r: Option<&LogEntry<T>>)
        requires
            self.wf(),
        ensures
            match r {
                Some(e) => self@.holds(index.0 as int) && *e == self@.at(index.0 as int),
                None => !self@.holds(index.0 as int),
            },
    {
        let i = index.0;
        if i <= self.offset.0 || i - self.offset.0 > self.entries.len() as u64 {
            return None;
        }
        Some(&self.entries[(i - self.offset.0 - 1) as usize])
    }

    /// The index of the last log entry, or the snapshot's index if none is held.
    pub fn last_index(&self) -> (r: LogIndex)
        requires
            self.wf(),
        ensures
            r.0 == self@.last_index(),
    {
        LogIndex(self.offset.0 + self.entries.len() as u64)
    }

    /// The term of the last log entry, or the snapshot's term if none is held.
    pub fn last_term(&self) -> (r: Term)
        ensures
            r == self@.last_term(),
    {
        if self.entries.len() > 0 {
            self.entries[self.entries.len() - 1].term
        } else {
            self.snapshot_term
        }
    }

    /// Entries in the range `[from, to)` (1-based, exclusive end), clamped to
    /// the end of the log; empty if the range is invalid or out of bounds.
    pub fn slice(&self, from: LogIndex, to: LogIndex) -> (r: &[LogEntry<T>])
        requires
            self.wf(),
        ensures
            r@ == self@.slice(from.0 as int, to.0 as int),
    {
        let start = from.0;
        let end = to.0;
        let last = self.offset.0 + self.entries.len() as u64;
        if start == 0 || start >= end || start <= self.offset.0 || start > last {
            return vstd::slice::slice_subrange(self.entries.as_slice(), 0, 0);
        }
        let stop = if end - 1 < last { end - 1 } else { last };
        vstd::slice::slice_subrange(
            self.entries.as_slice(),
            (start - self.offset.0 - 1) as usize,
            (stop - self.offset.0) as usize,
        )
    }

    /// Remove all entries from `index` onward (inclusive, 1-based).
    ///
    /// Used for conflict resolution during log replication.
    pub fn truncate_from(&mut self, index: LogIndex)
        requires
            old(self).wf(),
        ensures
            final(self).wf(),
            final(self)@ == old(self)@.truncated_from(index.0 as int),
    {
        let i = index.0;
        if i == 0 {
            return;
        }
        let keep: u64 = if i - 1 <= self.offset.0 {
            0
        } else if i - 1 - self.offset.0 >= self.entries.len() as u64 {
            self.entries.len() as u64
        } else {
            i - 1 - self.offset.0
        };
        self.entries.truncate(keep as usize);
        assert(self.entries@ =~= old(self)@.truncated_from(index.0 as int).entries);
    }

    /// All held entries starting from `index` (1-based, inclusive); empty if
    /// the index is 0, compacted, or beyond the log end.
    pub fn entries_from(&self, index: LogIndex) -> (r: &[LogEntry<T>])
        requires
            self.wf(),
        ensures
            r@ == self@.suffix_from(index.0 as int),
    {
        let i = index.0;
        let last = self.offset.0 + self.entries.len() as u64;
        if i == 0 || i <= self.offset.0 || i > last {
            return vstd::slice::slice_subrange(self.entries.as_slice(), 0, 0);
        }
        let r = vstd::slice::slice_subrange(
            self.entries.as_slice(),
            (i - self.offset.0 - 1) as usize,
            self.entries.len(),
        );
        assert(r@ =~= self@.suffix_from(index.0 as int));
        r
    }

    /// The term of the entry at the given 1-based index (the snapshot's term
    /// at the compaction offset).
    pub fn term_at(&self, index: LogIndex) -> (r: Option<Term>)
        requires
            self.wf(),
        ensures
            r == self@.term_at(index.0 as int),
    {
        let i = index.0;
        if i > 0 && i == self.offset.0 {
            return Some(self.snapshot_term);
        }
        match self.get(index) {
            Some(e) => Some(e.term),
            None => None,
        }
    }

    /// Number of entries held (not counting compacted ones).
    pub fn len(&self) -> (r: usize)
        ensures
            r == self@.entries.len(),
    {
        self.entries.len()
    }

    /// Whether no entry is held.
    pub fn is_empty(&self) -> (r: bool)
        ensures
            r == (self@.entries.len() == 0),
    {
        self.entries.len() == 0
    }

    /// Index of the last entry folded into a snapshot (0 if none).
    pub fn offset(&self) -> (r: LogIndex)
        ensures
            r.0 == self@.offset,
    {
        self.offset
    }

    /// Term of the last entry folded into a snapshot.
    pub fn snapshot_term(&self) -> (r: Term)
        ensures
            r == self@.snapshot_term,
    {
        self.snapshot_term
    }

    /// All held entries.
    pub fn all_entries(&self) -> (r: &[LogEntry<T>])
        ensures
            r@ == self@.entries,
    {
        self.entries.as_slice()
    }

    /// Fold the entries up to `index` into the snapshot, keeping the rest.
    /// A no-op unless `index` is a held entry.
    pub fn compact_to(&mut self, index: LogIndex)
        requires
            old(self).wf(),
        ensures
            final(self).wf(),
            final(self)@ == old(self)@.compacted_to(index.0 as int),
    {
        let i = index.0;
        let last = self.offset.0 + self.entries.len() as u64;
        if i <= self.offset.0 || i > last {
            return;
        }
        let drop = (i - self.offset.0) as usize;
        let term = self.entries[drop - 1].term;
        let mut kept: Vec<LogEntry<T>> = Vec::new();
        let mut old_entries: Vec<LogEntry<T>> = Vec::new();
        std::mem::swap(&mut old_entries, &mut self.entries);
        let ghost old_seq = old_entries@;
        let mut rest = old_entries.split_off(drop);
        std::mem::swap(&mut kept, &mut rest);
        assert(kept@ =~= old_seq.skip(drop as int));
        self.entries = kept;
        self.offset = LogIndex(i);
        self.snapshot_term = term;
    }

    /// Discard every entry and make the log start after a snapshot ending at
    /// `index` in `term`.
    pub fn reset_to_snapshot(&mut self, index: LogIndex, term: Term)
        ensures
            final(self).wf(),
            final(self)@ == (LogModel::<T> { entries: Seq::empty(), offset: index.0 as nat, snapshot_term: term }),
    {
        self.entries = Vec::new();
        self.offset = index;
        self.snapshot_term = term;
    }

    /// Append entries from a leader, handling conflict detection.
    ///
    /// If an existing entry conflicts with a new one (same index but different
    /// term), the existing entry and all that follow it are deleted, then the
    /// new entry is appended. Entries already folded into the snapshot are
    /// skipped.
    ///
    /// Returns `true` if the prev_log check passed and entries were applied,
    /// `false` (leaving the log unchanged) if the log doesn't contain an entry
    /// at `prev_log_index` with `prev_log_term` (log inconsistency).
    pub fn append_entries(&mut self, prev_log_index: LogIndex, prev_log_term: Term, entries: &[LogEntry<T>]) -> (r: bool)
        requires
            old(self).wf(),
            old(self)@.last_index() + entries@.len() <= u64::MAX,
            forall|k: int| 0 <= k < entries@.len() ==> #[trigger] entries@[k].index.0 >= 1,
        ensures
            final(self).wf(),
            r == old(self)@.prev_matches(prev_log_index.0 as int, prev_log_term),
            r ==> log_cloned(merge_all(old(self)@, entries@), final(self)@),
            r && settled(old(self)@, entries@) ==> final(self)@ == old(self)@,
            r && consecutive(entries@) && entries@.len() > 0 && entries@[0].index.0 == prev_log_index.0 + 1
                && old(self)@.offset <= prev_log_index.0 && conflicts(old(self)@, entries@)
                ==> final(self)@.last_index() == entries@.last().index.0,
            r ==> 0 <= merge_kept(old(self)@, entries@) <= old(self)@.entries.len(),
            r ==> merge_kept(old(self)@, entries@) <= final(self)@.entries.len(),
            r ==> final(self)@.entries.take(merge_kept(old(self)@, entries@)) == old(self)@.entries.take(merge_kept(old(self)@, entries@)),
            r && old(self)@.offset <= prev_log_index.0 && (forall|i: int| 0 <= i < entries@.len() ==> #[trigger] entries@[i].index.0 > prev_log_index.0)
                ==> forall|i: int| old(self)@.offset < i <= prev_log_index.0 ==> final(self)@.holds(i) && #[trigger] final(self)@.at(i) == old(self)@.at(i),
            !r ==> final(self)@ == old(self)@,
    {
        if prev_log_index.0 > 0 {
            match self.term_at(prev_log_index) {
                Some(term) => {
                    if term.0 != prev_log_term.0 {
                        return false;
                    }
                },
                None => {
                    return false;
                },
            }
        }
        let ghost start = self@;
        proof {
            assert(entries@.take(0) =~= Seq::<LogEntry<T>>::empty());
            assert(log_cloned(start, start)) by {
                assert forall|i: int| 0 <= i < start.entries.len() implies #[trigger] entry_cloned(start.entries[i], start.entries[i]) by {}
            }
        }
        let mut k: usize = 0;
        while k < entries.len()
            invariant
                0 <= k <= entries@.len(),
                start == old(self)@,
                self.offset == old(self).offset,
                self.snapshot_term == old(self).snapshot_term,
                start.last_index() + entries@.len() <= u64::MAX,
                forall|j: int| 0 <= j < entries@.len() ==> #[trigger] entries@[j].index.0 >= 1,
                log_cloned(merge_all(start, entries@.take(k as int)), self@),
                settled(start, entries@) ==> self@ == start,
                0 <= merge_kept(start, entries@.take(k as int)) <= start.entries.len(),
                merge_kept(start, entries@.take(k as int)) <= self@.entries.len(),
                self@.entries.take(merge_kept(start, entries@.take(k as int))) == start.entries.take(merge_kept(start, entries@.take(k as int))),
            decreases entries@.len() - k,
        {
            let ghost before = self@;
            let ghost spec_before = merge_all(start, entries@.take(k as int));
            let ghost kept = merge_kept(start, entries@.take(k as int));
            proof {
                lemma_merge_all_len(start, entries@.take(k as int));
                assert(entries@.take(k as int + 1).drop_last() =~= entries@.take(k as int));
            }
            let entry = &entries[k];
            let ghost e = entries@[k as int];
            assert(entries@.take(k as int + 1).last() == e);
            assert(entry_cloned(e, e));
            let idx = entry.index.0;
            let off = self.offset.0;
            let len = self.entries.len() as u64;
            proof {
                if settled(start, entries@) {
                    assert(entries@[k as int].index.0 <= start.offset
                        || start.holds(entries@[k as int].index.0 as int));
                }
            }
            if idx <= off {
                proof {
                    lemma_merge_one_cloned(spec_before, before, e, e);
                }
            } else if idx - off <= len {
                let pos = (idx - off - 1) as usize;
                if self.entries[pos].term.0 != entry.term.0 {
                    self.entries.truncate(pos);
                    let c = entry.clone();
                    self.entries.push(c);
                    proof {
                        assert(self@.entries =~= before.entries.take(pos as int).push(c));
                        assert(self@ == merge_one(before, c));
                        lemma_merge_one_cloned(spec_before, before, e, c);
                        assert(entry_cloned(spec_before.entries[pos as int], before.entries[pos as int]));
                        let nk = merge_kept(start, entries@.take(k as int + 1));
                        assert(nk <= pos && nk <= kept);
                        assert(self@.entries.take(nk) =~= before.entries.take(nk));
                        assert(before.entries.take(nk) =~= before.entries.take(kept).take(nk));
                        assert(start.entries.take(nk) =~= start.entries.take(kept).take(nk));
                    }
                } else {
                    proof {
                        lemma_merge_one_cloned(spec_before, before, e, e);
                        assert(entry_cloned(spec_before.entries[pos as int], before.entries[pos as int]));
                    }
                }
            } else {
                let c = entry.clone();
                self.entries.push(c);
                proof {
                    assert(self@ == merge_one(before, c));
                    lemma_merge_one_cloned(spec_before, before, e, c);
                    assert(self@.entries.take(kept) =~= before.entries.take(kept));
                }
            }
            k = k + 1;
        }
        proof {
            assert(entries@.take(entries@.len() as int) =~= entries@);
            lemma_merge_all_len(start, entries@);
            if consecutive(entries@) && entries@.len() > 0 && entries@[0].index.0 == prev_log_index.0 + 1
                && start.offset <= prev_log_index.0 && conflicts(start, entries@) {
                assert(prev_log_index.0 == 0 || start.holds(prev_log_index.0 as int) || prev_log_index.0 == start.offset);
                lemma_conflict_cuts_log(start, entries@);
            }
            if start.offset <= prev_log_index.0 && (forall|i: int| 0 <= i < entries@.len() ==> #[trigger] entries@[i].index.0 > prev_log_index.0) {
                lemma_merge_keeps_prefix(start, entries@, prev_log_index.0 as int);
                let kk = merge_kept(start, entries@);
                assert forall|i: int| start.offset < i <= prev_log_index.0 implies self@.holds(i) && #[trigger] self@.at(i) == start.at(i) by {
                    assert(self@.entries.take(kk)[i - start.offset - 1] == start.entries.take(kk)[i - start.offset - 1]);
                }
            }
        }
        true
    }
}

impl<T: Clone> Default for RaftLog<T> {
    fn default() -> (r: Self)
        ensures
            r@.entries.len() == 0,
            r@.offset == 0,
            r@.snapshot_term == Term(0),
    {
        RaftLog::new()
    }
}

} // verus!
