//! The replicated log: append-only with truncation on conflict, 1-based indexing.
use vstd::prelude::*;

use crate::types::{LogIndex, Term};

verus! {

/// A single entry in the replicated log.
#[derive(Debug, PartialEq, Eq)]
pub struct LogEntry {
    pub term: Term,
    pub index: LogIndex,
    pub data: Vec<u8>,
}

/// The mathematical value of a log entry.
pub struct EntryView {
    pub term: u64,
    pub index: u64,
    pub data: Seq<u8>,
}

impl View for LogEntry {
    type V = EntryView;

    open spec fn view(&self) -> EntryView {
        EntryView { term: self.term, index: self.index, data: self.data@ }
    }
}

impl Clone for LogEntry {
    fn clone(&self) -> (copy: Self)
        ensures
            copy@ == self@,
    {
        LogEntry { term: self.term, index: self.index, data: self.data.clone() }
    }
}

/// The views of a sequence of entries.
pub open spec fn entries_view(entries: Seq<LogEntry>) -> Seq<EntryView> {
    entries.map_values(|e: LogEntry| e@)
}

/// Every entry records its own 1-based position.
pub open spec fn indices_consecutive(log: Seq<EntryView>) -> bool {
    forall|i: int| 0 <= i < log.len() ==> #[trigger] log[i].index == i + 1
}

/// Index of the last entry, or 0 for an empty log.
pub open spec fn spec_last_index(log: Seq<EntryView>) -> u64 {
    log.len() as u64
}

/// Term of the last entry, or 0 for an empty log.
pub open spec fn spec_last_term(log: Seq<EntryView>) -> u64 {
    if log.len() == 0 {
        0
    } else {
        log.last().term
    }
}

/// The entry at a 1-based position, if there is one.
pub open spec fn entry_at(log: Seq<EntryView>, index: u64) -> Option<EntryView> {
    if 1 <= index <= log.len() {
        Some(log[index - 1])
    } else {
        None
    }
}

/// The term of the entry at a 1-based position, if there is one.
pub open spec fn term_at(log: Seq<EntryView>, index: u64) -> Option<u64> {
    if 1 <= index <= log.len() {
        Some(log[index - 1].term)
    } else {
        None
    }
}

/// The log with every entry from `from_index` onward dropped.
pub open spec fn truncated(log: Seq<EntryView>, from_index: u64) -> Seq<EntryView> {
    if from_index == 0 {
        Seq::empty()
    } else if from_index - 1 < log.len() {
        log.take(from_index - 1)
    } else {
        log
    }
}

/// The suffix of the log that starts at `index`; empty for index 0 or past the end.
pub open spec fn suffix_from(log: Seq<EntryView>, index: u64) -> Seq<EntryView> {
    if index == 0 || index > log.len() {
        Seq::empty()
    } else {
        log.subrange(index - 1, log.len() as int)
    }
}


/// Reading back after an append: the new entry is found at the index `append`
/// returns, every earlier entry is found where it was, and nothing lies beyond.
pub proof fn lemma_append_then_read(log: Seq<EntryView>, e: EntryView, index: u64)
    requires
        log.len() < u64::MAX,
    ensures
        entry_at(log.push(e), (log.len() + 1) as u64) == Some(e),
        1 <= index <= log.len() ==> entry_at(log.push(e), index) == entry_at(log, index),
        index > log.len() + 1 ==> entry_at(log.push(e), index) is None,
        spec_last_index(log.push(e)) == log.len() + 1,
        spec_last_term(log.push(e)) == e.term,
{
}

/// Truncating from an index and reading: entries before it are untouched and
/// nothing from it onward remains.
pub proof fn lemma_truncate_then_read(log: Seq<EntryView>, from_index: u64, index: u64)
    ensures
        index < from_index ==> entry_at(truncated(log, from_index), index) == entry_at(log, index),
        index >= from_index ==> entry_at(truncated(log, from_index), index) is None,
{
}

/// In a log whose entries record their positions, the entry read at each index
/// carries that index.
pub proof fn lemma_indices_read_back(log: Seq<EntryView>, index: u64)
    requires
        indices_consecutive(log),
        1 <= index <= log.len(),
    ensures
        entry_at(log, index) matches Some(e) && e.index == index,
{
}

/// Truncating at the index an append returned undoes the append, and truncating
/// there again changes nothing.
pub proof fn lemma_append_then_truncate(log: Seq<EntryView>, e: EntryView)
    requires
        log.len() < u64::MAX,
    ensures
        truncated(log.push(e), (log.len() + 1) as u64) == log,
        truncated(truncated(log.push(e), (log.len() + 1) as u64), (log.len() + 1) as u64) == log,
{
    assert(log.push(e).take(log.len() as int) =~= log);
}

/// Append-only log with 1-based indexing.
/// entries[0] in the backing vec corresponds to LogIndex 1.
#[derive(Debug)]
pub struct Log {
    entries: Vec<LogEntry>,
}

impl View for Log {
    type V = Seq<EntryView>;

    closed spec fn view(&self) -> Seq<EntryView> {
        entries_view(self.entries@)
    }
}

impl Log {
    /// The log's invariant: each entry's index is its position.
    pub open spec fn wf(&self) -> bool {
        indices_consecutive(self@)
    }

    pub fn new() -> (log: Self)
        ensures
            log@ == Seq::<EntryView>::empty(),
            log.wf(),
    {
        Log { entries: Vec::new() }
    }

    /// Index of the last entry, or 0 if the log is empty.
    pub fn last_index(&self) -> (index: LogIndex)
        ensures
            index == spec_last_index(self@),
            index == self@.len(),
    {
        self.entries.len() as LogIndex
    }

    /// Term of the last entry, or 0 if the log is empty.
    pub fn last_term(&self) -> (term: Term)
        ensures
            term == spec_last_term(self@),
    {
        let n = self.entries.len();
        if n == 0 {
            0
        } else {
            self.entries[n - 1].term
        }
    }

    pub fn get(&self, index: LogIndex) -> (entry: Option<&LogEntry>)
        ensures
            match entry {
                Some(e) => entry_at(self@, index) == Some(e@),
                None => entry_at(self@, index) is None,
            },
    {
        if index == 0 {
            return None;
        }
        if index > self.entries.len() as u64 {
            return None;
        }
        let i = (index - 1) as usize;
        Some(&self.entries[i])
    }

    pub fn term_at(&self, index: LogIndex) -> (term: Option<Term>)
        ensures
            term == term_at(self@, index),
    {
        match self.get(index) {
            Some(e) => Some(e.term),
            None => None,
        }
    }

    /// Appends a new entry, returning its assigned index.
    pub fn append(&mut self, term: Term, data: Vec<u8>) -> (index: LogIndex)
        requires
            old(self).wf(),
            old(self)@.len() < u64::MAX,
        ensures
            final(self).wf(),
            index == old(self)@.len() + 1,
            final(self)@ == old(self)@.push(EntryView { term, index, data: data@ }),
    {
        let index = self.last_index() + 1;
        let ghost old_entries = self.entries@;
        self.entries.push(LogEntry { term, index, data });
        proof {
            assert(entries_view(self.entries@) =~= entries_view(old_entries).push(
                EntryView { term, index, data: data@ },
            ));
        }
        index
    }

    /// Truncates the log to drop everything from `from_index` onward.
    /// Used when a conflicting entry is detected during AppendEntries.
    pub fn truncate_from(&mut self, from_index: LogIndex)
        requires
            old(self).wf(),
        ensures
            final(self).wf(),
            final(self)@ == truncated(old(self)@, from_index),
    {
        if from_index == 0 {
            self.entries.clear();
            proof {
                assert(entries_view(self.entries@) =~= Seq::<EntryView>::empty());
            }
            return;
        }
        let ghost old_entries = self.entries@;
        if from_index - 1 < self.entries.len() as u64 {
            self.entries.truncate((from_index - 1) as usize);
            proof {
                assert(entries_view(self.entries@) =~= entries_view(old_entries).take(
                    from_index - 1,
                ));
            }
        }
    }

    pub fn entries_from(&self, index: LogIndex) -> (suffix: &[LogEntry])
        ensures
            entries_view(suffix@) == suffix_from(self@, index),
    {
        let n = self.entries.len();
        if index == 0 || index > n as u64 {
            let empty = vstd::slice::slice_subrange(self.entries.as_slice(), 0, 0);
            proof {
                assert(entries_view(empty@) =~= Seq::<EntryView>::empty());
            }
            return empty;
        }
        let suffix = vstd::slice::slice_subrange(self.entries.as_slice(), (index - 1) as usize, n);
        proof {
            assert(entries_view(suffix@) =~= suffix_from(self@, index));
        }
        suffix
    }
}

} // verus!
