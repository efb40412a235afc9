use vstd::prelude::*;
use crate::common::{Command, CommandView};

verus! {

/// One entry of the replicated log.
#[derive(Debug, PartialEq)]
pub struct LogEntry {
    pub index: u64,
    pub term: u64,
    pub command: Command,
}

/// The mathematical content of a log entry.
pub struct LogEntryView {
    pub index: u64,
    pub term: u64,
    pub command: CommandView,
}

impl View for LogEntry {
    type V = LogEntryView;

    open spec fn view(&self) -> LogEntryView {
        LogEntryView { index: self.index, term: self.term, command: self.command@ }
    }
}

impl Clone for LogEntry {
    fn clone(&self) -> (r: Self)
        ensures
            r@ == self@,
    {
        LogEntry { index: self.index, term: self.term, command: self.command.clone() }
    }
}

impl LogEntry {
    pub fn new(index: u64, term: u64, command: Command) -> (r: Self)
        ensures
            r.index == index,
            r.term == term,
            r.command == command,
    {
        LogEntry { index, term, command }
    }
}

/// The log of a node. `offset` is the index the log starts after (the last
/// index a snapshot covers); the entry with index `i` is held at position
/// `i - offset - 1`.
#[derive(Debug, PartialEq)]
pub struct RaftLog {
    offset: u64,
    log_entrys: Vec<LogEntry>,
}

/// What a `RaftLog` holds.
pub struct RaftLogView {
    pub offset: u64,
    pub entries: Seq<LogEntry>,
}

impl View for RaftLog {
    type V = RaftLogView;

    closed spec fn view(&self) -> RaftLogView {
        RaftLogView { offset: self.offset, entries: self.log_entrys@ }
    }
}

/// The term of the entry at position `pos` of `s`, or 0 when there is none.
pub open spec fn term_at(s: Seq<LogEntry>, pos: int) -> u64 {
    if 0 <= pos < s.len() {
        s[pos].term
    } else {
        0
    }
}

impl RaftLogView {
    /// The position at which the entry with index `index` is held.
    pub open spec fn pos(self, index: u64) -> int {
        index - self.offset - 1
    }

    /// The log holds an entry for `index`.
    pub open spec fn holds(self, index: u64) -> bool {
        index > self.offset && self.pos(index) < self.entries.len()
    }

    /// The entry held for `index`.
    pub open spec fn entry_at(self, index: u64) -> LogEntry {
        self.entries[self.pos(index)]
    }

    /// The term held for `index`, or 0 where none is held.
    pub open spec fn term_of(self, index: u64) -> u64 {
        term_at(self.entries, self.pos(index))
    }

    /// The index of the last entry, or 0 when the log is empty.
    pub open spec fn latest_index(self) -> u64 {
        if self.entries.len() == 0 {
            0
        } else {
            self.entries.last().index
        }
    }

    /// The term of the last entry, or 0 when the log is empty.
    pub open spec fn latest_term(self) -> u64 {
        if self.entries.len() == 0 {
            0
        } else {
            self.entries.last().term
        }
    }

    /// The entries held for the indexes after `from` up to and including `to`.
    pub open spec fn held_between(self, from: u64, to: u64) -> Seq<LogEntry> {
        let len = self.entries.len() as int;
        let lo = if from <= self.offset {
            0
        } else if from - self.offset <= len {
            from - self.offset
        } else {
            len
        };
        let hi = if to <= self.offset {
            0
        } else if to - self.offset <= len {
            to - self.offset
        } else {
            len
        };
        if lo < hi {
            self.entries.subrange(lo, hi)
        } else {
            Seq::empty()
        }
    }

    /// The log after appending `es` after index `prev` (see `merge_entries`).
    pub open spec fn appended(self, prev: u64, es: Seq<LogEntry>) -> RaftLogView {
        RaftLogView { offset: self.offset, entries: merge_entries(self.entries, prev - self.offset, es) }
    }

    /// The log after discarding the entries up to index `c`, when `c` lies
    /// beyond the offset; `c` becomes the offset.
    pub open spec fn truncated(self, c: u64) -> RaftLogView {
        if c > self.offset {
            let drop = c - self.offset;
            RaftLogView {
                offset: c,
                entries: if drop < self.entries.len() {
                    self.entries.skip(drop)
                } else {
                    Seq::empty()
                },
            }
        } else {
            self
        }
    }

    /// Every entry sits where its index says: the one at position `p` has
    /// index `offset + 1 + p`.
    pub open spec fn well_indexed(self) -> bool {
        forall|p: int| 0 <= p < self.entries.len() ==> #[trigger] self.entries[p].index
            == self.offset + 1 + p
    }
}

/// The entries of `es` carry the consecutive indexes `prev + 1`, `prev + 2`, ...
pub open spec fn consecutive(es: Seq<LogEntry>, prev: int) -> bool {
    forall|k: int| 0 <= k < es.len() ==> #[trigger] es[k].index == prev + 1 + k
}

/// Places one incoming entry at position `pos`: an entry already there with
/// the same term stays; one with another term is dropped with everything after
/// it and the new entry takes its place; past the end the entry is added last.
pub open spec fn merge_entry(log: Seq<LogEntry>, pos: int, e: LogEntry) -> Seq<LogEntry> {
    if 0 <= pos < log.len() {
        if log[pos].term != e.term {
            log.take(pos).push(e)
        } else {
            log
        }
    } else {
        log.push(e)
    }
}

/// Places the incoming entries `es`, one after the other, from position `pos` on.
pub open spec fn merge_entries(log: Seq<LogEntry>, pos: int, es: Seq<LogEntry>) -> Seq<LogEntry>
    decreases es.len(),
{
    if es.len() == 0 {
        log
    } else {
        merge_entries(merge_entry(log, pos, es[0]), pos + 1, es.drop_first())
    }
}

/// Some incoming entry meets an entry of `log` at its position with another term.
pub open spec fn has_conflict(log: Seq<LogEntry>, pos: int, es: Seq<LogEntry>) -> bool {
    exists|k: int| 0 <= k < es.len() && pos + k < log.len() && #[trigger] log[pos + k].term != es[k].term
}

impl RaftLog {
    pub fn new(offset: u64) -> (r: Self)
        ensures
            r@.offset == offset,
            r@.entries == Seq::<LogEntry>::empty(),
    {
        RaftLog { offset, log_entrys: Vec::new() }
    }

    /// The offset of the log.
    pub fn offset(&self) -> (r: u64)
        ensures
            r == self@.offset,
    {
        self.offset
    }

    /// The number of entries the log holds.
    pub fn len(&self) -> (r: usize)
        ensures
            r == self@.entries.len(),
    {
        self.log_entrys.len()
    }

    /// The index of the last entry, or 0 for an empty log.
    pub fn latest_log_index(&self) -> (r: u64)
        ensures
            r == self@.latest_index(),
    {
        let n = self.log_entrys.len();
        if n == 0 {
            0
        } else {
            self.log_entrys[n - 1].index
        }
    }

    /// The term of the last entry, or 0 for an empty log.
    pub fn latest_log_term(&self) -> (r: u64)
        ensures
            r == self@.latest_term(),
    {
        let n = self.log_entrys.len();
        if n == 0 {
            0
        } else {
            self.log_entrys[n - 1].term
        }
    }

    /// The term of the entry held for `index`, or 0 when there is none.
    pub fn term(&self, index: u64) -> (r: u64)
        requires
            index >= self@.offset,
        ensures
            r == self@.term_of(index),
    {
        let i = index - self.offset;
        if i >= 1 && i - 1 < self.log_entrys.len() as u64 {
            self.log_entrys[(i - 1) as usize].term
        } else {
            0
        }
    }

    /// The entry held for `index`, if there is one.
    pub fn entry(&self, index: u64) -> (r: Option<&LogEntry>)
        requires
            index >= self@.offset,
        ensures
            self@.holds(index) ==> r == Some(&self@.entry_at(index)),
            !self@.holds(index) ==> r.is_none(),
    {
        let i = index - self.offset;
        if i >= 1 && i - 1 < self.log_entrys.len() as u64 {
            Some(&self.log_entrys[(i - 1) as usize])
        } else {
            None
        }
    }

    /// The entries with indexes from `start_index` up to and including
    /// `end_index`; none when `start_index >= end_index`. A non-empty range
    /// starts after the offset, since the offset itself holds no entry.
    pub fn entries(&self, start_index: u64, end_index: u64) -> (r: &[LogEntry])
        requires
            start_index >= self@.offset,
            end_index >= self@.offset,
            start_index < end_index ==> start_index > self@.offset && end_index - self@.offset
                <= self@.entries.len(),
        ensures
            start_index < end_index ==> r@ == self@.entries.subrange(
                self@.pos(start_index),
                self@.pos(end_index) + 1,
            ),
            start_index >= end_index ==> r@ == Seq::<LogEntry>::empty(),
    {
        let start = start_index - self.offset;
        let end = end_index - self.offset;
        let n = self.log_entrys.len();
        if start < end {
            assert(end <= n);
            vstd::slice::slice_subrange(
                self.log_entrys.as_slice(),
                (start - 1) as usize,
                end as usize,
            )
        } else {
            let empty: &[LogEntry] = &[];
            assert(empty@ =~= Seq::<LogEntry>::empty());
            empty
        }
    }

    /// The entries held for the indexes after `from` up to and including `to`.
    pub fn between(&self, from: u64, to: u64) -> (r: &[LogEntry])
        ensures
            r@ == self@.held_between(from, to),
    {
        let len = self.log_entrys.len() as u64;
        let lo = if from <= self.offset {
            0
        } else if from - self.offset <= len {
            from - self.offset
        } else {
            len
        };
        let hi = if to <= self.offset {
            0
        } else if to - self.offset <= len {
            to - self.offset
        } else {
            len
        };
        if lo < hi {
            vstd::slice::slice_subrange(self.log_entrys.as_slice(), lo as usize, hi as usize)
        } else {
            let empty: &[LogEntry] = &[];
            assert(empty@ =~= Seq::<LogEntry>::empty());
            empty
        }
    }

    /// Discards the entries up to index `commited_index` when it lies beyond
    /// the offset, which becomes `commited_index`; returns the offset.
    pub fn truncate(&mut self, commited_index: u64) -> (r: u64)
        ensures
            final(self)@ == old(self)@.truncated(commited_index),
            r == final(self)@.offset,
    {
        if commited_index > self.offset {
            let drop = commited_index - self.offset;
            if drop < self.log_entrys.len() as u64 {
                let rest = self.log_entrys.split_off(drop as usize);
                self.log_entrys = rest;
            } else {
                self.log_entrys = Vec::new();
            }
            self.offset = commited_index;
        }
        assert(final(self)@.entries =~= old(self)@.truncated(commited_index).entries);
        self.offset
    }

    /// Appends `entries` after index `index`: the first goes to the place of
    /// index `index + 1`, and so on (see `merge_entries`). Returns the index
    /// after the last one.
    pub fn append(&mut self, index: u64, entries: Vec<LogEntry>) -> (r: u64)
        requires
            index >= old(self)@.offset,
            index + entries@.len() + 1 <= u64::MAX,
        ensures
            final(self)@ == old(self)@.appended(index, entries@),
            r == index + entries@.len() + 1,
    {
        let ghost start: int = index - self.offset;
        let ghost es = entries@;
        let ghost orig = self.log_entrys@;
        let n = entries.len() as u64;
        let mut pos: u64 = index - self.offset;
        assert(es.skip(0) =~= es);
        for log in it: entries.into_iter()
            invariant
                it.seq() == es,
                pos == start + it.index(),
                start + es.len() <= u64::MAX,
                self.offset == old(self).offset,
                merge_entries(self.log_entrys@, pos as int, es.skip(it.index() as int))
                    == merge_entries(orig, start, es),
        {
            let ghost k = it.index() as int;
            assert(es.skip(k)[0] == log);
            assert(es.skip(k).drop_first() =~= es.skip(k + 1));
            if pos < self.log_entrys.len() as u64 {
                if self.log_entrys[pos as usize].term != log.term {
                    self.log_entrys.truncate(pos as usize);
                    self.log_entrys.push(log);
                }
            } else {
                self.log_entrys.push(log);
            }
            pos = pos + 1;
        }
        assert(es.skip(es.len() as int) =~= Seq::<LogEntry>::empty());
        index + n + 1
    }
}

/// `term` and `entry` agree: the term held for an index is the term of the
/// entry held for it, and 0 where none is held.
pub proof fn lemma_term_is_entry_term(log: RaftLogView, index: u64)
    requires
        index >= log.offset,
    ensures
        log.holds(index) ==> log.term_of(index) == log.entry_at(index).term,
        !log.holds(index) ==> log.term_of(index) == 0,
{
}

/// Merging entries never changes an entry that lies before the first position
/// written: everything before `min(pos, log.len())` stays as it was.
pub proof fn lemma_merge_keeps_prefix(log: Seq<LogEntry>, pos: int, es: Seq<LogEntry>)
    requires
        0 <= pos,
    ensures
        merge_entries(log, pos, es).len() >= (if pos < log.len() { pos } else { log.len() as int }),
        forall|j: int|
            0 <= j < pos && j < log.len() ==> #[trigger] merge_entries(log, pos, es)[j] == log[j],
    decreases es.len(),
{
    if es.len() > 0 {
        let next = merge_entry(log, pos, es[0]);
        lemma_merge_keeps_prefix(next, pos + 1, es.drop_first());
        assert forall|j: int| 0 <= j < pos && j < log.len() implies #[trigger] merge_entries(
            log,
            pos,
            es,
        )[j] == log[j] by {
            assert(next[j] == log[j]);
        }
    }
}

/// Once merged from a position inside the log (or right at its end), every
/// incoming entry sits at its own position, with its own term.
pub proof fn lemma_merge_places_terms(log: Seq<LogEntry>, pos: int, es: Seq<LogEntry>)
    requires
        0 <= pos <= log.len(),
    ensures
        merge_entries(log, pos, es).len() >= pos + es.len(),
        forall|k: int|
            0 <= k < es.len() ==> (#[trigger] merge_entries(log, pos, es)[pos + k]).term
                == es[k].term,
    decreases es.len(),
{
    if es.len() > 0 {
        let next = merge_entry(log, pos, es[0]);
        assert(next.len() >= pos + 1 && next[pos].term == es[0].term);
        lemma_merge_places_terms(next, pos + 1, es.drop_first());
        lemma_merge_keeps_prefix(next, pos + 1, es.drop_first());
        let r = merge_entries(log, pos, es);
        assert forall|k: int| 0 <= k < es.len() implies (#[trigger] r[pos + k]).term
            == es[k].term by {
            if k == 0 {
                assert(r[pos] == next[pos]);
            } else {
                assert(es.drop_first()[k - 1] == es[k]);
                assert(r[(pos + 1) + (k - 1)] == r[pos + k]);
            }
        }
    }
}

/// Entries that are already in place, term for term, change nothing.
pub proof fn lemma_merge_in_place(log: Seq<LogEntry>, pos: int, es: Seq<LogEntry>)
    requires
        0 <= pos,
        pos + es.len() <= log.len(),
        forall|k: int| 0 <= k < es.len() ==> (#[trigger] log[pos + k]).term == es[k].term,
    ensures
        merge_entries(log, pos, es) == log,
    decreases es.len(),
{
    if es.len() > 0 {
        assert(log[pos + 0].term == es[0].term);
        assert(merge_entry(log, pos, es[0]) == log);
        assert forall|k: int| 0 <= k < es.drop_first().len() implies (#[trigger] log[(pos + 1)
            + k]).term == es.drop_first()[k].term by {
            assert(log[pos + (k + 1)].term == es[k + 1].term);
        }
        lemma_merge_in_place(log, pos + 1, es.drop_first());
    }
}

/// Merging the same entries twice at the same position gives what one merge
/// gives, when that position lies inside the sequence or at its end.
pub proof fn lemma_merge_idempotent(log: Seq<LogEntry>, pos: int, es: Seq<LogEntry>)
    requires
        0 <= pos <= log.len(),
    ensures
        merge_entries(merge_entries(log, pos, es), pos, es) == merge_entries(log, pos, es),
{
    lemma_merge_places_terms(log, pos, es);
    lemma_merge_in_place(merge_entries(log, pos, es), pos, es);
}

/// The length after a merge: up to the last incoming entry when one of them
/// conflicts with an entry held at its position, otherwise the longer of the
/// old sequence and the incoming run.
pub proof fn lemma_merge_len(log: Seq<LogEntry>, pos: int, es: Seq<LogEntry>)
    requires
        0 <= pos <= log.len(),
    ensures
        merge_entries(log, pos, es).len() == (if has_conflict(log, pos, es) {
            pos + es.len()
        } else if log.len() >= pos + es.len() {
            log.len() as int
        } else {
            pos + es.len()
        }),
    decreases es.len(),
{
    if es.len() == 0 {
        assert(!has_conflict(log, pos, es));
    } else {
        let next = merge_entry(log, pos, es[0]);
        let rest = es.drop_first();
        lemma_merge_len(next, pos + 1, rest);
        if pos < log.len() && log[pos].term != es[0].term {
            assert(log[pos + 0].term != es[0].term);
            assert(has_conflict(log, pos, es));
            assert(next.len() == pos + 1);
            assert(!has_conflict(next, pos + 1, rest));
        } else if pos < log.len() {
            assert(next == log);
            if has_conflict(log, pos, es) {
                let k = choose|k: int|
                    0 <= k < es.len() && pos + k < log.len() && #[trigger] log[pos + k].term
                        != es[k].term;
                assert(k != 0);
                assert(rest[k - 1] == es[k]);
                assert(log[(pos + 1) + (k - 1)].term != rest[k - 1].term);
                assert(has_conflict(log, pos + 1, rest));
            }
            if has_conflict(log, pos + 1, rest) {
                let k = choose|k: int|
                    0 <= k < rest.len() && pos + 1 + k < log.len() && #[trigger] log[pos + 1
                        + k].term != rest[k].term;
                assert(rest[k] == es[k + 1]);
                assert(log[pos + (k + 1)].term != es[k + 1].term);
                assert(has_conflict(log, pos, es));
            }
        } else {
            assert(!has_conflict(log, pos, es));
            assert(next.len() == log.len() + 1);
            assert(!has_conflict(next, pos + 1, rest));
        }
    }
}

/// A merge keeps every entry at the position its index names, when the
/// incoming entries are numbered on from the position they start at.
pub proof fn lemma_merge_well_indexed(log: Seq<LogEntry>, base: int, pos: int, es: Seq<LogEntry>)
    requires
        0 <= pos <= log.len(),
        forall|p: int| 0 <= p < log.len() ==> #[trigger] log[p].index == base + 1 + p,
        forall|k: int| 0 <= k < es.len() ==> #[trigger] es[k].index == base + 1 + pos + k,
    ensures
        forall|p: int|
            0 <= p < merge_entries(log, pos, es).len() ==> #[trigger] merge_entries(
                log,
                pos,
                es,
            )[p].index == base + 1 + p,
    decreases es.len(),
{
    if es.len() > 0 {
        let next = merge_entry(log, pos, es[0]);
        let rest = es.drop_first();
        assert(es[0].index == base + 1 + pos + 0);
        assert forall|p: int| 0 <= p < next.len() implies #[trigger] next[p].index == base + 1
            + p by {
            if p < pos && p < log.len() {
                assert(next[p] == log[p]);
            }
        }
        assert forall|k: int| 0 <= k < rest.len() implies #[trigger] rest[k].index == base + 1
            + (pos + 1) + k by {
            assert(rest[k] == es[k + 1]);
        }
        lemma_merge_well_indexed(next, base, pos + 1, rest);
    }
}

/// Appending entries numbered on from `prev` to a log whose entries sit where
/// their indexes say, after an index the log holds or its offset: the log
/// stays well indexed; each new entry is held for its index with its term;
/// entries up to `prev` stay as they were; and the last index becomes
/// `prev + n` when an incoming entry conflicts with a held one, otherwise the
/// larger of the old last index and `prev + n`. (The bound on `prev + n` is
/// the one `append` itself needs.)
pub proof fn lemma_append_keeps_indexing(log: RaftLogView, prev: u64, es: Seq<LogEntry>)
    requires
        log.well_indexed(),
        prev >= log.offset,
        prev - log.offset <= log.entries.len(),
        prev + es.len() + 1 <= u64::MAX,
        consecutive(es, prev as int),
    ensures
        ({
            let after = log.appended(prev, es);
            &&& after.well_indexed()
            &&& forall|k: int|
                0 <= k < es.len() ==> after.holds((prev + 1 + k) as u64) && #[trigger] after.term_of(
                    (prev + 1 + k) as u64,
                ) == es[k].term
            &&& forall|i: u64|
                log.offset < i <= prev && log.holds(i) ==> after.holds(i) && #[trigger] after.entry_at(
                    i,
                ) == log.entry_at(i)
            &&& es.len() > 0 ==> after.latest_index() == (if has_conflict(
                log.entries,
                prev - log.offset,
                es,
            ) {
                (prev + es.len()) as u64
            } else if log.latest_index() >= prev + es.len() {
                log.latest_index()
            } else {
                (prev + es.len()) as u64
            })
        }),
{
    let pos = prev - log.offset;
    let after = log.appended(prev, es);
    assert forall|k: int| 0 <= k < es.len() implies #[trigger] es[k].index == log.offset + 1 + pos
        + k by {}
    lemma_merge_well_indexed(log.entries, log.offset as int, pos, es);
    lemma_merge_places_terms(log.entries, pos, es);
    lemma_merge_keeps_prefix(log.entries, pos, es);
    lemma_merge_len(log.entries, pos, es);
    assert forall|k: int| 0 <= k < es.len() implies after.holds((prev + 1 + k) as u64)
        && #[trigger] after.term_of((prev + 1 + k) as u64) == es[k].term by {
        assert(after.pos((prev + 1 + k) as u64) == pos + k);
    }
    if log.entries.len() > 0 {
        assert(log.entries.last().index == log.offset + 1 + (log.entries.len() - 1));
    }
    if es.len() > 0 {
        let m = after.entries;
        assert(m.len() > 0);
        assert(m.last() == m[m.len() - 1]);
    }
}

/// Delivering the same entries twice after the same index gives the log and
/// the result that one delivery gives, when that index is the offset or one
/// the log holds an entry for.
pub proof fn lemma_append_twice(log: RaftLogView, prev: u64, es: Seq<LogEntry>)
    requires
        prev >= log.offset,
        prev - log.offset <= log.entries.len(),
    ensures
        log.appended(prev, es).appended(prev, es) == log.appended(prev, es),
{
    lemma_merge_idempotent(log.entries, prev - log.offset, es);
}

/// Truncating a well-indexed log at `c` beyond its offset discards exactly the
/// entries up to `c`: `c` becomes the offset, every later entry is still held
/// for its index, and the last index stays when `c` lies before it.
pub proof fn lemma_truncate_keeps_later(log: RaftLogView, c: u64)
    requires
        log.well_indexed(),
        c > log.offset,
    ensures
        ({
            let t = log.truncated(c);
            &&& t.offset == c
            &&& t.well_indexed()
            &&& forall|i: u64| i > c ==> (#[trigger] t.holds(i) == log.holds(i))
            &&& forall|i: u64| i > c && log.holds(i) ==> #[trigger] t.entry_at(i) == log.entry_at(i)
            &&& c < log.latest_index() ==> t.latest_index() == log.latest_index()
        }),
{
    let t = log.truncated(c);
    let drop = c - log.offset;
    let len = log.entries.len();
    assert forall|p: int| 0 <= p < t.entries.len() implies #[trigger] t.entries[p].index
        == t.offset + 1 + p by {
        assert(t.entries[p] == log.entries[p + drop]);
    }
    assert forall|i: u64| i > c && log.holds(i) implies #[trigger] t.entry_at(i) == log.entry_at(i) by {
        assert(t.entries[t.pos(i)] == log.entries[t.pos(i) + drop]);
    }
    if len > 0 {
        assert(log.entries.last().index == log.offset + 1 + (len - 1));
    }
    if c < log.latest_index() && drop < len {
        assert(t.entries.last() == log.entries[len - 1]);
    }
}

/// What a merge leaves at each incoming position, when it starts inside the
/// sequence or at its end: where the old sequence held nothing, or held an
/// entry with another term than the incoming one, the incoming entry itself
/// (index, term and command) is there afterwards; where the old entries matched
/// in term all the way up to and including that position, the old entry stays.
pub proof fn lemma_merge_exact(log: Seq<LogEntry>, pos: int, es: Seq<LogEntry>)
    requires
        0 <= pos <= log.len(),
    ensures
        merge_entries(log, pos, es).len() >= pos + es.len(),
        forall|k: int|
            0 <= k < es.len() && (pos + k >= log.len() || log[pos + k].term != es[k].term)
                ==> #[trigger] merge_entries(log, pos, es)[pos + k] == es[k],
        forall|k: int|
            0 <= k < es.len() && (forall|q: int|
                pos <= q <= pos + k ==> q < log.len() && (#[trigger] log[q]).term == es[q - pos].term)
                ==> #[trigger] merge_entries(log, pos, es)[pos + k] == log[pos + k],
    decreases es.len(),
{
    lemma_merge_places_terms(log, pos, es);
    if es.len() > 0 {
        let next = merge_entry(log, pos, es[0]);
        let rest = es.drop_first();
        let r = merge_entries(log, pos, es);
        lemma_merge_exact(next, pos + 1, rest);
        lemma_merge_keeps_prefix(next, pos + 1, rest);
        assert(r == merge_entries(next, pos + 1, rest));
        assert forall|k: int|
            0 <= k < es.len() && (pos + k >= log.len() || log[pos + k].term != es[k].term)
                implies #[trigger] r[pos + k] == es[k] by {
            if k == 0 {
                assert(r[pos] == next[pos]);
            } else {
                assert(rest[k - 1] == es[k]);
                if next =~= log {
                    assert(pos + 1 + (k - 1) >= next.len() || next[pos + 1 + (k - 1)].term
                        != rest[k - 1].term);
                } else {
                    assert(next.len() == pos + 1);
                }
                assert(r[(pos + 1) + (k - 1)] == rest[k - 1]);
            }
        }
        assert forall|k: int|
            0 <= k < es.len() && (forall|q: int|
                pos <= q <= pos + k ==> q < log.len() && (#[trigger] log[q]).term == es[q - pos].term)
                implies #[trigger] r[pos + k] == log[pos + k] by {
            lemma_merge_keeps_matching(log, pos, es, k);
        }
    }
}

/// Old entries whose terms match the incoming ones, from the first incoming
/// position up to and including `pos + k`, stay in place.
proof fn lemma_merge_keeps_matching(log: Seq<LogEntry>, pos: int, es: Seq<LogEntry>, k: int)
    requires
        0 <= pos <= log.len(),
        0 <= k < es.len(),
        forall|q: int|
            pos <= q <= pos + k ==> q < log.len() && (#[trigger] log[q]).term == es[q - pos].term,
    ensures
        merge_entries(log, pos, es)[pos + k] == log[pos + k],
    decreases es.len(),
{
    assert(pos < log.len() && log[pos].term == es[pos - pos].term);
    let next = merge_entry(log, pos, es[0]);
    let rest = es.drop_first();
    assert(next == log);
    if k == 0 {
        lemma_merge_keeps_prefix(next, pos + 1, rest);
        lemma_merge_places_terms(next, pos + 1, rest);
    } else {
        assert forall|q: int| pos + 1 <= q <= pos + 1 + (k - 1) implies q < next.len()
            && (#[trigger] next[q]).term == rest[q - (pos + 1)].term by {
            assert(q < log.len() && log[q].term == es[q - pos].term);
            assert(rest[q - (pos + 1)] == es[q - pos]);
        }
        lemma_merge_keeps_matching(next, pos + 1, rest, k - 1);
    }
}

/// Appending `es` after `prev` (the offset or an index the log holds) puts
/// each incoming entry itself in the place of its index wherever the log held
/// none there or held one of another term, and keeps an old entry whose term
/// matched, as did all before it among the incoming ones.
pub proof fn lemma_append_places_entries(log: RaftLogView, prev: u64, es: Seq<LogEntry>)
    requires
        prev >= log.offset,
        prev - log.offset <= log.entries.len(),
    ensures
        ({
            let p = prev - log.offset;
            let after = log.appended(prev, es).entries;
            &&& log.appended(prev, es).offset == log.offset
            &&& after.len() >= p + es.len()
            &&& forall|k: int|
                0 <= k < es.len() && (p + k >= log.entries.len() || log.entries[p + k].term
                    != es[k].term) ==> #[trigger] after[p + k] == es[k]
            &&& forall|k: int|
                0 <= k < es.len() && (forall|q: int|
                    p <= q <= p + k ==> q < log.entries.len() && (#[trigger] log.entries[q]).term
                        == es[q - p].term) ==> #[trigger] after[p + k] == log.entries[p + k]
        }),
{
    lemma_merge_exact(log.entries, prev - log.offset, es);
}

/// In a well-indexed log the last index is the offset plus the number of
/// entries held, and 0 when none is held.
pub proof fn lemma_latest_index(log: RaftLogView)
    requires
        log.well_indexed(),
    ensures
        log.entries.len() > 0 ==> log.latest_index() == log.offset + log.entries.len(),
        log.entries.len() == 0 ==> log.latest_index() == 0,
{
    if log.entries.len() > 0 {
        assert(log.entries[log.entries.len() - 1].index == log.offset + 1 + (log.entries.len()
            - 1));
    }
}

/// In a well-indexed log, the entries held after `from` up to `to` (both
/// within the log) are exactly those with indexes `from + 1` to `to`, one per
/// index, in order.
pub proof fn lemma_held_between_indexes(log: RaftLogView, from: u64, to: u64)
    requires
        log.well_indexed(),
        log.offset <= from <= to,
        to <= log.offset + log.entries.len(),
    ensures
        log.held_between(from, to).len() == to - from,
        forall|k: int|
            0 <= k < to - from ==> #[trigger] log.held_between(from, to)[k].index == from + 1 + k,
        forall|i: u64| from < i <= to ==> #[trigger] log.holds(i),
{
    let h = log.held_between(from, to);
    assert forall|k: int| 0 <= k < to - from implies #[trigger] h[k].index == from + 1 + k by {
        assert(h[k] == log.entries[(from - log.offset) + k]);
    }
}

} // verus!
