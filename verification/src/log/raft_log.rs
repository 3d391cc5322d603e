use vstd::prelude::*;

verus! {

/// Kind of a log entry.
#[derive(Debug, PartialEq, Eq, Structural, PartialOrd)]
pub enum EntryType {
    /// normal log, append data
    Normal,
    /// empty log, heartbeat
    Empty,
}

impl Clone for EntryType {
    fn clone(&self) -> (res: Self)
        ensures
            res == *self,
    {
        match self {
            EntryType::Normal => EntryType::Normal,
            EntryType::Empty => EntryType::Empty,
        }
    }
}

/// One entry of the replicated log.
#[derive(Debug, PartialEq, Eq, PartialOrd)]
pub struct LogEntry {
    pub index: u64,
    pub term: u64,
    pub data: Vec<u8>,
    pub entry_type: EntryType,
}

/// What a log entry holds, with its payload as a sequence of bytes.
pub struct LogEntryView {
    pub index: u64,
    pub term: u64,
    pub data: Seq<u8>,
    pub entry_type: EntryType,
}

impl View for LogEntry {
    type V = LogEntryView;

    open spec fn view(&self) -> LogEntryView {
        LogEntryView {
            index: self.index,
            term: self.term,
            data: self.data@,
            entry_type: self.entry_type,
        }
    }
}

impl Clone for LogEntry {
    fn clone(&self) -> (res: Self)
        ensures
            res@ == self@,
    {
        LogEntry {
            index: self.index,
            term: self.term,
            data: self.data.clone(),
            entry_type: self.entry_type.clone(),
        }
    }
}

impl LogEntry {
    /// A normal entry carrying `data`.
    pub fn normal(index: u64, term: u64, data: Vec<u8>) -> (res: Self)
        ensures
            res.index == index,
            res.term == term,
            res.data == data,
            res.entry_type == EntryType::Normal,
    {
        LogEntry { index, term, data, entry_type: EntryType::Normal }
    }

    /// An empty (heartbeat) entry.
    pub fn empty(index: u64, term: u64) -> (res: Self)
        ensures
            res.index == index,
            res.term == term,
            res.data@.len() == 0,
            res.entry_type == EntryType::Empty,
    {
        LogEntry { index, term, data: Vec::new(), entry_type: EntryType::Empty }
    }

    pub fn is_empty(&self) -> (res: bool)
        ensures
            res == (self.entry_type == EntryType::Empty),
    {
        self.entry_type == EntryType::Empty
    }
}


// ============================================================
// The log as a sequence of entries
// ============================================================

/// The index of the last entry of `s`, a log whose first slot holds index
/// `first`; `first - 1` when the log is empty.
pub open spec fn last_index_of(s: Seq<LogEntry>, first: int) -> int {
    if s.len() == 0 {
        first - 1
    } else {
        s.last().index as int
    }
}

/// The term of the last entry of `s`; 0 when the log is empty.
pub open spec fn last_term_of(s: Seq<LogEntry>) -> u64 {
    if s.len() == 0 {
        0
    } else {
        s.last().term
    }
}

/// The entry in slot `index - first`, if there is such a slot.
pub open spec fn entry_at(s: Seq<LogEntry>, first: int, index: int) -> Option<LogEntry> {
    if first <= index && index - first < s.len() {
        Some(s[index - first])
    } else {
        None
    }
}

/// The term at `index`: 0 for the sentinel index 0, `None` past the log.
pub open spec fn term_at_of(s: Seq<LogEntry>, first: int, index: int) -> Option<u64> {
    if index == 0 {
        Some(0u64)
    } else {
        match entry_at(s, first, index) {
            Some(e) => Some(e.term),
            None => None,
        }
    }
}

/// The consistency check of an append: the sentinel 0 always matches,
/// any other index must hold an entry of the given term.
pub open spec fn matches_of(s: Seq<LogEntry>, first: int, prev_index: int, prev_term: u64) -> bool {
    prev_index == 0 || (entry_at(s, first, prev_index) matches Some(e) && e.term == prev_term)
}

/// The entries in slots for the closed interval `[from, to]`, cut at the end
/// of the log; empty when `from > to` or `from` lies outside the log.
pub open spec fn slice_of(s: Seq<LogEntry>, first: int, from: int, to: int) -> Seq<LogEntry> {
    if from > to || from < first || from - first >= s.len() {
        Seq::empty()
    } else {
        let end = if to - first + 1 < s.len() {
            to - first + 1
        } else {
            s.len() as int
        };
        s.subrange(from - first, end)
    }
}

/// What is left of `s` once everything from `from` on is deleted; nothing is
/// deleted when `from` lies before the first slot or past the last index.
pub open spec fn truncated_from(s: Seq<LogEntry>, first: int, from: int) -> Seq<LogEntry> {
    if from < first || from > last_index_of(s, first) {
        s
    } else {
        s.take(from - first)
    }
}

/// Deleting from `from` finds its slot within the log. This holds of every
/// log whose entries carry consecutive indices (see `is_contiguous`).
pub open spec fn truncate_in_bounds(s: Seq<LogEntry>, first: int, from: int) -> bool {
    first <= from <= last_index_of(s, first) ==> from - first <= s.len()
}

/// Every entry carries the index of its slot.
pub open spec fn is_contiguous(s: Seq<LogEntry>, first: int) -> bool {
    forall|i: int| 0 <= i < s.len() ==> #[trigger] s[i].index == first + i
}

/// Index `index` holds an entry of term `term`.
pub open spec fn has_term(s: Seq<LogEntry>, first: int, index: int, term: u64) -> bool {
    entry_at(s, first, index) matches Some(e) && e.term == term
}

/// `index + 1`, or `u64::MAX` when that does not fit.
pub open spec fn saturating_succ(index: u64) -> u64 {
    if index == u64::MAX {
        u64::MAX
    } else {
        (index + 1) as u64
    }
}

/// The index of the first of `es`, in order, whose slot in the log holds an
/// entry of another term; the search stops at the first of `es` that has no
/// slot in the log.
pub open spec fn find_conflict(s: Seq<LogEntry>, first: int, es: Seq<LogEntry>) -> Option<u64>
    decreases es.len(),
{
    if es.len() == 0 {
        None
    } else {
        match entry_at(s, first, es[0].index as int) {
            Some(local) => if local.term != es[0].term {
                Some(es[0].index)
            } else {
                find_conflict(s, first, es.skip(1))
            },
            None => None,
        }
    }
}

/// `e` is added when its index lies past the last index of `s`.
pub open spec fn push_step(s: Seq<LogEntry>, first: int, e: LogEntry) -> Seq<LogEntry> {
    if e.index > last_index_of(s, first) {
        s.push(e)
    } else {
        s
    }
}

/// `s` after each of `es`, in order, that lies past the log is added.
pub open spec fn push_new(s: Seq<LogEntry>, first: int, es: Seq<LogEntry>) -> Seq<LogEntry>
    decreases es.len(),
{
    if es.len() == 0 {
        s
    } else {
        push_step(push_new(s, first, es.drop_last()), first, es.last())
    }
}

/// Each of `es` that is added while `push_new` runs carries the index right
/// after the last one: no gap opens in the log.
pub open spec fn push_gap_free(s: Seq<LogEntry>, first: int, es: Seq<LogEntry>) -> bool
    decreases es.len(),
{
    es.len() == 0 || {
        &&& push_gap_free(s, first, es.drop_last())
        &&& es.last().index > last_index_of(push_new(s, first, es.drop_last()), first)
            ==> es.last().index == last_index_of(push_new(s, first, es.drop_last()), first) + 1
    }
}

/// The log once the entries from the first conflict with `es` on are deleted.
pub open spec fn conflict_base(s: Seq<LogEntry>, first: int, es: Seq<LogEntry>) -> Seq<LogEntry> {
    match find_conflict(s, first, es) {
        Some(c) => truncated_from(s, first, c as int),
        None => s,
    }
}

/// The log after a successful append of `es`: the conflicting suffix goes,
/// then the entries of `es` that the log does not reach yet are added.
pub open spec fn appended(s: Seq<LogEntry>, first: int, es: Seq<LogEntry>) -> Seq<LogEntry> {
    push_new(conflict_base(s, first, es), first, es)
}

/// Appending `es` opens no gap in the log.
pub open spec fn append_gap_free(s: Seq<LogEntry>, first: int, es: Seq<LogEntry>) -> bool {
    push_gap_free(conflict_base(s, first, es), first, es)
}

proof fn lemma_find_conflict_in_log(s: Seq<LogEntry>, first: int, es: Seq<LogEntry>)
    ensures
        find_conflict(s, first, es) matches Some(c) ==> entry_at(s, first, c as int) is Some,
    decreases es.len(),
{
    if es.len() > 0 {
        lemma_find_conflict_in_log(s, first, es.skip(1));
    }
}

proof fn lemma_push_new_prefix_step(s: Seq<LogEntry>, first: int, es: Seq<LogEntry>, k: int)
    requires
        0 <= k < es.len(),
    ensures
        push_new(s, first, es.take(k + 1)) == push_step(push_new(s, first, es.take(k)), first, es[k]),
        push_gap_free(s, first, es.take(k + 1)) == (push_gap_free(s, first, es.take(k)) && (es[k].index
            > last_index_of(push_new(s, first, es.take(k)), first) ==> es[k].index == last_index_of(
            push_new(s, first, es.take(k)),
            first,
        ) + 1)),
{
    assert(es.take(k + 1).drop_last() =~= es.take(k));
}

proof fn lemma_gap_free_prefix(s: Seq<LogEntry>, first: int, es: Seq<LogEntry>, k: int)
    requires
        0 <= k <= es.len(),
        push_gap_free(s, first, es),
    ensures
        push_gap_free(s, first, es.take(k)),
    decreases es.len(),
{
    if k == es.len() {
        assert(es.take(k) =~= es);
    } else {
        lemma_gap_free_prefix(s, first, es.drop_last(), k);
        assert(es.drop_last().take(k) =~= es.take(k));
    }
}

// ============================================================
// RaftLog
// ============================================================

/// The replicated log. Slot `i` of `entries` holds the entry of index
/// `offset + i`; `offset` is 1, so that index 0 is the sentinel before the
/// first entry.
#[derive(Debug)]
pub struct RaftLog {
    pub entries: Vec<LogEntry>,
    pub offset: u64,
}

impl Clone for RaftLog {
    /// A copy with the same offset and entries of the same content.
    fn clone(&self) -> (res: Self)
        ensures
            res.offset == self.offset,
            res@.len() == self@.len(),
            forall|i: int| 0 <= i < self@.len() ==> #[trigger] res@[i]@ == self@[i]@,
    {
        let mut entries: Vec<LogEntry> = Vec::new();
        let n = self.entries.len();
        let mut i: usize = 0;
        while i < n
            invariant
                0 <= i <= n == self@.len(),
                entries@.len() == i,
                forall|j: int| 0 <= j < i ==> #[trigger] entries@[j]@ == self@[j]@,
            decreases n - i,
        {
            entries.push(self.entries[i].clone());
            i = i + 1;
        }
        RaftLog { entries, offset: self.offset }
    }
}

impl Default for RaftLog {
    /// An empty log with offset 0 (unlike `new`, which starts at 1).
    fn default() -> (res: Self)
        ensures
            res@ == Seq::<LogEntry>::empty(),
            res.offset == 0,
    {
        RaftLog { entries: Vec::new(), offset: 0 }
    }
}

impl View for RaftLog {
    type V = Seq<LogEntry>;

    open spec fn view(&self) -> Seq<LogEntry> {
        self.entries@
    }
}

impl RaftLog {
    /// The index of the first slot.
    pub open spec fn first(&self) -> int {
        self.offset as int
    }

    /// The offset leaves room for the sentinel index 0.
    pub open spec fn wf(&self) -> bool {
        self.offset >= 1
    }

    pub open spec fn spec_last_index(&self) -> int {
        last_index_of(self@, self.first())
    }

    pub fn new() -> (log: Self)
        ensures
            log.wf(),
            log.offset == 1,
            log@ == Seq::<LogEntry>::empty(),
            is_contiguous(log@, log.first()),
    {
        RaftLog { entries: Vec::new(), offset: 1 }
    }

    pub fn last_index(&self) -> (res: u64)
        requires
            self.wf(),
        ensures
            res == last_index_of(self@, self.first()),
    {
        let n = self.entries.len();
        if n == 0 {
            self.offset - 1
        } else {
            self.entries[n - 1].index
        }
    }

    /// return last log term, if empty log return 0
    pub fn last_term(&self) -> (res: u64)
        ensures
            res == last_term_of(self@),
    {
        let n = self.entries.len();
        if n == 0 {
            0
        } else {
            self.entries[n - 1].term
        }
    }

    pub fn is_empty(&self) -> (res: bool)
        ensures
            res == (self@.len() == 0),
    {
        self.entries.len() == 0
    }

    pub fn len(&self) -> (res: usize)
        ensures
            res == self@.len(),
    {
        self.entries.len()
    }

    /// retrieve logs using the index
    pub fn get(&self, index: u64) -> (res: Option<&LogEntry>)
        ensures
            match res {
                Some(e) => entry_at(self@, self.first(), index as int) == Some(*e),
                None => entry_at(self@, self.first(), index as int) is None,
            },
    {
        if index < self.offset {
            return None;
        }
        let k = index - self.offset;
        if k < self.entries.len() as u64 {
            Some(&self.entries[k as usize])
        } else {
            None
        }
    }

    /// term at index: index return None if the index out of bounds
    /// the sentinel at index 0 return 0
    /// (used for the prev_log_term check)
    pub fn term_at(&self, index: u64) -> (res: Option<u64>)
        ensures
            res == term_at_of(self@, self.first(), index as int),
    {
        if index == 0 {
            return Some(0);
        }
        match self.get(index) {
            Some(e) => Some(e.term),
            None => None,
        }
    }

    /// returns the closed interval `[from, to]`
    /// returns empty if `from > to` or if the range is out of bounds
    pub fn slice(&self, from: u64, to: u64) -> (res: Vec<LogEntry>)
        ensures
            res@.len() == slice_of(self@, self.first(), from as int, to as int).len(),
            forall|i: int|
                0 <= i < res@.len() ==> #[trigger] res@[i]@ == slice_of(
                    self@,
                    self.first(),
                    from as int,
                    to as int,
                )[i]@,
    {
        if from > to || from < self.offset {
            return Vec::new();
        }
        let len = self.entries.len();
        let start64 = from - self.offset;
        if start64 >= len as u64 {
            return Vec::new();
        }
        let start = start64 as usize;
        let last_slot = to - self.offset;
        let end: usize = if last_slot < len as u64 {
            (last_slot + 1) as usize
        } else {
            len
        };
        let ghost expected = slice_of(self@, self.first(), from as int, to as int);
        let mut res: Vec<LogEntry> = Vec::new();
        let mut i = start;
        while i < end
            invariant
                start <= i <= end <= len,
                len == self@.len(),
                expected == self@.subrange(start as int, end as int),
                res@.len() == i - start,
                forall|j: int| 0 <= j < res@.len() ==> #[trigger] res@[j]@ == expected[j]@,
            decreases end - i,
        {
            res.push(self.entries[i].clone());
            i = i + 1;
        }
        res
    }

    /// Consistency check whether `prev_log_index` / `prev_log_term` match
    /// `prev_log_index == 0` always matches (sentinel)
    /// otherwise, the index must match exist locally and ther term must match
    pub fn matches(&self, prev_log_index: u64, prev_log_term: u64) -> (res: bool)
        ensures
            res == matches_of(self@, self.first(), prev_log_index as int, prev_log_term),
    {
        if prev_log_index == 0 {
            return true;
        }
        match self.get(prev_log_index) {
            Some(e) => e.term == prev_log_term,
            None => false,
        }
    }

    ///Deletes all logs starting from `from_index` (inclusive)
    /// Returns the number of deleted entries
    ///
    /// `from_index < offset` no-op
    /// `from_index` > last_index: no-op
    pub fn truncate_from(&mut self, from_index: u64) -> (removed: usize)
        requires
            old(self).wf(),
            truncate_in_bounds(old(self)@, old(self).first(), from_index as int),
        ensures
            final(self).wf(),
            final(self).offset == old(self).offset,
            final(self)@ == truncated_from(old(self)@, old(self).first(), from_index as int),
            removed == old(self)@.len() - final(self)@.len(),
    {
        if from_index < self.offset {
            return 0;
        }
        if from_index > self.last_index() {
            return 0;
        }
        let pos = (from_index - self.offset) as usize;
        let removed = self.entries.len() - pos;
        self.entries.truncate(pos);
        removed
    }

    /// retain `[offset, upto_index]`, and delete everything after it.
    /// returns the number of deleted items.
    ///
    /// equivalent to `truncate_from(upto_index+1)`
    pub fn truncate_suffix(&mut self, upto_index: u64) -> (removed: usize)
        requires
            old(self).wf(),
            truncate_in_bounds(old(self)@, old(self).first(), saturating_succ(upto_index) as int),
        ensures
            final(self).wf(),
            final(self).offset == old(self).offset,
            final(self)@ == truncated_from(
                old(self)@,
                old(self).first(),
                saturating_succ(upto_index) as int,
            ),
            removed == old(self)@.len() - final(self)@.len(),
    {
        self.truncate_from(upto_index.saturating_add(1))
    }

    /// delete single logs(by index)
    pub fn remove(&mut self, index: u64) -> (res: Option<LogEntry>)
        requires
            old(self).wf(),
            old(self).first() <= index <= old(self).spec_last_index() ==> index - old(self).first()
                < old(self)@.len(),
        ensures
            final(self).wf(),
            final(self).offset == old(self).offset,
            if index < old(self).first() || index > old(self).spec_last_index() {
                &&& res is None
                &&& final(self)@ == old(self)@
            } else {
                &&& res == Some(old(self)@[index - old(self).first()])
                &&& final(self)@ == old(self)@.remove(index - old(self).first())
            },
    {
        if index < self.offset || index > self.last_index() {
            return None;
        }
        let len = self.entries.len();
        let pos = index - self.offset;
        assert(pos < len);
        Some(self.entries.remove(pos as usize))
    }

    /// Whether `append(prev_log_index, prev_log_term, entries)` would reach an
    /// entry that leaves a gap after the last index (which `append` rejects
    /// by its precondition).
    pub fn append_leaves_gap(&self, prev_log_index: u64, prev_log_term: u64, entries: &Vec<LogEntry>) -> (res:
        bool)
        requires
            self.wf(),
        ensures
            res == (matches_of(self@, self.first(), prev_log_index as int, prev_log_term)
                && !append_gap_free(self@, self.first(), entries@)),
    {
        if !self.matches(prev_log_index, prev_log_term) {
            return false;
        }
        let ghost first = self.first();
        let ghost es = entries@;
        let ghost base = conflict_base(self@, first, es);
        let len = self.entries.len();
        let mut last = self.last_index();
        if let Some(c) = self.find_conflict(entries) {
            proof {
                lemma_find_conflict_in_log(self@, first, es);
            }
            if c <= last {
                let pos = (c - self.offset) as usize;
                last = if pos == 0 {
                    self.offset - 1
                } else {
                    self.entries[pos - 1].index
                };
                proof {
                    let t = self@.take(pos as int);
                    if pos > 0 {
                        assert(t.last() == self@[pos - 1]);
                    }
                }
            }
        }
        assert(last == last_index_of(base, first));
        assert(es.take(0) =~= Seq::<LogEntry>::empty());
        let n = entries.len();
        let mut k: usize = 0;
        while k < n
            invariant
                0 <= k <= n == es.len(),
                es == entries@,
                first == self.first(),
                base == conflict_base(self@, first, es),
                matches_of(self@, first, prev_log_index as int, prev_log_term),
                last == last_index_of(push_new(base, first, es.take(k as int)), first),
                push_gap_free(base, first, es.take(k as int)),
            decreases n - k,
        {
            proof {
                lemma_push_new_prefix_step(base, first, es, k as int);
                let cur = push_new(base, first, es.take(k as int));
                let next = cur.push(es[k as int]);
                assert(next.last() == es[k as int]);
            }
            let idx = entries[k].index;
            if idx > last {
                if idx != last + 1 {
                    proof {
                        assert(!push_gap_free(base, first, es.take(k + 1)));
                        if push_gap_free(base, first, es) {
                            lemma_gap_free_prefix(base, first, es, k + 1);
                        }

                    }
                    return true;
                }
                last = idx;
            }
            k = k + 1;
        }
        assert(es.take(n as int) =~= es);
        false
    }

    /// The position in `entries` of the first conflict, as `find_conflict`.
    fn find_conflict(&self, entries: &Vec<LogEntry>) -> (res: Option<u64>)
        ensures
            res == find_conflict(self@, self.first(), entries@),
    {
        let n = entries.len();
        let mut i: usize = 0;
        assert(entries@.skip(0) =~= entries@);
        while i < n
            invariant
                0 <= i <= n == entries@.len(),
                find_conflict(self@, self.first(), entries@) == find_conflict(
                    self@,
                    self.first(),
                    entries@.skip(i as int),
                ),
            decreases n - i,
        {
            let e = &entries[i];
            assert(entries@.skip(i as int)[0] == entries@[i as int]);
            assert(entries@.skip(i as int).skip(1) =~= entries@.skip(i + 1));
            match self.get(e.index) {
                Some(local) => {
                    if local.term != e.term {
                        return Some(e.index);
                    }
                },
                None => {
                    return None;
                },
            }
            i = i + 1;
        }
        assert(entries@.skip(n as int).len() == 0);
        None
    }

    /// append/overwrite log entries
    ///
    /// steps:
    /// 1. consistency check (`prev_log_index / prev_log_term`);
    /// return false and leave state unchanged if it fails
    ///
    /// 2. find the fist point if conflict(local entry has the same index but a different term)
    /// and truncate starting from that point
    ///
    /// 3. append entries not present locally(idempotent)
    ///
    /// return `true` to indicate a successful write
    pub fn append(&mut self, prev_log_index: u64, prev_log_term: u64, entries: Vec<LogEntry>) -> (ok:
        bool)
        requires
            old(self).wf() || !matches_of(
                old(self)@,
                old(self).first(),
                prev_log_index as int,
                prev_log_term,
            ) || entries@.len() == 0,
            matches_of(old(self)@, old(self).first(), prev_log_index as int, prev_log_term)
                ==> append_gap_free(old(self)@, old(self).first(), entries@),
        ensures
            final(self).wf() == old(self).wf(),
            final(self).offset == old(self).offset,
            ok == matches_of(old(self)@, old(self).first(), prev_log_index as int, prev_log_term),
            ok ==> final(self)@ == appended(old(self)@, old(self).first(), entries@),
            !ok ==> final(self)@ == old(self)@,
    {
        if !self.matches(prev_log_index, prev_log_term) {
            return false;
        }
        let ghost first = self.first();
        let ghost es = entries@;
        let ghost base = conflict_base(self@, first, es);

        // 1. find the first point of conflict
        let conflict_at = self.find_conflict(&entries);
        if let Some(idx) = conflict_at {
            proof {
                lemma_find_conflict_in_log(self@, first, es);
            }
            self.truncate_from(idx);
        }
        assert(self@ == base);
        assert(es.take(0) =~= Seq::<LogEntry>::empty());

        for entry in it: entries
            invariant
                es.len() > 0 ==> self.wf(),
                self.first() == first,
                it.seq() == es,
                push_gap_free(base, first, es),
                self@ == push_new(base, first, es.take(it.index() as int)),
        {
            proof {
                lemma_push_new_prefix_step(base, first, es, it.index() as int);
                lemma_gap_free_prefix(base, first, es, it.index() + 1);
            }
            if entry.index > self.last_index() {
                assert(entry.index == self.spec_last_index() + 1);
                self.entries.push(entry);
            }
        }
        assert(es.take(es.len() as int) =~= es);
        true
    }
}

// ============================================================
// Laws of the log
// ============================================================

/// `es` carries the consecutive indices `start`, `start + 1`, ...
pub open spec fn consecutive_from(es: Seq<LogEntry>, start: int) -> bool {
    forall|j: int| 0 <= j < es.len() ==> #[trigger] es[j].index == start + j
}

/// The number of leading entries of `es` that the log already holds with the
/// same term.
pub open spec fn agree_len(s: Seq<LogEntry>, first: int, es: Seq<LogEntry>) -> nat
    decreases es.len(),
{
    if es.len() == 0 {
        0
    } else {
        match entry_at(s, first, es[0].index as int) {
            Some(local) => if local.term == es[0].term {
                1 + agree_len(s, first, es.skip(1))
            } else {
                0
            },
            None => 0,
        }
    }
}

proof fn lemma_agree_len(s: Seq<LogEntry>, first: int, es: Seq<LogEntry>)
    ensures
        agree_len(s, first, es) <= es.len(),
        forall|j: int|
            0 <= j < agree_len(s, first, es) ==> has_term(s, first, #[trigger] es[j].index as int, es[j].term),
        find_conflict(s, first, es) == if agree_len(s, first, es) < es.len() && entry_at(
            s,
            first,
            es[agree_len(s, first, es) as int].index as int,
        ) is Some {
            Some(es[agree_len(s, first, es) as int].index)
        } else {
            None::<u64>
        },
    decreases es.len(),
{
    if es.len() > 0 {
        let rest = es.skip(1);
        lemma_agree_len(s, first, rest);
        assert forall|j: int| 0 <= j < agree_len(s, first, es) implies has_term(
            s,
            first,
            #[trigger] es[j].index as int,
            es[j].term,
        ) by {
            if j > 0 {
                assert(es[j] == rest[j - 1]);
            }
        }
        if 0 < agree_len(s, first, es) < es.len() {
            assert(es[agree_len(s, first, es) as int] == rest[agree_len(s, first, rest) as int]);
        }
    }
}

/// In a log whose entries carry consecutive indices, index `i` has an entry
/// exactly when it lies between the first slot and the last index, and that
/// entry carries index `i`.
pub proof fn lemma_contiguous_entry_at(s: Seq<LogEntry>, first: int, i: int)
    requires
        is_contiguous(s, first),
    ensures
        s.len() > 0 ==> last_index_of(s, first) == first + s.len() - 1,
        (entry_at(s, first, i) is Some) == (first <= i <= last_index_of(s, first)),
        entry_at(s, first, i) matches Some(e) ==> e.index == i,
        truncate_in_bounds(s, first, i),
{
    if s.len() > 0 {
        assert(s.last() == s[s.len() - 1]);
    }
}

/// Adding consecutive entries from `q` on to a contiguous log whose last index
/// is at least `q - 1` opens no gap, keeps the log contiguous, keeps what it
/// held, and leaves each added index holding its new entry.
proof fn lemma_push_consecutive(base: Seq<LogEntry>, first: int, es: Seq<LogEntry>, q: int)
    requires
        is_contiguous(base, first),
        first <= q <= last_index_of(base, first) + 1,
        consecutive_from(es, q),
    ensures
        push_gap_free(base, first, es),
        is_contiguous(push_new(base, first, es), first),
        last_index_of(push_new(base, first, es), first) == if last_index_of(base, first) >= q
            + es.len() - 1 {
            last_index_of(base, first)
        } else {
            q + es.len() - 1
        },
        push_new(base, first, es).len() >= base.len(),
        push_new(base, first, es).take(base.len() as int) == base,
        forall|j: int|
            0 <= j < es.len() && q + j > last_index_of(base, first) ==> #[trigger] entry_at(
                push_new(base, first, es),
                first,
                q + j,
            ) == Some(es[j]),
    decreases es.len(),
{
    let l0 = last_index_of(base, first);
    if base.len() > 0 {
        assert(base.last() == base[base.len() - 1]);
    }
    if es.len() == 0 {
        assert(base.take(base.len() as int) =~= base);
    } else {
        let init = es.drop_last();
        lemma_push_consecutive(base, first, init, q);
        let cur = push_new(base, first, init);
        let n = es.len();
        let e = es.last();
        assert(e == es[n - 1]);
        if cur.len() > 0 {
            assert(cur.last() == cur[cur.len() - 1]);
        }
        if e.index > last_index_of(cur, first) {
            let next = cur.push(e);
            assert(next.take(base.len() as int) =~= cur.take(base.len() as int));
            assert forall|j: int|
                0 <= j < es.len() && q + j > l0 implies #[trigger] entry_at(next, first, q + j)
                == Some(es[j]) by {
                if j < n - 1 {
                    assert(init[j] == es[j]);
                    assert(entry_at(cur, first, q + j) == Some(init[j]));
                }
            }
        } else {
            assert forall|j: int|
                0 <= j < es.len() && q + j > l0 implies #[trigger] entry_at(cur, first, q + j)
                == Some(es[j]) by {
                if j < n - 1 {
                    assert(init[j] == es[j]);
                }
            }
        }
    }
}

proof fn lemma_take_contiguous(s: Seq<LogEntry>, first: int, k: int)
    requires
        is_contiguous(s, first),
        0 <= k <= s.len(),
    ensures
        is_contiguous(s.take(k), first),
{
    assert forall|i: int| 0 <= i < s.take(k).len() implies #[trigger] s.take(k)[i].index == first
        + i by {
        assert(s.take(k)[i] == s[i]);
    }
}

/// Truncation keeps the entries of a log on consecutive indices.
pub proof fn lemma_truncate_keeps_contiguous(s: Seq<LogEntry>, first: int, from: int)
    requires
        is_contiguous(s, first),
    ensures
        is_contiguous(truncated_from(s, first, from), first),
{
    lemma_contiguous_entry_at(s, first, from);
    if !(from < first || from > last_index_of(s, first)) {
        lemma_take_contiguous(s, first, from - first);
    }
}

/// The central law of `append`. On a contiguous log that holds
/// `prev_log_index` (or on the sentinel 0), appending entries that carry the
/// indices `prev_log_index + 1, prev_log_index + 2, ...` opens no gap and
/// keeps the log contiguous; afterwards the log still matches at
/// `prev_log_index`, holds every index up to `prev_log_index` as before, and
/// holds each given index with the given term; an index that the log did not
/// reach before holds the given entry itself.
pub proof fn lemma_append_consecutive(
    s: Seq<LogEntry>,
    first: int,
    prev_log_index: int,
    prev_log_term: u64,
    es: Seq<LogEntry>,
)
    requires
        1 <= first <= prev_log_index + 1,
        is_contiguous(s, first),
        matches_of(s, first, prev_log_index, prev_log_term),
        consecutive_from(es, prev_log_index + 1),
    ensures
        append_gap_free(s, first, es),
        is_contiguous(appended(s, first, es), first),
        matches_of(appended(s, first, es), first, prev_log_index, prev_log_term),
        last_index_of(appended(s, first, es), first) == if find_conflict(s, first, es) is Some
            || last_index_of(s, first) < prev_log_index + es.len() {
            prev_log_index + es.len()
        } else {
            last_index_of(s, first)
        },
        forall|i: int|
            i <= prev_log_index ==> #[trigger] entry_at(appended(s, first, es), first, i)
                == entry_at(s, first, i),
        forall|j: int|
            0 <= j < es.len() ==> has_term(
                appended(s, first, es),
                first,
                #[trigger] es[j].index as int,
                es[j].term,
            ),
        forall|j: int|
            0 <= j < es.len() && es[j].index > last_index_of(s, first) ==> #[trigger] entry_at(
                appended(s, first, es),
                first,
                es[j].index as int,
            ) == Some(es[j]),
{
    let p = prev_log_index;
    let q = p + 1;
    let last = last_index_of(s, first);
    lemma_agree_len(s, first, es);
    let m = agree_len(s, first, es) as int;
    lemma_contiguous_entry_at(s, first, p);
    // the sentinel case: the log starts at index 1
    assert(p <= last);
    // an index of `es` has a slot exactly when it is at most `last`
    assert forall|j: int| 0 <= j < es.len() implies (#[trigger] entry_at(
        s,
        first,
        es[j].index as int,
    ) is Some) == (es[j].index <= last) by {
        lemma_contiguous_entry_at(s, first, es[j].index as int);
    }
    let base = conflict_base(s, first, es);
    // what the conflict search leaves behind
    if m < es.len() && entry_at(s, first, es[m].index as int) is Some {
        let c = es[m].index as int;
        lemma_contiguous_entry_at(s, first, c);
        assert(base == s.take(c - first));
        lemma_take_contiguous(s, first, c - first);
    } else {
        assert(base == s);
        if m < es.len() {
            if m > 0 {
                assert(es[m - 1].index <= last);
            }
        }
    }
    lemma_contiguous_entry_at(base, first, p);
    let lb = last_index_of(base, first);
    if base.len() > 0 {
        assert(base.last() == base[base.len() - 1]);
    }
    assert(lb >= p + m);
    assert(lb > p + m ==> m == es.len());
    assert(lb <= last);
    // entries of `base` are those of `s`
    assert forall|i: int| i <= lb implies #[trigger] entry_at(base, first, i) == entry_at(
        s,
        first,
        i,
    ) by {}
    lemma_push_consecutive(base, first, es, q);
    let r = appended(s, first, es);
    assert(r == push_new(base, first, es));
    assert forall|i: int| i <= lb implies #[trigger] entry_at(r, first, i) == entry_at(
        base,
        first,
        i,
    ) by {
        if first <= i && i - first < base.len() {
            assert(r.take(base.len() as int)[i - first] == r[i - first]);
        }
    }
    assert forall|j: int| 0 <= j < es.len() implies has_term(
        r,
        first,
        #[trigger] es[j].index as int,
        es[j].term,
    ) by {
        if q + j > lb {
            assert(entry_at(r, first, q + j) == Some(es[j]));
        } else {
            assert(j < m);
            assert(entry_at(r, first, es[j].index as int) == entry_at(s, first, es[j].index as int));
        }
    }
    assert forall|j: int| 0 <= j < es.len() && es[j].index > last implies #[trigger] entry_at(
        r,
        first,
        es[j].index as int,
    ) == Some(es[j]) by {
        assert(entry_at(r, first, q + j) == Some(es[j]));
    }
    assert forall|i: int| i <= p implies #[trigger] entry_at(r, first, i) == entry_at(s, first, i) by {
        assert(entry_at(r, first, i) == entry_at(base, first, i));
    }
}

proof fn lemma_agree_all(s: Seq<LogEntry>, first: int, es: Seq<LogEntry>)
    requires
        forall|j: int| 0 <= j < es.len() ==> has_term(s, first, #[trigger] es[j].index as int, es[j].term),
    ensures
        agree_len(s, first, es) == es.len(),
        find_conflict(s, first, es) is None,
    decreases es.len(),
{
    if es.len() > 0 {
        let rest = es.skip(1);
        assert forall|j: int| 0 <= j < rest.len() implies has_term(
            s,
            first,
            #[trigger] rest[j].index as int,
            rest[j].term,
        ) by {
            assert(rest[j] == es[j + 1]);
        }
        lemma_agree_all(s, first, rest);
        assert(has_term(s, first, es[0].index as int, es[0].term));
    }
}

/// Appending the same consecutive entries twice leaves the log as the first
/// append left it: `append` is idempotent.
pub proof fn lemma_append_idempotent(
    s: Seq<LogEntry>,
    first: int,
    prev_log_index: int,
    prev_log_term: u64,
    es: Seq<LogEntry>,
)
    requires
        1 <= first <= prev_log_index + 1,
        is_contiguous(s, first),
        matches_of(s, first, prev_log_index, prev_log_term),
        consecutive_from(es, prev_log_index + 1),
    ensures
        matches_of(appended(s, first, es), first, prev_log_index, prev_log_term),
        append_gap_free(appended(s, first, es), first, es),
        appended(appended(s, first, es), first, es) == appended(s, first, es),
{
    lemma_append_consecutive(s, first, prev_log_index, prev_log_term, es);
    let r = appended(s, first, es);
    lemma_append_consecutive(r, first, prev_log_index, prev_log_term, es);
    lemma_agree_all(r, first, es);
    assert(conflict_base(r, first, es) == r);
    lemma_push_consecutive(r, first, es, prev_log_index + 1);
    let r2 = push_new(r, first, es);
    if r.len() > 0 {
        assert(r.last() == r[r.len() - 1]);
    }
    if r2.len() > 0 {
        assert(r2.last() == r2[r2.len() - 1]);
    }
    assert(r2.len() == r.len());
    assert(r2 =~= r2.take(r.len() as int));
}

/// On a contiguous log, `slice(from, to)` holds the entries of the indices
/// `from, from + 1, ...` up to `to` or the last index, whichever is smaller.
pub proof fn lemma_slice_contiguous(s: Seq<LogEntry>, first: int, from: int, to: int)
    requires
        is_contiguous(s, first),
        first <= from <= to,
        from <= last_index_of(s, first),
    ensures
        consecutive_from(slice_of(s, first, from, to), from),
        slice_of(s, first, from, to).len() == (if to <= last_index_of(s, first) {
            to
        } else {
            last_index_of(s, first)
        }) - from + 1,
        forall|j: int|
            0 <= j < slice_of(s, first, from, to).len() ==> entry_at(s, first, from + j) == Some(
                #[trigger] slice_of(s, first, from, to)[j],
            ),
{
    lemma_contiguous_entry_at(s, first, from);
    let sl = slice_of(s, first, from, to);
    assert forall|j: int| 0 <= j < sl.len() implies #[trigger] sl[j].index == from + j by {
        assert(sl[j] == s[from - first + j]);
    }
}

proof fn lemma_push_keeps_contiguous(s: Seq<LogEntry>, first: int, es: Seq<LogEntry>)
    requires
        is_contiguous(s, first),
        push_gap_free(s, first, es),
    ensures
        is_contiguous(push_new(s, first, es), first),
    decreases es.len(),
{
    if es.len() > 0 {
        lemma_push_keeps_contiguous(s, first, es.drop_last());
        let cur = push_new(s, first, es.drop_last());
        if cur.len() > 0 {
            assert(cur.last() == cur[cur.len() - 1]);
        }
    }
}

/// Every append that opens no gap keeps the entries of a log on consecutive
/// indices, whatever entries it is given.
pub proof fn lemma_append_keeps_contiguous(s: Seq<LogEntry>, first: int, es: Seq<LogEntry>)
    requires
        is_contiguous(s, first),
        append_gap_free(s, first, es),
    ensures
        is_contiguous(appended(s, first, es), first),
{
    match find_conflict(s, first, es) {
        Some(c) => lemma_truncate_keeps_contiguous(s, first, c as int),
        None => {},
    }
    lemma_push_keeps_contiguous(conflict_base(s, first, es), first, es);
}

} // verus!
