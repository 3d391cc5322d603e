use vstd::prelude::*;

verus! {

/// An entry of the simple log: its term, its index and the command it carries.
#[derive(Clone, Debug, PartialEq, PartialOrd)]
pub struct Entry {
    pub term: u64,
    pub index: u64,
    pub command: Vec<u8>,
}

impl Entry {
    pub fn new(term: u64, index: u64, command: Vec<u8>) -> (res: Self)
        ensures
            res == (Entry { term, index, command }),
    {
        Entry { term, index, command }
    }
}

/// The entry of index `index` in `s`, whose first slot holds index `first`;
/// index 0 never holds an entry.
pub open spec fn entry_of(s: Seq<Entry>, first: int, index: int) -> Option<Entry> {
    if index == 0 || index < first || index - first >= s.len() {
        None
    } else {
        Some(s[index - first])
    }
}

/// Every entry carries the index of its slot.
pub open spec fn indexed_from(s: Seq<Entry>, first: int) -> bool {
    forall|i: int| 0 <= i < s.len() ==> #[trigger] s[i].index == first + i
}

//use the offset to set index start at 1
/// A log whose slot `i` holds the entry of index `offset + i`.
#[derive(Debug)]
pub struct RaftLog {
    entries: Vec<Entry>,
    offset: u64,
}

impl View for RaftLog {
    type V = Seq<Entry>;

    closed spec fn view(&self) -> Seq<Entry> {
        self.entries@
    }
}

impl RaftLog {
    /// The index of the first slot.
    pub closed spec fn first(&self) -> int {
        self.offset as int
    }

    pub fn new() -> (log: Self)
        ensures
            log@ == Seq::<Entry>::empty(),
            log.first() == 1,
    {
        RaftLog { entries: Vec::new(), offset: 1 }
    }

    pub fn get_entry(&self, index: u64) -> (res: Option<&Entry>)
        ensures
            match res {
                Some(e) => entry_of(self@, self.first(), index as int) == Some(*e),
                None => entry_of(self@, self.first(), index as int) is None,
            },
    {
        if index == 0 {
            return None;
        }
        if index < self.offset {
            return None;
        }
        let k = index - self.offset;
        if k < self.entries.len() as u64 {
            Some(&self.entries[k as usize])
        } else {
            None
        }
    }

    /// Appends `entries` at the end, numbering them from the next free index
    /// on (whatever index they carried).
    pub fn append(&mut self, entries: Vec<Entry>)
        requires
            old(self).first() + old(self)@.len() <= u64::MAX,
            entries@.len() > 0 ==> old(self).first() + old(self)@.len() + entries@.len() - 1
                <= u64::MAX,
        ensures
            final(self).first() == old(self).first(),
            final(self)@.len() == old(self)@.len() + entries@.len(),
            final(self)@.take(old(self)@.len() as int) == old(self)@,
            forall|j: int|
                0 <= j < entries@.len() ==> #[trigger] final(self)@[old(self)@.len() + j] == (Entry {
                    index: (old(self).first() + old(self)@.len() + j) as u64,
                    ..entries@[j]
                }),
    {
        let mut entries = entries;
        let start = self.offset + self.entries.len() as u64;
        let n = entries.len();
        let ghost given = entries@;
        let mut i: usize = 0;
        while i < n
            invariant
                0 <= i <= n == entries@.len() == given.len(),
                n > 0 ==> start + n - 1 <= u64::MAX,
                forall|j: int|
                    0 <= j < i ==> #[trigger] entries@[j] == (Entry { index: (start + j) as u64, ..given[j] }),
                forall|j: int| i <= j < n ==> #[trigger] entries@[j] == given[j],
            decreases n - i,
        {
            entries[i].index = start + i as u64;
            i = i + 1;
        }
        let ghost before = self.entries@;
        self.entries.append(&mut entries);
        assert(self.entries@.take(before.len() as int) =~= before);
    }

    /// Keeps the entries up to and including `up_to` and deletes the rest;
    /// everything goes when `up_to` lies before the first slot.
    pub fn truncate(&mut self, up_to: u64)
        requires
            old(self).first() >= 1,
        ensures
            final(self).first() == old(self).first(),
            final(self)@ == if up_to < old(self).first() {
                Seq::<Entry>::empty()
            } else if up_to - old(self).first() + 1 < old(self)@.len() {
                old(self)@.take(up_to - old(self).first() + 1)
            } else {
                old(self)@
            },
    {
        if up_to < self.offset {
            self.entries.clear();
            return;
        }
        let pos = up_to - self.offset + 1;
        if pos < self.entries.len() as u64 {
            self.entries.truncate(pos as usize);
        }
    }

    pub fn get_last_entry(&self) -> (res: Option<&Entry>)
        ensures
            match res {
                Some(e) => entry_of(self@, self.first(), self@.len() as int) == Some(*e),
                None => entry_of(self@, self.first(), self@.len() as int) is None,
            },
    {
        self.get_entry(self.entries.len() as u64)
    }
}

/// Appending numbers the new entries on from the end of the log: a log whose
/// entries carry the indices of their slots keeps doing so.
pub proof fn lemma_append_keeps_indexed(
    before: Seq<Entry>,
    after: Seq<Entry>,
    first: int,
    given: Seq<Entry>,
)
    requires
        indexed_from(before, first),
        after.len() == before.len() + given.len(),
        after.take(before.len() as int) == before,
        forall|j: int|
            0 <= j < given.len() ==> #[trigger] after[before.len() + j] == (Entry {
                index: (first + before.len() + j) as u64,
                ..given[j]
            }),
        first >= 1,
        first + after.len() <= u64::MAX + 1,
    ensures
        indexed_from(after, first),
{
    assert forall|i: int| 0 <= i < after.len() implies #[trigger] after[i].index == first + i by {
        if i < before.len() {
            assert(after.take(before.len() as int)[i] == after[i]);
        } else {
            assert(after[before.len() + (i - before.len())] == after[i]);
        }
    }
}

/// Truncation keeps a prefix, so entries keep the indices of their slots.
pub proof fn lemma_truncate_keeps_indexed(s: Seq<Entry>, first: int, keep: int)
    requires
        indexed_from(s, first),
        0 <= keep <= s.len(),
    ensures
        indexed_from(s.take(keep), first),
        indexed_from(Seq::<Entry>::empty(), first),
{
    assert forall|i: int| 0 <= i < s.take(keep).len() implies #[trigger] s.take(keep)[i].index == first
        + i by {
        assert(s.take(keep)[i] == s[i]);
    }
}

/// In a log that starts at index 1 and whose entries carry the indices of
/// their slots, `get_last_entry` finds the entry of the last index.
pub proof fn lemma_last_entry(s: Seq<Entry>)
    requires
        indexed_from(s, 1),
        s.len() > 0,
    ensures
        entry_of(s, 1, s.len() as int) == Some(s.last()),
        s.last().index == s.len(),
{
}

} // verus!
