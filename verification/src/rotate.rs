//! The rotating entry writer: packs records into page-sized entries,
//! persists the entry under the circular cursor after every append, and
//! hands the accumulated entries out when its buffer fills.

use vstd::prelude::*;
use crate::pagefile::WalFile;
use crate::record::{
    spec_entry_size, spec_record_size, LogEntry, LogRecord, RecordV, WAL_ENTRY_CAPACITY,
};
use crate::Error;

verus! {

/// Entries after a record is packed: into the last entry while it has
/// room, else into a fresh entry.
pub open spec fn spec_rotate_append(entries: Seq<Seq<RecordV>>, r: RecordV) -> Seq<Seq<RecordV>> {
    if entries.len() > 0 && spec_entry_size(entries.last()) + spec_record_size(r)
        <= WAL_ENTRY_CAPACITY {
        entries.update(entries.len() - 1, entries.last().push(r))
    } else {
        entries.push(seq![r])
    }
}

/// The cursor after a record is packed: it advances, circularly, exactly
/// when a fresh entry is begun.
pub open spec fn spec_rotate_cursor(
    entries: Seq<Seq<RecordV>>,
    r: RecordV,
    cursor: usize,
    max_file_size: usize,
) -> int {
    if entries.len() > 0 && spec_entry_size(entries.last()) + spec_record_size(r)
        <= WAL_ENTRY_CAPACITY {
        cursor as int
    } else {
        ((cursor + 1) as int) % (max_file_size as int)
    }
}

/// The rotating writer.
pub struct RotateWriter {
    max_buffer_size: usize,
    entries: Vec<LogEntry>,
    cursor: usize,
    disk: WalFile,
    max_file_size: usize,
}

impl RotateWriter {
    /// The packed entries not yet handed out.
    pub closed spec fn entries_view(self) -> Seq<Seq<RecordV>> {
        self.entries@.map_values(|e: LogEntry| e@)
    }

    /// The log file as this writer has left it.
    pub closed spec fn disk_view(self) -> Seq<Option<Seq<RecordV>>> {
        self.disk@
    }

    pub closed spec fn cursor_pos(self) -> usize {
        self.cursor
    }

    pub closed spec fn file_capacity(self) -> usize {
        self.max_file_size
    }

    pub closed spec fn buffer_capacity(self) -> usize {
        self.max_buffer_size
    }

    /// The cursor stays within the circular file and every held entry
    /// respects the page capacity.
    pub closed spec fn wf(self) -> bool {
        &&& self.max_file_size >= 1
        &&& self.max_buffer_size >= 1
        &&& self.cursor < self.max_file_size
        &&& forall|i: int| 0 <= i < self.entries@.len() ==> (#[trigger] self.entries@[i]).wf()
    }

    /// Opens a writer over a log file.
    pub fn open(max_buffer_size: usize, max_file_size: usize, disk: WalFile) -> (r: RotateWriter)
        requires
            max_buffer_size >= 1,
            max_file_size >= 1,
        ensures
            r.wf(),
            r.entries_view() =~= Seq::<Seq<RecordV>>::empty(),
            r.cursor_pos() == 0,
            r.disk_view() == disk@,
            r.file_capacity() == max_file_size,
            r.buffer_capacity() == max_buffer_size,
    {
        let r = RotateWriter {
            max_buffer_size,
            entries: Vec::new(),
            cursor: 0,
            disk,
            max_file_size,
        };
        proof {
            assert(r.entries_view() =~= Seq::<Seq<RecordV>>::empty());
        }
        r
    }

    /// Packs a record, persists the entry it landed in at the cursor, and
    /// hands the buffered entries out when the buffer is full.
    pub fn append(&mut self, record: LogRecord) -> (r: Result<Option<Vec<LogEntry>>, Error>)
        requires
            old(self).wf(),
        ensures
            final(self).wf(),
            final(self).file_capacity() == old(self).file_capacity(),
            final(self).buffer_capacity() == old(self).buffer_capacity(),
            final(self).cursor_pos() == spec_rotate_cursor(
                old(self).entries_view(),
                record@,
                old(self).cursor_pos(),
                old(self).file_capacity(),
            ),
            final(self).cursor_pos() < final(self).file_capacity(),
            ({
                let es = spec_rotate_append(old(self).entries_view(), record@);
                let cur = final(self).cursor_pos();
                &&& final(self).disk_view()[cur as int] == Some(es.last())
                &&& cur < final(self).disk_view().len()
                &&& forall|j: int|
                    0 <= j < old(self).disk_view().len() && j != cur
                        ==> final(self).disk_view()[j] == old(self).disk_view()[j]
                &&& (final(self).disk_view().len() <= old(self).disk_view().len() || final(self).disk_view().len() <= old(self).file_capacity())
                &&& match r {
                    Ok(Some(out)) => es.len() >= old(self).buffer_capacity()
                        && final(self).entries_view() =~= Seq::<Seq<RecordV>>::empty()
                        && out@.map_values(|e: LogEntry| e@) == es,
                    Ok(None) => es.len() < old(self).buffer_capacity()
                        && final(self).entries_view() == es,
                    Err(_) => false,
                }
            }),
    {
        let ghost rv = record@;
        let ghost es0 = self.entries_view();
        let fits = if self.entries.len() > 0 {
            let last = &self.entries[self.entries.len() - 1];
            last.is_available(&record)
        } else {
            false
        };
        let mut current: LogEntry;
        if fits {
            current = self.entries.pop().unwrap();
        } else {
            self.cursor = (self.cursor + 1) % self.max_file_size;
            current = LogEntry::new();
            proof {
                crate::record::lemma_record_fits(rv);
            }
        }
        let ghost c0 = current@;
        current.append(record);
        self.disk.write(self.cursor, current.copy());
        self.entries.push(current);
        proof {
            let es = spec_rotate_append(es0, rv);
            if fits {
                assert(es0.last() == c0);
                assert(self.entries_view() =~= es0.update(es0.len() - 1, c0.push(rv)));
            } else {
                assert(self.entries_view() =~= es0.push(seq![rv]));
                assert(c0.push(rv) =~= seq![rv]);
            }
            assert(self.entries_view() == es);
            assert(es.last() == c0.push(rv));
        }
        if self.entries.len() < self.max_buffer_size {
            return Ok(None);
        }
        let mut out: Vec<LogEntry> = Vec::new();
        let ghost full = self.entries_view();
        let ghost cur1 = self.cursor;
        let ghost d1 = self.disk@;
        let n0 = self.entries.len();
        let mut n: usize = 0;
        while self.entries.len() > 0
            invariant
                self.entries@.map_values(|e: LogEntry| e@) =~= full.skip(n as int),
                n + self.entries@.len() == n0,
                n0 == full.len(),
                out@.map_values(|e: LogEntry| e@) =~= full.take(n as int),
                self.cursor == cur1,
                self.disk@ == d1,
                self.max_file_size == old(self).file_capacity(),
                self.max_buffer_size == old(self).buffer_capacity(),
                self.cursor < self.max_file_size,
                self.max_buffer_size >= 1,
            decreases self.entries@.len(),
        {
            let ghost eb = self.entries@.map_values(|e: LogEntry| e@);
            let ghost ob = out@.map_values(|e: LogEntry| e@);
            let e = self.entries.remove(0);
            out.push(e);
            proof {
                assert(self.entries@.map_values(|e: LogEntry| e@) =~= eb.skip(1));
                assert(full.skip(n as int).skip(1) =~= full.skip(n as int + 1));
                assert(out@.map_values(|e: LogEntry| e@) =~= ob.push(eb[0]));
                assert(full.take(n as int).push(full[n as int]) =~= full.take(n as int + 1));
            }
            n = n + 1;
        }
        proof {
            assert(full.take(n0 as int) =~= full);
            assert(self.entries_view() =~= Seq::<Seq<RecordV>>::empty());
        }
        Ok(Some(out))
    }

    /// Hands out the buffered entries without packing anything.
    pub fn drain_buffer(&mut self) -> (r: Vec<LogEntry>)
        requires
            old(self).wf(),
        ensures
            final(self).wf(),
            r@.map_values(|e: LogEntry| e@) == old(self).entries_view(),
            final(self).entries_view() =~= Seq::<Seq<RecordV>>::empty(),
            final(self).cursor_pos() == old(self).cursor_pos(),
            final(self).disk_view() == old(self).disk_view(),
            final(self).file_capacity() == old(self).file_capacity(),
            final(self).buffer_capacity() == old(self).buffer_capacity(),
    {
        let mut out: Vec<LogEntry> = Vec::new();
        let ghost full = self.entries_view();
        let n0 = self.entries.len();
        let mut n: usize = 0;
        while self.entries.len() > 0
            invariant
                self.entries@.map_values(|e: LogEntry| e@) =~= full.skip(n as int),
                n + self.entries@.len() == n0,
                n0 == full.len(),
                out@.map_values(|e: LogEntry| e@) =~= full.take(n as int),
                self.cursor == old(self).cursor_pos(),
                self.disk@ == old(self).disk_view(),
                self.max_file_size == old(self).file_capacity(),
                self.max_buffer_size == old(self).buffer_capacity(),
                self.cursor < self.max_file_size,
                self.max_buffer_size >= 1,
            decreases self.entries@.len(),
        {
            let ghost eb = self.entries@.map_values(|e: LogEntry| e@);
            let ghost ob = out@.map_values(|e: LogEntry| e@);
            let e = self.entries.remove(0);
            out.push(e);
            proof {
                assert(self.entries@.map_values(|e: LogEntry| e@) =~= eb.skip(1));
                assert(full.skip(n as int).skip(1) =~= full.skip(n as int + 1));
                assert(out@.map_values(|e: LogEntry| e@) =~= ob.push(eb[0]));
                assert(full.take(n as int).push(full[n as int]) =~= full.take(n as int + 1));
            }
            n = n + 1;
        }
        proof {
            assert(full.take(n0 as int) =~= full);
            assert(self.entries_view() =~= Seq::<Seq<RecordV>>::empty());
        }
        out
    }
}

} // verus!
