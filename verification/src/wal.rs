//! The write-ahead log: orders every durable mutation, assigns strictly
//! increasing log sequence numbers, packs records into page entries under
//! a circular cursor, and publishes a commit notice for every commit
//! record it sequences.

use vstd::prelude::*;
use crate::log_buffer::{views_of, LogBuffer};
use crate::pagefile::WalFile;
use crate::record::{
    CommitInfo, LogEntry, LogRecord, Operation, OperationV, RecordV,
};
use crate::Error;

verus! {

/// The records with their log sequence numbers assigned, counting up from
/// the index after `base`.
pub open spec fn with_lsns(rs: Seq<RecordV>, base: usize) -> Seq<RecordV> {
    Seq::new(
        rs.len(),
        |i: int|
            RecordV {
                index: (base + 1 + i) as usize,
                transaction_id: rs[i].transaction_id,
                operation: rs[i].operation,
            },
    )
}

/// The commit notices a batch of sequenced records gives rise to: one
/// `(transaction, log index)` pair per commit record, in order.
pub open spec fn commit_infos_of(rs: Seq<RecordV>) -> Seq<(usize, usize)>
    decreases rs.len(),
{
    if rs.len() == 0 {
        Seq::<(usize, usize)>::empty()
    } else {
        let rest = commit_infos_of(rs.drop_last());
        if rs.last().operation is Commit {
            rest.push((rs.last().transaction_id, rs.last().index))
        } else {
            rest
        }
    }
}

/// Sequenced log indices increase strictly with position.
pub proof fn lemma_with_lsns_increasing(rs: Seq<RecordV>, base: usize)
    requires
        base + rs.len() <= usize::MAX,
    ensures
        forall|i: int, j: int|
            0 <= i < j < rs.len() ==> (#[trigger] with_lsns(rs, base)[i]).index < (
            #[trigger] with_lsns(rs, base)[j]).index,
{
}

/// A batch without commit records publishes no commit notice.
pub proof fn lemma_no_commits_no_infos(rs: Seq<RecordV>)
    requires
        forall|i: int| 0 <= i < rs.len() ==> !((#[trigger] rs[i]).operation is Commit),
    ensures
        commit_infos_of(rs) =~= Seq::<(usize, usize)>::empty(),
    decreases rs.len(),
{
    if rs.len() > 0 {
        assert forall|i: int|
            0 <= i < rs.drop_last().len() implies !((#[trigger] rs.drop_last()[i]).operation
            is Commit) by {
            assert(rs.drop_last()[i] == rs[i]);
        }
        lemma_no_commits_no_infos(rs.drop_last());
        assert(!(rs.last().operation is Commit));
    }
}

/// When the log indices of a batch increase strictly, so do the indices of
/// its commit notices, each of which belongs to some record of the batch.
pub proof fn lemma_commit_infos_sorted(s: Seq<RecordV>)
    requires
        forall|i: int, j: int|
            0 <= i < j < s.len() ==> (#[trigger] s[i]).index < (#[trigger] s[j]).index,
    ensures
        forall|i: int, j: int|
            0 <= i < j < commit_infos_of(s).len() ==> (#[trigger] commit_infos_of(s)[i]).1 < (
            #[trigger] commit_infos_of(s)[j]).1,
        forall|i: int|
            0 <= i < commit_infos_of(s).len() ==> exists|k: int|
                0 <= k < s.len() && (#[trigger] commit_infos_of(s)[i]).1 == s[k].index && commit_infos_of(s)[i].0 == s[k].transaction_id,
    decreases s.len(),
{
    if s.len() > 0 {
        let d = s.drop_last();
        assert forall|i: int, j: int|
            0 <= i < j < d.len() implies (#[trigger] d[i]).index < (#[trigger] d[j]).index by {
            assert(d[i] == s[i] && d[j] == s[j]);
        }
        lemma_commit_infos_sorted(d);
        if s.last().operation is Commit {
            let rest = commit_infos_of(d);
            assert forall|i: int|
                0 <= i < rest.len() implies exists|k: int|
                    0 <= k < s.len() && (#[trigger] rest[i]).1 == s[k].index && rest[i].0
                        == s[k].transaction_id by {
                let k = choose|k: int|
                    0 <= k < d.len() && (#[trigger] rest[i]).1 == d[k].index && rest[i].0
                        == d[k].transaction_id;
                assert(d[k] == s[k]);
            }
            assert forall|i: int, j: int|
                0 <= i < j < commit_infos_of(s).len() implies (
            #[trigger] commit_infos_of(s)[i]).1 < (#[trigger] commit_infos_of(s)[j]).1 by {
                if j == rest.len() as int {
                    let k = choose|k: int|
                        0 <= k < d.len() && (#[trigger] rest[i]).1 == d[k].index && rest[i].0
                            == d[k].transaction_id;
                    assert(s[k].index < s[s.len() - 1].index);
                }
            }
        } else {
            let rest = commit_infos_of(d);
            assert(commit_infos_of(s) == rest);
            assert forall|i: int|
                0 <= i < rest.len() implies exists|k: int|
                    0 <= k < s.len() && (#[trigger] rest[i]).1 == s[k].index && rest[i].0
                        == s[k].transaction_id by {
                let k = choose|k: int|
                    0 <= k < d.len() && (#[trigger] rest[i]).1 == d[k].index && rest[i].0
                        == d[k].transaction_id;
                assert(d[k] == s[k]);
            }
        }
    }
}

/// The write-ahead log.
pub struct WriteAheadLog {
    buffer: LogBuffer,
    disk: WalFile,
    cursor: usize,
    current: LogEntry,
    last_index: usize,
    counter: usize,
    max_buffer_size: usize,
    max_file_size: usize,
    checkpoint_count: usize,
}

impl WriteAheadLog {
    /// The most recently assigned log sequence number.
    pub closed spec fn last_lsn(self) -> usize {
        self.last_index
    }

    /// The most recently issued transaction id.
    pub closed spec fn last_tx(self) -> usize {
        self.buffer.last_tx()
    }

    /// The circular cursor into the log file.
    pub closed spec fn cursor_pos(self) -> usize {
        self.cursor
    }

    /// Size of the circular log file, in pages.
    pub closed spec fn file_capacity(self) -> usize {
        self.max_file_size
    }

    /// Number of records buffered and not yet sequenced.
    pub closed spec fn buffer_count(self) -> usize {
        self.buffer.count()
    }

    /// The buffered-record count at which the buffer is sequenced.
    pub closed spec fn buffer_capacity(self) -> usize {
        self.max_buffer_size
    }

    /// The buffered records of one open transaction.
    pub closed spec fn buffered(self, tx: usize) -> Option<Seq<RecordV>> {
        self.buffer.records_of(tx)
    }

    /// The log file as the log has left it.
    pub closed spec fn disk_view(self) -> Seq<Option<Seq<RecordV>>> {
        self.disk@
    }

    /// Records sequenced since the last checkpoint signal.
    pub closed spec fn counter_val(self) -> usize {
        self.counter
    }

    pub closed spec fn wf(self) -> bool {
        &&& self.buffer.wf()
        &&& self.max_file_size >= 1
        &&& self.cursor < self.max_file_size
        &&& self.current.wf()
        &&& self.max_buffer_size >= 1
    }

    /// Numeric headroom for the next operation: counters stay within the
    /// machine's range.
    pub open spec fn room(self) -> bool {
        &&& self.last_lsn() + self.buffer_count() + 2 <= usize::MAX
        &&& self.last_tx() < usize::MAX
        &&& self.counter_val() + self.buffer_count() + 2 <= usize::MAX
    }

    /// A log over the given file, resuming at the recovered cursor, log
    /// index and transaction id.
    pub fn new(
        disk: WalFile,
        cursor: usize,
        last_index: usize,
        last_transaction: usize,
        max_buffer_size: usize,
        max_file_size: usize,
        checkpoint_count: usize,
    ) -> (r: WriteAheadLog)
        requires
            max_file_size >= 1,
            cursor < max_file_size,
            max_buffer_size >= 1,
        ensures
            r.wf(),
            r.last_lsn() == last_index,
            r.last_tx() == last_transaction,
            r.cursor_pos() == cursor,
            r.file_capacity() == max_file_size,
            r.buffer_count() == 0,
            r.disk_view() == disk@,
            forall|t: usize| r.buffered(t) is None,
    {
        let mut buffer = LogBuffer::new();
        buffer.initial_state(last_transaction);
        WriteAheadLog {
            buffer,
            disk,
            cursor,
            current: LogEntry::new(),
            last_index,
            counter: 0,
            max_buffer_size,
            max_file_size,
            checkpoint_count,
        }
    }

    /// Whether the log's counters still have headroom.
    pub fn has_room(&self) -> (r: bool)
        ensures
            r == self.room(),
    {
        let c = self.buffer.len();
        let lt = self.buffer.last();
        c <= usize::MAX - 2 && self.last_index <= usize::MAX - 2 - c && lt < usize::MAX
            && self.counter <= usize::MAX - 2 - c
    }

    /// The most recently assigned log sequence number.
    pub fn last_lsn_exec(&self) -> (r: usize)
        ensures
            r == self.last_lsn(),
    {
        self.last_index
    }

    /// The most recently issued transaction id.
    pub fn last_tx_exec(&self) -> (r: usize)
        ensures
            r == self.last_tx(),
    {
        self.buffer.last()
    }

    /// Hands the log file back, as a crash leaves it: buffered records
    /// that were never sequenced are gone.
    pub fn into_disk(self) -> (r: WalFile)
        ensures
            r@ == self.disk_view(),
    {
        self.disk
    }

    /// Sequences a batch of records: assigns each the next log sequence
    /// number, packs it into the current entry (sealing full entries to the
    /// log file and advancing the circular cursor), persists the partial
    /// entry, and collects a commit notice for every commit record. Returns
    /// the notices and whether enough records have passed to warrant a
    /// checkpoint.
    pub fn process_records(&mut self, records: Vec<LogRecord>) -> (r: (Vec<CommitInfo>, bool))
        requires
            old(self).wf(),
            old(self).last_lsn() + records@.len() <= usize::MAX,
            old(self).counter_val() + records@.len() <= usize::MAX,
        ensures
            final(self).wf(),
            final(self).last_lsn() == old(self).last_lsn() + records@.len(),
            final(self).last_tx() == old(self).last_tx(),
            final(self).cursor_pos() < final(self).file_capacity(),
            final(self).file_capacity() == old(self).file_capacity(),
            forall|t: usize| final(self).buffered(t) == old(self).buffered(t),
            final(self).buffer_count() == old(self).buffer_count(),
            r.0@.map_values(|c: CommitInfo| (c.transaction_id, c.index)) == commit_infos_of(
                with_lsns(views_of(records@), old(self).last_lsn()),
            ),
            forall|i: int|
                0 <= i < r.0@.len() ==> old(self).last_lsn() < (#[trigger] r.0@[i]).index
                    <= final(self).last_lsn(),
            final(self).disk_view().len() <= old(self).disk_view().len() || final(self).disk_view().len() <= old(self).file_capacity(),
            final(self).cursor_pos() < final(self).disk_view().len(),
            records@.len() > 0 ==> (final(self).disk_view()[final(self).cursor_pos() as int]
                matches Some(e) && e.contains(
                with_lsns(views_of(records@), old(self).last_lsn()).last(),
            )),
            final(self).buffer_capacity() == old(self).buffer_capacity(),
    {
        let ghost rs0 = views_of(records@);
        let ghost base = self.last_index;
        let ghost assigned = with_lsns(rs0, base);
        let ghost d0 = self.disk@.len() as int;
        let mut records = records;
        let mut infos: Vec<CommitInfo> = Vec::new();
        let total = records.len();
        let mut n: usize = 0;
        while records.len() > 0
            invariant
                n + records@.len() == total,
                total == rs0.len(),
                views_of(records@) =~= rs0.skip(n as int),
                assigned == with_lsns(rs0, base),
                base + total <= usize::MAX,
                self.last_index == base + n,
                self.buffer == old(self).buffer,
                self.max_file_size == old(self).max_file_size,
                self.max_buffer_size == old(self).max_buffer_size,
                self.checkpoint_count == old(self).checkpoint_count,
                self.counter == old(self).counter,
                self.cursor < self.max_file_size,
                self.current.wf(),
                self.buffer.wf(),
                self.max_buffer_size >= 1,
                self.disk@.len() <= d0 || self.disk@.len() <= self.max_file_size,
                n > 0 ==> self.current@.contains(assigned[n - 1]),
                infos@.map_values(|c: CommitInfo| (c.transaction_id, c.index))
                    =~= commit_infos_of(assigned.take(n as int)),
                forall|i: int|
                    0 <= i < infos@.len() ==> base < (#[trigger] infos@[i]).index <= base + n,
            decreases records@.len(),
        {
            let ghost rb = views_of(records@);
            let mut rec = records.remove(0);
            proof {
                assert(views_of(records@) =~= rb.skip(1));
                assert(rs0.skip(n as int).skip(1) =~= rs0.skip(n as int + 1));
                assert(rb[0] == rs0[n as int]);
            }
            rec.assign_id(self.last_index + 1);
            self.last_index = self.last_index + 1;
            proof {
                assert(rec@ == assigned[n as int]);
            }
            let is_commit = matches!(rec.operation, Operation::Commit);
            if is_commit {
                infos.push(CommitInfo::new(rec.transaction_id, rec.index));
            }
            proof {
                assert(assigned.take(n as int + 1).drop_last() =~= assigned.take(n as int));
                assert(assigned.take(n as int + 1).last() == assigned[n as int]);
                if is_commit {
                    assert(infos@.map_values(|c: CommitInfo| (c.transaction_id, c.index))
                        =~= commit_infos_of(assigned.take(n as int)).push(
                        (rec@.transaction_id, rec@.index),
                    ));
                }
            }
            let avail = self.current.is_available(&rec);
            if !avail {
                let sealed = self.current.copy();
                self.disk.write(self.cursor, sealed);
                self.current = LogEntry::new();
                self.cursor = (self.cursor + 1) % self.max_file_size;
                proof {
                    crate::record::lemma_record_fits(rec@);
                }
            }
            let ghost cb = self.current@;
            self.current.append(rec);
            proof {
                assert(self.current@.contains(assigned[n as int])) by {
                    assert(self.current@[cb.len() as int] == assigned[n as int]);
                }
            }
            n = n + 1;
        }
        proof {
            assert(assigned.take(total as int) =~= assigned);
        }
        let ghost cfin = self.current@;
        self.disk.write(self.cursor, self.current.copy());
        proof {
            if total > 0 {
                assert(self.disk@[self.cursor as int] == Some(cfin));
                assert(cfin.contains(assigned.last()));
            }
        }
        self.counter = self.counter + total;
        let signal = self.counter > self.checkpoint_count;
        if signal {
            self.counter = 0;
        }
        (infos, signal)
    }

    /// Opens a transaction: issues the next transaction id, buffers its
    /// start record, and returns the id with the reader snapshot, the log
    /// index current at this moment. A full buffer is sequenced first.
    pub fn new_transaction(&mut self) -> (r: Result<(usize, usize), Error>)
        requires
            old(self).wf(),
            old(self).room(),
        ensures
            final(self).wf(),
            match r {
                Ok((tx, snapshot)) => {
                    &&& tx == old(self).last_tx() + 1
                    &&& final(self).last_tx() == tx
                    &&& snapshot == final(self).last_lsn()
                    &&& old(self).last_lsn() <= final(self).last_lsn()
                    &&& if old(self).buffer_count() + 1 >= old(self).buffer_capacity() {
                        &&& final(self).buffer_count() == 0
                        &&& forall|t: usize| final(self).buffered(t) is None
                        &&& final(self).last_lsn() == old(self).last_lsn() + old(
                            self,
                        ).buffer_count() + 1
                    } else {
                        &&& final(self).buffered(tx) == Some(
                            seq![
                                RecordV {
                                    index: 0,
                                    transaction_id: tx,
                                    operation: OperationV::Start,
                                },
                            ],
                        )
                        &&& forall|t: usize|
                            t != tx ==> final(self).buffered(t) == old(self).buffered(t)
                        &&& final(self).buffer_count() == old(self).buffer_count() + 1
                        &&& final(self).last_lsn() == old(self).last_lsn()
                    }
                },
                Err(_) => false,
            },
    {
        let tx = self.buffer.new_transaction();
        if self.buffer.len() >= self.max_buffer_size {
            let records = self.buffer.flush();
            let _ = self.process_records(records);
        }
        Ok((tx, self.last_index))
    }

    /// Buffers a page write of an open transaction. A full buffer is
    /// sequenced.
    pub fn append(&mut self, tx_id: usize, page_index: usize, data: crate::page::Page) -> (r:
        Result<(), Error>)
        requires
            old(self).wf(),
            old(self).room(),
            tx_id <= old(self).last_tx(),
        ensures
            final(self).wf(),
            final(self).last_tx() == old(self).last_tx(),
            old(self).last_lsn() <= final(self).last_lsn(),
            r is Ok,
            if old(self).buffer_count() + 1 >= old(self).buffer_capacity() {
                &&& final(self).buffer_count() == 0
                &&& forall|t: usize| final(self).buffered(t) is None
                &&& final(self).last_lsn() == old(self).last_lsn() + old(self).buffer_count() + 1
            } else {
                &&& final(self).buffered(tx_id) == Some(
                    match old(self).buffered(tx_id) {
                        Some(rs) => rs,
                        None => Seq::<RecordV>::empty(),
                    }.push(
                        RecordV {
                            index: 0,
                            transaction_id: tx_id,
                            operation: OperationV::Insert(page_index, data@),
                        },
                    ),
                )
                &&& forall|t: usize|
                    t != tx_id ==> final(self).buffered(t) == old(self).buffered(t)
                &&& final(self).buffer_count() == old(self).buffer_count() + 1
                &&& final(self).last_lsn() == old(self).last_lsn()
            },
    {
        self.buffer.append(tx_id, page_index, data);
        if self.buffer.len() >= self.max_buffer_size {
            let records = self.buffer.flush();
            let _ = self.process_records(records);
        }
        Ok(())
    }

    /// Commits a transaction: sequences its buffered records followed by
    /// the commit record, and returns the commit notice carrying the
    /// transaction's commit log index.
    pub fn commit(&mut self, tx_id: usize) -> (r: Result<CommitInfo, Error>)
        requires
            old(self).wf(),
            old(self).room(),
        ensures
            final(self).wf(),
            final(self).last_tx() == old(self).last_tx(),
            match r {
                Ok(ci) => {
                    &&& ci.transaction_id == tx_id
                    &&& old(self).last_lsn() < ci.index <= final(self).last_lsn()
                    &&& ci.index == final(self).last_lsn()
                    &&& final(self).last_lsn() == old(self).last_lsn() + (match old(self).buffered(
                        tx_id,
                    ) {
                        Some(rs) => rs.len() as int,
                        None => 0,
                    }) + 1
                    &&& final(self).buffered(tx_id) is None
                    &&& forall|t: usize|
                        t != tx_id ==> final(self).buffered(t) == old(self).buffered(t)
                    &&& final(self).cursor_pos() < final(self).disk_view().len()
                    &&& (final(self).disk_view()[final(self).cursor_pos() as int] matches Some(e)
                        && e.contains(
                        RecordV {
                            index: ci.index,
                            transaction_id: tx_id,
                            operation: OperationV::Commit,
                        },
                    ))
                },
                Err(_) => false,
            },
    {
        proof {
            self.buffer.lemma_records_kinds(tx_id);
        }
        let ghost pre = match old(self).buffer.records_of(tx_id) {
            Some(rs) => rs,
            None => Seq::<RecordV>::empty(),
        };
        let records = self.buffer.commit(tx_id);
        let ghost rv = views_of(records@);
        let ghost base = self.last_index;
        proof {
            assert(rv == pre.push(
                RecordV { index: 0, transaction_id: tx_id, operation: OperationV::Commit },
            ));
        }
        let (infos, _) = self.process_records(records);
        proof {
            let assigned = with_lsns(rv, base);
            let d = assigned.drop_last();
            assert forall|i: int| 0 <= i < d.len() implies !((#[trigger] d[i]).operation
                is Commit) by {
                assert(d[i] == assigned[i]);
                assert(assigned[i].operation == rv[i].operation);
                assert(rv[i] == pre[i]);
            }
            lemma_no_commits_no_infos(d);
            assert(assigned.last().operation == rv[rv.len() - 1].operation);
            assert(commit_infos_of(assigned) =~= Seq::<(usize, usize)>::empty().push(
                (assigned.last().transaction_id, assigned.last().index),
            ));
            assert(infos@.map_values(|c: CommitInfo| (c.transaction_id, c.index)).len() == 1);
            assert(infos@.len() == 1);
            assert(infos@.map_values(|c: CommitInfo| (c.transaction_id, c.index))[0] == (
                assigned.last().transaction_id,
                assigned.last().index,
            ));
            assert(infos@[0].transaction_id == tx_id);
            assert(infos@[0].index == assigned.last().index);
            assert(assigned.last().index == base + rv.len());
            assert(assigned.last() == RecordV {
                index: (base + rv.len()) as usize,
                transaction_id: tx_id,
                operation: OperationV::Commit,
            });
        }
        let ci = CommitInfo::new(infos[0].transaction_id, infos[0].index);
        Ok(ci)
    }

    /// Discards a transaction's buffered records without sequencing them.
    pub fn rollback(&mut self, tx_id: usize)
        requires
            old(self).wf(),
        ensures
            final(self).wf(),
            final(self).last_tx() == old(self).last_tx(),
            final(self).last_lsn() == old(self).last_lsn(),
            final(self).buffered(tx_id) is None,
            forall|t: usize| t != tx_id ==> final(self).buffered(t) == old(self).buffered(t),
            final(self).disk_view() == old(self).disk_view(),
            final(self).cursor_pos() == old(self).cursor_pos(),
            final(self).file_capacity() == old(self).file_capacity(),
    {
        self.buffer.rollback(tx_id);
    }

    /// Sequences a checkpoint record: committed data below `apply_upto` is
    /// durable in the data file, and recovery may disregard older log
    /// entries.
    pub fn checkpoint(&mut self, apply_upto: usize) -> (r: Result<(), Error>)
        requires
            old(self).wf(),
            old(self).room(),
        ensures
            final(self).wf(),
            final(self).last_tx() == old(self).last_tx(),
            final(self).last_lsn() == old(self).last_lsn() + 1,
            final(self).cursor_pos() < final(self).disk_view().len(),
            (final(self).disk_view()[final(self).cursor_pos() as int] matches Some(e)
                && e.contains(
                RecordV {
                    index: final(self).last_lsn(),
                    transaction_id: 0,
                    operation: OperationV::Checkpoint(apply_upto),
                },
            )),
            r is Ok,
    {
        let mut records: Vec<LogRecord> = Vec::new();
        records.push(LogRecord::new_checkpoint(apply_upto));
        let ghost rv = views_of(records@);
        let ghost base = self.last_index;
        let _ = self.process_records(records);
        proof {
            assert(with_lsns(rv, base).last() == RecordV {
                index: (base + 1) as usize,
                transaction_id: 0,
                operation: OperationV::Checkpoint(apply_upto),
            });
        }
        Ok(())
    }
}

} // verus!
