//! Write-ahead-log records and the entries that pack them into pages.
//!
//! A record is `{ LSN, transaction id, operation }`; an entry is the batch
//! of records serialized into one log page, and accepts a record only while
//! the packed size stays within the page's capacity.

use vstd::prelude::*;
use crate::page::{Page, PageV};
use crate::{PAGE_SIZE, WAL_PAGE_SIZE};

verus! {

/// Packed size of a record header: LSN and transaction id as eight-byte
/// words, and the operation tag byte.
pub const RECORD_HEADER_SIZE: usize = 17;

/// Packed size of a checkpoint payload: the apply-upto log index.
pub const CHECKPOINT_PAYLOAD_SIZE: usize = 8;

/// Packed size of an insert payload: the page index and the page image.
pub const INSERT_PAYLOAD_SIZE: usize = 8 + PAGE_SIZE;

/// Bytes of one log page available to records, after the length prefix.
pub const WAL_ENTRY_CAPACITY: usize = WAL_PAGE_SIZE - 4;

/// What a log record describes.
pub enum Operation {
    /// A transaction began.
    Start,
    /// A transaction committed.
    Commit,
    /// A transaction rolled back.
    Abort,
    /// All committed data below the carried log index is durable in the
    /// data file.
    Checkpoint(usize),
    /// A page image written by a transaction.
    Insert(InsertLog),
}

/// The payload of an insert record.
pub struct InsertLog {
    pub page_index: usize,
    pub data: Page,
}

/// One write-ahead-log record.
pub struct LogRecord {
    /// The log sequence number, assigned when the record reaches the log's
    /// input/output path; zero until then.
    pub index: usize,
    pub transaction_id: usize,
    pub operation: Operation,
}

/// Mathematical content of an operation.
pub enum OperationV {
    Start,
    Commit,
    Abort,
    Checkpoint(usize),
    Insert(usize, PageV),
}

/// Mathematical content of a record.
pub struct RecordV {
    pub index: usize,
    pub transaction_id: usize,
    pub operation: OperationV,
}

impl View for LogRecord {
    type V = RecordV;

    open spec fn view(&self) -> RecordV {
        RecordV {
            index: self.index,
            transaction_id: self.transaction_id,
            operation: match self.operation {
                Operation::Start => OperationV::Start,
                Operation::Commit => OperationV::Commit,
                Operation::Abort => OperationV::Abort,
                Operation::Checkpoint(u) => OperationV::Checkpoint(u),
                Operation::Insert(l) => OperationV::Insert(l.page_index, l.data@),
            },
        }
    }
}

/// Packed size of a record.
pub open spec fn spec_record_size(r: RecordV) -> int {
    match r.operation {
        OperationV::Checkpoint(_) => RECORD_HEADER_SIZE + CHECKPOINT_PAYLOAD_SIZE,
        OperationV::Insert(_, _) => RECORD_HEADER_SIZE + INSERT_PAYLOAD_SIZE,
        _ => RECORD_HEADER_SIZE as int,
    }
}

impl LogRecord {
    pub fn new_start(tx_id: usize) -> (r: LogRecord)
        ensures
            r@ == (RecordV { index: 0, transaction_id: tx_id, operation: OperationV::Start }),
    {
        LogRecord { index: 0, transaction_id: tx_id, operation: Operation::Start }
    }

    pub fn new_commit(tx_id: usize) -> (r: LogRecord)
        ensures
            r@ == (RecordV { index: 0, transaction_id: tx_id, operation: OperationV::Commit }),
    {
        LogRecord { index: 0, transaction_id: tx_id, operation: Operation::Commit }
    }

    pub fn new_abort(tx_id: usize) -> (r: LogRecord)
        ensures
            r@ == (RecordV { index: 0, transaction_id: tx_id, operation: OperationV::Abort }),
    {
        LogRecord { index: 0, transaction_id: tx_id, operation: Operation::Abort }
    }

    pub fn new_checkpoint(apply_upto: usize) -> (r: LogRecord)
        ensures
            r@ == (RecordV {
                index: 0,
                transaction_id: 0,
                operation: OperationV::Checkpoint(apply_upto),
            }),
    {
        LogRecord { index: 0, transaction_id: 0, operation: Operation::Checkpoint(apply_upto) }
    }

    pub fn new_insert(tx_id: usize, page_index: usize, data: Page) -> (r: LogRecord)
        ensures
            r@ == (RecordV {
                index: 0,
                transaction_id: tx_id,
                operation: OperationV::Insert(page_index, data@),
            }),
    {
        LogRecord {
            index: 0,
            transaction_id: tx_id,
            operation: Operation::Insert(InsertLog { page_index, data }),
        }
    }

    /// Stamps the record with its log sequence number.
    pub fn assign_id(&mut self, index: usize)
        ensures
            final(self)@ == (RecordV { index, ..old(self)@ }),
    {
        self.index = index;
    }

    /// Packed size of this record.
    pub fn size(&self) -> (n: usize)
        ensures
            n == spec_record_size(self@),
    {
        match &self.operation {
            Operation::Checkpoint(_) => RECORD_HEADER_SIZE + CHECKPOINT_PAYLOAD_SIZE,
            Operation::Insert(_) => RECORD_HEADER_SIZE + INSERT_PAYLOAD_SIZE,
            _ => RECORD_HEADER_SIZE,
        }
    }

    /// An independent copy with the same content.
    pub fn copy(&self) -> (r: LogRecord)
        ensures
            r@ == self@,
    {
        LogRecord {
            index: self.index,
            transaction_id: self.transaction_id,
            operation: match &self.operation {
                Operation::Start => Operation::Start,
                Operation::Commit => Operation::Commit,
                Operation::Abort => Operation::Abort,
                Operation::Checkpoint(u) => Operation::Checkpoint(*u),
                Operation::Insert(l) => Operation::Insert(
                    InsertLog { page_index: l.page_index, data: l.data.copy() },
                ),
            },
        }
    }
}

/// The commit notice the log publishes when a commit record is assigned
/// its log sequence number.
pub struct CommitInfo {
    pub transaction_id: usize,
    pub index: usize,
}

impl CommitInfo {
    pub fn new(transaction_id: usize, index: usize) -> (r: CommitInfo)
        ensures
            r.transaction_id == transaction_id,
            r.index == index,
    {
        CommitInfo { transaction_id, index }
    }
}

/// Total packed size of a batch of records.
pub open spec fn spec_entry_size(rs: Seq<RecordV>) -> int
    decreases rs.len(),
{
    if rs.len() == 0 {
        0
    } else {
        spec_record_size(rs[0]) + spec_entry_size(rs.skip(1))
    }
}

pub proof fn lemma_entry_size_push(rs: Seq<RecordV>, r: RecordV)
    ensures
        spec_entry_size(rs.push(r)) == spec_entry_size(rs) + spec_record_size(r),
    decreases rs.len(),
{
    if rs.len() == 0 {
        assert(rs.push(r)[0] == r);
        assert(rs.push(r).skip(1) =~= Seq::<RecordV>::empty());
        assert(spec_entry_size(Seq::<RecordV>::empty()) == 0);
    } else {
        assert(rs.push(r)[0] == rs[0]);
        assert(rs.push(r).skip(1) =~= rs.skip(1).push(r));
        lemma_entry_size_push(rs.skip(1), r);
    }
}

/// A batch of records packed into one log page.
pub struct LogEntry {
    pub records: Vec<LogRecord>,
    pub size: usize,
}

impl View for LogEntry {
    type V = Seq<RecordV>;

    open spec fn view(&self) -> Seq<RecordV> {
        self.records@.map_values(|r: LogRecord| r@)
    }
}

impl LogEntry {
    /// Size accounting is exact and within the page's capacity.
    pub open spec fn wf(&self) -> bool {
        &&& self.size == spec_entry_size(self@)
        &&& self.size <= WAL_ENTRY_CAPACITY
    }

    pub fn new() -> (e: LogEntry)
        ensures
            e@ =~= Seq::<RecordV>::empty(),
            e.wf(),
    {
        let e = LogEntry { records: Vec::new(), size: 0 };
        proof {
            assert(e@ =~= Seq::<RecordV>::empty());
        }
        e
    }

    /// Whether the entry can still take this record.
    pub fn is_available(&self, r: &LogRecord) -> (b: bool)
        requires
            self.wf(),
        ensures
            b == (spec_entry_size(self@) + spec_record_size(r@) <= WAL_ENTRY_CAPACITY),
    {
        self.size + r.size() <= WAL_ENTRY_CAPACITY
    }

    /// Packs a record into the entry.
    pub fn append(&mut self, r: LogRecord)
        requires
            old(self).wf(),
            spec_entry_size(old(self)@) + spec_record_size(r@) <= WAL_ENTRY_CAPACITY,
        ensures
            final(self)@ == old(self)@.push(r@),
            final(self).wf(),
    {
        proof {
            lemma_entry_size_push(self@, r@);
        }
        let ghost rv = r@;
        self.size = self.size + r.size();
        self.records.push(r);
        proof {
            assert(self@ =~= old(self)@.push(rv));
        }
    }

    /// An independent copy with the same content.
    pub fn copy(&self) -> (e: LogEntry)
        ensures
            e@ == self@,
            e.size == self.size,
    {
        let mut rs: Vec<LogRecord> = Vec::new();
        let mut i: usize = 0;
        while i < self.records.len()
            invariant
                0 <= i <= self.records@.len(),
                rs@.len() == i,
                forall|j: int| 0 <= j < i ==> (#[trigger] rs@[j])@ == self.records@[j]@,
            decreases self.records@.len() - i,
        {
            let c = self.records[i].copy();
            rs.push(c);
            i = i + 1;
        }
        let e = LogEntry { records: rs, size: self.size };
        proof {
            assert(e@ =~= self@);
        }
        e
    }
}

/// Every record fits in a fresh entry.
pub proof fn lemma_record_fits(r: RecordV)
    ensures
        spec_record_size(r) <= WAL_ENTRY_CAPACITY,
{
}

} // verus!
