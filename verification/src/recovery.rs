//! Crash recovery: reading the circular log back, classifying records by
//! transaction fate, and computing which page writes to reinstate.
//!
//! The log file is scanned slot by slot in circular order; slots that fail
//! to decode are skipped, the first unreadable slot ends the scan. Records
//! are ordered and deduplicated by log sequence number. A pass in that
//! order tracks which transactions started, committed and aborted, and
//! which page writes are still relevant: a checkpoint record discards the
//! writes below its apply-upto index and resets the tracking. The writes
//! of committed transactions are reinstated; the rest are rolled back by
//! being discarded.

use vstd::prelude::*;
use crate::page::{Page, PageV};
use crate::pagefile::WalFile;
use crate::record::{LogRecord, Operation, OperationV, RecordV};
use crate::Error;

verus! {

/// One surviving page write: log index, transaction, page index, page.
pub type InsertV = (usize, usize, usize, PageV);

/// The classification a scan of the log arrives at.
pub struct ReplayState {
    pub started: Set<usize>,
    pub committed: Set<usize>,
    pub aborted: Set<usize>,
    pub inserts: Seq<InsertV>,
}

pub open spec fn empty_state() -> ReplayState {
    ReplayState {
        started: Set::<usize>::empty(),
        committed: Set::<usize>::empty(),
        aborted: Set::<usize>::empty(),
        inserts: Seq::<InsertV>::empty(),
    }
}

/// The page writes at or above a checkpoint's apply-upto index.
pub open spec fn keep_from(ins: Seq<InsertV>, u: usize) -> Seq<InsertV>
    decreases ins.len(),
{
    if ins.len() == 0 {
        Seq::<InsertV>::empty()
    } else {
        let rest = keep_from(ins.drop_last(), u);
        if ins.last().0 >= u {
            rest.push(ins.last())
        } else {
            rest
        }
    }
}

/// How one record advances the classification.
pub open spec fn step(st: ReplayState, r: RecordV) -> ReplayState {
    match r.operation {
        OperationV::Start => ReplayState { started: st.started.insert(r.transaction_id), ..st },
        OperationV::Commit => if st.started.contains(r.transaction_id) {
            ReplayState {
                started: st.started.remove(r.transaction_id),
                committed: st.committed.insert(r.transaction_id),
                ..st
            }
        } else {
            st
        },
        OperationV::Abort => if st.started.contains(r.transaction_id) {
            ReplayState {
                started: st.started.remove(r.transaction_id),
                aborted: st.aborted.insert(r.transaction_id),
                ..st
            }
        } else {
            st
        },
        OperationV::Checkpoint(u) => ReplayState {
            started: Set::<usize>::empty(),
            committed: Set::<usize>::empty(),
            aborted: Set::<usize>::empty(),
            inserts: keep_from(st.inserts, u),
        },
        OperationV::Insert(pi, data) => ReplayState {
            inserts: st.inserts.push((r.index, r.transaction_id, pi, data)),
            ..st
        },
    }
}

/// The classification of a record sequence, in order.
pub open spec fn classify(rs: Seq<RecordV>) -> ReplayState
    decreases rs.len(),
{
    if rs.len() == 0 {
        empty_state()
    } else {
        step(classify(rs.drop_last()), rs.last())
    }
}

/// The surviving writes of committed transactions, in log order.
pub open spec fn applies_of(ins: Seq<InsertV>, committed: Set<usize>) -> Seq<InsertV>
    decreases ins.len(),
{
    if ins.len() == 0 {
        Seq::<InsertV>::empty()
    } else {
        let rest = applies_of(ins.drop_last(), committed);
        if committed.contains(ins.last().1) {
            rest.push(ins.last())
        } else {
            rest
        }
    }
}

/// The surviving writes of transactions that did not commit.
pub open spec fn rollbacks_of(ins: Seq<InsertV>, committed: Set<usize>) -> Seq<(usize, usize)>
    decreases ins.len(),
{
    if ins.len() == 0 {
        Seq::<(usize, usize)>::empty()
    } else {
        let rest = rollbacks_of(ins.drop_last(), committed);
        if !committed.contains(ins.last().1) {
            rest.push((ins.last().1, ins.last().2))
        } else {
            rest
        }
    }
}

/// A checkpoint keeps only writes it was told to keep, never new ones.
proof fn lemma_keep_from_bound(ins: Seq<InsertV>, u: usize, b: usize)
    requires
        forall|i: int| 0 <= i < ins.len() ==> (#[trigger] ins[i]).0 <= b,
    ensures
        forall|i: int| 0 <= i < keep_from(ins, u).len() ==> (#[trigger] keep_from(ins, u)[i]).0 <= b,
    decreases ins.len(),
{
    if ins.len() > 0 {
        let d = ins.drop_last();
        assert forall|i: int| 0 <= i < d.len() implies (#[trigger] d[i]).0 <= b by {
            assert(d[i] == ins[i]);
        }
        lemma_keep_from_bound(d, u, b);
        let k = keep_from(ins, u);
        let rest = keep_from(d, u);
        assert forall|i: int| 0 <= i < k.len() implies (#[trigger] k[i]).0 <= b by {
            if ins.last().0 >= u {
                if i < rest.len() {
                    assert(k[i] == rest[i]);
                } else {
                    assert(k[i] == ins.last());
                }
            } else {
                assert(k[i] == rest[i]);
            }
        }
    }
}

/// Every surviving write carries the log index of some record.
pub proof fn lemma_classify_bound(rs: Seq<RecordV>, b: usize)
    requires
        forall|i: int| 0 <= i < rs.len() ==> (#[trigger] rs[i]).index <= b,
    ensures
        forall|i: int|
            0 <= i < classify(rs).inserts.len() ==> (#[trigger] classify(rs).inserts[i]).0 <= b,
    decreases rs.len(),
{
    if rs.len() > 0 {
        let d = rs.drop_last();
        assert forall|i: int| 0 <= i < d.len() implies (#[trigger] d[i]).index <= b by {
            assert(d[i] == rs[i]);
        }
        lemma_classify_bound(d, b);
        let st = classify(d);
        match rs.last().operation {
            OperationV::Checkpoint(u) => {
                lemma_keep_from_bound(st.inserts, u, b);
            },
            OperationV::Insert(_, _) => {
                let t = classify(rs).inserts;
                assert forall|i: int| 0 <= i < t.len() implies (#[trigger] t[i]).0 <= b by {
                    if i < st.inserts.len() {
                        assert(t[i] == st.inserts[i]);
                    } else {
                        assert(t[i].0 == rs.last().index);
                    }
                }
            },
            _ => {},
        }
    }
}

/// Reinstated writes are among the surviving ones.
pub proof fn lemma_applies_bound(ins: Seq<InsertV>, committed: Set<usize>, b: usize)
    requires
        forall|i: int| 0 <= i < ins.len() ==> (#[trigger] ins[i]).0 <= b,
    ensures
        forall|i: int|
            0 <= i < applies_of(ins, committed).len() ==> (#[trigger] applies_of(
                ins,
                committed,
            )[i]).0 <= b,
    decreases ins.len(),
{
    if ins.len() > 0 {
        let d = ins.drop_last();
        assert forall|i: int| 0 <= i < d.len() implies (#[trigger] d[i]).0 <= b by {
            assert(d[i] == ins[i]);
        }
        lemma_applies_bound(d, committed, b);
        let a = applies_of(ins, committed);
        let rest = applies_of(d, committed);
        assert forall|i: int| 0 <= i < a.len() implies (#[trigger] a[i]).0 <= b by {
            if committed.contains(ins.last().1) {
                if i < rest.len() {
                    assert(a[i] == rest[i]);
                } else {
                    assert(a[i] == ins.last());
                }
            } else {
                assert(a[i] == rest[i]);
            }
        }
    }
}

/// A chain as the reinstated writes build it: each surviving committed
/// write to page `k` filed into its sorted place, in log order.
pub open spec fn replayed_chain(applies: Seq<InsertV>, k: usize) -> Seq<crate::mvcc::VersionV>
    decreases applies.len(),
{
    if applies.len() == 0 {
        Seq::<crate::mvcc::VersionV>::empty()
    } else {
        let rest = replayed_chain(applies.drop_last(), k);
        let e = applies.last();
        if e.2 == k {
            crate::mvcc::spec_insert_committed(
                rest,
                crate::mvcc::VersionV { tx_id: e.0, commit_index: Some(e.0), page: e.3 },
            )
        } else {
            rest
        }
    }
}

/// A chain, or nothing when it would be empty.
pub open spec fn chain_opt(s: Seq<crate::mvcc::VersionV>) -> Option<Seq<crate::mvcc::VersionV>> {
    if s.len() == 0 {
        None
    } else {
        Some(s)
    }
}

/// Unfolding one reinstated write.
pub proof fn lemma_replayed_chain_step(applies: Seq<InsertV>, m: int, k: usize)
    requires
        0 <= m < applies.len(),
    ensures
        replayed_chain(applies.take(m + 1), k) == (if applies[m].2 == k {
            crate::mvcc::spec_insert_committed(
                replayed_chain(applies.take(m), k),
                crate::mvcc::VersionV {
                    tx_id: applies[m].0,
                    commit_index: Some(applies[m].0),
                    page: applies[m].3,
                },
            )
        } else {
            replayed_chain(applies.take(m), k)
        }),
{
    assert(applies.take(m + 1).drop_last() =~= applies.take(m));
    assert(applies.take(m + 1).last() == applies[m]);
}

/// A transaction with no commit record is never classified as committed.
pub proof fn lemma_uncommitted_stays_out(rs: Seq<RecordV>, tx: usize)
    requires
        forall|i: int|
            0 <= i < rs.len() && (#[trigger] rs[i]).transaction_id == tx ==> !(rs[i].operation
                is Commit),
    ensures
        !classify(rs).committed.contains(tx),
    decreases rs.len(),
{
    if rs.len() > 0 {
        let d = rs.drop_last();
        assert forall|i: int|
            0 <= i < d.len() && (#[trigger] d[i]).transaction_id == tx implies !(d[i].operation
            is Commit) by {
            assert(d[i] == rs[i]);
        }
        lemma_uncommitted_stays_out(d, tx);
    }
}

/// No write of a transaction that never committed is reinstated: every
/// reinstated write belongs to a committed transaction.
pub proof fn lemma_no_dirty_replay(ins: Seq<InsertV>, committed: Set<usize>, tx: usize)
    requires
        !committed.contains(tx),
    ensures
        forall|i: int|
            0 <= i < applies_of(ins, committed).len() ==> (#[trigger] applies_of(
                ins,
                committed,
            )[i]).1 != tx,
    decreases ins.len(),
{
    if ins.len() > 0 {
        lemma_no_dirty_replay(ins.drop_last(), committed, tx);
        let a = applies_of(ins, committed);
        let rest = applies_of(ins.drop_last(), committed);
        assert forall|i: int| 0 <= i < a.len() implies (#[trigger] a[i]).1 != tx by {
            if committed.contains(ins.last().1) {
                if i < rest.len() {
                    assert(a[i] == rest[i]);
                } else {
                    assert(a[i].1 == ins.last().1);
                }
            } else {
                assert(a[i] == rest[i]);
            }
        }
    }
}

/// Every surviving write of a committed transaction is reinstated, in
/// order: the reinstated writes are exactly the committed ones.
pub proof fn lemma_committed_replayed(ins: Seq<InsertV>, committed: Set<usize>, i: int)
    requires
        0 <= i < ins.len(),
        committed.contains(ins[i].1),
    ensures
        applies_of(ins, committed).contains(ins[i]),
    decreases ins.len(),
{
    let a = applies_of(ins, committed);
    if i == ins.len() - 1 {
        assert(a.last() == ins[i]);
        assert(a[a.len() - 1] == ins[i]);
    } else {
        let d = ins.drop_last();
        assert(d[i] == ins[i]);
        lemma_committed_replayed(d, committed, i);
        let prev = applies_of(d, committed);
        let w = choose|w: int| 0 <= w < prev.len() && #[trigger] prev[w] == ins[i];
        if committed.contains(ins.last().1) {
            assert(a[w] == prev[w]);
        } else {
            assert(a == prev);
        }
    }
}

/// What recovery hands back to the store.
pub struct ReplayOutcome {
    /// The records recovered from the log, ordered and deduplicated by log
    /// sequence number.
    pub records: Vec<LogRecord>,
    /// Committed page writes to reinstate, in log order, each with the
    /// log index it was sequenced at.
    pub applies: Vec<(usize, usize, usize, Page)>,
    /// Writes of unfinished transactions, discarded: `(transaction, page)`.
    pub rollbacks: Vec<(usize, usize)>,
    /// The greatest log sequence number seen.
    pub last_index: usize,
    /// The greatest transaction id seen.
    pub last_transaction: usize,
    /// The log page at which the circular log wrapped.
    pub cursor: usize,
}

/// Record views of a record list.
pub open spec fn rec_views(s: Seq<LogRecord>) -> Seq<RecordV> {
    s.map_values(|r: LogRecord| r@)
}

/// Insert views of the pending-write list.
pub open spec fn ins_views(s: Seq<(usize, usize, usize, Page)>) -> Seq<InsertV> {
    s.map_values(|e: (usize, usize, usize, Page)| (e.0, e.1, e.2, e.3@))
}

/// The record stands in a readable slot of the log file's circular window.
pub open spec fn in_log(file: Seq<Option<Seq<RecordV>>>, max_file_size: usize, r: RecordV) -> bool {
    exists|j: int, k: int|
        0 <= j < max_file_size && j < file.len() && file[j] is Some && 0 <= k < file[j].unwrap().len()
            && #[trigger] file[j].unwrap()[k] == r
}

/// Some collected record carries this log sequence number.
pub open spec fn lsn_in(recs: Seq<RecordV>, lsn: usize) -> bool {
    exists|i: int| 0 <= i < recs.len() && (#[trigger] recs[i]).index == lsn
}

/// The slots the scan reads: the circular window, cut short at the end
/// of the file.
pub open spec fn scan_window(file: Seq<Option<Seq<RecordV>>>, max_file_size: usize) -> int {
    if max_file_size <= file.len() {
        max_file_size as int
    } else {
        file.len() as int
    }
}

/// The records of the first `upto` slots in scan order, each tagged with
/// its slot.
pub open spec fn scan_flat(file: Seq<Option<Seq<RecordV>>>, upto: int) -> Seq<(usize, RecordV)>
    decreases upto,
{
    if upto <= 0 {
        Seq::<(usize, RecordV)>::empty()
    } else {
        let prev = scan_flat(file, upto - 1);
        let j = upto - 1;
        if j < file.len() && file[j] is Some {
            prev + file[j].unwrap().map_values(|r: RecordV| ((j as usize), r))
        } else {
            prev
        }
    }
}

/// The log index of the most recently scanned record, zero before any.
pub open spec fn last_scanned(flat: Seq<(usize, RecordV)>) -> usize {
    if flat.len() == 0 {
        0
    } else {
        flat.last().1.index
    }
}

/// The slot where the scan last saw the log order decrease: where the
/// circular log wrapped. Zero when the order never decreases.
pub open spec fn wrap_slot(flat: Seq<(usize, RecordV)>) -> usize
    decreases flat.len(),
{
    if flat.len() <= 1 {
        0
    } else {
        let rest = wrap_slot(flat.drop_last());
        if flat.last().1.index < flat[flat.len() - 2].1.index {
            flat.last().0
        } else {
            rest
        }
    }
}

proof fn lemma_lsn_in_preserved(olds: Seq<LogRecord>, news: Seq<LogRecord>, lsn: usize)
    requires
        lsn_in(rec_views(olds), lsn),
        forall|j: int| 0 <= j < olds.len() ==> lsn_in(rec_views(news), (#[trigger] olds[j])@.index),
    ensures
        lsn_in(rec_views(news), lsn),
{
    let i = choose|i: int| 0 <= i < rec_views(olds).len() && (#[trigger] rec_views(olds)[i]).index == lsn;
    assert(olds[i]@.index == lsn);
}

/// Membership in a pushed sequence.
pub proof fn lemma_usize_contains_push(s: Seq<usize>, x: usize, t: usize)
    ensures
        s.push(x).contains(t) <==> (s.contains(t) || t == x),
{
    lemma_seq_contains_push(s, x, t);
}

proof fn lemma_seq_contains_push(s: Seq<usize>, x: usize, t: usize)
    ensures
        s.push(x).contains(t) <==> (s.contains(t) || t == x),
{
    if s.contains(t) {
        let w = choose|w: int| 0 <= w < s.len() && s[w] == t;
        assert(s.push(x)[w] == t);
    }
    if t == x {
        assert(s.push(x)[s.len() as int] == t);
    }
    if s.push(x).contains(t) {
        let w = choose|w: int| 0 <= w < s.push(x).len() && s.push(x)[w] == t;
        if w < s.len() {
            assert(s[w] == t);
        }
    }
}

fn vec_contains(v: &Vec<usize>, x: usize) -> (r: bool)
    ensures
        r == v@.contains(x),
{
    let mut i: usize = 0;
    while i < v.len()
        invariant
            0 <= i <= v@.len(),
            forall|j: int| 0 <= j < i ==> v@[j] != x,
        decreases v@.len() - i,
    {
        if v[i] == x {
            return true;
        }
        i = i + 1;
    }
    proof {
        if v@.contains(x) {
            let w = choose|w: int| 0 <= w < v@.len() && v@[w] == x;
            assert(false);
        }
    }
    false
}

/// The elements of `v` other than `x`.
fn remove_all(v: Vec<usize>, x: usize) -> (r: Vec<usize>)
    ensures
        forall|t: usize| r@.contains(t) <==> (v@.contains(t) && t != x),
{
    let mut out: Vec<usize> = Vec::new();
    let mut i: usize = 0;
    while i < v.len()
        invariant
            0 <= i <= v@.len(),
            forall|t: usize|
                out@.contains(t) <==> (#[trigger] v@.take(i as int).contains(t) && t != x),
        decreases v@.len() - i,
    {
        let ghost o0 = out@;
        let ghost pre = v@.take(i as int);
        if v[i] != x {
            out.push(v[i]);
            proof {
                assert(v@.take(i as int + 1) =~= pre.push(v@[i as int]));
                assert(out@ =~= o0.push(v@[i as int]));
                assert forall|t: usize|
                    out@.contains(t) <==> (#[trigger] v@.take(i as int + 1).contains(t) && t
                        != x) by {
                    lemma_seq_contains_push(pre, v@[i as int], t);
                    lemma_seq_contains_push(o0, v@[i as int], t);
                }
            }
        } else {
            proof {
                assert(v@.take(i as int + 1) =~= pre.push(v@[i as int]));
                assert forall|t: usize|
                    out@.contains(t) <==> (#[trigger] v@.take(i as int + 1).contains(t) && t
                        != x) by {
                    lemma_seq_contains_push(pre, v@[i as int], t);
                }
            }
        }
        i = i + 1;
    }
    proof {
        assert(v@.take(v@.len() as int) =~= v@);
    }
    out
}

/// Reads every log page in circular order, collecting the records ordered
/// and deduplicated by log sequence number, finding the wrap point, and
/// the greatest log and transaction numbers.
fn scan_log(wal: &WalFile, max_file_size: usize) -> (r: (Vec<LogRecord>, usize, usize, usize))
    ensures
        ({
            let (recs, cursor, last_index, last_transaction) = r;
            &&& forall|i: int, j: int|
                0 <= i < j < recs@.len() ==> (#[trigger] recs@[i])@.index < (
                #[trigger] recs@[j])@.index
            &&& forall|i: int| 0 <= i < recs@.len() ==> (#[trigger] recs@[i])@.index <= last_index
            &&& forall|i: int|
                0 <= i < recs@.len() ==> (#[trigger] recs@[i])@.transaction_id
                    <= last_transaction
            &&& (cursor < max_file_size || cursor == 0)
            &&& cursor == wrap_slot(scan_flat(wal@, scan_window(wal@, max_file_size)))
            &&& forall|i: int|
                0 <= i < recs@.len() ==> in_log(wal@, max_file_size, (#[trigger] recs@[i])@)
            &&& forall|j: int, k: int|
                0 <= j < max_file_size && j < wal@.len() && wal@[j] is Some && 0 <= k < wal@[j].unwrap().len()
                    ==> lsn_in(rec_views(recs@), (#[trigger] wal@[j].unwrap()[k]).index)
                        && wal@[j].unwrap()[k].index <= last_index
                        && wal@[j].unwrap()[k].transaction_id <= last_transaction
            &&& (last_index == 0 || exists|rr: RecordV|
                #[trigger] in_log(wal@, max_file_size, rr) && rr.index == last_index)
            &&& (last_transaction == 0 || exists|rr: RecordV|
                #[trigger] in_log(wal@, max_file_size, rr) && rr.transaction_id
                    == last_transaction)
        }),
{
    let mut recs: Vec<LogRecord> = Vec::new();
    let mut cursor: usize = 0;
    let mut cursor_index: usize = 0;
    let mut last_index: usize = 0;
    let mut last_transaction: usize = 0;
    let mut index: usize = 0;
    let mut stop = false;
    let ghost w = scan_window(wal@, max_file_size);
    while index < max_file_size && !stop
        invariant
            0 <= index <= max_file_size,
            cursor < max_file_size || cursor == 0,
            stop ==> wal@.len() <= index,
            !stop ==> index <= wal@.len(),
            w == scan_window(wal@, max_file_size),
            cursor == wrap_slot(
                scan_flat(
                    wal@,
                    if stop {
                        w
                    } else {
                        index as int
                    },
                ),
            ),
            cursor_index == last_scanned(
                scan_flat(
                    wal@,
                    if stop {
                        w
                    } else {
                        index as int
                    },
                ),
            ),
            forall|i: int, j: int|
                0 <= i < j < recs@.len() ==> (#[trigger] recs@[i])@.index < (
                #[trigger] recs@[j])@.index,
            forall|i: int| 0 <= i < recs@.len() ==> (#[trigger] recs@[i])@.index <= last_index,
            forall|i: int|
                0 <= i < recs@.len() ==> (#[trigger] recs@[i])@.transaction_id
                    <= last_transaction,
            forall|i: int|
                0 <= i < recs@.len() ==> in_log(wal@, max_file_size, (#[trigger] recs@[i])@),
            forall|j: int, k: int|
                0 <= j < index && j < wal@.len() && wal@[j] is Some && 0 <= k < wal@[j].unwrap().len()
                    ==> lsn_in(rec_views(recs@), (#[trigger] wal@[j].unwrap()[k]).index)
                        && wal@[j].unwrap()[k].index <= last_index
                        && wal@[j].unwrap()[k].transaction_id <= last_transaction,
            last_index == 0 || exists|rr: RecordV|
                #[trigger] in_log(wal@, max_file_size, rr) && rr.index == last_index,
            last_transaction == 0 || exists|rr: RecordV|
                #[trigger] in_log(wal@, max_file_size, rr) && rr.transaction_id
                    == last_transaction,
        decreases max_file_size - index,
    {
        match wal.read(index) {
            Err(e) => {
                if matches!(e, Error::NotFound) {
                    stop = true;
                    proof {
                        assert(w == index as int);
                    }
                } else {
                    proof {
                        assert(scan_flat(wal@, index as int + 1) =~= scan_flat(
                            wal@,
                            index as int,
                        ));
                    }
                }
            },
            Ok(entry) => {
                let ghost ev = entry@;
                let ghost pairs = ev.map_values(|r: RecordV| ((index as usize), r));
                proof {
                    assert(scan_flat(wal@, index as int) + pairs.take(0) =~= scan_flat(
                        wal@,
                        index as int,
                    ));
                }
                let mut k: usize = 0;
                while k < entry.records.len()
                    invariant
                        0 <= k <= entry.records@.len(),
                        index < max_file_size,
                        index < wal@.len(),
                        wal@[index as int] == Some(ev),
                        ev == entry@,
                        pairs == ev.map_values(|r: RecordV| ((index as usize), r)),
                        cursor == wrap_slot(
                            scan_flat(wal@, index as int) + pairs.take(k as int),
                        ),
                        cursor_index == last_scanned(
                            scan_flat(wal@, index as int) + pairs.take(k as int),
                        ),
                        cursor < max_file_size || cursor == 0,
                        forall|i: int, j: int|
                            0 <= i < j < recs@.len() ==> (#[trigger] recs@[i])@.index < (
                            #[trigger] recs@[j])@.index,
                        forall|i: int|
                            0 <= i < recs@.len() ==> (#[trigger] recs@[i])@.index <= last_index,
                        forall|i: int|
                            0 <= i < recs@.len() ==> (#[trigger] recs@[i])@.transaction_id
                                <= last_transaction,
                        forall|i: int|
                            0 <= i < recs@.len() ==> in_log(
                                wal@,
                                max_file_size,
                                (#[trigger] recs@[i])@,
                            ),
                        forall|j: int, kk: int|
                            0 <= j < index && j < wal@.len() && wal@[j] is Some && 0 <= kk < wal@[j].unwrap().len()
                                ==> lsn_in(rec_views(recs@), (#[trigger] wal@[j].unwrap()[kk]).index)
                                    && wal@[j].unwrap()[kk].index <= last_index
                                    && wal@[j].unwrap()[kk].transaction_id <= last_transaction,
                        forall|kk: int|
                            0 <= kk < k ==> lsn_in(rec_views(recs@), (#[trigger] ev[kk]).index)
                                && ev[kk].index <= last_index && ev[kk].transaction_id
                                <= last_transaction,
                        last_index == 0 || exists|rr: RecordV|
                            #[trigger] in_log(wal@, max_file_size, rr) && rr.index == last_index,
                        last_transaction == 0 || exists|rr: RecordV|
                            #[trigger] in_log(wal@, max_file_size, rr) && rr.transaction_id
                                == last_transaction,
                    decreases entry.records@.len() - k,
                {
                    let rec = entry.records[k].copy();
                    proof {
                        assert(rec@ == ev[k as int]);
                        assert(in_log(wal@, max_file_size, rec@)) by {
                            assert(wal@[index as int].unwrap()[k as int] == rec@);
                        }
                        let fprev = scan_flat(wal@, index as int) + pairs.take(k as int);
                        let fnext = scan_flat(wal@, index as int) + pairs.take(k as int + 1);
                        assert(pairs[k as int] == (index as usize, ev[k as int]));
                        assert(fnext =~= fprev.push((index as usize, rec@)));
                    }
                    if rec.index < cursor_index {
                        cursor = index;
                    }
                    cursor_index = rec.index;
                    proof {
                        let fprev = scan_flat(wal@, index as int) + pairs.take(k as int);
                        let fnext = scan_flat(wal@, index as int) + pairs.take(k as int + 1);
                        assert(fnext.drop_last() =~= fprev);
                        assert(fnext.last() == ((index as usize), rec@));
                        if fprev.len() > 0 {
                            assert(fnext[fnext.len() - 2] == fprev.last());
                        }
                        assert(last_scanned(fnext) == rec@.index);
                    }
                    if rec.index > last_index {
                        last_index = rec.index;
                    }
                    if rec.transaction_id > last_transaction {
                        last_transaction = rec.transaction_id;
                    }
                    let ghost rprev = recs@;
                    sorted_insert(&mut recs, rec);
                    proof {
                        assert forall|i: int|
                            0 <= i < recs@.len() implies (#[trigger] recs@[i])@.index
                            <= last_index && recs@[i]@.transaction_id <= last_transaction
                            && in_log(wal@, max_file_size, recs@[i]@) by {
                            if recs@[i] != rec {
                                let j = choose|j: int|
                                    0 <= j < rprev.len() && #[trigger] rprev[j] == recs@[i];
                            }
                        }
                        assert forall|j: int, kk: int|
                            0 <= j < index && j < wal@.len() && wal@[j] is Some && 0 <= kk
                                < wal@[j].unwrap().len() implies lsn_in(
                            rec_views(recs@),
                            (#[trigger] wal@[j].unwrap()[kk]).index,
                        ) by {
                            lemma_lsn_in_preserved(rprev, recs@, wal@[j].unwrap()[kk].index);
                        }
                        assert forall|kk: int|
                            0 <= kk < k + 1 implies lsn_in(
                            rec_views(recs@),
                            (#[trigger] ev[kk]).index,
                        ) by {
                            if kk < k {
                                lemma_lsn_in_preserved(rprev, recs@, ev[kk].index);
                            }
                        }
                    }
                    k = k + 1;
                }
                proof {
                    assert forall|j: int, kk: int|
                        0 <= j < index + 1 && j < wal@.len() && wal@[j] is Some && 0 <= kk
                            < wal@[j].unwrap().len() implies lsn_in(
                        rec_views(recs@),
                        (#[trigger] wal@[j].unwrap()[kk]).index,
                    ) && wal@[j].unwrap()[kk].index <= last_index
                        && wal@[j].unwrap()[kk].transaction_id <= last_transaction by {
                        if j == index {
                            assert(wal@[j].unwrap() == ev);
                            assert(ev[kk].index == wal@[j].unwrap()[kk].index);
                        }
                    }
                    assert(pairs.take(ev.len() as int) =~= pairs);
                    assert(scan_flat(wal@, index as int + 1) =~= scan_flat(wal@, index as int)
                        + pairs);
                }
            },
        }
        index = index + 1;
    }
    (recs, cursor, last_index, last_transaction)
}

/// Files a record into the list at its log sequence number, replacing an
/// earlier read of the same number.
fn sorted_insert(recs: &mut Vec<LogRecord>, rec: LogRecord)
    requires
        forall|i: int, j: int|
            0 <= i < j < old(recs)@.len() ==> (#[trigger] old(recs)@[i])@.index < (
            #[trigger] old(recs)@[j])@.index,
    ensures
        forall|i: int, j: int|
            0 <= i < j < final(recs)@.len() ==> (#[trigger] final(recs)@[i])@.index < (
            #[trigger] final(recs)@[j])@.index,
        forall|i: int|
            0 <= i < final(recs)@.len() ==> (#[trigger] final(recs)@[i]) == rec || exists|j: int|
                0 <= j < old(recs)@.len() && (#[trigger] old(recs)@[j]) == final(recs)@[i],
        lsn_in(rec_views(final(recs)@), rec@.index),
        forall|j: int|
            0 <= j < old(recs)@.len() ==> lsn_in(
                rec_views(final(recs)@),
                (#[trigger] old(recs)@[j])@.index,
            ),
{
    let mut p: usize = 0;
    while p < recs.len() && recs[p].index < rec.index
        invariant
            0 <= p <= recs@.len(),
            recs@ == old(recs)@,
            forall|i: int, j: int|
                0 <= i < j < recs@.len() ==> (#[trigger] recs@[i])@.index < (
                #[trigger] recs@[j])@.index,
            forall|j: int| 0 <= j < p ==> (#[trigger] recs@[j])@.index < rec@.index,
        decreases recs@.len() - p,
    {
        p = p + 1;
    }
    let ghost r0 = recs@;
    proof {
        assert(p < r0.len() ==> r0[p as int]@.index >= rec@.index);
    }
    let ghost rv = rec@;
    let ghost pp = p as int;
    if p < recs.len() {
        let same = recs[p].index == rec.index;
        if same {
            recs.set(p, rec);
            proof {
                assert(rv.index == r0[pp]@.index);
                assert forall|i: int, j: int|
                    0 <= i < j < recs@.len() implies (#[trigger] recs@[i])@.index < (
                #[trigger] recs@[j])@.index by {
                    if i != pp && j != pp {
                        assert(recs@[i] == r0[i] && recs@[j] == r0[j]);
                    } else if i == pp {
                        assert(recs@[i]@.index == r0[pp]@.index);
                        assert(recs@[j] == r0[j]);
                    } else {
                        assert(recs@[j]@.index == r0[pp]@.index);
                        assert(recs@[i] == r0[i]);
                    }
                }
                assert forall|i: int|
                    0 <= i < recs@.len() implies (#[trigger] recs@[i]) == rec || exists|j: int|
                        0 <= j < r0.len() && (#[trigger] r0[j]) == recs@[i] by {
                    if i != pp {
                        assert(r0[i] == recs@[i]);
                    }
                }
                assert(lsn_in(rec_views(recs@), rv.index)) by {
                    assert(rec_views(recs@)[pp].index == rv.index);
                }
                assert forall|j: int|
                    0 <= j < r0.len() implies lsn_in(rec_views(recs@), (#[trigger] r0[j])@.index) by {
                    if j == pp {
                        assert(rec_views(recs@)[pp].index == r0[pp]@.index);
                    } else {
                        assert(rec_views(recs@)[j].index == r0[j]@.index);
                    }
                }
            }
            return ;
        }
        recs.insert(p, rec);
        proof {
            assert forall|i: int, j: int|
                0 <= i < j < recs@.len() implies (#[trigger] recs@[i])@.index < (
            #[trigger] recs@[j])@.index by {
                let a = if i < pp {
                    r0[i]@.index as int
                } else if i == pp {
                    rv.index as int
                } else {
                    r0[i - 1]@.index as int
                };
                assert(recs@[i]@.index == a);
                if j < pp {
                    assert(recs@[j] == r0[j]);
                } else if j == pp {
                    assert(recs@[j]@.index == rv.index);
                } else {
                    assert(recs@[j] == r0[j - 1]);
                }
            }
            assert forall|i: int|
                0 <= i < recs@.len() implies (#[trigger] recs@[i]) == rec || exists|j: int|
                    0 <= j < r0.len() && (#[trigger] r0[j]) == recs@[i] by {
                if i < pp {
                    assert(r0[i] == recs@[i]);
                } else if i > pp {
                    assert(r0[i - 1] == recs@[i]);
                }
            }
            assert(lsn_in(rec_views(recs@), rv.index)) by {
                assert(rec_views(recs@)[pp].index == rv.index);
            }
            assert forall|j: int|
                0 <= j < r0.len() implies lsn_in(rec_views(recs@), (#[trigger] r0[j])@.index) by {
                if j < pp {
                    assert(rec_views(recs@)[j].index == r0[j]@.index);
                } else {
                    assert(rec_views(recs@)[j + 1].index == r0[j]@.index);
                }
            }
        }
        return ;
    }
    recs.push(rec);
    proof {
        assert forall|i: int, j: int|
            0 <= i < j < recs@.len() implies (#[trigger] recs@[i])@.index < (
        #[trigger] recs@[j])@.index by {
            if j < r0.len() {
                assert(recs@[i] == r0[i] && recs@[j] == r0[j]);
            } else {
                assert(recs@[j]@.index == rv.index);
                assert(recs@[i] == r0[i]);
            }
        }
        assert forall|i: int|
            0 <= i < recs@.len() implies (#[trigger] recs@[i]) == rec || exists|j: int|
                0 <= j < r0.len() && (#[trigger] r0[j]) == recs@[i] by {
            if i < r0.len() {
                assert(r0[i] == recs@[i]);
            }
        }
        assert(lsn_in(rec_views(recs@), rv.index)) by {
            assert(rec_views(recs@)[r0.len() as int].index == rv.index);
        }
        assert forall|j: int|
            0 <= j < r0.len() implies lsn_in(rec_views(recs@), (#[trigger] r0[j])@.index) by {
            assert(rec_views(recs@)[j].index == r0[j]@.index);
        }
    }
}

/// Replays the log file: scans, classifies, and splits the surviving page
/// writes into those to reinstate and those to discard.
pub fn replay(wal: &WalFile, max_file_size: usize) -> (r: ReplayOutcome)
    ensures
        ({
            let st = classify(rec_views(r.records@));
            &&& forall|i: int, j: int|
                0 <= i < j < r.records@.len() ==> (#[trigger] r.records@[i])@.index < (
                #[trigger] r.records@[j])@.index
            &&& ins_views(r.applies@) == applies_of(st.inserts, st.committed)
            &&& forall|i: int|
                0 <= i < r.applies@.len() ==> (#[trigger] r.applies@[i]).0 <= r.last_index
            &&& r.rollbacks@ == rollbacks_of(st.inserts, st.committed)
            &&& forall|i: int|
                0 <= i < r.records@.len() ==> (#[trigger] r.records@[i])@.index <= r.last_index
            &&& forall|i: int|
                0 <= i < r.records@.len() ==> (#[trigger] r.records@[i])@.transaction_id
                    <= r.last_transaction
            &&& (r.cursor < max_file_size || r.cursor == 0)
            &&& r.cursor == wrap_slot(scan_flat(wal@, scan_window(wal@, max_file_size)))
            &&& forall|i: int|
                0 <= i < r.records@.len() ==> in_log(
                    wal@,
                    max_file_size,
                    (#[trigger] r.records@[i])@,
                )
            &&& forall|j: int, k: int|
                0 <= j < max_file_size && j < wal@.len() && wal@[j] is Some && 0 <= k < wal@[j].unwrap().len()
                    ==> lsn_in(rec_views(r.records@), (#[trigger] wal@[j].unwrap()[k]).index)
                        && wal@[j].unwrap()[k].index <= r.last_index
                        && wal@[j].unwrap()[k].transaction_id <= r.last_transaction
            &&& (r.last_index == 0 || exists|rr: RecordV|
                #[trigger] in_log(wal@, max_file_size, rr) && rr.index == r.last_index)
            &&& (r.last_transaction == 0 || exists|rr: RecordV|
                #[trigger] in_log(wal@, max_file_size, rr) && rr.transaction_id
                    == r.last_transaction)
        }),
{
    let (recs, cursor, last_index, last_transaction) = scan_log(wal, max_file_size);
    let ghost rsv = rec_views(recs@);

    let mut started: Vec<usize> = Vec::new();
    let mut committed: Vec<usize> = Vec::new();
    let mut aborted: Vec<usize> = Vec::new();
    let mut inserts: Vec<(usize, usize, usize, Page)> = Vec::new();

    let mut n: usize = 0;
    while n < recs.len()
        invariant
            0 <= n <= recs@.len(),
            rsv == rec_views(recs@),
            ({
                let st = classify(rsv.take(n as int));
                &&& (forall|t: usize| started@.contains(t) <==> st.started.contains(t))
                &&& (forall|t: usize| committed@.contains(t) <==> st.committed.contains(t))
                &&& (forall|t: usize| aborted@.contains(t) <==> st.aborted.contains(t))
                &&& ins_views(inserts@) == st.inserts
            }),
        decreases recs@.len() - n,
    {
        let ghost st0 = classify(rsv.take(n as int));
        proof {
            assert(rsv.take(n as int + 1).drop_last() =~= rsv.take(n as int));
            assert(rsv.take(n as int + 1).last() == rsv[n as int]);
            assert(rsv[n as int] == recs@[n as int]@);
        }
        let rec = recs[n].copy();
        let tx = rec.transaction_id;
        match rec.operation {
            Operation::Start => {
                let ghost s0 = started@;
                started.push(tx);
                proof {
                    assert forall|t: usize|
                        started@.contains(t) <==> st0.started.insert(tx).contains(t) by {
                        lemma_seq_contains_push(s0, tx, t);
                    }
                }
            },
            Operation::Commit => {
                if vec_contains(&started, tx) {
                    started = remove_all(started, tx);
                    let ghost c0 = committed@;
                    committed.push(tx);
                    proof {
                        assert forall|t: usize|
                            committed@.contains(t) <==> st0.committed.insert(tx).contains(t) by {
                            lemma_seq_contains_push(c0, tx, t);
                        }
                    }
                }
            },
            Operation::Abort => {
                if vec_contains(&started, tx) {
                    started = remove_all(started, tx);
                    let ghost a0 = aborted@;
                    aborted.push(tx);
                    proof {
                        assert forall|t: usize|
                            aborted@.contains(t) <==> st0.aborted.insert(tx).contains(t) by {
                            lemma_seq_contains_push(a0, tx, t);
                        }
                    }
                }
            },
            Operation::Checkpoint(u) => {
                started = Vec::new();
                committed = Vec::new();
                aborted = Vec::new();
                inserts = filter_from(inserts, u);
            },
            Operation::Insert(log) => {
                let ghost i0 = ins_views(inserts@);
                inserts.push((rec.index, tx, log.page_index, log.data));
                proof {
                    assert(ins_views(inserts@) =~= i0.push(
                        (rec@.index, rec@.transaction_id, log.page_index, log.data@),
                    ));
                }
            },
        }
        n = n + 1;
    }
    proof {
        assert(rsv.take(recs@.len() as int) =~= rsv);
    }

    let ghost stf = classify(rsv);
    let mut applies: Vec<(usize, usize, usize, Page)> = Vec::new();
    let mut rollbacks: Vec<(usize, usize)> = Vec::new();
    let ghost insf = ins_views(inserts@);
    let total = inserts.len();
    let mut m: usize = 0;
    while inserts.len() > 0
        invariant
            m + inserts@.len() == total,
            total == insf.len(),
            ins_views(inserts@) =~= insf.skip(m as int),
            forall|t: usize| committed@.contains(t) <==> stf.committed.contains(t),
            ins_views(applies@) =~= applies_of(insf.take(m as int), stf.committed),
            rollbacks@ =~= rollbacks_of(insf.take(m as int), stf.committed),
        decreases inserts@.len(),
    {
        let ghost ib = ins_views(inserts@);
        let ghost av = ins_views(applies@);
        let e = inserts.remove(0);
        proof {
            assert(ins_views(inserts@) =~= ib.skip(1));
            assert(insf.skip(m as int).skip(1) =~= insf.skip(m as int + 1));
            assert(ib[0] == insf[m as int]);
            assert(insf.take(m as int + 1).drop_last() =~= insf.take(m as int));
            assert(insf.take(m as int + 1).last() == insf[m as int]);
        }
        if vec_contains(&committed, e.1) {
            applies.push(e);
            proof {
                assert(ins_views(applies@) =~= av.push(insf[m as int]));
            }
        } else {
            rollbacks.push((e.1, e.2));
        }
        m = m + 1;
    }
    proof {
        assert(insf.take(total as int) =~= insf);
        assert forall|i: int| 0 <= i < rsv.len() implies (#[trigger] rsv[i]).index
            <= last_index by {
            assert(rsv[i] == recs@[i]@);
        }
        lemma_classify_bound(rsv, last_index);
        lemma_applies_bound(stf.inserts, stf.committed, last_index);
        assert forall|i: int| 0 <= i < applies@.len() implies (#[trigger] applies@[i]).0
            <= last_index by {
            assert(ins_views(applies@)[i] == (applies@[i].0, applies@[i].1, applies@[i].2,
                applies@[i].3@));
        }
    }

    ReplayOutcome { records: recs, applies, rollbacks, last_index, last_transaction, cursor }
}

/// The pending writes at or above the apply-upto index, in order.
fn filter_from(inserts: Vec<(usize, usize, usize, Page)>, u: usize) -> (r: Vec<
    (usize, usize, usize, Page),
>)
    ensures
        ins_views(r@) == keep_from(ins_views(inserts@), u),
{
    let ghost insf = ins_views(inserts@);
    let total = inserts.len();
    let mut inserts = inserts;
    let mut out: Vec<(usize, usize, usize, Page)> = Vec::new();
    let mut m: usize = 0;
    while inserts.len() > 0
        invariant
            m + inserts@.len() == total,
            total == insf.len(),
            ins_views(inserts@) =~= insf.skip(m as int),
            ins_views(out@) =~= keep_from(insf.take(m as int), u),
        decreases inserts@.len(),
    {
        let ghost ib = ins_views(inserts@);
        let ghost ov = ins_views(out@);
        let e = inserts.remove(0);
        proof {
            assert(ins_views(inserts@) =~= ib.skip(1));
            assert(insf.skip(m as int).skip(1) =~= insf.skip(m as int + 1));
            assert(ib[0] == insf[m as int]);
            assert(insf.take(m as int + 1).drop_last() =~= insf.take(m as int));
            assert(insf.take(m as int + 1).last() == insf[m as int]);
        }
        if e.0 >= u {
            out.push(e);
            proof {
                assert(ins_views(out@) =~= ov.push(insf[m as int]));
            }
        }
        m = m + 1;
    }
    proof {
        assert(insf.take(total as int) =~= insf);
    }
    out
}

} // verus!
