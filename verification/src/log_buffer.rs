//! The write-ahead log's in-memory buffer: per-transaction record lists
//! with a running record count, feeding the log's input/output path.

use vstd::prelude::*;
use crate::plist::{
    lemma_pair_find_char, lemma_pair_frame_insert, lemma_pair_frame_push, lemma_pair_frame_remove,
    lemma_pair_frame_update, pair_find, pair_lookup, pair_unique,
};
use crate::record::{LogRecord, OperationV, RecordV};

verus! {

/// The record views of a record list.
pub open spec fn views_of(s: Seq<LogRecord>) -> Seq<RecordV> {
    s.map_values(|r: LogRecord| r@)
}

/// Total number of buffered records.
pub open spec fn total_records(s: Seq<(usize, Vec<LogRecord>)>) -> int
    decreases s.len(),
{
    if s.len() == 0 {
        0
    } else {
        s[0].1@.len() + total_records(s.skip(1))
    }
}

proof fn lemma_total_nonneg(s: Seq<(usize, Vec<LogRecord>)>)
    ensures
        total_records(s) >= 0,
    decreases s.len(),
{
    if s.len() > 0 {
        lemma_total_nonneg(s.skip(1));
    }
}

proof fn lemma_total_remove(s: Seq<(usize, Vec<LogRecord>)>, k: int)
    requires
        0 <= k < s.len(),
    ensures
        total_records(s.remove(k)) == total_records(s) - s[k].1@.len(),
    decreases s.len(),
{
    if k == 0 {
        assert(s.remove(0) =~= s.skip(1));
    } else {
        assert(s.remove(k)[0] == s[0]);
        assert(s.remove(k).skip(1) =~= s.skip(1).remove(k - 1));
        lemma_total_remove(s.skip(1), k - 1);
    }
}

proof fn lemma_total_insert(s: Seq<(usize, Vec<LogRecord>)>, k: int, p: (usize, Vec<LogRecord>))
    requires
        0 <= k <= s.len(),
    ensures
        total_records(s.insert(k, p)) == total_records(s) + p.1@.len(),
    decreases s.len(),
{
    if k == 0 {
        assert(s.insert(0, p)[0] == p);
        assert(s.insert(0, p).skip(1) =~= s);
    } else {
        assert(s.insert(k, p)[0] == s[0]);
        assert(s.insert(k, p).skip(1) =~= s.skip(1).insert(k - 1, p));
        lemma_total_insert(s.skip(1), k - 1, p);
    }
}

proof fn lemma_total_push(s: Seq<(usize, Vec<LogRecord>)>, p: (usize, Vec<LogRecord>))
    ensures
        total_records(s.push(p)) == total_records(s) + p.1@.len(),
    decreases s.len(),
{
    if s.len() == 0 {
        assert(s.push(p)[0] == p);
        assert(s.push(p).skip(1) =~= Seq::<(usize, Vec<LogRecord>)>::empty());
        assert(total_records(Seq::<(usize, Vec<LogRecord>)>::empty()) == 0);
    } else {
        assert(s.push(p)[0] == s[0]);
        assert(s.push(p).skip(1) =~= s.skip(1).push(p));
        lemma_total_push(s.skip(1), p);
    }
}

/// All buffered records, transaction lists concatenated in ascending
/// transaction order — the order the buffer stores them in.
pub open spec fn flatten_records(s: Seq<(usize, Vec<LogRecord>)>) -> Seq<RecordV>
    decreases s.len(),
{
    if s.len() == 0 {
        Seq::<RecordV>::empty()
    } else {
        views_of(s[0].1@) + flatten_records(s.skip(1))
    }
}

proof fn lemma_flatten_len(s: Seq<(usize, Vec<LogRecord>)>)
    ensures
        flatten_records(s).len() == total_records(s),
    decreases s.len(),
{
    if s.len() > 0 {
        lemma_flatten_len(s.skip(1));
    }
}

/// With groups in ascending key order, each homogeneous in its key, the
/// concatenation is ordered by transaction id.
proof fn lemma_flatten_sorted(s: Seq<(usize, Vec<LogRecord>)>)
    requires
        forall|i: int, j: int| 0 <= i < j < s.len() ==> (#[trigger] s[i]).0 < (#[trigger] s[j]).0,
        forall|j: int, k: int|
            0 <= j < s.len() && 0 <= k < s[j].1@.len() ==> (
            #[trigger] s[j].1@[k])@.transaction_id == s[j].0,
    ensures
        forall|i: int, j: int|
            0 <= i < j < flatten_records(s).len() ==> (
            #[trigger] flatten_records(s)[i]).transaction_id <= (
            #[trigger] flatten_records(s)[j]).transaction_id,
        forall|i: int|
            0 <= i < flatten_records(s).len() ==> s.len() > 0 && (
            #[trigger] flatten_records(s)[i]).transaction_id >= s[0].0,
    decreases s.len(),
{
    if s.len() > 0 {
        let d = s.skip(1);
        assert forall|i: int, j: int|
            0 <= i < j < d.len() implies (#[trigger] d[i]).0 < (#[trigger] d[j]).0 by {
            assert(d[i] == s[i + 1] && d[j] == s[j + 1]);
        }
        assert forall|j: int, k: int|
            0 <= j < d.len() && 0 <= k < d[j].1@.len() implies (
        #[trigger] d[j].1@[k])@.transaction_id == d[j].0 by {
            assert(d[j] == s[j + 1]);
        }
        lemma_flatten_sorted(d);
        let head = views_of(s[0].1@);
        let f = flatten_records(s);
        assert(f == head + flatten_records(d));
        assert forall|i: int|
            0 <= i < f.len() implies s.len() > 0 && (#[trigger] f[i]).transaction_id
            >= s[0].0 by {
            if i < head.len() {
                assert(f[i] == head[i]);
                assert(head[i] == s[0].1@[i]@);
            } else {
                assert(f[i] == flatten_records(d)[i - head.len()]);
                assert(d.len() > 0 && flatten_records(d)[i - head.len()].transaction_id
                    >= d[0].0);
                assert(d[0] == s[1]);
            }
        }
        assert forall|i: int, j: int|
            0 <= i < j < f.len() implies (#[trigger] f[i]).transaction_id <= (
        #[trigger] f[j]).transaction_id by {
            if i < head.len() && j < head.len() {
                assert(f[i] == head[i] && f[j] == head[j]);
                assert(head[i] == s[0].1@[i]@ && head[j] == s[0].1@[j]@);
            } else if i < head.len() {
                assert(f[i] == head[i]);
                assert(head[i] == s[0].1@[i]@);
                assert(f[j].transaction_id >= s[0].0);
            } else {
                assert(f[i] == flatten_records(d)[i - head.len()]);
                assert(f[j] == flatten_records(d)[j - head.len()]);
            }
        }
    }
}

/// The in-memory log buffer. Transactions are kept in ascending id
/// order, so a flush hands their records out in that order.
pub struct LogBuffer {
    last_transaction: usize,
    map: Vec<(usize, Vec<LogRecord>)>,
    size: usize,
}

impl LogBuffer {
    /// The buffered records of one open transaction.
    pub closed spec fn records_of(self, tx: usize) -> Option<Seq<RecordV>> {
        match pair_lookup(self.map@, tx) {
            Some(v) => Some(views_of(v@)),
            None => None,
        }
    }

    /// The most recently issued transaction id.
    pub closed spec fn last_tx(self) -> usize {
        self.last_transaction
    }

    /// The running record count.
    pub closed spec fn count(self) -> usize {
        self.size
    }

    /// Each open transaction appears once, the record count is exact, and
    /// every buffered transaction id was issued.
    pub closed spec fn wf(self) -> bool {
        &&& pair_unique(self.map@)
        &&& self.size == total_records(self.map@)
        &&& forall|j: int|
            0 <= j < self.map@.len() ==> (#[trigger] self.map@[j]).0 <= self.last_transaction
        &&& forall|j: int, k: int|
            0 <= j < self.map@.len() && 0 <= k < self.map@[j].1@.len() ==> ((
            #[trigger] self.map@[j].1@[k])@.operation is Start || self.map@[j].1@[k]@.operation
                is Insert)
        &&& forall|i: int, j: int|
            0 <= i < j < self.map@.len() ==> (#[trigger] self.map@[i]).0 < (
            #[trigger] self.map@[j]).0
        &&& forall|j: int, k: int|
            0 <= j < self.map@.len() && 0 <= k < self.map@[j].1@.len() ==> (
            #[trigger] self.map@[j].1@[k])@.transaction_id == self.map@[j].0
    }

    /// A transaction's buffered records are only starts and page writes;
    /// commit and checkpoint records never sit in the buffer.
    pub proof fn lemma_records_kinds(self, tx: usize)
        requires
            self.wf(),
        ensures
            self.records_of(tx) matches Some(rs) ==> forall|i: int|
                0 <= i < rs.len() ==> ((#[trigger] rs[i]).operation is Start || rs[i].operation
                    is Insert),
    {
        crate::plist::lemma_pair_find_char(self.map@, tx);
    }

    /// Whether any transaction is buffered.
    pub closed spec fn is_clear(self) -> bool {
        self.map@.len() == 0
    }

    pub fn new() -> (r: LogBuffer)
        ensures
            r.wf(),
            r.last_tx() == 0,
            r.count() == 0,
            r.is_clear(),
            forall|t: usize| r.records_of(t) is None,
    {
        let r = LogBuffer { last_transaction: 0, map: Vec::new(), size: 0 };
        proof {
            assert forall|t: usize| r.records_of(t) is None by {
                lemma_pair_find_char(r.map@, t);
            }
        }
        r
    }

    /// Restores the transaction counter recovered from the log.
    pub fn initial_state(&mut self, last_transaction: usize)
        requires
            old(self).wf(),
            old(self).is_clear(),
        ensures
            final(self).wf(),
            final(self).is_clear(),
            final(self).last_tx() == last_transaction,
            final(self).count() == old(self).count(),
            forall|t: usize| final(self).records_of(t) == old(self).records_of(t),
    {
        self.last_transaction = last_transaction;
    }

    /// Issues the next transaction id and buffers its start record.
    pub fn new_transaction(&mut self) -> (tx: usize)
        requires
            old(self).wf(),
            old(self).last_tx() < usize::MAX,
            old(self).count() < usize::MAX,
        ensures
            final(self).wf(),
            tx == old(self).last_tx() + 1,
            final(self).last_tx() == tx,
            final(self).count() == old(self).count() + 1,
            final(self).records_of(tx) == Some(
                seq![RecordV { index: 0, transaction_id: tx, operation: OperationV::Start }],
            ),
            forall|t: usize| t != tx ==> final(self).records_of(t) == old(self).records_of(t),
    {
        let tx = self.last_transaction + 1;
        proof {
            lemma_pair_find_char(self.map@, tx);
            if pair_find(self.map@, tx) != -1 {
                assert(self.map@[pair_find(self.map@, tx)].0 == tx);
                assert(false);
            }
        }
        let mut l: Vec<LogRecord> = Vec::new();
        l.push(LogRecord::new_start(tx));
        let ghost lv = l@;
        let ghost m0 = self.map@;
        self.map.push((tx, l));
        self.last_transaction = tx;
        self.size = self.size + 1;
        proof {
            lemma_pair_frame_push(m0, self.map@[m0.len() as int]);
            lemma_total_push(m0, self.map@[m0.len() as int]);
            assert(views_of(lv) =~= seq![
                RecordV { index: 0, transaction_id: tx, operation: OperationV::Start },
            ]);
        }
        tx
    }

    /// Buffers a page write of an open transaction.
    pub fn append(&mut self, tx_id: usize, page_index: usize, data: crate::page::Page)
        requires
            old(self).wf(),
            tx_id <= old(self).last_tx(),
            old(self).count() < usize::MAX,
        ensures
            final(self).wf(),
            final(self).last_tx() == old(self).last_tx(),
            final(self).count() == old(self).count() + 1,
            final(self).records_of(tx_id) == Some(
                match old(self).records_of(tx_id) {
                    Some(rs) => rs,
                    None => Seq::<RecordV>::empty(),
                }.push(
                    RecordV {
                        index: 0,
                        transaction_id: tx_id,
                        operation: OperationV::Insert(page_index, data@),
                    },
                ),
            ),
            forall|t: usize| t != tx_id ==> final(self).records_of(t) == old(self).records_of(t),
    {
        let ghost dv = data@;
        let record = LogRecord::new_insert(tx_id, page_index, data);
        let ghost rv = record@;
        match crate::log_buffer::find_tx(&self.map, tx_id) {
            Some(k) => {
                let ghost m0 = self.map@;
                let mut pair = self.map.remove(k);
                proof {
                    lemma_total_remove(m0, k as int);
                }
                let ghost l0 = pair.1@;
                pair.1.push(record);
                let ghost m1 = self.map@;
                self.map.insert(k, pair);
                self.size = self.size + 1;
                proof {
                    assert(self.map@ =~= m0.update(k as int, self.map@[k as int]));
                    lemma_pair_frame_update(m0, k as int, self.map@[k as int]);
                    assert(total_records(self.map@) == total_records(m0) + 1) by {
                        assert(m1 =~= m0.remove(k as int));
                        assert(self.map@ =~= m1.insert(k as int, self.map@[k as int]));
                        lemma_total_insert(m1, k as int, self.map@[k as int]);
                    }
                    assert(views_of(l0.push(record)) =~= views_of(l0).push(rv));
                }
            },
            None => {
                let ghost m0 = self.map@;
                let mut l: Vec<LogRecord> = Vec::new();
                l.push(record);
                let ghost lv = l@;
                let mut pos: usize = 0;
                while pos < self.map.len() && self.map[pos].0 < tx_id
                    invariant
                        0 <= pos <= self.map@.len(),
                        self.map@ == m0,
                        forall|j: int| 0 <= j < pos ==> (#[trigger] m0[j]).0 < tx_id,
                    decreases self.map@.len() - pos,
                {
                    pos = pos + 1;
                }
                self.map.insert(pos, (tx_id, l));
                self.size = self.size + 1;
                proof {
                    assert(self.map@ =~= m0.insert(pos as int, self.map@[pos as int]));
                    lemma_pair_frame_insert(m0, pos as int, self.map@[pos as int]);
                    lemma_total_insert(m0, pos as int, self.map@[pos as int]);
                    assert(views_of(lv) =~= Seq::<RecordV>::empty().push(rv));
                    assert forall|i: int, j: int|
                        0 <= i < j < self.map@.len() implies (#[trigger] self.map@[i]).0 < (
                    #[trigger] self.map@[j]).0 by {
                        let oi = if i < pos {
                            i
                        } else {
                            i - 1
                        };
                        let oj = if j < pos {
                            j
                        } else {
                            j - 1
                        };
                        if i != pos && j != pos {
                            assert(self.map@[i] == m0[oi] && self.map@[j] == m0[oj]);
                        } else if i == pos {
                            assert(self.map@[j] == m0[oj]);
                            assert(!(m0[oj].0 < tx_id));
                            assert(m0[oj].0 != tx_id);
                        } else {
                            assert(self.map@[i] == m0[oi]);
                            assert(m0[oi].0 < tx_id);
                        }
                    }
                }
            },
        }
    }

    /// Removes a transaction's buffered records and returns them with the
    /// commit record appended, ready for the log's input/output path.
    pub fn commit(&mut self, tx_id: usize) -> (r: Vec<LogRecord>)
        requires
            old(self).wf(),
        ensures
            final(self).wf(),
            final(self).last_tx() == old(self).last_tx(),
            final(self).records_of(tx_id) is None,
            forall|t: usize| t != tx_id ==> final(self).records_of(t) == old(self).records_of(t),
            views_of(r@) == match old(self).records_of(tx_id) {
                Some(rs) => rs,
                None => Seq::<RecordV>::empty(),
            }.push(RecordV { index: 0, transaction_id: tx_id, operation: OperationV::Commit }),
            final(self).count() == old(self).count() - match old(self).records_of(tx_id) {
                Some(rs) => rs.len() as int,
                None => 0,
            },
    {
        let mut records = match crate::log_buffer::find_tx(&self.map, tx_id) {
            Some(k) => {
                let ghost m0 = self.map@;
                let pair = self.map.remove(k);
                proof {
                    lemma_pair_frame_remove(m0, k as int);
                    lemma_total_remove(m0, k as int);
                    lemma_total_nonneg(self.map@);
                }
                self.size = self.size - pair.1.len();
                pair.1
            },
            None => Vec::new(),
        };
        let c = LogRecord::new_commit(tx_id);
        let ghost l0 = records@;
        let ghost cv = c@;
        records.push(c);
        proof {
            assert(views_of(l0.push(records@[l0.len() as int])) =~= views_of(l0).push(cv));
            if old(self).records_of(tx_id) is None {
                assert(views_of(l0) =~= Seq::<RecordV>::empty());
            }
        }
        records
    }

    /// Discards a transaction's buffered records.
    pub fn rollback(&mut self, tx_id: usize)
        requires
            old(self).wf(),
        ensures
            final(self).wf(),
            final(self).last_tx() == old(self).last_tx(),
            final(self).records_of(tx_id) is None,
            forall|t: usize| t != tx_id ==> final(self).records_of(t) == old(self).records_of(t),
            final(self).count() == old(self).count() - match old(self).records_of(tx_id) {
                Some(rs) => rs.len() as int,
                None => 0,
            },
    {
        match crate::log_buffer::find_tx(&self.map, tx_id) {
            Some(k) => {
                let ghost m0 = self.map@;
                let pair = self.map.remove(k);
                proof {
                    lemma_pair_frame_remove(m0, k as int);
                    lemma_total_remove(m0, k as int);
                    lemma_total_nonneg(self.map@);
                }
                self.size = self.size - pair.1.len();
            },
            None => {},
        }
    }

    /// The most recently issued transaction id.
    pub fn last(&self) -> (r: usize)
        ensures
            r == self.last_tx(),
    {
        self.last_transaction
    }

    /// The running record count.
    pub fn len(&self) -> (r: usize)
        ensures
            r == self.count(),
    {
        self.size
    }

    /// Empties the buffer, returning every buffered record, transaction
    /// lists concatenated in ascending transaction order.
    pub fn flush(&mut self) -> (r: Vec<LogRecord>)
        requires
            old(self).wf(),
        ensures
            final(self).wf(),
            final(self).last_tx() == old(self).last_tx(),
            final(self).count() == 0,
            final(self).is_clear(),
            forall|t: usize| final(self).records_of(t) is None,
            views_of(r@) == flatten_records(old(self).inner_map()),
            r@.len() == old(self).count(),
            forall|i: int, j: int|
                0 <= i < j < r@.len() ==> (#[trigger] r@[i])@.transaction_id <= (
                #[trigger] r@[j])@.transaction_id,
    {
        proof {
            lemma_flatten_len(self.map@);
            lemma_flatten_sorted(self.map@);
        }
        let ghost m0 = self.map@;
        let m0_len = self.map.len();
        let mut out: Vec<LogRecord> = Vec::new();
        let mut n: usize = 0;
        while self.map.len() > 0
            invariant
                self.map@ =~= m0.skip(n as int),
                n + self.map@.len() == m0_len,
                m0_len == m0.len(),
                self.last_tx() == old(self).last_tx(),
                views_of(out@) + flatten_records(self.map@) =~= flatten_records(m0),
            decreases self.map@.len(),
        {
            let ghost before = self.map@;
            let ghost o0 = out@;
            let mut pair = self.map.remove(0);
            out.append(&mut pair.1);
            proof {
                assert(before.remove(0) =~= before.skip(1));
                assert(m0.skip(n as int).skip(1) =~= m0.skip(n as int + 1));
                assert(views_of(out@) =~= views_of(o0) + views_of(before[0].1@));
                assert(flatten_records(before) == views_of(before[0].1@) + flatten_records(
                    before.skip(1),
                ));
            }
            n = n + 1;
        }
        self.size = 0;
        proof {
            assert(total_records(self.map@) == 0);
            assert forall|t: usize| final(self).records_of(t) is None by {
                lemma_pair_find_char(self.map@, t);
            }
            assert(flatten_records(self.map@) =~= Seq::<RecordV>::empty());
            assert(views_of(out@) =~= flatten_records(m0));
            assert forall|i: int, j: int|
                0 <= i < j < out@.len() implies (#[trigger] out@[i])@.transaction_id <= (
            #[trigger] out@[j])@.transaction_id by {
                assert(views_of(out@)[i] == out@[i]@);
                assert(views_of(out@)[j] == out@[j]@);
                assert(flatten_records(m0)[i].transaction_id <= flatten_records(
                    m0,
                )[j].transaction_id);
            }
        }
        out
    }

    /// The stored association list, for stating `flush`.
    pub closed spec fn inner_map(self) -> Seq<(usize, Vec<LogRecord>)> {
        self.map@
    }
}

/// Finds the position of a transaction's entry.
fn find_tx(v: &Vec<(usize, Vec<LogRecord>)>, tx: usize) -> (r: Option<usize>)
    ensures
        match r {
            Some(k) => k == pair_find(v@, tx) && k < v@.len() && v@[k as int].0 == tx,
            None => pair_find(v@, tx) == -1,
        },
{
    proof {
        lemma_pair_find_char(v@, tx);
    }
    let ghost f = pair_find(v@, tx);
    let mut i: usize = 0;
    while i < v.len()
        invariant
            0 <= i <= v@.len(),
            f == pair_find(v@, tx),
            f == -1 ==> forall|j: int| 0 <= j < v@.len() ==> (#[trigger] v@[j]).0 != tx,
            f != -1 ==> 0 <= f < v@.len() && v@[f].0 == tx && forall|j: int|
                0 <= j < f ==> (#[trigger] v@[j]).0 != tx,
            forall|j: int| 0 <= j < i ==> (#[trigger] v@[j]).0 != tx,
        decreases v@.len() - i,
    {
        if v[i].0 == tx {
            assert(f == i as int);
            return Some(i);
        }
        i = i + 1;
    }
    None
}

} // verus!
