//! The store: the page cache, the write-ahead log, the data file and the
//! page allocator, wired together. Opening a store replays the log;
//! transactions read through the cache with fall-back to the data file,
//! write through the log and the cache, and commit by sequencing their
//! records and promoting their cache versions at the commit log index.

use vstd::prelude::*;
use crate::cache::PageCache;
use crate::mvcc::{
    commit_of, committed_below, is_committed, lemma_bound_append_uncommitted, lemma_bound_commit,
    lemma_bound_insert_committed, lemma_bound_mono, lemma_bound_split_off, spec_view, VersionV,
};
use crate::config::WriteAheadLogConfig;
use crate::node::{CursorEntry, LeafNode, TreeHeader};
use crate::page::{Page, PageV};
use crate::pagefile::{PageFile, WalFile};
use crate::record::{OperationV, RecordV};
use crate::recovery::{
    applies_of, chain_opt, classify, in_log, lsn_in, rec_views, replay, replayed_chain,
    ReplayOutcome,
};
use crate::wal::WriteAheadLog;
use crate::{Error, HEADER_INDEX, WAL_PAGE_SIZE};

verus! {

/// Every committed version in every chain sits at or below `bound`.
pub open spec fn lsn_bound(cache: PageCache, bound: usize) -> bool {
    forall|k: usize|
        #[trigger] cache.chain_at(k) is Some ==> committed_below(cache.chain_at(k).unwrap(), bound)
}

/// The page a read by `tx` at `snap` would return for `index`: the
/// newest visible cached version, else the data file's page.
pub open spec fn page_at(s: Store, tx: usize, snap: usize, index: usize) -> Option<PageV> {
    let from_disk = if index < s.data_view().len() {
        s.data_view()[index as int]
    } else {
        None
    };
    match s.chain_at(index) {
        Some(c) => match spec_view(c, tx, snap) {
            Some(p) => Some(p),
            None => from_disk,
        },
        None => from_disk,
    }
}

/// The store as recovery leaves it, in terms of the log file it replayed:
/// `recs` are the records recovered — each from a readable slot of the
/// circular window, covering every log index found there, ordered by log
/// index; the counters are the attained maxima; and every cached chain is
/// exactly the fold of the reinstated committed writes.
pub open spec fn recovered_from(
    file: Seq<Option<Seq<RecordV>>>,
    max_file_size: usize,
    recs: Seq<RecordV>,
    s: Store,
) -> bool {
    &&& forall|i: int, j: int|
        0 <= i < j < recs.len() ==> (#[trigger] recs[i]).index < (#[trigger] recs[j]).index
    &&& forall|i: int| 0 <= i < recs.len() ==> in_log(file, max_file_size, #[trigger] recs[i])
    &&& forall|j: int, k: int|
        0 <= j < max_file_size && j < file.len() && file[j] is Some && 0 <= k
            < file[j].unwrap().len() ==> lsn_in(recs, (#[trigger] file[j].unwrap()[k]).index)
            && file[j].unwrap()[k].index <= s.last_lsn() && file[j].unwrap()[k].transaction_id
            <= s.last_tx()
    &&& (s.last_lsn() == 0 || exists|rr: RecordV|
        #[trigger] in_log(file, max_file_size, rr) && rr.index == s.last_lsn())
    &&& (s.last_tx() == 0 || exists|rr: RecordV|
        #[trigger] in_log(file, max_file_size, rr) && rr.transaction_id == s.last_tx())
    &&& forall|k: usize|
        #[trigger] s.chain_at(k) == chain_opt(
            replayed_chain(
                applies_of(classify(recs).inserts, classify(recs).committed),
                k,
            ),
        )
}

/// Snapshot isolation at the store's page view, which the cursor's
/// lookup is built from: every page the view serves a reader is the
/// reader's own uncommitted write, a version that committed at or before
/// the reader's snapshot, or the data file's page — never another
/// transaction's uncommitted write, never a cached version committed
/// later. The data-file fallback is the deliberate limit of the
/// guarantee: a checkpoint writes the newest committed version to the
/// data file and trims the chain, so a reader whose snapshot predates
/// the last checkpoint may be served that newer version from the file.
pub proof fn lemma_page_at_isolated(s: Store, tx: usize, snap: usize, index: usize)
    requires
        s.wf(),
    ensures
        page_at(s, tx, snap, index) matches Some(p) ==> ((s.chain_at(index) matches Some(c)
            && exists|j: int|
            0 <= j < c.len() && (#[trigger] c[j]).page == p && ((!is_committed(c[j]) && c[j].tx_id
                == tx) || (is_committed(c[j]) && commit_of(c[j]) <= snap))) || (index
            < s.data_view().len() && s.data_view()[index as int] == Some(p))),
{
    self_chains_wf(s, index);
    if s.chain_at(index) is Some {
        let c = s.chain_at(index).unwrap();
        crate::mvcc::lemma_snapshot_isolation(c, tx, snap);
    }
}

proof fn self_chains_wf(s: Store, index: usize)
    requires
        s.wf(),
    ensures
        s.chain_at(index) matches Some(c) ==> crate::mvcc::chain_inv(c),
{
    s.cache.lemma_chains_wf(index);
}

/// What a checkpoint did to one page: the newest committed version, if
/// the page had one, stands in the data file, and the chain is trimmed of
/// the versions the flush made redundant — or dropped when emptied.
pub open spec fn checkpoint_effect(
    pre: Store,
    chain_now: Option<Seq<VersionV>>,
    data_now: Seq<Option<PageV>>,
    k: usize,
) -> bool {
    match pre.chain_at(k) {
        None => chain_now is None,
        Some(c) => match crate::mvcc::spec_latest_committed(c) {
            None => chain_now == Some(c),
            Some(pr) => if pr.0 < usize::MAX && k < usize::MAX {
                &&& k < data_now.len()
                &&& data_now[k as int] == Some(pr.1)
                &&& (chain_now == crate::recovery::chain_opt(
                    crate::mvcc::spec_split_off(c, pr.0),
                ) || chain_now == crate::recovery::chain_opt(
                    crate::mvcc::spec_split_off(c, (pr.0 + 1) as usize),
                ))
            } else {
                chain_now == Some(c)
            },
        },
    }
}

/// What a successful commit of `tx` at log index `ci` did to the store:
/// the transaction's cached versions are promoted to committed at `ci`,
/// its bookkeeping and buffered records are gone, and the commit record
/// stands on the log file.
pub open spec fn commit_effect(pre: Store, post: Store, tx: usize, ci: usize) -> bool {
    &&& pre.last_lsn() < ci <= post.last_lsn()
    &&& ci == post.last_lsn()
    &&& (forall|i: usize|
        pre.tracked_at(tx).contains(i) ==> post.chain_at(i) == (match pre.chain_at(i) {
            Some(c) => Some(crate::mvcc::spec_commit(c, tx, ci)),
            None => None::<Seq<VersionV>>,
        }))
    &&& (forall|i: usize| !pre.tracked_at(tx).contains(i) ==> post.chain_at(i) == pre.chain_at(i))
    &&& post.tracked_at(tx) =~= Seq::<usize>::empty()
    &&& post.buffered(tx) is None
    &&& exists|slot: int|
        0 <= slot < post.wal_view().len() && (#[trigger] post.wal_view()[slot] matches Some(e)
            && e.contains(
            RecordV { index: ci, transaction_id: tx, operation: OperationV::Commit },
        ))
}

/// The store.
pub struct Store {
    cache: PageCache,
    wal: WriteAheadLog,
    data: PageFile,
    next_free: usize,
}

impl Store {
    /// The most recently assigned log sequence number.
    pub closed spec fn last_lsn(self) -> usize {
        self.wal.last_lsn()
    }

    /// The most recently issued transaction id.
    pub closed spec fn last_tx(self) -> usize {
        self.wal.last_tx()
    }

    /// The version chain of a page, as the cache holds it.
    pub closed spec fn chain_at(self, index: usize) -> Option<Seq<VersionV>> {
        self.cache.chain_at(index)
    }

    /// Page indices written and not yet committed by `tx`.
    pub closed spec fn tracked_at(self, tx: usize) -> Seq<usize> {
        self.cache.tracked_at(tx)
    }

    /// The data file.
    pub closed spec fn data_view(self) -> Seq<Option<PageV>> {
        self.data@
    }

    /// The log file as the log has left it.
    pub closed spec fn wal_view(self) -> Seq<Option<Seq<RecordV>>> {
        self.wal.disk_view()
    }

    /// The buffered, not yet sequenced records of one open transaction.
    pub closed spec fn buffered(self, tx: usize) -> Option<Seq<RecordV>> {
        self.wal.buffered(tx)
    }

    /// The next page index the allocator will hand out.
    pub closed spec fn alloc_head(self) -> usize {
        self.next_free
    }

    /// The components are well formed and no cached version claims a
    /// commit index the log has not assigned yet.
    pub closed spec fn wf(self) -> bool {
        &&& self.cache.wf()
        &&& self.wal.wf()
        &&& lsn_bound(self.cache, self.wal.last_lsn())
    }

    /// Whether the log's counters still have headroom.
    pub fn has_room(&self) -> (r: bool)
        ensures
            r == self.spec_room(),
    {
        self.wal.has_room()
    }

    pub closed spec fn spec_room(self) -> bool {
        self.wal.room()
    }

    /// Number of records buffered and not yet sequenced.
    pub closed spec fn buffer_count(self) -> usize {
        self.wal.buffer_count()
    }

    /// The buffered-record count at which the buffer is sequenced.
    pub closed spec fn buffer_capacity(self) -> usize {
        self.wal.buffer_capacity()
    }

    /// Opens a store over the two files: replays the log, reinstates the
    /// committed writes into the cache, restores the log counters and the
    /// circular cursor, and initializes a fresh B+tree when neither file
    /// holds one.
    pub fn open(
        wal_disk: WalFile,
        data_disk: PageFile,
        config: &WriteAheadLogConfig,
        max_cache_size: usize,
    ) -> (r: Store)
        requires
            config.max_file_size >= WAL_PAGE_SIZE,
            config.max_buffer_size >= 1,
            max_cache_size >= 1,
        ensures
            r.wf(),
            exists|recs: Seq<RecordV>|
                #[trigger] recovered_from(
                    wal_disk@,
                    (config.max_file_size / WAL_PAGE_SIZE) as usize,
                    recs,
                    r,
                ),
            r.wal_view() == wal_disk@,
            forall|t: usize| r.buffered(t) is None,
            forall|t: usize| r.tracked_at(t) =~= Seq::<usize>::empty(),
            if (data_disk@.len() == 0 || data_disk@[0] is None) && r.last_lsn() == 0 {
                &&& r.data_view().len() >= 2
                &&& r.data_view()[0] == Some(PageV::Header(1))
                &&& r.data_view()[1] == Some(
                    PageV::Node(
                        crate::node::EntryV::Leaf(
                            crate::node::LeafV {
                                keys: Seq::<(Seq<char>, usize)>::empty(),
                                next: None,
                            },
                        ),
                    ),
                )
                &&& forall|j: int|
                    0 <= j < data_disk@.len() && j != 0 && j != 1 ==> r.data_view()[j]
                        == data_disk@[j]
            } else {
                r.data_view() == data_disk@
            },
    {
        let max_file_size = config.max_file_size / WAL_PAGE_SIZE;
        assert(max_file_size >= 1) by (nonlinear_arith)
            requires
                config.max_file_size >= WAL_PAGE_SIZE,
                max_file_size == config.max_file_size / WAL_PAGE_SIZE,
        ;
        let outcome = replay(&wal_disk, max_file_size);
        let ReplayOutcome {
            records,
            mut applies,
            rollbacks: _rollbacks,
            last_index,
            last_transaction,
            cursor,
        } = outcome;
        let ghost recsv = crate::recovery::rec_views(records@);

        let mut cache = PageCache::new(max_cache_size);
        let mut data = data_disk;
        let ghost d0 = data@;
        let ghost applies0 = crate::recovery::ins_views(applies@);
        let total = applies.len();
        let mut m: usize = 0;
        let mut next_free: usize = 2;
        let dl = data.len();
        if dl > next_free {
            next_free = dl;
        }
        while applies.len() > 0
            invariant
                cache.wf(),
                lsn_bound(cache, last_index),
                forall|i: int| 0 <= i < applies@.len() ==> (#[trigger] applies@[i]).0 <= last_index,
                cache.max_size() == max_cache_size,
                m + applies@.len() == total,
                total == applies0.len(),
                crate::recovery::ins_views(applies@) =~= applies0.skip(m as int),
                forall|k: usize|
                    #[trigger] cache.chain_at(k) == chain_opt(
                        replayed_chain(applies0.take(m as int), k),
                    ),
                forall|t: usize| cache.tracked_at(t) =~= Seq::<usize>::empty(),
                data@ == d0,
            decreases applies@.len(),
        {
            let ghost ab = crate::recovery::ins_views(applies@);
            let e = applies.remove(0);
            proof {
                assert(crate::recovery::ins_views(applies@) =~= ab.skip(1));
                assert(applies0.skip(m as int).skip(1) =~= applies0.skip(m as int + 1));
                assert(ab[0] == applies0[m as int]);
            }
            let ghost pre = cache;
            if e.2 < usize::MAX && e.2 >= next_free {
                next_free = e.2 + 1;
            }
            let ghost pv = e.3@;
            cache.insert_from_disk(e.0, e.2, e.3);
            proof {
                assert forall|k: usize| #[trigger] cache.chain_at(k) is Some implies
                    committed_below(cache.chain_at(k).unwrap(), last_index) by {
                    if k == e.2 {
                        let c0 = match pre.chain_at(e.2) {
                            Some(c) => c,
                            None => Seq::<VersionV>::empty(),
                        };
                        assert(pre.chain_at(k) is Some ==> committed_below(c0, last_index));
                        lemma_bound_insert_committed(
                            c0,
                            VersionV { tx_id: e.0, commit_index: Some(e.0), page: pv },
                            last_index,
                        );
                    } else {
                        assert(cache.chain_at(k) == pre.chain_at(k));
                    }
                }
                assert(applies0[m as int] == (e.0, e.1, e.2, pv));
                assert forall|k: usize| #[trigger] cache.chain_at(k) == chain_opt(
                    replayed_chain(applies0.take(m as int + 1), k),
                ) by {
                    crate::recovery::lemma_replayed_chain_step(applies0, m as int, k);
                    if k == e.2 {
                        let c0 = match pre.chain_at(e.2) {
                            Some(c) => c,
                            None => Seq::<VersionV>::empty(),
                        };
                        assert(pre.chain_at(k) == chain_opt(
                            replayed_chain(applies0.take(m as int), k),
                        ));
                        assert(c0 == replayed_chain(applies0.take(m as int), k));
                        crate::mvcc::lemma_committed_position_char(c0, e.0);
                        assert(cache.chain_at(k) == Some(
                            crate::mvcc::spec_insert_committed(
                                c0,
                                VersionV { tx_id: e.0, commit_index: Some(e.0), page: pv },
                            ),
                        ));
                    } else {
                        assert(cache.chain_at(k) == pre.chain_at(k));
                        assert(pre.chain_at(k) == chain_opt(
                            replayed_chain(applies0.take(m as int), k),
                        ));
                    }
                }
            }
            m = m + 1;
        }
        proof {
            assert(applies0.take(total as int) =~= applies0);
        }

        // A store opened over empty files gets a fresh tree: the header
        // pointing at an empty leaf.
        let fresh = match data.read(HEADER_INDEX) {
            Err(_) => true,
            Ok(_) => false,
        };
        if fresh && last_index == 0 {
            data.write(HEADER_INDEX, Page::Header(TreeHeader::initial_state()));
            data.write(1, Page::Node(CursorEntry::Leaf(LeafNode::empty())));
        }

        let cur = if cursor < max_file_size {
            cursor
        } else {
            0
        };
        let ghost wd = wal_disk@;
        let wal = WriteAheadLog::new(
            wal_disk,
            cur,
            last_index,
            last_transaction,
            config.max_buffer_size,
            max_file_size,
            config.checkpoint_count,
        );
        let st = Store { cache, wal, data, next_free };
        proof {
            assert(recovered_from(wd, max_file_size, recsv, st));
        }
        st
    }

    /// Draws a fresh page index from the allocator: the current allocation
    /// head, which then advances, so no index is handed out twice.
    pub fn acquire_index(&mut self) -> (r: Result<usize, Error>)
        requires
            old(self).wf(),
        ensures
            final(self).wf(),
            final(self).last_lsn() == old(self).last_lsn(),
            final(self).last_tx() == old(self).last_tx(),
            forall|k: usize| final(self).chain_at(k) == old(self).chain_at(k),
            forall|t: usize| final(self).buffered(t) == old(self).buffered(t),
            final(self).wal_view() == old(self).wal_view(),
            final(self).data_view() == old(self).data_view(),
            match r {
                Ok(i) => i == old(self).alloc_head() && final(self).alloc_head() == old(
                    self,
                ).alloc_head() + 1,
                Err(e) => e == Error::Io && old(self).alloc_head() == usize::MAX,
            },
    {
        if self.next_free == usize::MAX {
            return Err(Error::Io);
        }
        let r = self.next_free;
        self.next_free = self.next_free + 1;
        Ok(r)
    }

    /// Reads a page as transaction `tx_id` sees it at `snapshot`: the
    /// newest visible cached version, else the data file, populating the
    /// cache with what the file returned.
    pub fn read_page(&mut self, tx_id: usize, snapshot: usize, index: usize) -> (r: Result<
        Page,
        Error,
    >)
        requires
            old(self).wf(),
            snapshot <= old(self).last_lsn(),
        ensures
            final(self).wf(),
            final(self).last_lsn() == old(self).last_lsn(),
            final(self).last_tx() == old(self).last_tx(),
            final(self).spec_room() == old(self).spec_room(),
            forall|k: usize| k != index ==> final(self).chain_at(k) == old(self).chain_at(k),
            forall|t: usize| final(self).tracked_at(t) == old(self).tracked_at(t),
            forall|t: usize| final(self).buffered(t) == old(self).buffered(t),
            final(self).wal_view() == old(self).wal_view(),
            final(self).data_view() == old(self).data_view(),
            final(self).alloc_head() == old(self).alloc_head(),
            forall|k: usize|
                #[trigger] page_at(*final(self), tx_id, snapshot, k) == page_at(
                    *old(self),
                    tx_id,
                    snapshot,
                    k,
                ),
            match r {
                Ok(p) => page_at(*old(self), tx_id, snapshot, index) == Some(p@) && (match old(
                    self,
                ).chain_at(index) {
                    Some(c) => spec_view(c, tx_id, snapshot) == Some(p@) || (spec_view(
                        c,
                        tx_id,
                        snapshot,
                    ) is None && old(self).data_view()[index as int] == Some(p@)),
                    None => index < old(self).data_view().len() && old(
                        self,
                    ).data_view()[index as int] == Some(p@),
                }),
                Err(e) => {
                    &&& e == Error::NotFound
                    &&& page_at(*old(self), tx_id, snapshot, index) is None
                    &&& (old(self).chain_at(index) matches Some(c) ==> spec_view(
                        c,
                        tx_id,
                        snapshot,
                    ) is None)
                    &&& (index >= old(self).data_view().len() || old(
                        self,
                    ).data_view()[index as int] is None)
                },
            },
    {
        match self.cache.get(tx_id, snapshot, index) {
            Some(p) => Ok(p),
            None => {
                let page = match self.data.read(index) {
                    Ok(p) => p,
                    Err(_) => {
                        return Err(Error::NotFound);
                    },
                };
                let ghost pre = self.cache;
                let ghost pv = page@;
                proof {
                    let c0 = match pre.chain_at(index) {
                        Some(c) => c,
                        None => Seq::<VersionV>::empty(),
                    };
                    pre.lemma_chains_wf(index);
                    crate::mvcc::lemma_view_after_insert_committed(c0, tx_id, snapshot, pv);
                }
                self.cache.insert_from_disk(snapshot, index, page.copy());
                proof {
                    assert forall|k: usize| #[trigger] self.cache.chain_at(k) is Some implies
                        committed_below(self.cache.chain_at(k).unwrap(), self.wal.last_lsn()) by {
                        if k == index {
                            let c0 = match pre.chain_at(index) {
                                Some(c) => c,
                                None => Seq::<VersionV>::empty(),
                            };
                            assert(pre.chain_at(k) is Some ==> committed_below(
                                c0,
                                self.wal.last_lsn(),
                            ));
                            lemma_bound_insert_committed(
                                c0,
                                VersionV { tx_id: snapshot, commit_index: Some(snapshot), page: pv },
                                self.wal.last_lsn(),
                            );
                        } else {
                            assert(self.cache.chain_at(k) == pre.chain_at(k));
                        }
                    }
                }
                proof {
                    let c0 = match pre.chain_at(index) {
                        Some(c) => c,
                        None => Seq::<VersionV>::empty(),
                    };
                    assert forall|k: usize|
                        #[trigger] page_at(*self, tx_id, snapshot, k) == page_at(
                            *old(self),
                            tx_id,
                            snapshot,
                            k,
                        ) by {
                        if k == index {
                            assert(self.chain_at(index) == Some(
                                crate::mvcc::spec_insert_committed(
                                    c0,
                                    VersionV {
                                        tx_id: snapshot,
                                        commit_index: Some(snapshot),
                                        page: pv,
                                    },
                                ),
                            ));
                            assert(spec_view(self.chain_at(index).unwrap(), tx_id, snapshot)
                                == Some(pv));
                        }
                    }
                }
                Ok(page)
            },
        }
    }

    /// Records a page write of transaction `tx_id`: the page goes to the
    /// write-ahead log's buffer and into the cache as the transaction's
    /// uncommitted version.
    pub fn write_page(&mut self, tx_id: usize, index: usize, page: Page) -> (r: Result<(), Error>)
        requires
            old(self).wf(),
            tx_id <= old(self).last_tx(),
        ensures
            final(self).wf(),
            final(self).last_tx() == old(self).last_tx(),
            old(self).last_lsn() <= final(self).last_lsn(),
            r is Ok ==> final(self).chain_at(index) == Some(
                crate::mvcc::spec_append_uncommitted(
                    match old(self).chain_at(index) {
                        Some(c) => c,
                        None => Seq::<VersionV>::empty(),
                    },
                    tx_id,
                    page@,
                ),
            ),
            r is Ok ==> forall|k: usize|
                k != index ==> final(self).chain_at(k) == old(self).chain_at(k),
            r is Ok ==> final(self).tracked_at(tx_id) == crate::cache::spec_track(
                old(self).tracked_at(tx_id),
                index,
            ),
            r is Ok ==> forall|t: usize|
                t != tx_id ==> final(self).tracked_at(t) == old(self).tracked_at(t),
            old(self).spec_room() ==> r is Ok,
            final(self).alloc_head() == old(self).alloc_head(),
            final(self).data_view() == old(self).data_view(),
            r is Ok ==> (old(self).buffer_count() + 1 < old(self).buffer_capacity()
                ==> final(self).buffered(tx_id) == Some(
                match old(self).buffered(tx_id) {
                    Some(rs) => rs,
                    None => Seq::<RecordV>::empty(),
                }.push(
                    RecordV {
                        index: 0,
                        transaction_id: tx_id,
                        operation: OperationV::Insert(index, page@),
                    },
                ),
            )),
            r matches Err(e) ==> e == Error::Io && final(self).last_lsn() == old(self).last_lsn(),
    {
        if !self.wal.has_room() {
            return Err(Error::Io);
        }
        let ghost pv = page@;
        let _ = self.wal.append(tx_id, index, page.copy());
        let ghost pre = self.cache;
        self.cache.insert_dirty(tx_id, index, page);
        proof {
            assert forall|k: usize| #[trigger] self.cache.chain_at(k) is Some implies
                committed_below(self.cache.chain_at(k).unwrap(), self.wal.last_lsn()) by {
                if k == index {
                    let c0 = match pre.chain_at(index) {
                        Some(c) => c,
                        None => Seq::<VersionV>::empty(),
                    };
                    assert(pre.chain_at(k) is Some ==> committed_below(
                        c0,
                        old(self).wal.last_lsn(),
                    ));
                    lemma_bound_mono(c0, old(self).wal.last_lsn(), self.wal.last_lsn());
                    lemma_bound_append_uncommitted(c0, tx_id, pv, self.wal.last_lsn());
                } else {
                    assert(self.cache.chain_at(k) == pre.chain_at(k));
                    assert(committed_below(pre.chain_at(k).unwrap(), old(self).wal.last_lsn()));
                    lemma_bound_mono(
                        pre.chain_at(k).unwrap(),
                        old(self).wal.last_lsn(),
                        self.wal.last_lsn(),
                    );
                }
            }
        }
        Ok(())
    }

    /// Opens a transaction: a fresh transaction id with the snapshot fixed
    /// at the current log index.
    pub fn new_transaction(&mut self) -> (r: Result<crate::cursor::Cursor, Error>)
        requires
            old(self).wf(),
        ensures
            final(self).wf(),
            match r {
                Ok(c) => {
                    &&& !c.is_closed()
                    &&& c.tx_of() == old(self).last_tx() + 1
                    &&& c.tx_of() == final(self).last_tx()
                    &&& c.snapshot_of() == final(self).last_lsn()
                    &&& (old(self).buffer_count() + 1 < old(self).buffer_capacity() ==> final(self).buffered(c.tx_of()) == Some(
                        seq![
                            RecordV {
                                index: 0,
                                transaction_id: c.tx_of(),
                                operation: OperationV::Start,
                            },
                        ],
                    ))
                },
                Err(e) => e == Error::Io && final(self).last_tx() == old(self).last_tx(),
            },
            old(self).spec_room() ==> r is Ok,
            final(self).alloc_head() == old(self).alloc_head(),
            forall|k: usize| final(self).chain_at(k) == old(self).chain_at(k),
    {
        if !self.wal.has_room() {
            return Err(Error::Io);
        }
        let (tx, snapshot) = match self.wal.new_transaction() {
            Ok(p) => p,
            Err(_) => {
                return Err(Error::Io);
            },
        };
        proof {
            assert forall|k: usize| #[trigger] self.cache.chain_at(k) is Some implies
                committed_below(self.cache.chain_at(k).unwrap(), self.wal.last_lsn()) by {
                assert(committed_below(self.cache.chain_at(k).unwrap(), old(self).wal.last_lsn()));
                lemma_bound_mono(
                    self.cache.chain_at(k).unwrap(),
                    old(self).wal.last_lsn(),
                    self.wal.last_lsn(),
                );
            }
        }
        Ok(crate::cursor::Cursor::new(tx, snapshot))
    }

    /// Commits a transaction: sequences its records, receives the commit
    /// log index back, and promotes its cached versions to committed at
    /// that index.
    pub fn commit_tx(&mut self, tx_id: usize) -> (r: Result<usize, Error>)
        requires
            old(self).wf(),
        ensures
            final(self).wf(),
            final(self).last_tx() == old(self).last_tx(),
            match r {
                Ok(ci) => {
                    &&& old(self).last_lsn() < ci <= final(self).last_lsn()
                    &&& forall|i: usize|
                        old(self).tracked_at(tx_id).contains(i) ==> final(self).chain_at(i)
                            == match old(self).chain_at(i) {
                            Some(c) => Some(crate::mvcc::spec_commit(c, tx_id, ci)),
                            None => None,
                        }
                    &&& forall|i: usize|
                        !old(self).tracked_at(tx_id).contains(i) ==> final(self).chain_at(i)
                            == old(self).chain_at(i)
                    &&& final(self).tracked_at(tx_id) =~= Seq::<usize>::empty()
                    &&& ci == final(self).last_lsn()
                    &&& final(self).buffered(tx_id) is None
                    &&& forall|t: usize|
                        t != tx_id ==> final(self).buffered(t) == old(self).buffered(t)
                    &&& exists|slot: int|
                        0 <= slot < final(self).wal_view().len() && (
                        #[trigger] final(self).wal_view()[slot] matches Some(e) && e.contains(
                            RecordV {
                                index: ci,
                                transaction_id: tx_id,
                                operation: OperationV::Commit,
                            },
                        ))
                },
                Err(e) => e == Error::Io,
            },
            old(self).spec_room() ==> r is Ok,
            final(self).alloc_head() == old(self).alloc_head(),
            final(self).data_view() == old(self).data_view(),
    {
        if !self.wal.has_room() {
            return Err(Error::Io);
        }
        let ci = match self.wal.commit(tx_id) {
            Ok(ci) => ci,
            Err(_) => {
                return Err(Error::Io);
            },
        };
        let ghost mid = self.cache;
        proof {
            assert forall|k: usize| #[trigger] self.cache.chain_at(k) is Some implies forall|
                j: int,
            |
                0 <= j < self.cache.chain_at(k).unwrap().len() && is_committed(
                    #[trigger] self.cache.chain_at(k).unwrap()[j],
                ) ==> commit_of(self.cache.chain_at(k).unwrap()[j]) < ci.index by {
                assert(committed_below(self.cache.chain_at(k).unwrap(), old(self).wal.last_lsn()));
            }
        }
        self.cache.commit(tx_id, ci.index);
        proof {
            assert forall|k: usize| #[trigger] self.cache.chain_at(k) is Some implies
                committed_below(self.cache.chain_at(k).unwrap(), self.wal.last_lsn()) by {
                if mid.tracked_at(tx_id).contains(k) {
                    if mid.chain_at(k) is Some {
                        let c0 = mid.chain_at(k).unwrap();
                        assert(committed_below(c0, old(self).wal.last_lsn()));
                        lemma_bound_mono(c0, old(self).wal.last_lsn(), self.wal.last_lsn());
                        lemma_bound_commit(c0, tx_id, ci.index, self.wal.last_lsn());
                    }
                } else {
                    assert(self.cache.chain_at(k) == mid.chain_at(k));
                    assert(committed_below(mid.chain_at(k).unwrap(), old(self).wal.last_lsn()));
                    lemma_bound_mono(
                        mid.chain_at(k).unwrap(),
                        old(self).wal.last_lsn(),
                        self.wal.last_lsn(),
                    );
                }
            }
        }
        proof {
            let slot = self.wal.cursor_pos() as int;
            assert(0 <= slot < self.wal_view().len() && (#[trigger] self.wal_view()[slot]
                matches Some(e) && e.contains(
                RecordV {
                    index: ci.index,
                    transaction_id: tx_id,
                    operation: OperationV::Commit,
                },
            )));
        }
        Ok(ci.index)
    }

    /// Discards a transaction's buffered log records; its uncommitted
    /// cache versions stay behind until recovery or eviction discards
    /// them, invisible to every other transaction.
    pub fn abort_tx(&mut self, tx_id: usize)
        requires
            old(self).wf(),
        ensures
            final(self).wf(),
            final(self).last_tx() == old(self).last_tx(),
            final(self).last_lsn() == old(self).last_lsn(),
            forall|k: usize| final(self).chain_at(k) == old(self).chain_at(k),
            final(self).buffered(tx_id) is None,
            forall|t: usize| t != tx_id ==> final(self).buffered(t) == old(self).buffered(t),
            final(self).wal_view() == old(self).wal_view(),
            final(self).data_view() == old(self).data_view(),
            final(self).alloc_head() == old(self).alloc_head(),
    {
        self.wal.rollback(tx_id);
    }

    /// Writes every chain's newest committed version to the data file,
    /// trims the chains, and sequences a checkpoint record: committed data
    /// up to the current log index is durable, and recovery may disregard
    /// the older log entries.
    pub fn checkpoint(&mut self) -> (r: Result<(), Error>)
        requires
            old(self).wf(),
        ensures
            final(self).wf(),
            final(self).last_tx() == old(self).last_tx(),
            old(self).spec_room() ==> r is Ok,
            r matches Err(e) ==> e == Error::Io,
            final(self).alloc_head() == old(self).alloc_head(),
            r is Ok ==> final(self).last_lsn() == old(self).last_lsn() + 1,
            r is Ok ==> forall|k: usize|
                #[trigger] checkpoint_effect(
                    *old(self),
                    final(self).chain_at(k),
                    final(self).data_view(),
                    k,
                ),
            r is Ok ==> exists|slot: int|
                0 <= slot < final(self).wal_view().len() && (
                #[trigger] final(self).wal_view()[slot] matches Some(e) && e.contains(
                    RecordV {
                        index: final(self).last_lsn(),
                        transaction_id: 0,
                        operation: OperationV::Checkpoint((old(self).last_lsn() + 1) as usize),
                    },
                )),
    {
        if !self.wal.has_room() {
            return Err(Error::Io);
        }
        let idxs = self.cache.indices();
        let mut i: usize = 0;
        while i < idxs.len()
            invariant
                0 <= i <= idxs@.len(),
                self.cache.wf(),
                self.wal == old(self).wal,
                self.next_free == old(self).next_free,
                old(self).wal.wf(),
                old(self).wal.room(),
                lsn_bound(self.cache, self.wal.last_lsn()),
                forall|k: usize| idxs@.contains(k) <==> old(self).chain_at(k) is Some,
                forall|a: int, b: int| 0 <= a < b < idxs@.len() ==> idxs@[a] != idxs@[b],
                forall|k: usize|
                    !idxs@.take(i as int).contains(k) ==> self.cache.chain_at(k) == old(
                        self,
                    ).chain_at(k),
                forall|k: usize|
                    idxs@.take(i as int).contains(k) ==> #[trigger] checkpoint_effect(
                        *old(self),
                        self.cache.chain_at(k),
                        self.data@,
                        k,
                    ),
            decreases idxs@.len() - i,
        {
            let index = idxs[i];
            let ghost pre0 = self.cache;
            let ghost dstart = self.data@;
            let ghost prefix = idxs@.take(i as int);
            proof {
                if prefix.contains(index) {
                    let w = choose|w: int| 0 <= w < prefix.len() && #[trigger] prefix[w] == index;
                    assert(idxs@[w] == idxs@[i as int]);
                    assert(false);
                }
                assert(self.cache.chain_at(index) == old(self).chain_at(index));
            }
            match self.cache.newest_committed(index) {
                Some((ci, page)) => {
                    if index < usize::MAX && ci < usize::MAX {
                        let ghost d0 = self.data@;
                        let ghost pv = page@;
                        self.data.write(index, page);
                        let ghost pre = self.cache;
                        self.cache.flush(ci, index);
                        proof {
                            assert forall|k: usize| #[trigger] self.cache.chain_at(k)
                                is Some implies committed_below(
                                self.cache.chain_at(k).unwrap(),
                                self.wal.last_lsn(),
                            ) by {
                                if k == index {
                                    if pre.chain_at(index) is Some {
                                        let c0 = pre.chain_at(index).unwrap();
                                        assert(committed_below(c0, self.wal.last_lsn()));
                                        lemma_bound_split_off(c0, ci, self.wal.last_lsn());
                                        lemma_bound_split_off(
                                            c0,
                                            (ci + 1) as usize,
                                            self.wal.last_lsn(),
                                        );
                                    }
                                } else {
                                    assert(self.cache.chain_at(k) == pre.chain_at(k));
                                    assert(committed_below(
                                        pre.chain_at(k).unwrap(),
                                        self.wal.last_lsn(),
                                    ));
                                }
                            }
                            assert(checkpoint_effect(
                                *old(self),
                                self.cache.chain_at(index),
                                self.data@,
                                index,
                            )) by {
                                let c = old(self).chain_at(index).unwrap();
                                assert(crate::mvcc::spec_latest_committed(c) == Some((ci, pv)));
                                assert(self.data@[index as int] == Some(pv));
                            }
                        }
                    } else {
                        proof {
                            assert(checkpoint_effect(
                                *old(self),
                                self.cache.chain_at(index),
                                self.data@,
                                index,
                            ));
                        }
                    }
                },
                None => {
                    proof {
                        assert(checkpoint_effect(
                            *old(self),
                            self.cache.chain_at(index),
                            self.data@,
                            index,
                        ));
                    }
                },
            }
            proof {
                assert(idxs@.take(i as int + 1) =~= prefix.push(idxs@[i as int]));
                assert forall|k: usize|
                    idxs@.take(i as int + 1).contains(k) implies #[trigger] checkpoint_effect(
                    *old(self),
                    self.cache.chain_at(k),
                    self.data@,
                    k,
                ) by {
                    if k != index {
                        let w = choose|w: int|
                            0 <= w < idxs@.take(i as int + 1).len() && #[trigger] idxs@.take(
                                i as int + 1,
                            )[w] == k;
                        assert(prefix[w] == k);
                        assert(checkpoint_effect(*old(self), pre0.chain_at(k), dstart, k));
                        assert(self.cache.chain_at(k) == pre0.chain_at(k));
                        if old(self).chain_at(k) is Some {
                            let c = old(self).chain_at(k).unwrap();
                            match crate::mvcc::spec_latest_committed(c) {
                                Some(pr) => {
                                    if pr.0 < usize::MAX && k < usize::MAX {
                                        assert(k < dstart.len());
                                        assert(dstart[k as int] == Some(pr.1));
                                        assert(k < self.data@.len());
                                        assert(self.data@[k as int] == dstart[k as int]);
                                    }
                                },
                                None => {},
                            }
                        }
                    }
                }
                assert forall|k: usize|
                    !idxs@.take(i as int + 1).contains(k) implies self.cache.chain_at(k) == old(
                    self,
                ).chain_at(k) by {
                    assert(k != index) by {
                        if k == index {
                            assert(idxs@.take(i as int + 1)[i as int] == index);
                        }
                    }
                    assert(!prefix.contains(k)) by {
                        if prefix.contains(k) {
                            let w = choose|w: int|
                                0 <= w < prefix.len() && #[trigger] prefix[w] == k;
                            assert(idxs@.take(i as int + 1)[w] == k);
                        }
                    }
                }
            }
            i = i + 1;
        }
        proof {
            assert(idxs@.take(idxs@.len() as int) =~= idxs@);
            assert forall|k: usize| #[trigger] checkpoint_effect(
                *old(self),
                self.cache.chain_at(k),
                self.data@,
                k,
            ) by {
                if idxs@.contains(k) {
                } else {
                    assert(old(self).chain_at(k) is None);
                    assert(self.cache.chain_at(k) == old(self).chain_at(k));
                }
            }
        }
        let upto = self.wal.last_lsn_exec() + 1;
        let _ = self.wal.checkpoint(upto);
        proof {
            let slot = self.wal.cursor_pos() as int;
            assert(0 <= slot < self.wal_view().len() && (#[trigger] self.wal_view()[slot]
                matches Some(e) && e.contains(
                RecordV {
                    index: self.wal.last_lsn(),
                    transaction_id: 0,
                    operation: OperationV::Checkpoint(upto),
                },
            )));
        }
        proof {
            assert forall|k: usize| #[trigger] self.cache.chain_at(k) is Some implies
                committed_below(self.cache.chain_at(k).unwrap(), self.wal.last_lsn()) by {
                assert(committed_below(self.cache.chain_at(k).unwrap(), old(self).wal.last_lsn()));
                lemma_bound_mono(
                    self.cache.chain_at(k).unwrap(),
                    old(self).wal.last_lsn(),
                    self.wal.last_lsn(),
                );
            }
        }
        Ok(())
    }

    /// Hands the two files back, as a crash or close leaves them: the
    /// cache and the unsequenced log buffer are gone.
    pub fn into_files(self) -> (r: (WalFile, PageFile))
        ensures
            r.0@ == self.wal_view(),
            r.1@ == self.data_view(),
    {
        (self.wal.into_disk(), self.data)
    }
}

} // verus!
