use pagekv::batch::{BatchDecision, GroupCommit};
use pagekv::cache::PageCache;
use pagekv::keys::{key_compare, KeyOrd};
use pagekv::lock::{LockStatus, PageLocker};
use pagekv::log_buffer::LogBuffer;
use pagekv::mvcc::Mvcc;
use pagekv::page::Page;
use pagekv::pagefile::WalFile;
use pagekv::record::{LogEntry, LogRecord, Operation};
use pagekv::recovery::replay;
use pagekv::rotate::RotateWriter;

fn raw(b: u8) -> Page {
    Page::Raw(vec![b])
}

fn raw_byte(p: &Page) -> u8 {
    match p {
        Page::Raw(v) => v[0],
        _ => panic!("raw page expected"),
    }
}

#[test]
fn key_order_is_lexicographic() {
    assert!(matches!(key_compare("abc", "abd"), KeyOrd::Lt));
    assert!(matches!(key_compare("abc", "abc"), KeyOrd::Eq));
    assert!(matches!(key_compare("abd", "abc"), KeyOrd::Gt));
    assert!(matches!(key_compare("ab", "abc"), KeyOrd::Lt));
    assert!(matches!(key_compare("abc", "ab"), KeyOrd::Gt));
    assert!(matches!(key_compare("", ""), KeyOrd::Eq));
    assert!(matches!(key_compare("", "a"), KeyOrd::Lt));
}

#[test]
fn empty_page_detection() {
    assert!(Page::new_empty().is_empty());
    assert!(Page::Raw(vec![0, 0, 0]).is_empty());
    assert!(!Page::Raw(vec![0, 1, 0]).is_empty());
    assert!(!Page::Header(pagekv::node::TreeHeader::initial_state()).is_empty());
}

#[test]
fn chain_shows_own_write_and_hides_it_from_others() {
    let mut chain = Mvcc::new();
    chain.append_uncommitted(7, raw(1));
    // The writer sees its own uncommitted page.
    assert_eq!(raw_byte(&chain.view_page(7, 0).unwrap()), 1);
    // Another transaction sees nothing.
    assert!(chain.view_page(8, 100).is_none());
}

#[test]
fn chain_commit_respects_snapshots() {
    let mut chain = Mvcc::new();
    chain.append_uncommitted(7, raw(1));
    chain.commit(7, 5);
    // Snapshots at or past the commit index see the page.
    assert_eq!(raw_byte(&chain.view_page(9, 5).unwrap()), 1);
    assert_eq!(raw_byte(&chain.view_page(9, 6).unwrap()), 1);
    // Earlier snapshots do not.
    assert!(chain.view_page(9, 4).is_none());
}

#[test]
fn chain_returns_newest_visible_version() {
    let mut chain = Mvcc::new();
    chain.append_uncommitted(1, raw(1));
    chain.commit(1, 5);
    chain.append_uncommitted(2, raw(2));
    chain.commit(2, 9);
    assert_eq!(raw_byte(&chain.view_page(3, 20).unwrap()), 2);
    assert_eq!(raw_byte(&chain.view_page(3, 7).unwrap()), 1);
}

#[test]
fn chain_split_off_trims_old_versions() {
    let mut chain = Mvcc::new();
    chain.append_uncommitted(1, raw(1));
    chain.commit(1, 5);
    chain.append_uncommitted(2, raw(2));
    chain.commit(2, 9);
    chain.split_off(9);
    // The version at 9 stays; the one at 5 is gone.
    assert_eq!(raw_byte(&chain.view_page(3, 20).unwrap()), 2);
    assert!(chain.view_page(3, 7).is_none());
    chain.split_off(10);
    assert!(chain.is_empty());
}

#[test]
fn cache_keeps_evicted_chains_readable() {
    // A cache bounded to one chain spills the other into the overflow map
    // without losing it.
    let mut cache = PageCache::new(1);
    cache.insert_dirty(1, 10, raw(1));
    cache.insert_dirty(1, 11, raw(2));
    cache.commit(1, 4);
    assert_eq!(raw_byte(&cache.get(2, 9, 10).unwrap()), 1);
    assert_eq!(raw_byte(&cache.get(2, 9, 11).unwrap()), 2);
}

#[test]
fn cache_flush_drops_emptied_chains() {
    let mut cache = PageCache::new(4);
    cache.insert_from_disk(3, 10, raw(1));
    assert_eq!(raw_byte(&cache.get(9, 5, 10).unwrap()), 1);
    cache.flush(4, 10);
    // The only version committed below the flush point is gone with its
    // chain; the page now lives in the data file alone.
    assert!(cache.get(9, 5, 10).is_none());
}

#[test]
fn log_buffer_issues_increasing_transactions() {
    let mut buffer = LogBuffer::new();
    assert_eq!(buffer.new_transaction(), 1);
    assert_eq!(buffer.new_transaction(), 2);
    buffer.initial_state(41);
    let mut buffer2 = LogBuffer::new();
    buffer2.initial_state(41);
    assert_eq!(buffer2.new_transaction(), 42);
}

#[test]
fn log_buffer_commit_appends_commit_record() {
    let mut buffer = LogBuffer::new();
    let tx = buffer.new_transaction();
    buffer.append(tx, 5, raw(1));
    assert_eq!(buffer.len(), 2);
    let records = buffer.commit(tx);
    assert_eq!(records.len(), 3);
    assert!(matches!(records[0].operation, Operation::Start));
    assert!(matches!(records[1].operation, Operation::Insert(_)));
    assert!(matches!(records[2].operation, Operation::Commit));
    assert_eq!(buffer.len(), 0);
}

#[test]
fn log_buffer_rollback_discards() {
    let mut buffer = LogBuffer::new();
    let tx = buffer.new_transaction();
    buffer.append(tx, 5, raw(1));
    buffer.rollback(tx);
    assert_eq!(buffer.len(), 0);
    let records = buffer.commit(tx);
    assert_eq!(records.len(), 1);
    assert!(matches!(records[0].operation, Operation::Commit));
}

#[test]
fn log_buffer_flush_empties_everything() {
    let mut buffer = LogBuffer::new();
    let t1 = buffer.new_transaction();
    let t2 = buffer.new_transaction();
    buffer.append(t1, 5, raw(1));
    buffer.append(t2, 6, raw(2));
    let records = buffer.flush();
    assert_eq!(records.len(), 4);
    assert_eq!(buffer.len(), 0);
    // The buffer hands records out in ascending transaction order even
    // though the appends interleaved.
    for w in records.windows(2) {
        assert!(w[0].transaction_id <= w[1].transaction_id);
    }
    assert_eq!(records[0].transaction_id, t1);
    assert_eq!(records[3].transaction_id, t2);
}

#[test]
fn rotate_writer_persists_under_cursor() {
    let mut writer = RotateWriter::open(4, 8, WalFile::new());
    let mut rec = LogRecord::new_start(1);
    rec.assign_id(1);
    let r = writer.append(rec).unwrap();
    assert!(r.is_none());
    let drained = writer.drain_buffer();
    assert_eq!(drained.len(), 1);
    assert_eq!(drained[0].records.len(), 1);
}

#[test]
fn rotate_writer_hands_out_full_buffer() {
    let mut writer = RotateWriter::open(1, 8, WalFile::new());
    let mut rec = LogRecord::new_start(1);
    rec.assign_id(1);
    let r = writer.append(rec).unwrap();
    // With a one-entry buffer the first append already drains.
    assert!(r.is_some());
    assert_eq!(r.unwrap().len(), 1);
}

#[test]
fn replay_applies_committed_and_discards_the_rest() {
    let mut wal = WalFile::new();
    let mut entry = LogEntry::new();
    let mut r = LogRecord::new_start(1);
    r.assign_id(1);
    entry.append(r);
    let mut r = LogRecord::new_insert(1, 9, raw(7));
    r.assign_id(2);
    entry.append(r);
    let mut r = LogRecord::new_commit(1);
    r.assign_id(3);
    entry.append(r);
    let mut r = LogRecord::new_start(2);
    r.assign_id(4);
    entry.append(r);
    let mut r = LogRecord::new_insert(2, 10, raw(8));
    r.assign_id(5);
    entry.append(r);
    // Transaction 2 never commits.
    wal.write(0, entry);
    let outcome = replay(&wal, 4);
    assert_eq!(outcome.last_index, 5);
    assert_eq!(outcome.last_transaction, 2);
    assert_eq!(outcome.applies.len(), 1);
    assert_eq!(outcome.applies[0].1, 1);
    assert_eq!(outcome.applies[0].2, 9);
    assert_eq!(outcome.rollbacks.len(), 1);
    assert_eq!(outcome.rollbacks[0], (2, 10));
}

#[test]
fn replay_checkpoint_truncates_older_writes() {
    let mut wal = WalFile::new();
    let mut entry = LogEntry::new();
    let mut r = LogRecord::new_start(1);
    r.assign_id(1);
    entry.append(r);
    let mut r = LogRecord::new_insert(1, 9, raw(7));
    r.assign_id(2);
    entry.append(r);
    let mut r = LogRecord::new_commit(1);
    r.assign_id(3);
    entry.append(r);
    let mut r = LogRecord::new_checkpoint(4);
    r.assign_id(4);
    entry.append(r);
    wal.write(0, entry);
    let outcome = replay(&wal, 4);
    // The checkpoint covers the insert: nothing is reapplied.
    assert_eq!(outcome.applies.len(), 0);
    assert_eq!(outcome.rollbacks.len(), 0);
    assert_eq!(outcome.last_index, 4);
}

#[test]
fn entry_capacity_limits_appends() {
    let entry = LogEntry::new();
    let small = LogRecord::new_start(1);
    assert!(entry.is_available(&small));
    let mut full = LogEntry::new();
    let mut n = 0;
    loop {
        let rec = LogRecord::new_insert(1, n, Page::Raw(Vec::new()));
        if !full.is_available(&rec) {
            break;
        }
        full.append(rec);
        n += 1;
    }
    // A log page holds a handful of page-sized insert records.
    assert!(n >= 1 && n < 16);
}

#[test]
fn page_lock_state_machine() {
    let mut locker = PageLocker::new();
    assert_eq!(locker.status(), LockStatus::Released);
    let a = locker.fetch_read(5).unwrap();
    let b = locker.fetch_read(5).unwrap();
    assert_eq!(locker.status(), LockStatus::Read(2));
    // A writer queues behind the readers.
    assert!(locker.fetch_write(5).is_none());
    assert!(locker.release().is_none());
    // The last reader's release wakes the queued writer.
    assert_eq!(locker.release(), Some(1));
    let w = locker.fetch_write(5).unwrap();
    assert_eq!(locker.status(), LockStatus::Write);
    assert!(locker.fetch_read(5).is_none());
    assert_eq!(locker.release(), Some(1));
    assert_eq!(a.page_index(), 5);
    assert_eq!(b.page_index(), 5);
    assert_eq!(w.page_index(), 5);
}

#[test]
fn group_commit_closes_on_count_or_timer() {
    let mut group = GroupCommit::new(3);
    assert_eq!(group.on_write(), BatchDecision::Wait);
    assert_eq!(group.on_write(), BatchDecision::Wait);
    // The third write completes the whole group of three at once.
    assert_eq!(group.on_write(), BatchDecision::FlushGroup(3));
    assert_eq!(group.on_write(), BatchDecision::Wait);
    // The timer flushes a partial group.
    assert_eq!(group.on_timer(), BatchDecision::FlushGroup(1));
    assert_eq!(group.on_timer(), BatchDecision::Wait);
}
