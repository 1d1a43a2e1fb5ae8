use pagekv::config::WriteAheadLogConfig;
use pagekv::cursor::Cursor;
use pagekv::node::CursorEntry;
use pagekv::page::Page;
use pagekv::pagefile::{PageFile, WalFile};
use pagekv::record::Operation;
use pagekv::store::Store;
use pagekv::Error;
use pagekv::{HEADER_INDEX, WAL_PAGE_SIZE};

fn config(max_file_pages: usize) -> WriteAheadLogConfig {
    WriteAheadLogConfig {
        path: String::from("wal"),
        max_buffer_size: 64,
        checkpoint_interval_ms: 1000,
        checkpoint_count: 1000,
        group_commit_delay_ms: 10,
        group_commit_count: 8,
        max_file_size: max_file_pages * WAL_PAGE_SIZE,
    }
}

fn fresh_store() -> Store {
    Store::open(WalFile::new(), PageFile::new(), &config(64), 128)
}

fn insert_one(store: &mut Store, key: &str, value: Vec<u8>) {
    let mut c = store.new_transaction().unwrap();
    c.insert(store, key.to_string(), value).unwrap();
    c.commit(store).unwrap();
}

fn get_one(store: &mut Store, key: &str) -> Result<Vec<u8>, Error> {
    let c = store.new_transaction().unwrap();
    c.get(store, &key.to_string())
}

#[test]
fn simple_insert_get() {
    let mut store = fresh_store();
    insert_one(&mut store, "a", vec![1]);
    assert_eq!(get_one(&mut store, "a").unwrap(), vec![1]);
}

#[test]
fn last_writer_wins_within_transaction() {
    let mut store = fresh_store();
    let mut c = store.new_transaction().unwrap();
    c.insert(&mut store, "a".to_string(), vec![1]).unwrap();
    c.insert(&mut store, "a".to_string(), vec![2]).unwrap();
    c.commit(&mut store).unwrap();
    assert_eq!(get_one(&mut store, "a").unwrap(), vec![2]);
}

#[test]
fn uncommitted_write_is_invisible() {
    let mut store = fresh_store();
    let c = store.new_transaction().unwrap();
    c.insert(&mut store, "a".to_string(), vec![1]).unwrap();
    // No commit: another transaction must not see the write.
    assert_eq!(get_one(&mut store, "a"), Err(Error::NotFound));
}

#[test]
fn abort_leaves_no_trace() {
    let mut store = fresh_store();
    let c = store.new_transaction().unwrap();
    c.insert(&mut store, "a".to_string(), vec![1]).unwrap();
    // Abandon the transaction without committing.
    drop(c);
    assert_eq!(get_one(&mut store, "a"), Err(Error::NotFound));
}

#[test]
fn committed_data_survives_reopen() {
    let mut store = fresh_store();
    insert_one(&mut store, "a", vec![1]);
    insert_one(&mut store, "b", vec![2]);
    insert_one(&mut store, "c", vec![3]);
    let (wal, data) = store.into_files();
    let mut store = Store::open(wal, data, &config(64), 128);
    assert_eq!(get_one(&mut store, "a").unwrap(), vec![1]);
    assert_eq!(get_one(&mut store, "b").unwrap(), vec![2]);
    assert_eq!(get_one(&mut store, "c").unwrap(), vec![3]);
}

#[test]
fn crash_before_commit_leaves_nothing() {
    let mut store = fresh_store();
    let c = store.new_transaction().unwrap();
    c.insert(&mut store, "a".to_string(), vec![1]).unwrap();
    // Crash: hand the files over without committing.
    let (wal, data) = store.into_files();
    let mut store = Store::open(wal, data, &config(64), 128);
    assert_eq!(get_one(&mut store, "a"), Err(Error::NotFound));
}

#[test]
fn overwrite_then_abort_keeps_committed_value() {
    let mut store = fresh_store();
    insert_one(&mut store, "a", vec![1]);
    let c = store.new_transaction().unwrap();
    c.insert(&mut store, "a".to_string(), vec![2]).unwrap();
    drop(c);
    let (wal, data) = store.into_files();
    let mut store = Store::open(wal, data, &config(64), 128);
    assert_eq!(get_one(&mut store, "a").unwrap(), vec![1]);
}

#[test]
fn node_split_grows_tree() {
    let mut store = fresh_store();
    let mut c = store.new_transaction().unwrap();
    for i in 0..100u8 {
        let key = format!("k{:02}", i);
        c.insert(&mut store, key, vec![i]).unwrap();
    }
    c.commit(&mut store).unwrap();
    assert_eq!(get_one(&mut store, "k42").unwrap(), vec![42]);
    // The tree has at least two levels: the root page is an internal node.
    let probe = store.new_transaction().unwrap();
    let header = store
        .read_page(1_000_000, usize::MAX / 2, HEADER_INDEX)
        .ok()
        .unwrap();
    let root = match header {
        Page::Header(h) => h.get_root(),
        _ => panic!("header page expected"),
    };
    let root_page = store.read_page(1_000_000, usize::MAX / 2, root).unwrap();
    match root_page {
        Page::Node(CursorEntry::Internal(_)) => {}
        _ => panic!("internal root expected after splits"),
    }
    drop(probe);
}

#[test]
fn ten_commits_have_increasing_lsns() {
    let mut store = fresh_store();
    for i in 0..10u8 {
        let key = format!("t{}", i);
        insert_one(&mut store, &key, vec![i]);
    }
    let (wal, _data) = store.into_files();
    let mut commits: Vec<(usize, usize)> = Vec::new();
    for slot in 0..64 {
        if let Ok(entry) = wal.read(slot) {
            for rec in &entry.records {
                if matches!(rec.operation, Operation::Commit) {
                    commits.push((rec.index, rec.transaction_id));
                }
            }
        }
    }
    commits.sort();
    commits.dedup();
    assert_eq!(commits.len(), 10);
    for w in commits.windows(2) {
        assert!(w[0].0 < w[1].0);
    }
}

#[test]
fn recovery_with_checkpoints() {
    let mut store = fresh_store();
    for i in 0..1000usize {
        let key = format!("key{:04}", i);
        let value = vec![(i % 256) as u8, (i / 256) as u8];
        insert_one(&mut store, &key, value);
        if i % 97 == 0 {
            store.checkpoint().unwrap();
        }
    }
    // Kill the process: reopen from the files alone.
    let (wal, data) = store.into_files();
    let mut store = Store::open(wal, data, &config(64), 128);
    for i in (0..1000usize).step_by(37) {
        let key = format!("key{:04}", i);
        let expected = vec![(i % 256) as u8, (i / 256) as u8];
        assert_eq!(get_one(&mut store, &key).unwrap(), expected);
    }
}

#[test]
fn circular_log_stays_within_bound() {
    let max_pages = 4usize;
    let mut store = Store::open(WalFile::new(), PageFile::new(), &config(max_pages), 128);
    for i in 0..(10 * max_pages) {
        let key = format!("c{:02}", i);
        insert_one(&mut store, &key, vec![i as u8]);
        store.checkpoint().unwrap();
    }
    let (wal, data) = store.into_files();
    assert!(wal.len() <= max_pages);
    let mut store = Store::open(wal, data, &config(max_pages), 128);
    for i in 0..(10 * max_pages) {
        let key = format!("c{:02}", i);
        assert_eq!(get_one(&mut store, &key).unwrap(), vec![i as u8]);
    }
}

#[test]
fn closed_cursor_rejects_operations() {
    let mut store = fresh_store();
    let mut c = store.new_transaction().unwrap();
    c.insert(&mut store, "a".to_string(), vec![1]).unwrap();
    c.commit(&mut store).unwrap();
    assert_eq!(
        c.get(&mut store, &"a".to_string()),
        Err(Error::TransactionClosed)
    );
    assert_eq!(
        c.insert(&mut store, "b".to_string(), vec![2]),
        Err(Error::TransactionClosed)
    );
}

#[test]
fn oversized_value_is_rejected() {
    let mut store = fresh_store();
    let c = store.new_transaction().unwrap();
    let huge = vec![0u8; pagekv::PAGE_SIZE + 1];
    assert_eq!(
        c.insert(&mut store, "big".to_string(), huge),
        Err(Error::Serialization)
    );
}

#[test]
fn missing_key_not_found() {
    let mut store = fresh_store();
    insert_one(&mut store, "present", vec![7]);
    assert_eq!(get_one(&mut store, "absent"), Err(Error::NotFound));
}

#[test]
fn snapshot_reader_ignores_later_commit() {
    let mut store = fresh_store();
    insert_one(&mut store, "a", vec![1]);
    // The reader's snapshot predates the second commit.
    let reader = store.new_transaction().unwrap();
    let mut writer = store.new_transaction().unwrap();
    writer.insert(&mut store, "a".to_string(), vec![2]).unwrap();
    writer.commit(&mut store).unwrap();
    assert_eq!(reader.get(&mut store, &"a".to_string()).unwrap(), vec![1]);
    // A fresh reader sees the new value.
    assert_eq!(get_one(&mut store, "a").unwrap(), vec![2]);
}

#[test]
fn explicit_rollback_discards_buffered_records() {
    let mut store = fresh_store();
    let c: Cursor = store.new_transaction().unwrap();
    c.insert(&mut store, "r".to_string(), vec![9]).unwrap();
    let tx = c.transaction_id();
    store.abort_tx(tx);
    let (wal, data) = store.into_files();
    let mut store = Store::open(wal, data, &config(64), 128);
    assert_eq!(get_one(&mut store, "r"), Err(Error::NotFound));
}
