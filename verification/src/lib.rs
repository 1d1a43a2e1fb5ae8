//! An embedded, single-node transactional key-value store built around a
//! disk-backed B+tree of fixed-size pages, with multi-version concurrency
//! control, a circular write-ahead log with group commit and checkpointing,
//! and an LRU-bounded page cache over versioned page chains.

use vstd::prelude::*;

pub mod keys;
pub mod node;
pub mod page;
pub mod mvcc;
pub mod cache;
pub mod plist;
pub mod record;
pub mod log_buffer;
pub mod pagefile;
pub mod rotate;
pub mod wal;
pub mod recovery;
pub mod lock;
pub mod config;
pub mod store;
pub mod cursor;
pub mod batch;

verus! {

/// Page index of the tree header: the singleton root-pointer page.
pub const HEADER_INDEX: usize = 0;

/// Maximum number of keys a B+tree node may hold; nodes split when exceeded.
pub const MAX_NODE_LEN: usize = 8;

/// Size in bytes of one write-ahead-log page.
pub const WAL_PAGE_SIZE: usize = 32768;

/// Size in bytes of one data page.
pub const PAGE_SIZE: usize = 4096;

/// The error categories surfaced at the store's boundary.
#[derive(Clone, Copy, Debug, PartialEq, Eq, Structural)]
pub enum Error {
    /// No value for the key, or no page at the index.
    NotFound,
    /// The transaction was already committed; its cursor is closed.
    TransactionClosed,
    /// An input/output failure reported by the page file.
    Io,
    /// A page could not be read back as the expected kind of content.
    Serialization,
}

} // verus!
