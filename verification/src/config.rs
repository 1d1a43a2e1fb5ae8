//! Configuration of the store's components. Durations are carried in
//! milliseconds; the surrounding runtime turns them into its own clock's
//! terms.

use vstd::prelude::*;

verus! {

/// Configuration of the write-ahead log.
#[derive(Clone, Debug)]
pub struct WriteAheadLogConfig {
    pub path: String,
    pub max_buffer_size: usize,
    pub checkpoint_interval_ms: u64,
    pub checkpoint_count: usize,
    pub group_commit_delay_ms: u64,
    pub group_commit_count: usize,
    /// Size of the circular log file in bytes; divided by the log page
    /// size on open.
    pub max_file_size: usize,
}

/// Configuration of a page-indexed file.
#[derive(Clone, Debug)]
pub struct FinderConfig {
    pub path: String,
    pub batch_delay_ms: u64,
    pub batch_size: usize,
}

} // verus!
