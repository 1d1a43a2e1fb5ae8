//! Per-page read/write intent locks: the decision core of the lock
//! manager. Granting, queueing and releasing are decided here; parking and
//! waking the blocked callers is the surrounding runtime's concern.

use vstd::prelude::*;

verus! {

/// The state of one page's lock.
#[derive(Clone, Copy, Debug, PartialEq, Eq, Structural)]
pub enum LockStatus {
    /// Nobody holds the lock.
    Released,
    /// Held by the carried number of readers.
    Read(usize),
    /// Held by one writer.
    Write,
}

/// A granted lock on one page; dropping it is the caller's signal to
/// release.
pub struct PageLock {
    index: usize,
}

impl PageLock {
    pub fn new(index: usize) -> (r: PageLock)
        ensures
            r.page() == index,
    {
        PageLock { index }
    }

    /// The page this lock covers.
    pub closed spec fn page(self) -> usize {
        self.index
    }

    pub fn page_index(&self) -> (r: usize)
        ensures
            r == self.page(),
    {
        self.index
    }
}

/// The lock state of one page, with the number of callers waiting for it.
pub struct PageLocker {
    status: LockStatus,
    blocked: usize,
}

impl PageLocker {
    pub closed spec fn state(self) -> LockStatus {
        self.status
    }

    pub closed spec fn waiting(self) -> usize {
        self.blocked
    }

    /// A reader count is never zero.
    pub closed spec fn wf(self) -> bool {
        self.status matches LockStatus::Read(n) ==> n >= 1
    }

    /// How many callers are parked waiting for this page.
    pub fn waiting_count(&self) -> (r: usize)
        ensures
            r == self.waiting(),
    {
        self.blocked
    }

    /// The current lock state.
    pub fn status(&self) -> (r: LockStatus)
        ensures
            r == self.state(),
    {
        self.status
    }

    pub fn new() -> (r: PageLocker)
        ensures
            r.wf(),
            r.state() == LockStatus::Released,
            r.waiting() == 0,
    {
        PageLocker { status: LockStatus::Released, blocked: 0 }
    }

    /// Requests a read lock on `index`: granted while no writer holds the
    /// page, sharing with other readers; otherwise the caller queues.
    pub fn fetch_read(&mut self, index: usize) -> (r: Option<PageLock>)
        requires
            old(self).wf(),
            old(self).state() matches LockStatus::Read(n) ==> n < usize::MAX,
            old(self).waiting() < usize::MAX,
        ensures
            final(self).wf(),
            match old(self).state() {
                LockStatus::Released => r matches Some(l) && l.page() == index && final(self).state() == LockStatus::Read(1) && final(self).waiting() == old(self).waiting(),
                LockStatus::Read(n) => r matches Some(l) && l.page() == index && final(self).state() == LockStatus::Read((n + 1) as usize) && final(self).waiting() == old(self).waiting(),
                LockStatus::Write => r is None && final(self).state() == LockStatus::Write
                    && final(self).waiting() == old(self).waiting() + 1,
            },
    {
        match self.status {
            LockStatus::Released => {
                self.status = LockStatus::Read(1);
                Some(PageLock::new(index))
            },
            LockStatus::Read(count) => {
                self.status = LockStatus::Read(count + 1);
                Some(PageLock::new(index))
            },
            LockStatus::Write => {
                self.blocked = self.blocked + 1;
                None
            },
        }
    }

    /// Requests a write lock on `index`: granted only while nobody holds
    /// the page; otherwise the caller queues.
    pub fn fetch_write(&mut self, index: usize) -> (r: Option<PageLock>)
        requires
            old(self).wf(),
            old(self).waiting() < usize::MAX,
        ensures
            final(self).wf(),
            match old(self).state() {
                LockStatus::Released => r matches Some(l) && l.page() == index && final(self).state() == LockStatus::Write && final(self).waiting() == old(self).waiting(),
                _ => r is None && final(self).state() == old(self).state() && final(self).waiting() == old(self).waiting() + 1,
            },
    {
        if matches!(self.status, LockStatus::Released) {
            self.status = LockStatus::Write;
            return Some(PageLock::new(index));
        }
        self.blocked = self.blocked + 1;
        None
    }

    /// Releases one hold on the page. When the page becomes free and
    /// callers were queued, returns how many to wake; they retry their
    /// requests.
    pub fn release(&mut self) -> (r: Option<usize>)
        requires
            old(self).wf(),
        ensures
            final(self).wf(),
            match old(self).state() {
                LockStatus::Read(n) => if n > 1 {
                    final(self).state() == LockStatus::Read((n - 1) as usize) && final(self).waiting() == old(self).waiting() && r is None
                } else {
                    final(self).state() == LockStatus::Released && (if old(self).waiting() == 0 {
                        r is None && final(self).waiting() == 0
                    } else {
                        r == Some(old(self).waiting()) && final(self).waiting() == 0
                    })
                },
                _ => final(self).state() == LockStatus::Released && (if old(self).waiting()
                    == 0 {
                    r is None && final(self).waiting() == 0
                } else {
                    r == Some(old(self).waiting()) && final(self).waiting() == 0
                }),
            },
    {
        if let LockStatus::Read(count) = self.status {
            if count != 1 {
                self.status = LockStatus::Read(count - 1);
                return None;
            }
        }
        self.status = LockStatus::Released;
        if self.blocked == 0 {
            return None;
        }
        let n = self.blocked;
        self.blocked = 0;
        Some(n)
    }
}

} // verus!
