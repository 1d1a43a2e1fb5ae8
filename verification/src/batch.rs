//! Group commit: the batching decision of the page file's write batcher.
//! Writes accumulate until either their count reaches the group size or
//! the timer fires; then the whole group is forwarded, one fsync is
//! issued, and every waiter completes together. The surrounding runtime
//! owns the clock and the channels; the decision of when a group closes
//! is made here.

use vstd::prelude::*;

verus! {

/// What the batcher should do after an event.
#[derive(Clone, Copy, Debug, PartialEq, Eq, Structural)]
pub enum BatchDecision {
    /// Keep accumulating.
    Wait,
    /// Issue one fsync now and complete the carried number of waiters.
    FlushGroup(usize),
}

/// The batching state: how many writes are waiting for their fsync.
pub struct GroupCommit {
    pending: usize,
    batch_size: usize,
}

impl GroupCommit {
    /// Waiters accumulated since the last flush.
    pub closed spec fn pending_count(self) -> usize {
        self.pending
    }

    /// The count that closes a group.
    pub closed spec fn group_size(self) -> usize {
        self.batch_size
    }

    pub closed spec fn wf(self) -> bool {
        self.batch_size >= 1
    }

    /// Waiters accumulated since the last flush.
    pub fn pending(&self) -> (r: usize)
        ensures
            r == self.pending_count(),
    {
        self.pending
    }

    pub fn new(batch_size: usize) -> (r: GroupCommit)
        requires
            batch_size >= 1,
        ensures
            r.wf(),
            r.pending_count() == 0,
            r.group_size() == batch_size,
    {
        GroupCommit { pending: 0, batch_size }
    }

    /// A write completed its disk pass and joined the group: flush exactly
    /// when the group is full.
    pub fn on_write(&mut self) -> (r: BatchDecision)
        requires
            old(self).wf(),
            old(self).pending_count() < usize::MAX,
        ensures
            final(self).wf(),
            final(self).group_size() == old(self).group_size(),
            if old(self).pending_count() + 1 >= old(self).group_size() {
                r == BatchDecision::FlushGroup((old(self).pending_count() + 1) as usize)
                    && final(self).pending_count() == 0
            } else {
                r == BatchDecision::Wait && final(self).pending_count() == old(
                    self,
                ).pending_count() + 1
            },
    {
        self.pending = self.pending + 1;
        if self.pending >= self.batch_size {
            let n = self.pending;
            self.pending = 0;
            BatchDecision::FlushGroup(n)
        } else {
            BatchDecision::Wait
        }
    }

    /// The delay elapsed: flush whatever waits, if anything does.
    pub fn on_timer(&mut self) -> (r: BatchDecision)
        requires
            old(self).wf(),
        ensures
            final(self).wf(),
            final(self).group_size() == old(self).group_size(),
            final(self).pending_count() == 0,
            if old(self).pending_count() > 0 {
                r == BatchDecision::FlushGroup(old(self).pending_count())
            } else {
                r == BatchDecision::Wait
            },
    {
        if self.pending > 0 {
            let n = self.pending;
            self.pending = 0;
            BatchDecision::FlushGroup(n)
        } else {
            BatchDecision::Wait
        }
    }

    /// A write failed and left the group before joining it: nothing to
    /// complete for it at the next fsync.
    pub fn on_failed_write(&self) -> (r: BatchDecision)
        ensures
            r == BatchDecision::Wait,
    {
        BatchDecision::Wait
    }
}

} // verus!
