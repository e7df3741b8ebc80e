//! How a log store is configured before it is opened: when appended pages
//! are flushed to the disk.

use crate::db::Db;
use vstd::prelude::*;

verus! {

/// When an append is followed by a flush of the file's data. Times are
/// counted in nanoseconds.
#[derive(Debug, Clone, Copy, PartialEq, Eq, Structural)]
pub enum SyncPolicy {
    /// Never: what is written stays in the operating system's cache until it
    /// decides otherwise.
    Never,
    /// After every append.
    AfterEveryAppend,
    /// After an append that comes more than this many nanoseconds after the
    /// last flush; with zero, after every append.
    Interval(u128),
}

impl SyncPolicy {
    /// An append that comes `elapsed` nanoseconds after the last flush is
    /// followed by a flush.
    pub open spec fn due(self, elapsed: nat) -> bool {
        match self {
            SyncPolicy::Never => false,
            SyncPolicy::AfterEveryAppend => true,
            SyncPolicy::Interval(interval) => interval == 0 || elapsed > interval,
        }
    }

    /// The policy that the settings of a process select: the interval where
    /// one is set; else a flush after every append where synchronous writes
    /// are asked for; else none.
    pub fn select(sync_write: bool, interval: Option<u128>) -> (policy: SyncPolicy)
        ensures
            policy == match interval {
                Some(nanos) => SyncPolicy::Interval(nanos),
                None => if sync_write {
                    SyncPolicy::AfterEveryAppend
                } else {
                    SyncPolicy::Never
                },
            },
    {
        match interval {
            Some(nanos) => SyncPolicy::Interval(nanos),
            None => if sync_write {
                SyncPolicy::AfterEveryAppend
            } else {
                SyncPolicy::Never
            },
        }
    }

    /// Decides whether an append that comes `elapsed` nanoseconds after the
    /// last flush is followed by a flush.
    pub fn is_due(&self, elapsed: u128) -> (due: bool)
        ensures
            due == self.due(elapsed as nat),
    {
        match self {
            SyncPolicy::Never => false,
            SyncPolicy::AfterEveryAppend => true,
            SyncPolicy::Interval(interval) => *interval == 0 || elapsed > *interval,
        }
    }
}

/// Collects the options of a log store.
#[derive(Debug)]
pub struct Builder {
    sync_writes: SyncPolicy,
}

impl Default for Builder {
    /// A builder whose store flushes after every append.
    fn default() -> (builder: Self)
        ensures
            builder.policy() == SyncPolicy::AfterEveryAppend,
    {
        Builder { sync_writes: SyncPolicy::AfterEveryAppend }
    }
}

impl Builder {
    /// The policy that a store built now would follow.
    pub closed spec fn policy(&self) -> SyncPolicy {
        self.sync_writes
    }

    /// Flush after every append, or never.
    pub fn sync_writes(self, sync_writes: bool) -> (builder: Self)
        ensures
            builder.policy() == if sync_writes {
                SyncPolicy::AfterEveryAppend
            } else {
                SyncPolicy::Never
            },
    {
        Self {
            sync_writes: if sync_writes {
                SyncPolicy::AfterEveryAppend
            } else {
                SyncPolicy::Never
            },
        }
    }

    /// Flush when more than `interval` nanoseconds have passed since the last
    /// flush.
    pub fn sync_write_interval(self, interval: u128) -> (builder: Self)
        ensures
            builder.policy() == SyncPolicy::Interval(interval),
    {
        Self { sync_writes: SyncPolicy::Interval(interval) }
    }

    /// Takes a whole policy in place of the one collected so far.
    pub fn sync_policy(self, policy: SyncPolicy) -> (builder: Self)
        ensures
            builder.policy() == policy,
    {
        Self { sync_writes: policy }
    }

    /// Opens a store with the collected options on a file of `file_len`
    /// bytes whose last page is `tail`, at time `now`.
    pub fn build<const ROW_SIZE: usize>(self, file_len: u64, tail: Vec<u8>, now: u128) -> (db: Db<
        ROW_SIZE,
    >)
        ensures
            db.wf(),
            db.policy() == self.policy(),
            db.opened_on(file_len as nat, tail@),
            db.last_sync() == now,
            !db.poisoned(),
    {
        let mut db = Db::open(file_len, tail, now);
        db.set_policy(self.sync_writes);
        db
    }
}

} // verus!
