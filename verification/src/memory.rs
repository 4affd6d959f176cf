//! Bookkeeping of the memory that a sink group has buffered, against what the
//! system has free.

use vstd::prelude::*;

verus! {

/// How many looks at the free memory each thread of the group takes before
/// the figure is due to be refreshed.
pub const REFRESH_PERIOD: usize = 64;

/// The looks at the free memory between two refreshes, for a group of
/// `threads` threads: `REFRESH_PERIOD` each, at least one, capped at what a
/// `usize` holds.
pub open spec fn refresh_interval(threads: nat) -> int {
    if threads == 0 {
        1
    } else if REFRESH_PERIOD * threads > usize::MAX {
        usize::MAX as int
    } else {
        REFRESH_PERIOD * threads
    }
}

/// Whether a sink that has buffered `used` bytes must stop sorting in memory:
/// the sort needs room of its own, so three times the data must fit in what is
/// free.
pub open spec fn over_budget(used: nat, free: nat) -> bool {
    3 * used > free
}

/// Decides `over_budget`.
pub fn exceeds_budget(used: usize, free: usize) -> (over: bool)
    ensures
        over == over_budget(used as nat, free as nat),
{
    used > free / 3
}

/// The running estimate of the bytes that a sink group holds, and the free
/// memory as it was last read.
#[derive(Debug, Clone, Copy, PartialEq, Eq)]
pub struct MemTracker {
    used: usize,
    available: usize,
    fetch_count: usize,
    thread_count: usize,
}

impl MemTracker {
    /// The bytes accounted so far.
    pub closed spec fn used(self) -> nat {
        self.used as nat
    }

    /// The free memory as last read.
    pub closed spec fn available(self) -> nat {
        self.available as nat
    }

    /// The looks at the free memory taken so far, counted round a `usize`.
    pub closed spec fn fetch_count(self) -> nat {
        self.fetch_count as nat
    }

    /// The threads of the group.
    pub closed spec fn thread_count(self) -> nat {
        self.thread_count as nat
    }

    /// A tracker for a group of `thread_count` threads that has accounted
    /// nothing, with `available` bytes free.
    pub fn new(thread_count: usize, available: usize) -> (tracker: MemTracker)
        ensures
            tracker.used() == 0,
            tracker.available() == available,
            tracker.fetch_count() == 0,
            tracker.thread_count() == thread_count,
    {
        MemTracker { used: 0, available, fetch_count: 0, thread_count }
    }

    /// Accounts `bytes` more and returns the new total, capped at what a
    /// `usize` holds.
    pub fn fetch_add(&mut self, bytes: usize) -> (used: usize)
        ensures
            used == final(self).used(),
            final(self).used() == if old(self).used() + bytes > usize::MAX {
                usize::MAX as nat
            } else {
                old(self).used() + bytes as nat
            },
            final(self).available() == old(self).available(),
            final(self).fetch_count() == old(self).fetch_count(),
            final(self).thread_count() == old(self).thread_count(),
    {
        self.used = self.used.saturating_add(bytes);
        self.used
    }

    /// The free memory as last read.
    pub fn get_available(&self) -> (free: usize)
        ensures
            free == self.available(),
    {
        self.available
    }

    /// The bytes accounted so far.
    pub fn get_used(&self) -> (used: usize)
        ensures
            used == self.used(),
    {
        self.used
    }

    /// Counts one look at the free memory and says whether the figure is due
    /// to be read anew: at the first look, and then once every
    /// `refresh_interval` looks.
    pub fn refresh_due(&mut self) -> (due: bool)
        ensures
            due == (old(self).fetch_count() as int % refresh_interval(old(self).thread_count()) == 0),
            final(self).fetch_count() == if old(self).fetch_count() == usize::MAX {
                0
            } else {
                old(self).fetch_count() + 1
            },
            final(self).used() == old(self).used(),
            final(self).available() == old(self).available(),
            final(self).thread_count() == old(self).thread_count(),
    {
        let interval: usize = if self.thread_count == 0 {
            1
        } else {
            match REFRESH_PERIOD.checked_mul(self.thread_count) {
                Some(n) => n,
                None => usize::MAX,
            }
        };
        let due: bool = self.fetch_count % interval == 0;
        self.fetch_count = if self.fetch_count == usize::MAX {
            0
        } else {
            self.fetch_count + 1
        };
        due
    }

    /// Takes a new reading of the free memory.
    pub fn refresh(&mut self, free: usize)
        ensures
            final(self).available() == free,
            final(self).used() == old(self).used(),
            final(self).fetch_count() == old(self).fetch_count(),
            final(self).thread_count() == old(self).thread_count(),
    {
        self.available = free;
    }
}

} // verus!
