//! How a value-level lock is acquired.
//!
//! A locking method selects the acquisition strategy for the value-level
//! read/write lock of an entry. `Blocking` waits unconditionally and never
//! fails; the other methods give up and report `LockUnavailable` when the
//! lock cannot be obtained in time. `Recursive` delegates to its inner
//! method and additionally permits the same caller to re-enter a read lock
//! it already holds; write re-entry is not defined.

use vstd::prelude::*;

verus! {

/// Strategy for acquiring an entry's value-level lock.
#[derive(Debug)]
pub enum LockingMethod {
    /// Wait unconditionally; never fails.
    Blocking,
    /// Attempt once; fail when the lock is not immediately acquirable.
    TryLock,
    /// Attempt with a timeout in milliseconds; fail on expiry.
    Duration(u64),
    /// Attempt until a point in time, in milliseconds on some fixed epoch;
    /// fail on expiry.
    Deadline(u64),
    /// Delegate to the inner method, allowing read re-entry.
    Recursive(Box<LockingMethod>),
}

impl LockingMethod {
    /// Whether this method waits unconditionally for the lock.
    pub open spec fn blocks(&self) -> bool
        decreases self,
    {
        match self {
            LockingMethod::Blocking => true,
            LockingMethod::Recursive(inner) => inner.blocks(),
            _ => false,
        }
    }

    /// Computes whether this method waits unconditionally.
    pub fn is_blocking(&self) -> (r: bool)
        ensures
            r == self.blocks(),
        decreases self,
    {
        match self {
            LockingMethod::Blocking => true,
            LockingMethod::Recursive(inner) => inner.is_blocking(),
            _ => false,
        }
    }
}

} // verus!
