//! Entry records and the key traits.
//!
//! An entry holds one key/value pair together with the bookkeeping the shard
//! needs: the LRU membership flag, the in-use counter, the advisory expire
//! flag, and the state of the value-level read/write lock.

use vstd::prelude::*;

use crate::bucket::Bucketize;

verus! {

/// Collects the traits a key must implement. Key identity is the key's view:
/// two keys denote the same entry exactly when their views are equal.
pub trait KeyTraits: Bucketize {
    /// Equality of keys, deciding view equality.
    fn key_eq(&self, other: &Self) -> (r: bool)
        ensures
            r == (self@ == other@),
    ;

    /// A clone of the key, denoting the same view.
    fn key_clone(&self) -> (r: Self)
        ensures
            r@ == self@,
    ;
}

/// One key/value record of a shard.
///
/// The value slot is empty only during the construction window, while the
/// constructing caller holds the value write lock. The lock state of the
/// value-level read/write lock is carried as a reader count and a writer
/// flag; every lock holder also holds one use of the entry.
#[derive(Debug)]
pub struct Entry<K, V> {
    /// The key; immutable after construction.
    pub key: K,
    /// The value slot, empty only during construction.
    pub value: Option<V>,
    /// Whether the entry is linked into the shard's LRU queue.
    pub linked: bool,
    /// Number of outstanding uses; positive while any guard exists.
    pub use_count: usize,
    /// Advisory flag demanding early eviction; set through guards.
    pub expire: bool,
    /// Number of read locks held on the value.
    pub readers: usize,
    /// Whether the write lock is held on the value.
    pub writer: bool,
}

impl<K, V> Entry<K, V> {
    /// Well-formedness of a single entry at rest:
    /// linked exactly when idle, lock holders never exceed the use count,
    /// readers and the writer exclude each other, and an empty value slot
    /// occurs only under the construction write lock.
    pub open spec fn wf(&self) -> bool {
        &&& self.linked <==> self.use_count == 0
        &&& self.readers + (if self.writer {
            1int
        } else {
            0int
        }) <= self.use_count
        &&& !(self.writer && self.readers > 0)
        &&& self.value is None ==> self.writer
    }

    /// A fresh record: value empty, one use owned by the constructing
    /// caller, not yet linked, no lock holders.
    pub fn new(key: K) -> (r: Self)
        ensures
            r.key == key,
            r.value is None,
            !r.linked,
            r.use_count == 1,
            !r.expire,
            r.readers == 0,
            !r.writer,
    {
        Entry {
            key,
            value: None,
            linked: false,
            use_count: 1,
            expire: false,
            readers: 0,
            writer: false,
        }
    }
}

/// Token for a held read lock on an entry's value. It is returned by the
/// lookup operations and must be handed back through `release_read`, which
/// performs what dropping the guard does in a scoped-guard design.
#[derive(Debug)]
pub struct EntryReadGuard<K> {
    /// The key of the guarded entry.
    pub key: K,
}

/// Token for a held write lock on an entry's value; handed back through
/// `release_write`, or through `downgrade` to keep reading.
#[derive(Debug)]
pub struct EntryWriteGuard<K> {
    /// The key of the guarded entry.
    pub key: K,
}

} // verus!
