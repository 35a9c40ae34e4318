//! In-memory key/value cache with per-shard least-recently-used eviction.
//!
//! Entries live in sharded storage, routed by the key's `Bucketize` index;
//! each shard keeps its currently idle entries (those with no outstanding
//! guard) in an LRU queue, front coldest. Looking an entry up detaches it
//! from the queue and bumps its use count; handing the guard back returns it
//! to the warm end. An adaptive controller tracks a decaying peak of the
//! in-use count and interpolates it into the target fraction of capacity to
//! spend on cold entries.
//!
//! Lock state is part of the model: every entry carries its value-level
//! read/write lock as a reader count and a writer flag, and every lock
//! holder also holds one use of the entry, so an entry is linked into the
//! LRU queue exactly when nothing references it.

use vstd::prelude::*;

pub mod bucket;
pub mod entry;
pub mod keys;
pub mod locking_method;

pub use crate::bucket::{Bucket, Bucketize};
pub use crate::entry::{Entry, EntryReadGuard, EntryWriteGuard, KeyTraits};
pub use crate::locking_method::LockingMethod;

use crate::bucket::seq_has_kv;

verus! {

/// The errors the cache itself reports. Constructor failures are surfaced
/// separately by the construction protocol.
#[derive(Debug, PartialEq, Eq, Structural, Clone, Copy)]
pub enum Error {
    /// The entry was not found.
    NoEntry,
    /// Locking an entry failed.
    LockUnavailable,
}

impl Error {
    /// A human-readable description of the error.
    pub fn message(&self) -> (r: &'static str)
        ensures
            *self is NoEntry ==> r@ == "Entry not found"@,
            *self is LockUnavailable ==> r@ == "Trying to lock failed"@,
    {
        match self {
            Error::NoEntry => "Entry not found",
            Error::LockUnavailable => "Trying to lock failed",
        }
    }
}

/// The concurrent-by-design key/value store: a fixed array of `N` shards,
/// each with its own LRU queue, plus a counter that suspends automatic
/// eviction while positive.
#[derive(Debug)]
pub struct CacheDb<K, V, const N: usize> where K: KeyTraits {
    /// The shards; a key lives in the shard its `Bucketize` index names.
    pub buckets: Vec<Bucket<K, V>>,
    /// While positive, no automatic or explicit eviction happens.
    pub lru_disabled: u32,
}

impl<K: KeyTraits, V, const N: usize> CacheDb<K, V, N> {
    /// The shard a key view is routed to.
    pub open spec fn shard_of(kv: <K as View>::V) -> int {
        <K as Bucketize>::bucket_spec(kv, N as int)
    }

    /// Well-formedness: exactly `N` well-formed shards, and every stored
    /// entry sits in the shard its key routes to.
    pub open spec fn wf(&self) -> bool {
        &&& N >= 1
        &&& self.buckets@.len() == N
        &&& forall|b: int| 0 <= b < N ==> (#[trigger] self.buckets@[b]).wf()
        &&& forall|b: int, i: int|
            0 <= b < N && 0 <= i < self.buckets@[b].entries@.len() ==> Self::shard_of(
                (#[trigger] self.buckets@[b].entries@[i]).key@,
            ) == b
    }

    /// Whether the cache stores an entry under this key view.
    pub open spec fn contains_kv(&self, kv: <K as View>::V) -> bool {
        &&& 0 <= Self::shard_of(kv) < self.buckets@.len()
        &&& self.buckets@[Self::shard_of(kv)].has_kv(kv)
    }

    /// The record stored under this key view; meaningful when present.
    pub open spec fn entry_of(&self, kv: <K as View>::V) -> Entry<K, V> {
        self.buckets@[Self::shard_of(kv)].entry_at(kv)
    }

    /// The value stored under this key view; meaningful when present.
    pub open spec fn value_of(&self, kv: <K as View>::V) -> Option<V> {
        self.entry_of(kv).value
    }

    /// The two cache states are observably identical.
    pub open spec fn state_eq(pre: Self, post: Self) -> bool {
        &&& post.lru_disabled == pre.lru_disabled
        &&& post.buckets@.len() == pre.buckets@.len()
        &&& forall|b: int|
            0 <= b < pre.buckets@.len() ==> Bucket::same_all(
                #[trigger] pre.buckets@[b],
                post.buckets@[b],
            )
    }

    /// Every key but `kv` keeps its presence and its record.
    pub open spec fn frame_except(pre: Self, post: Self, kv: <K as View>::V) -> bool {
        &&& post.lru_disabled == pre.lru_disabled
        &&& post.buckets@.len() == pre.buckets@.len()
        &&& forall|kv2: <K as View>::V|
            kv2 != kv ==> ((#[trigger] post.contains_kv(kv2)) <==> pre.contains_kv(kv2))
        &&& forall|kv2: <K as View>::V|
            kv2 != kv && pre.contains_kv(kv2) ==> #[trigger] post.entry_of(kv2) == pre.entry_of(kv2)
    }

    /// Every key but `kv` that is still present keeps its record, and every
    /// in-use record survives; cold records may have been evicted.
    pub open spec fn frame_shrink_except(pre: Self, post: Self, kv: <K as View>::V) -> bool {
        &&& post.lru_disabled == pre.lru_disabled
        &&& post.buckets@.len() == pre.buckets@.len()
        &&& forall|kv2: <K as View>::V|
            kv2 != kv && (#[trigger] post.contains_kv(kv2)) ==> pre.contains_kv(kv2)
                && post.entry_of(kv2) == pre.entry_of(kv2)
        &&& forall|kv2: <K as View>::V|
            kv2 != kv && pre.contains_kv(kv2) && (#[trigger] pre.entry_of(kv2)).use_count > 0
                ==> post.contains_kv(kv2)
    }

    /// A valid token for a held read lock: the entry is present, has a
    /// reader, and its value is populated.
    pub open spec fn read_guard_ok(&self, g: EntryReadGuard<K>) -> bool {
        &&& self.contains_kv(g.key@)
        &&& self.entry_of(g.key@).readers >= 1
        &&& self.entry_of(g.key@).value is Some
    }

    /// A valid token for the held write lock: the entry is present and
    /// write-locked. During construction its value slot may still be empty.
    pub open spec fn write_guard_ok(&self, g: EntryWriteGuard<K>) -> bool {
        &&& self.contains_kv(g.key@)
        &&& self.entry_of(g.key@).writer
    }

    /// After replacing one shard in which one entry was updated in place
    /// (same key, either flag), the cache is well-formed again and every
    /// other key is untouched.
    proof fn lemma_one_bucket_update(pre: Self, post: Self, b: int, i: int)
        requires
            pre.wf(),
            0 <= b < N,
            post.lru_disabled == pre.lru_disabled,
            post.buckets@ == pre.buckets@.update(b, post.buckets@[b]),
            post.buckets@[b].wf(),
            0 <= i < pre.buckets@[b].entries@.len(),
            post.buckets@[b].entries@ == pre.buckets@[b].entries@.update(
                i,
                post.buckets@[b].entries@[i],
            ),
            post.buckets@[b].entries@[i].key@ == pre.buckets@[b].entries@[i].key@,
            Self::shard_of(pre.buckets@[b].entries@[i].key@) == b,
        ensures
            post.wf(),
            Self::frame_except(pre, post, pre.buckets@[b].entries@[i].key@),
            post.contains_kv(pre.buckets@[b].entries@[i].key@),
            post.entry_of(pre.buckets@[b].entries@[i].key@) == post.buckets@[b].entries@[i],
            pre.contains_kv(pre.buckets@[b].entries@[i].key@),
            pre.entry_of(pre.buckets@[b].entries@[i].key@) == pre.buckets@[b].entries@[i],
    {
        let kv = pre.buckets@[b].entries@[i].key@;
        let ob = pre.buckets@[b];
        let nb = post.buckets@[b];
        Bucket::lemma_update_entry_frame(ob, nb, i);
        ob.lemma_idx_unique(kv, i);
        nb.lemma_idx_unique(kv, i);
        assert(post.wf()) by {
            assert(forall|k: int|
                0 <= k < nb.entries@.len() ==> (#[trigger] nb.entries@[k]).key@
                    == ob.entries@[k].key@);
        }
        assert forall|kv2: <K as View>::V| kv2 != kv implies ((#[trigger] post.contains_kv(kv2))
            <==> pre.contains_kv(kv2)) by {
            let s2 = Self::shard_of(kv2);
            if 0 <= s2 < N && s2 != b {
                assert(post.buckets@[s2] == pre.buckets@[s2]);
            }
        }
        assert forall|kv2: <K as View>::V|
            kv2 != kv && pre.contains_kv(kv2) implies #[trigger] post.entry_of(kv2)
            == pre.entry_of(kv2) by {
            let s2 = Self::shard_of(kv2);
            if s2 != b {
                assert(post.buckets@[s2] == pre.buckets@[s2]);
            }
        }
    }

    /// Creates a cache of `N` fresh shards. Every key routes to one of
    /// them, so only a positive shard count gives a usable cache.
    pub fn new() -> (r: Self)
        ensures
            N >= 1 ==> r.wf(),
            r.lru_disabled == 0,
            forall|b: int| 0 <= b < N ==> (#[trigger] r.buckets@[b]).is_fresh(),
            forall|kv: <K as View>::V| !r.contains_kv(kv),
    {
        let mut buckets: Vec<Bucket<K, V>> = Vec::new();
        let mut b: usize = 0;
        while b < N
            invariant
                b <= N,
                buckets@.len() == b,
                forall|k: int| 0 <= k < b ==> (#[trigger] buckets@[k]).wf(),
                forall|k: int| 0 <= k < b ==> (#[trigger] buckets@[k]).is_fresh(),
            decreases N - b,
        {
            buckets.push(Bucket::new());
            b = b + 1;
        }
        CacheDb { buckets, lru_disabled: 0 }
    }

    /// Whether the cache currently stores the key. In a concurrent setting
    /// this is only a momentary probe.
    pub fn contains_key(&self, key: &K) -> (r: bool)
        requires
            self.wf(),
        ensures
            r == self.contains_kv(key@),
    {
        let b = key.bucket(N);
        match self.buckets[b].find(key) {
            Some(_) => true,
            None => false,
        }
    }

    /// Looks the key up for reading: detaches the entry from the LRU queue,
    /// bumps its use count and takes a read lock on its value, handing back
    /// a guard. Fails with `NoEntry` when the key is absent; when the value
    /// is write-locked, a non-blocking method rolls the use back and fails
    /// with `LockUnavailable`, leaving the cache as it was. A blocking
    /// method would wait for the writer, so it demands the lock free.
    pub fn get(&mut self, method: &LockingMethod, key: &K) -> (r: Result<
        EntryReadGuard<K>,
        Error,
    >)
        requires
            old(self).wf(),
            old(self).contains_kv(key@) ==> old(self).entry_of(key@).use_count < usize::MAX,
            method.blocks() && old(self).contains_kv(key@) ==> !old(self).entry_of(key@).writer,
        ensures
            final(self).wf(),
            !old(self).contains_kv(key@) ==> r == Err::<EntryReadGuard<K>, Error>(Error::NoEntry)
                && Self::state_eq(*old(self), *final(self)),
            old(self).contains_kv(key@) && old(self).entry_of(key@).writer ==> r == Err::<
                EntryReadGuard<K>,
                Error,
            >(Error::LockUnavailable) && Self::state_eq(*old(self), *final(self)),
            old(self).contains_kv(key@) && !old(self).entry_of(key@).writer ==> {
                &&& r is Ok
                &&& (r->Ok_0).key@ == key@
                &&& final(self).read_guard_ok(r->Ok_0)
                &&& final(self).contains_kv(key@)
                &&& ({
                    let e0 = old(self).entry_of(key@);
                    final(self).entry_of(key@) == Entry {
                        linked: false,
                        use_count: (e0.use_count + 1) as usize,
                        readers: (e0.readers + 1) as usize,
                        ..e0
                    }
                })
                &&& final(self).value_of(key@) == old(self).value_of(key@)
                &&& Self::frame_except(*old(self), *final(self), key@)
            },
    {
        let ghost pre = *self;
        let b = key.bucket(N);
        let mut bucket = self.buckets.remove(b);
        let ghost ob = bucket;
        let found = bucket.find(key);
        match found {
            None => {
                self.buckets.insert(b, bucket);
                proof {
                    assert(self.buckets@ =~= pre.buckets@);
                }
                Err(Error::NoEntry)
            },
            Some(i) => {
                proof {
                    ob.lemma_idx_unique(key@, i as int);
                }
                let writer_held = bucket.entries[i].writer;
                if writer_held {
                    let blocking = method.is_blocking();
                    // A blocking method never reaches a held write lock.
                    assert(!blocking);
                    bucket.use_entry(i);
                    bucket.rollback_use(i);
                    let ghost nb = bucket;
                    self.buckets.insert(b, bucket);
                    proof {
                        let e0 = ob.entries@[i as int];
                        assert(nb.entries@ =~= ob.entries@);
                        assert(self.buckets@ =~= pre.buckets@.update(b as int, nb));
                        assert(Self::state_eq(pre, *self));
                    }
                    Err(Error::LockUnavailable)
                } else {
                    bucket.use_entry(i);
                    let readers = bucket.entries[i].readers;
                    proof {
                        assert(bucket.entries@[i as int].readers < bucket.entries@[i as int].use_count);
                    }
                    bucket.update_lock(i, readers + 1, false);
                    let ghost nb = bucket;
                    self.buckets.insert(b, bucket);
                    let guard = EntryReadGuard { key: key.key_clone() };
                    proof {
                        assert(nb.entries@ =~= ob.entries@.update(i as int, nb.entries@[i as int]));
                        assert(self.buckets@ =~= pre.buckets@.update(b as int, nb));
                        Self::lemma_one_bucket_update(pre, *self, b as int, i as int);
                    }
                    Ok(guard)
                }
            },
        }
    }

    /// After replacing one shard from which one record was removed, the
    /// cache is well-formed again and every other key is untouched.
    proof fn lemma_one_bucket_removal(pre: Self, post: Self, b: int, kv0: <K as View>::V)
        requires
            pre.wf(),
            0 <= b < N,
            post.lru_disabled == pre.lru_disabled,
            post.buckets@ == pre.buckets@.update(b, post.buckets@[b]),
            post.buckets@[b].wf(),
            Self::shard_of(kv0) == b,
            !post.buckets@[b].has_kv(kv0),
            forall|kv2: <K as View>::V|
                kv2 != kv0 ==> ((#[trigger] post.buckets@[b].has_kv(kv2)) <==> pre.buckets@[b].has_kv(
                    kv2,
                )),
            forall|kv2: <K as View>::V|
                kv2 != kv0 && pre.buckets@[b].has_kv(kv2) ==> #[trigger] post.buckets@[b].entry_at(
                    kv2,
                ) == pre.buckets@[b].entry_at(kv2),
            forall|i: int|
                0 <= i < post.buckets@[b].entries@.len() ==> seq_has_kv(
                    pre.buckets@[b].entries@,
                    (#[trigger] post.buckets@[b].entries@[i]).key@,
                ),
        ensures
            post.wf(),
            Self::frame_except(pre, post, kv0),
            !post.contains_kv(kv0),
    {
        assert(post.wf()) by {
            assert forall|b2: int, i: int|
                0 <= b2 < N && 0 <= i < post.buckets@[b2].entries@.len() implies Self::shard_of(
                (#[trigger] post.buckets@[b2].entries@[i]).key@,
            ) == b2 by {
                if b2 == b {
                    let kv = post.buckets@[b].entries@[i].key@;
                    let w = choose|w: int|
                        0 <= w < pre.buckets@[b].entries@.len() && (
                        #[trigger] pre.buckets@[b].entries@[w]).key@ == kv;
                }
            }
        }
        assert forall|kv2: <K as View>::V| kv2 != kv0 implies ((#[trigger] post.contains_kv(kv2))
            <==> pre.contains_kv(kv2)) by {
            let s2 = Self::shard_of(kv2);
            if 0 <= s2 < N && s2 != b {
                assert(post.buckets@[s2] == pre.buckets@[s2]);
            }
        }
        assert forall|kv2: <K as View>::V|
            kv2 != kv0 && pre.contains_kv(kv2) implies #[trigger] post.entry_of(kv2)
            == pre.entry_of(kv2) by {
            let s2 = Self::shard_of(kv2);
            if s2 != b {
                assert(post.buckets@[s2] == pre.buckets@[s2]);
            }
        }
    }

    /// Looks the key up for writing: like `get`, but takes the write lock,
    /// which demands the value free of readers and writer alike.
    pub fn get_mut(&mut self, method: &LockingMethod, key: &K) -> (r: Result<
        EntryWriteGuard<K>,
        Error,
    >)
        requires
            old(self).wf(),
            old(self).contains_kv(key@) ==> old(self).entry_of(key@).use_count < usize::MAX,
            method.blocks() && old(self).contains_kv(key@) ==> !old(self).entry_of(key@).writer
                && old(self).entry_of(key@).readers == 0,
        ensures
            final(self).wf(),
            !old(self).contains_kv(key@) ==> r == Err::<EntryWriteGuard<K>, Error>(Error::NoEntry)
                && Self::state_eq(*old(self), *final(self)),
            old(self).contains_kv(key@) && (old(self).entry_of(key@).writer || old(self).entry_of(
                key@,
            ).readers > 0) ==> r == Err::<EntryWriteGuard<K>, Error>(Error::LockUnavailable)
                && Self::state_eq(*old(self), *final(self)),
            old(self).contains_kv(key@) && !old(self).entry_of(key@).writer && old(self).entry_of(
                key@,
            ).readers == 0 ==> {
                &&& r is Ok
                &&& (r->Ok_0).key@ == key@
                &&& final(self).write_guard_ok(r->Ok_0)
                &&& final(self).contains_kv(key@)
                &&& ({
                    let e0 = old(self).entry_of(key@);
                    final(self).entry_of(key@) == Entry {
                        linked: false,
                        use_count: (e0.use_count + 1) as usize,
                        writer: true,
                        ..e0
                    }
                })
                &&& final(self).value_of(key@) == old(self).value_of(key@)
                &&& Self::frame_except(*old(self), *final(self), key@)
            },
    {
        let ghost pre = *self;
        let b = key.bucket(N);
        let mut bucket = self.buckets.remove(b);
        let ghost ob = bucket;
        let found = bucket.find(key);
        match found {
            None => {
                self.buckets.insert(b, bucket);
                proof {
                    assert(self.buckets@ =~= pre.buckets@);
                }
                Err(Error::NoEntry)
            },
            Some(i) => {
                proof {
                    ob.lemma_idx_unique(key@, i as int);
                }
                let unavailable = bucket.entries[i].writer || bucket.entries[i].readers > 0;
                if unavailable {
                    let blocking = method.is_blocking();
                    // A blocking method never reaches a held lock.
                    assert(!blocking);
                    bucket.use_entry(i);
                    bucket.rollback_use(i);
                    let ghost nb = bucket;
                    self.buckets.insert(b, bucket);
                    proof {
                        assert(nb.entries@ =~= ob.entries@);
                        assert(self.buckets@ =~= pre.buckets@.update(b as int, nb));
                        assert(Self::state_eq(pre, *self));
                    }
                    Err(Error::LockUnavailable)
                } else {
                    bucket.use_entry(i);
                    bucket.update_lock(i, 0, true);
                    let ghost nb = bucket;
                    self.buckets.insert(b, bucket);
                    let guard = EntryWriteGuard { key: key.key_clone() };
                    proof {
                        assert(nb.entries@ =~= ob.entries@.update(i as int, nb.entries@[i as int]));
                        assert(self.buckets@ =~= pre.buckets@.update(b as int, nb));
                        Self::lemma_one_bucket_update(pre, *self, b as int, i as int);
                    }
                    Ok(guard)
                }
            },
        }
    }

    /// Hands a read guard back: releases the read lock and the use it
    /// carried. When the last use goes, the entry is linked at the warm end
    /// of its shard's LRU queue.
    pub fn release_read(&mut self, g: EntryReadGuard<K>)
        requires
            old(self).wf(),
            old(self).read_guard_ok(g),
        ensures
            final(self).wf(),
            final(self).contains_kv(g.key@),
            ({
                let e0 = old(self).entry_of(g.key@);
                final(self).entry_of(g.key@) == Entry {
                    linked: e0.use_count == 1,
                    use_count: (e0.use_count - 1) as usize,
                    readers: (e0.readers - 1) as usize,
                    ..e0
                }
            }),
            Self::frame_except(*old(self), *final(self), g.key@),
    {
        let ghost pre = *self;
        let b = g.key.bucket(N);
        let mut bucket = self.buckets.remove(b);
        let ghost ob = bucket;
        let found = bucket.find(&g.key);
        match found {
            None => {
                proof {
                    assert(false);
                }
                self.buckets.insert(b, bucket);
            },
            Some(i) => {
                proof {
                    ob.lemma_idx_unique(g.key@, i as int);
                }
                bucket.unuse_entry(i, false);
                let ghost nb = bucket;
                self.buckets.insert(b, bucket);
                proof {
                    assert(nb.entries@ =~= ob.entries@.update(i as int, nb.entries@[i as int]));
                    assert(self.buckets@ =~= pre.buckets@.update(b as int, nb));
                    Self::lemma_one_bucket_update(pre, *self, b as int, i as int);
                }
            },
        }
    }

    /// Hands a write guard back: releases the write lock and the use it
    /// carried. The value slot must be populated; a failed construction is
    /// taken back with `abort_insert` instead.
    pub fn release_write(&mut self, g: EntryWriteGuard<K>)
        requires
            old(self).wf(),
            old(self).write_guard_ok(g),
            (old(self).entry_of(g.key@).value is Some),
        ensures
            final(self).wf(),
            final(self).contains_kv(g.key@),
            ({
                let e0 = old(self).entry_of(g.key@);
                final(self).entry_of(g.key@) == Entry {
                    linked: e0.use_count == 1,
                    use_count: (e0.use_count - 1) as usize,
                    writer: false,
                    ..e0
                }
            }),
            Self::frame_except(*old(self), *final(self), g.key@),
    {
        let ghost pre = *self;
        let b = g.key.bucket(N);
        let mut bucket = self.buckets.remove(b);
        let ghost ob = bucket;
        let found = bucket.find(&g.key);
        match found {
            None => {
                proof {
                    assert(false);
                }
                self.buckets.insert(b, bucket);
            },
            Some(i) => {
                proof {
                    ob.lemma_idx_unique(g.key@, i as int);
                }
                bucket.unuse_entry(i, true);
                let ghost nb = bucket;
                self.buckets.insert(b, bucket);
                proof {
                    assert(nb.entries@ =~= ob.entries@.update(i as int, nb.entries@[i as int]));
                    assert(self.buckets@ =~= pre.buckets@.update(b as int, nb));
                    Self::lemma_one_bucket_update(pre, *self, b as int, i as int);
                }
            },
        }
    }

    /// The value a read guard protects.
    pub fn read_value<'a>(&'a self, g: &EntryReadGuard<K>) -> (r: &'a V)
        requires
            self.wf(),
            self.read_guard_ok(*g),
        ensures
            Some(*r) == self.value_of(g.key@),
    {
        let b = g.key.bucket(N);
        let found = self.buckets[b].find(&g.key);
        match found {
            Some(i) => {
                proof {
                    self.buckets@[b as int].lemma_idx_unique(g.key@, i as int);
                }
                match &self.buckets[b].entries[i].value {
                    Some(v) => v,
                    None => vstd::pervasive::unreached(),
                }
            },
            None => vstd::pervasive::unreached(),
        }
    }

    /// The value a write guard protects; meaningful once it is filled.
    pub fn peek_value<'a>(&'a self, g: &EntryWriteGuard<K>) -> (r: &'a V)
        requires
            self.wf(),
            self.write_guard_ok(*g),
            (self.entry_of(g.key@).value is Some),
        ensures
            Some(*r) == self.value_of(g.key@),
    {
        let b = g.key.bucket(N);
        let found = self.buckets[b].find(&g.key);
        match found {
            Some(i) => {
                proof {
                    self.buckets@[b as int].lemma_idx_unique(g.key@, i as int);
                }
                match &self.buckets[b].entries[i].value {
                    Some(v) => v,
                    None => vstd::pervasive::unreached(),
                }
            },
            None => vstd::pervasive::unreached(),
        }
    }

    /// Stores a value through a write guard, both to mutate an existing
    /// value and to fill the slot during construction.
    pub fn write_value(&mut self, g: &EntryWriteGuard<K>, v: V)
        requires
            old(self).wf(),
            old(self).write_guard_ok(*g),
        ensures
            final(self).wf(),
            final(self).contains_kv(g.key@),
            final(self).entry_of(g.key@) == (Entry { value: Some(v), ..old(self).entry_of(g.key@) }),
            final(self).value_of(g.key@) == Some(v),
            final(self).write_guard_ok(*g),
            Self::frame_except(*old(self), *final(self), g.key@),
    {
        let ghost pre = *self;
        let b = g.key.bucket(N);
        let mut bucket = self.buckets.remove(b);
        let ghost ob = bucket;
        let found = bucket.find(&g.key);
        match found {
            None => {
                proof {
                    assert(false);
                }
                self.buckets.insert(b, bucket);
            },
            Some(i) => {
                proof {
                    ob.lemma_idx_unique(g.key@, i as int);
                }
                bucket.fill_value(i, v);
                let ghost nb = bucket;
                self.buckets.insert(b, bucket);
                proof {
                    assert(nb.entries@ =~= ob.entries@.update(i as int, nb.entries@[i as int]));
                    assert(self.buckets@ =~= pre.buckets@.update(b as int, nb));
                    Self::lemma_one_bucket_update(pre, *self, b as int, i as int);
                }
            },
        }
    }

    /// Trades the write lock for a read lock once construction is done, so
    /// the caller can keep reading without excluding other readers.
    pub fn downgrade(&mut self, g: EntryWriteGuard<K>) -> (r: EntryReadGuard<K>)
        requires
            old(self).wf(),
            old(self).write_guard_ok(g),
            (old(self).entry_of(g.key@).value is Some),
        ensures
            final(self).wf(),
            r.key@ == g.key@,
            final(self).read_guard_ok(r),
            final(self).contains_kv(g.key@),
            final(self).entry_of(g.key@) == (Entry {
                readers: 1,
                writer: false,
                ..old(self).entry_of(g.key@)
            }),
            final(self).value_of(g.key@) == old(self).value_of(g.key@),
            Self::frame_except(*old(self), *final(self), g.key@),
    {
        let ghost pre = *self;
        let b = g.key.bucket(N);
        let mut bucket = self.buckets.remove(b);
        let ghost ob = bucket;
        let found = bucket.find(&g.key);
        let i = match found {
            Some(i) => i,
            None => vstd::pervasive::unreached(),
        };
        proof {
            ob.lemma_idx_unique(g.key@, i as int);
        }
        bucket.update_lock(i, 1, false);
        let ghost nb = bucket;
        self.buckets.insert(b, bucket);
        proof {
            assert(nb.entries@ =~= ob.entries@.update(i as int, nb.entries@[i as int]));
            assert(self.buckets@ =~= pre.buckets@.update(b as int, nb));
            Self::lemma_one_bucket_update(pre, *self, b as int, i as int);
        }
        EntryReadGuard { key: g.key }
    }

    /// Marks the guarded entry for early eviction. The flag is advisory:
    /// release still links the entry at the warm end.
    pub fn expire_read(&mut self, g: &EntryReadGuard<K>)
        requires
            old(self).wf(),
            old(self).read_guard_ok(*g),
        ensures
            final(self).wf(),
            final(self).contains_kv(g.key@),
            final(self).entry_of(g.key@) == (Entry { expire: true, ..old(self).entry_of(g.key@) }),
            final(self).read_guard_ok(*g),
            Self::frame_except(*old(self), *final(self), g.key@),
    {
        let ghost pre = *self;
        let b = g.key.bucket(N);
        let mut bucket = self.buckets.remove(b);
        let ghost ob = bucket;
        let found = bucket.find(&g.key);
        let i = match found {
            Some(i) => i,
            None => vstd::pervasive::unreached(),
        };
        proof {
            ob.lemma_idx_unique(g.key@, i as int);
        }
        bucket.set_expire(i);
        let ghost nb = bucket;
        self.buckets.insert(b, bucket);
        proof {
            assert(nb.entries@ =~= ob.entries@.update(i as int, nb.entries@[i as int]));
            assert(self.buckets@ =~= pre.buckets@.update(b as int, nb));
            Self::lemma_one_bucket_update(pre, *self, b as int, i as int);
        }
    }

    /// Marks the entry behind a write guard for early eviction; advisory,
    /// like `expire_read`.
    pub fn expire_write(&mut self, g: &EntryWriteGuard<K>)
        requires
            old(self).wf(),
            old(self).write_guard_ok(*g),
        ensures
            final(self).wf(),
            final(self).contains_kv(g.key@),
            final(self).entry_of(g.key@) == (Entry { expire: true, ..old(self).entry_of(g.key@) }),
            final(self).write_guard_ok(*g),
            Self::frame_except(*old(self), *final(self), g.key@),
    {
        let ghost pre = *self;
        let b = g.key.bucket(N);
        let mut bucket = self.buckets.remove(b);
        let ghost ob = bucket;
        let found = bucket.find(&g.key);
        let i = match found {
            Some(i) => i,
            None => vstd::pervasive::unreached(),
        };
        proof {
            ob.lemma_idx_unique(g.key@, i as int);
        }
        bucket.set_expire(i);
        let ghost nb = bucket;
        self.buckets.insert(b, bucket);
        proof {
            assert(nb.entries@ =~= ob.entries@.update(i as int, nb.entries@[i as int]));
            assert(self.buckets@ =~= pre.buckets@.update(b as int, nb));
            Self::lemma_one_bucket_update(pre, *self, b as int, i as int);
        }
    }

    /// Takes a freshly constructed record back out when its constructor
    /// failed: the caller still holds the construction write lock and the
    /// sole use, so nobody else can have observed the record. No partially
    /// constructed entry stays behind.
    pub fn abort_insert(&mut self, g: EntryWriteGuard<K>)
        requires
            old(self).wf(),
            old(self).write_guard_ok(g),
            old(self).entry_of(g.key@).use_count == 1,
        ensures
            final(self).wf(),
            !final(self).contains_kv(g.key@),
            Self::frame_except(*old(self), *final(self), g.key@),
    {
        let ghost pre = *self;
        let b = g.key.bucket(N);
        let mut bucket = self.buckets.remove(b);
        let ghost ob = bucket;
        let found = bucket.find(&g.key);
        let i = match found {
            Some(i) => i,
            None => vstd::pervasive::unreached(),
        };
        proof {
            ob.lemma_idx_unique(g.key@, i as int);
        }
        bucket.remove_new(i);
        let ghost nb = bucket;
        self.buckets.insert(b, bucket);
        proof {
            assert(self.buckets@ =~= pre.buckets@.update(b as int, nb));
            assert forall|k: int| 0 <= k < nb.entries@.len() implies seq_has_kv(
                ob.entries@,
                (#[trigger] nb.entries@[k]).key@,
            ) by {
                let k0: int = if k < i as int {
                    k
                } else {
                    k + 1
                };
                assert(nb.entries@[k] == ob.entries@[k0]);
            }
            Self::lemma_one_bucket_removal(pre, *self, b as int, g.key@);
        }
    }

    /// After replacing one shard that went through the construction
    /// protocol (an eviction decision, then one new record appended), the
    /// cache is well-formed again; other keys at worst lost cold records.
    proof fn lemma_one_bucket_insert(
        pre: Self,
        post: Self,
        mid: Bucket<K, V>,
        r: int,
        b: int,
        kv0: <K as View>::V,
    )
        requires
            pre.wf(),
            0 <= b < N,
            post.lru_disabled == pre.lru_disabled,
            post.buckets@ == pre.buckets@.update(b, post.buckets@[b]),
            post.buckets@[b].wf(),
            Self::shard_of(kv0) == b,
            !pre.buckets@[b].has_kv(kv0),
            mid.wf(),
            Bucket::evict_post(pre.buckets@[b], mid, r),
            post.buckets@[b].entries@ == mid.entries@.push(post.buckets@[b].entries@.last()),
            post.buckets@[b].entries@.last().key@ == kv0,
        ensures
            post.wf(),
            Self::frame_shrink_except(pre, post, kv0),
            r == 0 ==> Self::frame_except(pre, post, kv0),
            post.contains_kv(kv0),
            post.entry_of(kv0) == post.buckets@[b].entries@.last(),
    {
        let ob = pre.buckets@[b];
        let nb = post.buckets@[b];
        let es1 = nb.entries@;
        let last = es1.len() - 1;
        crate::bucket::lemma_seq_idx_unique(es1, kv0, last);
        Bucket::lemma_evict_preserves_in_use(ob, mid, r);
        // Lookups in the new shard map back through the intermediate state.
        assert forall|kv2: <K as View>::V| kv2 != kv0 && nb.has_kv(kv2) implies mid.has_kv(kv2)
            && nb.entry_at(kv2) == mid.entry_at(kv2) by {
            let w = crate::bucket::seq_idx_of(es1, kv2);
            assert(es1[w].key@ == kv2);
            assert(w != last);
            assert(mid.entries@[w] == es1[w]);
            crate::bucket::lemma_seq_idx_unique(mid.entries@, kv2, w);
            crate::bucket::lemma_seq_idx_unique(es1, kv2, w);
        }
        assert forall|kv2: <K as View>::V| kv2 != kv0 && mid.has_kv(kv2) implies nb.has_kv(kv2)
            && nb.entry_at(kv2) == mid.entry_at(kv2) by {
            let w = crate::bucket::seq_idx_of(mid.entries@, kv2);
            assert(es1[w] == mid.entries@[w]);
            crate::bucket::lemma_seq_idx_unique(es1, kv2, w);
            crate::bucket::lemma_seq_idx_unique(mid.entries@, kv2, w);
        }
        assert(post.wf()) by {
            assert forall|b2: int, i: int|
                0 <= b2 < N && 0 <= i < post.buckets@[b2].entries@.len() implies Self::shard_of(
                (#[trigger] post.buckets@[b2].entries@[i]).key@,
            ) == b2 by {
                if b2 == b {
                    if i < last {
                        let kv = es1[i].key@;
                        assert(mid.entries@[i] == es1[i]);
                        assert(mid.has_kv(kv));
                        assert(ob.has_kv(kv));
                        let w = crate::bucket::seq_idx_of(ob.entries@, kv);
                        assert(ob.entries@[w].key@ == kv);
                    }
                }
            }
        }
        assert forall|kv2: <K as View>::V|
            kv2 != kv0 && (#[trigger] post.contains_kv(kv2)) implies pre.contains_kv(kv2)
            && post.entry_of(kv2) == pre.entry_of(kv2) by {
            let s2 = Self::shard_of(kv2);
            if s2 != b {
                assert(post.buckets@[s2] == pre.buckets@[s2]);
            }
        }
        assert forall|kv2: <K as View>::V|
            kv2 != kv0 && pre.contains_kv(kv2) && (#[trigger] pre.entry_of(kv2)).use_count
                > 0 implies post.contains_kv(kv2) by {
            let s2 = Self::shard_of(kv2);
            if s2 != b {
                assert(post.buckets@[s2] == pre.buckets@[s2]);
            }
        }
        if r == 0 {
            assert forall|kv2: <K as View>::V| kv2 != kv0 implies ((
            #[trigger] post.contains_kv(kv2)) <==> pre.contains_kv(kv2)) by {
                let s2 = Self::shard_of(kv2);
                if 0 <= s2 < N && s2 != b {
                    assert(post.buckets@[s2] == pre.buckets@[s2]);
                } else if s2 == b {
                    if pre.contains_kv(kv2) {
                        assert(!(exists|j: int|
                            0 <= j < 0 && (#[trigger] ob.lru@[j])@ == kv2));
                        assert(mid.has_kv(kv2));
                    }
                }
            }
        }
    }

    /// Tries to insert the key with the given value. Returns whether the
    /// value was stored: when the key is already present, nothing changes
    /// and the stored value stays. A fresh entry starts idle, at the warm
    /// end of its shard's LRU queue. Unless eviction is disabled, the shard
    /// may first evict one batch of its coldest idle entries to make room.
    pub fn insert(&mut self, key: &K, value: V) -> (r: bool)
        requires
            old(self).wf(),
        ensures
            final(self).wf(),
            old(self).contains_kv(key@) ==> !r && Self::state_eq(*old(self), *final(self)),
            !old(self).contains_kv(key@) ==> {
                &&& r
                &&& final(self).contains_kv(key@)
                &&& ({
                    let e = final(self).entry_of(key@);
                    e.key@ == key@ && e.value == Some(value) && e.linked && e.use_count == 0
                        && e.readers == 0 && !e.writer && !e.expire
                })
                &&& (old(self).lru_disabled > 0 ==> Self::frame_except(
                    *old(self),
                    *final(self),
                    key@,
                ))
                &&& Self::frame_shrink_except(*old(self), *final(self), key@)
            },
    {
        let ghost pre = *self;
        let b = key.bucket(N);
        let mut bucket = self.buckets.remove(b);
        let found = bucket.find(key);
        match found {
            Some(_) => {
                self.buckets.insert(b, bucket);
                proof {
                    assert(self.buckets@ =~= pre.buckets@);
                }
                false
            },
            None => {
                let run_evict = self.lru_disabled == 0;
                let (i, mid, r) = bucket.construct(key.key_clone(), value, run_evict);
                bucket.unuse_entry(i, true);
                let ghost nb = bucket;
                self.buckets.insert(b, bucket);
                proof {
                    assert(nb.entries@ =~= mid@.entries@.push(nb.entries@.last()));
                    assert(self.buckets@ =~= pre.buckets@.update(b as int, nb));
                    Self::lemma_one_bucket_insert(pre, *self, mid@, r@, b as int, key@);
                }
                true
            },
        }
    }

    /// Opens the construction protocol for an absent key: the record is
    /// inserted with its value slot still empty and the construction write
    /// lock held, so concurrent lookups can never observe a record without
    /// a value. The caller then runs its constructor, fills the slot with
    /// `write_value`, and keeps, downgrades or releases the guard — or, when
    /// the constructor fails, takes the record back with `abort_insert`.
    /// Returns nothing and changes nothing when the key is present.
    pub fn begin_insert(&mut self, key: &K) -> (r: Option<EntryWriteGuard<K>>)
        requires
            old(self).wf(),
        ensures
            final(self).wf(),
            old(self).contains_kv(key@) ==> r is None && Self::state_eq(*old(self), *final(self)),
            !old(self).contains_kv(key@) ==> {
                &&& r is Some
                &&& (r->0).key@ == key@
                &&& final(self).write_guard_ok(r->0)
                &&& final(self).contains_kv(key@)
                &&& ({
                    let e = final(self).entry_of(key@);
                    e.key@ == key@ && e.value is None && !e.linked && e.use_count == 1
                        && e.readers == 0 && e.writer && !e.expire
                })
                &&& (old(self).lru_disabled > 0 ==> Self::frame_except(
                    *old(self),
                    *final(self),
                    key@,
                ))
                &&& Self::frame_shrink_except(*old(self), *final(self), key@)
            },
    {
        let ghost pre = *self;
        let b = key.bucket(N);
        let mut bucket = self.buckets.remove(b);
        let found = bucket.find(key);
        match found {
            Some(_) => {
                self.buckets.insert(b, bucket);
                proof {
                    assert(self.buckets@ =~= pre.buckets@);
                }
                None
            },
            None => {
                let run_evict = self.lru_disabled == 0;
                let (i, mid, r) = bucket.begin_construct(key.key_clone(), run_evict);
                let ghost nb = bucket;
                self.buckets.insert(b, bucket);
                let guard = EntryWriteGuard { key: key.key_clone() };
                proof {
                    assert(nb.entries@ =~= mid@.entries@.push(nb.entries@.last()));
                    assert(self.buckets@ =~= pre.buckets@.update(b as int, nb));
                    Self::lemma_one_bucket_insert(pre, *self, mid@, r@, b as int, key@);
                }
                Some(guard)
            },
        }
    }

    /// Looks the key up for reading, constructing the entry with the given
    /// value first when it is absent. On a hit this behaves like `get`; on a
    /// miss the value is stored under the construction write lock, which is
    /// then downgraded to the read lock the returned guard holds.
    pub fn get_or_insert(&mut self, method: &LockingMethod, key: &K, value: V) -> (r: Result<
        EntryReadGuard<K>,
        Error,
    >)
        requires
            old(self).wf(),
            old(self).contains_kv(key@) ==> old(self).entry_of(key@).use_count < usize::MAX,
            method.blocks() && old(self).contains_kv(key@) ==> !old(self).entry_of(key@).writer,
        ensures
            final(self).wf(),
            old(self).contains_kv(key@) && old(self).entry_of(key@).writer ==> r == Err::<
                EntryReadGuard<K>,
                Error,
            >(Error::LockUnavailable) && Self::state_eq(*old(self), *final(self)),
            old(self).contains_kv(key@) && !old(self).entry_of(key@).writer ==> {
                &&& r is Ok
                &&& (r->Ok_0).key@ == key@
                &&& final(self).read_guard_ok(r->Ok_0)
                &&& final(self).contains_kv(key@)
                &&& ({
                    let e0 = old(self).entry_of(key@);
                    final(self).entry_of(key@) == Entry {
                        linked: false,
                        use_count: (e0.use_count + 1) as usize,
                        readers: (e0.readers + 1) as usize,
                        ..e0
                    }
                })
                &&& final(self).value_of(key@) == old(self).value_of(key@)
                &&& Self::frame_except(*old(self), *final(self), key@)
            },
            !old(self).contains_kv(key@) ==> {
                &&& r is Ok
                &&& (r->Ok_0).key@ == key@
                &&& final(self).read_guard_ok(r->Ok_0)
                &&& final(self).contains_kv(key@)
                &&& ({
                    let e = final(self).entry_of(key@);
                    e.key@ == key@ && e.value == Some(value) && !e.linked && e.use_count == 1
                        && e.readers == 1 && !e.writer && !e.expire
                })
                &&& (old(self).lru_disabled > 0 ==> Self::frame_except(
                    *old(self),
                    *final(self),
                    key@,
                ))
                &&& Self::frame_shrink_except(*old(self), *final(self), key@)
            },
    {
        let ghost pre = *self;
        let b = key.bucket(N);
        let mut bucket = self.buckets.remove(b);
        let ghost ob = bucket;
        let found = bucket.find(key);
        match found {
            Some(i) => {
                proof {
                    ob.lemma_idx_unique(key@, i as int);
                }
                let writer_held = bucket.entries[i].writer;
                if writer_held {
                    let blocking = method.is_blocking();
                    // A blocking method never reaches a held write lock.
                    assert(!blocking);
                    bucket.use_entry(i);
                    bucket.rollback_use(i);
                    let ghost nb = bucket;
                    self.buckets.insert(b, bucket);
                    proof {
                        assert(nb.entries@ =~= ob.entries@);
                        assert(self.buckets@ =~= pre.buckets@.update(b as int, nb));
                        assert(Self::state_eq(pre, *self));
                    }
                    Err(Error::LockUnavailable)
                } else {
                    bucket.use_entry(i);
                    let readers = bucket.entries[i].readers;
                    proof {
                        assert(bucket.entries@[i as int].readers < bucket.entries@[i as int].use_count);
                    }
                    bucket.update_lock(i, readers + 1, false);
                    let ghost nb = bucket;
                    self.buckets.insert(b, bucket);
                    let guard = EntryReadGuard { key: key.key_clone() };
                    proof {
                        assert(nb.entries@ =~= ob.entries@.update(i as int, nb.entries@[i as int]));
                        assert(self.buckets@ =~= pre.buckets@.update(b as int, nb));
                        Self::lemma_one_bucket_update(pre, *self, b as int, i as int);
                    }
                    Ok(guard)
                }
            },
            None => {
                let run_evict = self.lru_disabled == 0;
                let (i, mid, r) = bucket.construct(key.key_clone(), value, run_evict);
                bucket.update_lock(i, 1, false);
                let ghost nb = bucket;
                self.buckets.insert(b, bucket);
                let guard = EntryReadGuard { key: key.key_clone() };
                proof {
                    assert(nb.entries@ =~= mid@.entries@.push(nb.entries@.last()));
                    assert(self.buckets@ =~= pre.buckets@.update(b as int, nb));
                    Self::lemma_one_bucket_insert(pre, *self, mid@, r@, b as int, key@);
                }
                Ok(guard)
            },
        }
    }

    /// Looks the key up for writing, constructing the entry with the given
    /// value first when it is absent. On a hit this behaves like `get_mut`;
    /// on a miss the guard keeps the construction write lock.
    pub fn get_or_insert_mut(&mut self, method: &LockingMethod, key: &K, value: V) -> (r: Result<
        EntryWriteGuard<K>,
        Error,
    >)
        requires
            old(self).wf(),
            old(self).contains_kv(key@) ==> old(self).entry_of(key@).use_count < usize::MAX,
            method.blocks() && old(self).contains_kv(key@) ==> !old(self).entry_of(key@).writer
                && old(self).entry_of(key@).readers == 0,
        ensures
            final(self).wf(),
            old(self).contains_kv(key@) && (old(self).entry_of(key@).writer || old(self).entry_of(
                key@,
            ).readers > 0) ==> r == Err::<EntryWriteGuard<K>, Error>(Error::LockUnavailable)
                && Self::state_eq(*old(self), *final(self)),
            old(self).contains_kv(key@) && !old(self).entry_of(key@).writer && old(self).entry_of(
                key@,
            ).readers == 0 ==> {
                &&& r is Ok
                &&& (r->Ok_0).key@ == key@
                &&& final(self).write_guard_ok(r->Ok_0)
                &&& final(self).contains_kv(key@)
                &&& ({
                    let e0 = old(self).entry_of(key@);
                    final(self).entry_of(key@) == Entry {
                        linked: false,
                        use_count: (e0.use_count + 1) as usize,
                        writer: true,
                        ..e0
                    }
                })
                &&& final(self).value_of(key@) == old(self).value_of(key@)
                &&& Self::frame_except(*old(self), *final(self), key@)
            },
            !old(self).contains_kv(key@) ==> {
                &&& r is Ok
                &&& (r->Ok_0).key@ == key@
                &&& final(self).write_guard_ok(r->Ok_0)
                &&& final(self).contains_kv(key@)
                &&& ({
                    let e = final(self).entry_of(key@);
                    e.key@ == key@ && e.value == Some(value) && !e.linked && e.use_count == 1
                        && e.readers == 0 && e.writer && !e.expire
                })
                &&& (old(self).lru_disabled > 0 ==> Self::frame_except(
                    *old(self),
                    *final(self),
                    key@,
                ))
                &&& Self::frame_shrink_except(*old(self), *final(self), key@)
            },
    {
        let ghost pre = *self;
        let b = key.bucket(N);
        let mut bucket = self.buckets.remove(b);
        let ghost ob = bucket;
        let found = bucket.find(key);
        match found {
            Some(i) => {
                proof {
                    ob.lemma_idx_unique(key@, i as int);
                }
                let unavailable = bucket.entries[i].writer || bucket.entries[i].readers > 0;
                if unavailable {
                    let blocking = method.is_blocking();
                    // A blocking method never reaches a held lock.
                    assert(!blocking);
                    bucket.use_entry(i);
                    bucket.rollback_use(i);
                    let ghost nb = bucket;
                    self.buckets.insert(b, bucket);
                    proof {
                        assert(nb.entries@ =~= ob.entries@);
                        assert(self.buckets@ =~= pre.buckets@.update(b as int, nb));
                        assert(Self::state_eq(pre, *self));
                    }
                    Err(Error::LockUnavailable)
                } else {
                    bucket.use_entry(i);
                    bucket.update_lock(i, 0, true);
                    let ghost nb = bucket;
                    self.buckets.insert(b, bucket);
                    let guard = EntryWriteGuard { key: key.key_clone() };
                    proof {
                        assert(nb.entries@ =~= ob.entries@.update(i as int, nb.entries@[i as int]));
                        assert(self.buckets@ =~= pre.buckets@.update(b as int, nb));
                        Self::lemma_one_bucket_update(pre, *self, b as int, i as int);
                    }
                    Ok(guard)
                }
            },
            None => {
                let run_evict = self.lru_disabled == 0;
                let (i, mid, r) = bucket.construct(key.key_clone(), value, run_evict);
                let ghost nb = bucket;
                self.buckets.insert(b, bucket);
                let guard = EntryWriteGuard { key: key.key_clone() };
                proof {
                    assert(nb.entries@ =~= mid@.entries@.push(nb.entries@.last()));
                    assert(self.buckets@ =~= pre.buckets@.update(b as int, nb));
                    Self::lemma_one_bucket_insert(pre, *self, mid@, r@, b as int, key@);
                }
                Ok(guard)
            },
        }
    }

    /// Evicts up to `number` entries, spreading `number / N` over the
    /// shards, so an uneven cold distribution may evict fewer. Returns how
    /// many entries were actually evicted; with eviction disabled, none.
    /// Entries in use are never touched.
    pub fn evict(&mut self, number: usize) -> (r: usize)
        requires
            old(self).wf(),
        ensures
            final(self).wf(),
            final(self).lru_disabled == old(self).lru_disabled,
            old(self).lru_disabled > 0 ==> r == 0 && Self::state_eq(*old(self), *final(self)),
            old(self).lru_disabled == 0 ==> {
                &&& r as int == crate::bucket::evictable_sum(
                    old(self).buckets@,
                    (number / N) as int,
                )
                &&& r <= number
                &&& forall|b: int|
                    0 <= b < N ==> Bucket::evict_post(
                        old(self).buckets@[b],
                        (#[trigger] final(self).buckets@[b]),
                        crate::bucket::min_int(
                            (number / N) as int,
                            old(self).buckets@[b].cold as int,
                        ),
                    )
                &&& forall|kv: <K as View>::V|
                    old(self).contains_kv(kv) && (#[trigger] old(self).entry_of(kv)).use_count > 0
                        ==> final(self).contains_kv(kv) && final(self).entry_of(kv) == old(
                        self,
                    ).entry_of(kv)
            },
    {
        let ghost pre = *self;
        if self.lru_disabled > 0 {
            return 0;
        }
        let per = number / N;
        proof {
            vstd::arithmetic::div_mod::lemma_fundamental_div_mod(number as int, N as int);
        }
        let mut total: usize = 0;
        let mut b: usize = 0;
        while b < N
            invariant
                pre == *old(self),
                pre.wf(),
                self.lru_disabled == pre.lru_disabled,
                b <= N,
                per == number / N,
                (N as int) * (per as int) <= number,
                self.buckets@.len() == N,
                forall|k: int| b <= k < N ==> #[trigger] self.buckets@[k] == pre.buckets@[k],
                forall|k: int|
                    0 <= k < b ==> (#[trigger] self.buckets@[k]).wf() && Bucket::evict_post(
                        pre.buckets@[k],
                        self.buckets@[k],
                        crate::bucket::min_int(per as int, pre.buckets@[k].cold as int),
                    ),
                total as int == crate::bucket::evictable_sum(
                    pre.buckets@.subrange(0, b as int),
                    per as int,
                ),
                total as int <= (b as int) * (per as int),
            decreases N - b,
        {
            let ghost start = self.buckets@;
            let mut bucket = self.buckets.remove(b);
            let e = bucket.evict(per);
            let ghost nb = bucket;
            self.buckets.insert(b, bucket);
            proof {
                assert(self.buckets@ =~= start.update(b as int, nb));
                let sub1 = pre.buckets@.subrange(0, b + 1);
                assert(sub1.drop_last() =~= pre.buckets@.subrange(0, b as int));
                assert(sub1.last() == pre.buckets@[b as int]);
                assert((b as int + 1) * (per as int) == (b as int) * (per as int) + (
                per as int)) by (nonlinear_arith);
                vstd::arithmetic::mul::lemma_mul_inequality(b as int + 1, N as int, per as int);
            }
            total = total + e;
            b = b + 1;
        }
        proof {
            assert(pre.buckets@.subrange(0, N as int) =~= pre.buckets@);
            assert forall|kv: <K as View>::V|
                pre.contains_kv(kv) && (#[trigger] pre.entry_of(kv)).use_count > 0 implies self.contains_kv(
                kv,
            ) && self.entry_of(kv) == pre.entry_of(kv) by {
                let s = Self::shard_of(kv);
                Bucket::lemma_evict_preserves_in_use(
                    pre.buckets@[s],
                    self.buckets@[s],
                    crate::bucket::min_int(per as int, pre.buckets@[s].cold as int),
                );
            }
        }
        total
    }

    /// Suspends eviction, both the automatic one before insertions and the
    /// explicit one. Calls stack; each must later be paired with
    /// `enable_lru_eviction`.
    pub fn disable_lru_eviction(&mut self)
        requires
            old(self).wf(),
            old(self).lru_disabled < u32::MAX,
        ensures
            final(self).wf(),
            final(self).lru_disabled == old(self).lru_disabled + 1,
            final(self).buckets@ == old(self).buckets@,
    {
        self.lru_disabled = self.lru_disabled + 1;
    }

    /// Takes one suspension of eviction back. Must be preceded by a
    /// matching `disable_lru_eviction`.
    pub fn enable_lru_eviction(&mut self)
        requires
            old(self).wf(),
            old(self).lru_disabled >= 1,
        ensures
            final(self).wf(),
            final(self).lru_disabled == old(self).lru_disabled - 1,
            final(self).buckets@ == old(self).buckets@,
    {
        self.lru_disabled = self.lru_disabled - 1;
    }

    /// Sets how many controller updates pass between decay steps of the
    /// in-use peak. Should be in the lower hundreds.
    pub fn config_target_cooldown(&mut self, target_cooldown: u32)
        requires
            old(self).wf(),
        ensures
            final(self).wf(),
            final(self).lru_disabled == old(self).lru_disabled,
            final(self).buckets@.len() == N,
            forall|b: int|
                0 <= b < N ==> #[trigger] final(self).buckets@[b] == (Bucket {
                    target_cooldown: target_cooldown,
                    ..old(self).buckets@[b]
                }),
    {
        let ghost pre = *self;
        let mut b: usize = 0;
        while b < N
            invariant
                pre == *old(self),
                pre.wf(),
                b <= N,
                self.buckets@.len() == N,
                self.lru_disabled == pre.lru_disabled,
                forall|k: int| b <= k < N ==> #[trigger] self.buckets@[k] == pre.buckets@[k],
                forall|k: int|
                    0 <= k < b ==> #[trigger] self.buckets@[k] == (Bucket {
                        target_cooldown: target_cooldown,
                        ..pre.buckets@[k]
                    }),
            decreases N - b,
        {
            let ghost start = self.buckets@;
            let mut bucket = self.buckets.remove(b);
            bucket.target_cooldown = target_cooldown;
            let ghost nb = bucket;
            self.buckets.insert(b, bucket);
            proof {
                assert(self.buckets@ =~= start.update(b as int, nb));
            }
            b = b + 1;
        }
    }

    /// Sets the lower end of the interpolation region for the cold target,
    /// as a total across all shards; each shard takes its `N`th share.
    /// Should be less than the upper end.
    pub fn config_min_capacity_limit(&mut self, min_capacity_limit: usize)
        requires
            old(self).wf(),
        ensures
            final(self).wf(),
            final(self).lru_disabled == old(self).lru_disabled,
            final(self).buckets@.len() == N,
            forall|b: int|
                0 <= b < N ==> #[trigger] final(self).buckets@[b] == (Bucket {
                    min_capacity_limit: min_capacity_limit / N,
                    ..old(self).buckets@[b]
                }),
    {
        let ghost pre = *self;
        let share = min_capacity_limit / N;
        let mut b: usize = 0;
        while b < N
            invariant
                pre == *old(self),
                pre.wf(),
                b <= N,
                share == min_capacity_limit / N,
                self.buckets@.len() == N,
                self.lru_disabled == pre.lru_disabled,
                forall|k: int| b <= k < N ==> #[trigger] self.buckets@[k] == pre.buckets@[k],
                forall|k: int|
                    0 <= k < b ==> #[trigger] self.buckets@[k] == (Bucket {
                        min_capacity_limit: min_capacity_limit / N,
                        ..pre.buckets@[k]
                    }),
            decreases N - b,
        {
            let ghost start = self.buckets@;
            let mut bucket = self.buckets.remove(b);
            bucket.min_capacity_limit = share;
            let ghost nb = bucket;
            self.buckets.insert(b, bucket);
            proof {
                assert(self.buckets@ =~= start.update(b as int, nb));
            }
            b = b + 1;
        }
    }

    /// Sets the upper end of the interpolation region for the cold target,
    /// as a total across all shards; each shard takes its `N`th share.
    /// Should be around the maximum expected number of entries.
    pub fn config_max_capacity_limit(&mut self, max_capacity_limit: usize)
        requires
            old(self).wf(),
        ensures
            final(self).wf(),
            final(self).lru_disabled == old(self).lru_disabled,
            final(self).buckets@.len() == N,
            forall|b: int|
                0 <= b < N ==> #[trigger] final(self).buckets@[b] == (Bucket {
                    max_capacity_limit: max_capacity_limit / N,
                    ..old(self).buckets@[b]
                }),
    {
        let ghost pre = *self;
        let share = max_capacity_limit / N;
        let mut b: usize = 0;
        while b < N
            invariant
                pre == *old(self),
                pre.wf(),
                b <= N,
                share == max_capacity_limit / N,
                self.buckets@.len() == N,
                self.lru_disabled == pre.lru_disabled,
                forall|k: int| b <= k < N ==> #[trigger] self.buckets@[k] == pre.buckets@[k],
                forall|k: int|
                    0 <= k < b ==> #[trigger] self.buckets@[k] == (Bucket {
                        max_capacity_limit: max_capacity_limit / N,
                        ..pre.buckets@[k]
                    }),
            decreases N - b,
        {
            let ghost start = self.buckets@;
            let mut bucket = self.buckets.remove(b);
            bucket.max_capacity_limit = share;
            let ghost nb = bucket;
            self.buckets.insert(b, bucket);
            proof {
                assert(self.buckets@ =~= start.update(b as int, nb));
            }
            b = b + 1;
        }
    }

    /// Sets the cold-target percentage used at and above the upper end of
    /// the interpolation region. Must be below one hundred; should be lower
    /// than `config_max_cache_percent`'s value.
    pub fn config_min_cache_percent(&mut self, min_cache_percent: u8)
        requires
            old(self).wf(),
            min_cache_percent < 100,
        ensures
            final(self).wf(),
            final(self).lru_disabled == old(self).lru_disabled,
            final(self).buckets@.len() == N,
            forall|b: int|
                0 <= b < N ==> #[trigger] final(self).buckets@[b] == (Bucket {
                    min_cache_percent: min_cache_percent,
                    ..old(self).buckets@[b]
                }),
    {
        let ghost pre = *self;
        let mut b: usize = 0;
        while b < N
            invariant
                pre == *old(self),
                pre.wf(),
                min_cache_percent < 100,
                b <= N,
                self.buckets@.len() == N,
                self.lru_disabled == pre.lru_disabled,
                forall|k: int| b <= k < N ==> #[trigger] self.buckets@[k] == pre.buckets@[k],
                forall|k: int|
                    0 <= k < b ==> #[trigger] self.buckets@[k] == (Bucket {
                        min_cache_percent: min_cache_percent,
                        ..pre.buckets@[k]
                    }),
            decreases N - b,
        {
            let ghost start = self.buckets@;
            let mut bucket = self.buckets.remove(b);
            bucket.min_cache_percent = min_cache_percent;
            let ghost nb = bucket;
            self.buckets.insert(b, bucket);
            proof {
                assert(self.buckets@ =~= start.update(b as int, nb));
            }
            b = b + 1;
        }
    }

    /// Sets the cold-target percentage used at and below the lower end of
    /// the interpolation region. Must be below one hundred; counts against
    /// the backing capacity, so values far above sixty gain little.
    pub fn config_max_cache_percent(&mut self, max_cache_percent: u8)
        requires
            old(self).wf(),
            max_cache_percent < 100,
        ensures
            final(self).wf(),
            final(self).lru_disabled == old(self).lru_disabled,
            final(self).buckets@.len() == N,
            forall|b: int|
                0 <= b < N ==> #[trigger] final(self).buckets@[b] == (Bucket {
                    max_cache_percent: max_cache_percent,
                    ..old(self).buckets@[b]
                }),
    {
        let ghost pre = *self;
        let mut b: usize = 0;
        while b < N
            invariant
                pre == *old(self),
                pre.wf(),
                max_cache_percent < 100,
                b <= N,
                self.buckets@.len() == N,
                self.lru_disabled == pre.lru_disabled,
                forall|k: int| b <= k < N ==> #[trigger] self.buckets@[k] == pre.buckets@[k],
                forall|k: int|
                    0 <= k < b ==> #[trigger] self.buckets@[k] == (Bucket {
                        max_cache_percent: max_cache_percent,
                        ..pre.buckets@[k]
                    }),
            decreases N - b,
        {
            let ghost start = self.buckets@;
            let mut bucket = self.buckets.remove(b);
            bucket.max_cache_percent = max_cache_percent;
            let ghost nb = bucket;
            self.buckets.insert(b, bucket);
            proof {
                assert(self.buckets@ =~= start.update(b as int, nb));
            }
            b = b + 1;
        }
    }

    /// Law: the universal invariants, as a scan over every shard would see
    /// them. In each shard, an entry is linked exactly when its use count is
    /// zero, and the cold counter equals both the number of linked entries
    /// and the length of the LRU queue.
    pub proof fn lemma_universal_invariants(&self)
        requires
            self.wf(),
        ensures
            forall|b: int, i: int|
                0 <= b < N && 0 <= i < self.buckets@[b].entries@.len() ==> ((
                #[trigger] self.buckets@[b].entries@[i]).linked
                    <==> self.buckets@[b].entries@[i].use_count == 0),
            forall|b: int|
                0 <= b < N ==> (#[trigger] self.buckets@[b]).cold == crate::bucket::num_linked(
                    self.buckets@[b].entries@,
                ) && self.buckets@[b].cold == self.buckets@[b].lru@.len(),
    {
        assert forall|b: int| 0 <= b < N implies (#[trigger] self.buckets@[b]).cold
            == crate::bucket::num_linked(self.buckets@[b].entries@) && self.buckets@[b].cold
            == self.buckets@[b].lru@.len() by {
            self.buckets@[b].lemma_cold_counts();
        }
    }

    /// Law: shard routing. Every stored entry sits in the shard its key's
    /// `Bucketize` index names, so every operation on a key finds it.
    pub proof fn lemma_shard_routing(&self)
        requires
            self.wf(),
        ensures
            forall|b: int, i: int|
                0 <= b < N && 0 <= i < self.buckets@[b].entries@.len() ==> Self::shard_of(
                    (#[trigger] self.buckets@[b].entries@[i]).key@,
                ) == b,
    {
    }

    /// Law: no use after free. A held read guard keeps its entry's use
    /// count positive, and an operation that only removes idle entries —
    /// the hypothesis here is exactly what `evict` ensures — leaves every
    /// such entry, and with it the guard's validity, untouched.
    pub proof fn lemma_no_use_after_free(pre: Self, post: Self, g: EntryReadGuard<K>)
        requires
            pre.wf(),
            pre.read_guard_ok(g),
            forall|kv: <K as View>::V|
                pre.contains_kv(kv) && (#[trigger] pre.entry_of(kv)).use_count > 0
                    ==> post.contains_kv(kv) && post.entry_of(kv) == pre.entry_of(kv),
        ensures
            post.read_guard_ok(g),
    {
        let kv = g.key@;
        let s = Self::shard_of(kv);
        let i = pre.buckets@[s].idx_of(kv);
        assert(0 <= i < pre.buckets@[s].entries@.len() && pre.buckets@[s].entries@[i].key@ == kv);
        assert(pre.entry_of(kv).wf());
        assert(pre.entry_of(kv).use_count > 0);
    }

    /// Law: no use after free, for write guards. The held write lock keeps
    /// the entry's use count positive, so an operation that only removes
    /// idle entries leaves the guard valid.
    pub proof fn lemma_no_use_after_free_write(pre: Self, post: Self, g: EntryWriteGuard<K>)
        requires
            pre.wf(),
            pre.write_guard_ok(g),
            forall|kv: <K as View>::V|
                pre.contains_kv(kv) && (#[trigger] pre.entry_of(kv)).use_count > 0
                    ==> post.contains_kv(kv) && post.entry_of(kv) == pre.entry_of(kv),
        ensures
            post.write_guard_ok(g),
    {
        let kv = g.key@;
        let s = Self::shard_of(kv);
        let i = pre.buckets@[s].idx_of(kv);
        assert(0 <= i < pre.buckets@[s].entries@.len() && pre.buckets@[s].entries@[i].key@ == kv);
        assert(pre.entry_of(kv).wf());
        assert(pre.entry_of(kv).use_count > 0);
    }

    /// Checks the universal invariants on every shard; on a well-formed
    /// cache this never reports a violation. Meant as a hook for tests that
    /// scan the cache after a workload.
    pub fn check_invariants(&self) -> (r: bool)
        requires
            self.wf(),
        ensures
            r,
    {
        let mut b: usize = 0;
        while b < N
            invariant
                self.wf(),
                b <= N,
            decreases N - b,
        {
            if !self.buckets[b].check_invariants() {
                return false;
            }
            b = b + 1;
        }
        true
    }

    /// Sets how many entries one eviction batch removes when an insertion
    /// finds the shard under pressure.
    pub fn config_evict_batch(&mut self, evict_batch: u8)
        requires
            old(self).wf(),
        ensures
            final(self).wf(),
            final(self).lru_disabled == old(self).lru_disabled,
            final(self).buckets@.len() == N,
            forall|b: int|
                0 <= b < N ==> #[trigger] final(self).buckets@[b] == (Bucket {
                    evict_batch: evict_batch,
                    ..old(self).buckets@[b]
                }),
    {
        let ghost pre = *self;
        let mut b: usize = 0;
        while b < N
            invariant
                pre == *old(self),
                pre.wf(),
                b <= N,
                self.buckets@.len() == N,
                self.lru_disabled == pre.lru_disabled,
                forall|k: int| b <= k < N ==> #[trigger] self.buckets@[k] == pre.buckets@[k],
                forall|k: int|
                    0 <= k < b ==> #[trigger] self.buckets@[k] == (Bucket {
                        evict_batch: evict_batch,
                        ..pre.buckets@[k]
                    }),
            decreases N - b,
        {
            let ghost start = self.buckets@;
            let mut bucket = self.buckets.remove(b);
            bucket.evict_batch = evict_batch;
            let ghost nb = bucket;
            self.buckets.insert(b, bucket);
            proof {
                assert(self.buckets@ =~= start.update(b as int, nb));
            }
            b = b + 1;
        }
    }
}

impl<K: KeyTraits, V, const N: usize> Default for CacheDb<K, V, N> {
    /// The same as `new`: an empty cache with the default configuration.
    fn default() -> (r: Self)
        ensures
            N >= 1 ==> r.wf(),
            r.lru_disabled == 0,
            forall|kv: <K as View>::V| !r.contains_kv(kv),
    {
        Self::new()
    }
}

} // verus!
