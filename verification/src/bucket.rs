//! One shard of the cache.
//!
//! A shard owns a set of entry records keyed by key view, an LRU queue of the
//! currently idle entries (front coldest, back warmest), and the adaptive
//! eviction controller: a decaying peak of the in-use count that is
//! interpolated into a target percentage of capacity to spend on cold
//! entries.

use vstd::prelude::*;

use crate::entry::{Entry, KeyTraits};

verus! {

/// Defines into which shard a key falls. The shard index must be a function
/// of the key's view alone, so that every operation on a key routes to the
/// shard that stores it. Distribution quality matters less than for the
/// inner associative set, so cheap implementations are fine.
pub trait Bucketize: View + Sized {
    /// The shard index of a key view, for `n` shards.
    spec fn bucket_spec(v: Self::V, n: int) -> int;

    /// The shard index is always in range.
    proof fn bucket_spec_in_range(v: Self::V, n: int)
        requires
            n > 0,
        ensures
            0 <= Self::bucket_spec(v, n) < n,
    ;

    /// Computes the shard index of this key.
    fn bucket(&self, n: usize) -> (r: usize)
        requires
            n > 0,
        ensures
            r < n,
            r as int == Self::bucket_spec(self@, n as int),
    ;
}

/// The smaller of two integers.
pub open spec fn min_int(a: int, b: int) -> int {
    if a <= b {
        a
    } else {
        b
    }
}

/// Number of entries of `es` that are linked into the LRU queue.
pub open spec fn num_linked<K, V>(es: Seq<Entry<K, V>>) -> int
    decreases es.len(),
{
    if es.len() == 0 {
        0
    } else {
        num_linked(es.drop_last()) + (if es.last().linked {
            1int
        } else {
            0int
        })
    }
}

/// The linked count never exceeds the number of entries.
pub proof fn lemma_num_linked_le_len<K, V>(es: Seq<Entry<K, V>>)
    ensures
        0 <= num_linked(es) <= es.len(),
    decreases es.len(),
{
    if es.len() > 0 {
        lemma_num_linked_le_len(es.drop_last());
    }
}

/// Replacing one entry changes the linked count by the difference of the
/// two linked flags.
pub proof fn lemma_num_linked_update<K, V>(es: Seq<Entry<K, V>>, i: int, e: Entry<K, V>)
    requires
        0 <= i < es.len(),
    ensures
        num_linked(es.update(i, e)) == num_linked(es) + (if e.linked {
            1int
        } else {
            0int
        }) - (if es[i].linked {
            1int
        } else {
            0int
        }),
    decreases es.len(),
{
    let upd = es.update(i, e);
    if i == es.len() - 1 {
        assert(upd.drop_last() =~= es.drop_last());
    } else {
        assert(upd.drop_last() =~= es.drop_last().update(i, e));
        assert(upd.last() == es.last());
        lemma_num_linked_update(es.drop_last(), i, e);
    }
}

/// Appending one entry adds its linked flag to the linked count.
pub proof fn lemma_num_linked_push<K, V>(es: Seq<Entry<K, V>>, e: Entry<K, V>)
    ensures
        num_linked(es.push(e)) == num_linked(es) + (if e.linked {
            1int
        } else {
            0int
        }),
{
    assert(es.push(e).drop_last() =~= es);
}

/// Removing one entry subtracts its linked flag from the linked count.
pub proof fn lemma_num_linked_remove<K, V>(es: Seq<Entry<K, V>>, i: int)
    requires
        0 <= i < es.len(),
    ensures
        num_linked(es.remove(i)) == num_linked(es) - (if es[i].linked {
            1int
        } else {
            0int
        }),
    decreases es.len(),
{
    let rem = es.remove(i);
    if i == es.len() - 1 {
        assert(rem =~= es.drop_last());
    } else {
        assert(rem.drop_last() =~= es.drop_last().remove(i));
        assert(rem.last() == es.last());
        lemma_num_linked_remove(es.drop_last(), i);
    }
}

/// The cold-target percentage: linear interpolation on `maxused` over
/// `[minl, maxl]`, from `pmax` (small workloads cache generously) down to
/// `pmin` (large workloads conserve capacity). Degenerate configurations
/// (an empty percentage or size region) resolve to the nearer end.
pub open spec fn spec_cold_target(maxused: int, minl: int, maxl: int, pmin: int, pmax: int) -> int {
    if pmax <= pmin {
        pmin
    } else if maxused <= minl {
        pmax
    } else if maxused >= maxl {
        pmin
    } else {
        pmax - ((maxused - minl) * (pmax - pmin)) / (maxl - minl)
    }
}

/// The interpolated cold target stays within the configured percentages.
pub proof fn lemma_cold_target_range(maxused: int, minl: int, maxl: int, pmin: int, pmax: int)
    requires
        0 <= pmin,
        0 <= pmax,
    ensures
        spec_cold_target(maxused, minl, maxl, pmin, pmax) <= if pmin <= pmax {
            pmax
        } else {
            pmin
        },
        spec_cold_target(maxused, minl, maxl, pmin, pmax) >= if pmin <= pmax {
            pmin
        } else {
            pmax
        },
{
    if pmax > pmin && minl < maxused < maxl {
        let a = maxused - minl;
        let c = maxl - minl;
        let d = pmax - pmin;
        assert(0 <= (a * d) / c <= d) by (nonlinear_arith)
            requires
                0 < a < c,
                0 < d,
        ;
    }
}

/// Computes the interpolated cold-target percentage.
pub fn cold_target_for(maxused: usize, minl: usize, maxl: usize, pmin: u8, pmax: u8) -> (r: u8)
    requires
        pmin < 100,
        pmax < 100,
    ensures
        r as int == spec_cold_target(maxused as int, minl as int, maxl as int, pmin as int, pmax as int),
        r < 100,
{
    proof {
        lemma_cold_target_range(maxused as int, minl as int, maxl as int, pmin as int, pmax as int);
    }
    if pmax <= pmin {
        pmin
    } else if maxused <= minl {
        pmax
    } else if maxused >= maxl {
        pmin
    } else {
        assert((((maxused - minl) as u128) as int) * (((pmax - pmin) as u128) as int) <= (
        0xffff_ffff_ffff_ffffu128 as int) * 99) by (nonlinear_arith)
            requires
                (((maxused - minl) as u128) as int) <= (0xffff_ffff_ffff_ffffu128 as int),
                (((pmax - pmin) as u128) as int) <= 99,
        ;
        let num: u128 = ((maxused - minl) as u128) * ((pmax - pmin) as u128);
        let den: u128 = (maxl - minl) as u128;
        let q: u128 = num / den;
        assert(q <= 99) by {
            assert(num / den <= (pmax - pmin) as u128) by (nonlinear_arith)
                requires
                    0 < ((maxused - minl) as u128) < den,
                    num == ((maxused - minl) as u128) * ((pmax - pmin) as u128),
                    ((pmax - pmin) as u128) <= 99,
            ;
        }
        pmax - (q as u8)
    }
}

/// The in-use count a shard of `len` entries reports to the controller:
/// `len + 1 - cold`, counting the entry about to be created or revived,
/// saturating at the machine limit.
pub open spec fn spec_now_used(len: int, cold: int) -> int {
    if len < usize::MAX {
        len + 1 - cold
    } else {
        len - cold
    }
}

/// The running peak: `maxused` raised to `now_used` when exceeded.
pub open spec fn spec_maxused_peak(maxused: int, now_used: int) -> int {
    if now_used > maxused {
        now_used
    } else {
        maxused
    }
}

/// One decay step: off the peak comes `peak / reduction + 1`, so that small
/// peaks still bleed off, unless the peak is zero or already current.
pub open spec fn spec_decayed(m: int, now_used: int, reduction: int) -> int {
    if m > 0 && m != now_used {
        m - (m / reduction + 1)
    } else {
        m
    }
}

/// A decay step never drives the peak negative.
pub proof fn lemma_decayed_in_range(m: int, now_used: int, reduction: int)
    requires
        m >= 0,
        reduction >= 2,
    ensures
        0 <= spec_decayed(m, now_used, reduction) <= m,
{
    if m > 0 && m != now_used {
        assert(0 <= m / reduction + 1 <= m) by (nonlinear_arith)
            requires
                m >= 1,
                reduction >= 2,
        ;
    }
}

/// How many entries evicting up to `per` from each shard of `bs` removes:
/// the sum over the shards of `per` capped at the shard's cold count.
pub open spec fn evictable_sum<K: KeyTraits, V>(bs: Seq<Bucket<K, V>>, per: int) -> int
    decreases bs.len(),
{
    if bs.len() == 0 {
        0
    } else {
        evictable_sum(bs.drop_last(), per) + min_int(per, bs.last().cold as int)
    }
}

/// One shard: the entry records, the LRU queue (a sequence of keys of idle
/// entries, front coldest), the cold counter, the modelled backing capacity,
/// the adaptive statistics and the operator-tunable configuration.
#[derive(Debug)]
pub struct Bucket<K, V> {
    /// The entry records; key views are unique.
    pub entries: Vec<Entry<K, V>>,
    /// Keys of the linked (idle) entries, front = coldest, back = warmest.
    pub lru: Vec<K>,
    /// Number of entries currently linked into the LRU queue.
    pub cold: usize,
    /// Modelled backing capacity of the associative set; grows on demand.
    pub capacity: usize,

    /// Decaying peak of the in-use entry count.
    pub maxused: usize,
    /// Remaining operations before the next decay step.
    pub maxused_countdown: u32,
    /// Current target percentage of capacity for cold entries.
    pub cold_target: u8,

    /// Decay cadence: operations between decay steps.
    pub target_cooldown: u32,
    /// Decay divisor: each step removes `maxused / reduction + 1`.
    pub maxused_reduction: usize,
    /// Upper end of the interpolation region for the cold target.
    pub max_capacity_limit: usize,
    /// Lower end of the interpolation region for the cold target.
    pub min_capacity_limit: usize,
    /// Cold target percentage at and below `min_capacity_limit`.
    pub max_cache_percent: u8,
    /// Cold target percentage at and above `max_capacity_limit`.
    pub min_cache_percent: u8,
    /// Number of entries evicted in one batch.
    pub evict_batch: u8,
}

/// Whether some entry of `es` has key view `kv`.
pub open spec fn seq_has_kv<K: KeyTraits, V>(es: Seq<Entry<K, V>>, kv: <K as View>::V) -> bool {
    exists|i: int| 0 <= i < es.len() && (#[trigger] es[i]).key@ == kv
}

/// Index of the entry of `es` with key view `kv`; meaningful when present.
pub open spec fn seq_idx_of<K: KeyTraits, V>(es: Seq<Entry<K, V>>, kv: <K as View>::V) -> int {
    choose|i: int| 0 <= i < es.len() && (#[trigger] es[i]).key@ == kv
}

/// No two entries of `es` share a key view.
pub open spec fn seq_unique_keys<K: KeyTraits, V>(es: Seq<Entry<K, V>>) -> bool {
    forall|i: int, j: int|
        0 <= i < j < es.len() ==> (#[trigger] es[i]).key@ != (#[trigger] es[j]).key@
}

/// With unique key views, any index holding `kv` is `seq_idx_of(es, kv)`.
pub proof fn lemma_seq_idx_unique<K: KeyTraits, V>(es: Seq<Entry<K, V>>, kv: <K as View>::V, i: int)
    requires
        seq_unique_keys(es),
        0 <= i < es.len(),
        es[i].key@ == kv,
    ensures
        seq_has_kv(es, kv),
        seq_idx_of(es, kv) == i,
{
    assert(seq_has_kv(es, kv));
    let j = seq_idx_of(es, kv);
    if i != j {
        assert(es[i].key@ != es[j].key@);
    }
}

impl<K: KeyTraits, V> Bucket<K, V> {
    /// Whether some entry has key view `kv`.
    pub open spec fn has_kv(&self, kv: <K as View>::V) -> bool {
        seq_has_kv(self.entries@, kv)
    }

    /// Index of the entry with key view `kv`; meaningful when `has_kv(kv)`.
    pub open spec fn idx_of(&self, kv: <K as View>::V) -> int {
        seq_idx_of(self.entries@, kv)
    }

    /// The entry with key view `kv`; meaningful when `has_kv(kv)`.
    pub open spec fn entry_at(&self, kv: <K as View>::V) -> Entry<K, V> {
        self.entries@[self.idx_of(kv)]
    }

    /// Whether the LRU queue holds key view `kv`.
    pub open spec fn lru_has(&self, kv: <K as View>::V) -> bool {
        exists|j: int| 0 <= j < self.lru@.len() && (#[trigger] self.lru@[j])@ == kv
    }

    /// Well-formedness of the shard. This carries the universal invariants:
    /// every entry is linked exactly when idle, key views are unique, the LRU
    /// queue lists exactly the linked entries without duplicates, and the
    /// cold counter equals both the queue length and the linked count.
    pub open spec fn wf(&self) -> bool {
        &&& forall|i: int|
            0 <= i < self.entries@.len() ==> (#[trigger] self.entries@[i]).wf()
        &&& seq_unique_keys(self.entries@)
        &&& forall|j1: int, j2: int|
            0 <= j1 < j2 < self.lru@.len() ==> (#[trigger] self.lru@[j1])@ != (
            #[trigger] self.lru@[j2])@
        &&& forall|j: int|
            0 <= j < self.lru@.len() ==> self.has_kv((#[trigger] self.lru@[j])@)
                && self.entry_at(self.lru@[j]@).linked
        &&& forall|i: int|
            0 <= i < self.entries@.len() && (#[trigger] self.entries@[i]).linked ==> self.lru_has(
                self.entries@[i].key@,
            )
        &&& self.cold == self.lru@.len()
        &&& self.cold == num_linked(self.entries@)
        &&& self.entries@.len() <= self.capacity
        &&& self.maxused_reduction >= 2
        &&& self.min_cache_percent < 100
        &&& self.max_cache_percent < 100
        &&& self.cold_target < 100
    }

    /// The entry with a given key view is unique: any index holding `kv`
    /// is `idx_of(kv)`.
    pub proof fn lemma_idx_unique(&self, kv: <K as View>::V, i: int)
        requires
            seq_unique_keys(self.entries@),
            0 <= i < self.entries@.len(),
            self.entries@[i].key@ == kv,
        ensures
            self.has_kv(kv),
            self.idx_of(kv) == i,
            self.entry_at(kv) == self.entries@[i],
    {
        lemma_seq_idx_unique(self.entries@, kv, i);
    }

    /// A new, empty shard with the default configuration.
    pub fn new() -> (r: Self)
        ensures
            r.wf(),
            r.is_fresh(),
    {
        Bucket {
            entries: Vec::new(),
            lru: Vec::new(),
            cold: 0,
            capacity: 0,
            maxused: 0,
            maxused_countdown: 0,
            cold_target: 50,
            target_cooldown: 1000,
            maxused_reduction: 10000,
            max_capacity_limit: 10000000,
            min_capacity_limit: 1000,
            max_cache_percent: 60,
            min_cache_percent: 5,
            evict_batch: 4,
        }
    }

    /// Finds the entry with the given key, if any.
    pub fn find(&self, key: &K) -> (r: Option<usize>)
        ensures
            match r {
                Some(i) => i < self.entries@.len() && self.entries@[i as int].key@ == key@,
                None => !self.has_kv(key@),
            },
    {
        let n = self.entries.len();
        let mut i: usize = 0;
        while i < n
            invariant
                i <= n,
                n == self.entries@.len(),
                forall|k: int| 0 <= k < i ==> (#[trigger] self.entries@[k]).key@ != key@,
            decreases n - i,
        {
            if self.entries[i].key.key_eq(key) {
                return Some(i);
            }
            i = i + 1;
        }
        None
    }

    /// Position of `key` in the LRU queue; meaningful when the queue has it.
    fn lru_pos(&self, key: &K) -> (r: usize)
        requires
            self.lru_has(key@),
        ensures
            r < self.lru@.len(),
            self.lru@[r as int]@ == key@,
    {
        let n = self.lru.len();
        let mut j: usize = 0;
        while j < n
            invariant
                j <= n,
                n == self.lru@.len(),
                self.lru_has(key@),
                forall|k: int| 0 <= k < j ==> (#[trigger] self.lru@[k])@ != key@,
            decreases n - j,
        {
            if self.lru[j].key_eq(key) {
                return j;
            }
            j = j + 1;
        }
        proof {
            assert(false);
        }
        0
    }

    /// A shard in its initial state: empty, with the default configuration.
    pub open spec fn is_fresh(&self) -> bool {
        &&& self.entries@.len() == 0
        &&& self.lru@.len() == 0
        &&& self.cold == 0
        &&& self.capacity == 0
        &&& self.maxused == 0
        &&& self.maxused_countdown == 0
        &&& self.cold_target == 50
        &&& self.target_cooldown == 1000
        &&& self.maxused_reduction == 10000
        &&& self.max_capacity_limit == 10000000
        &&& self.min_capacity_limit == 1000
        &&& self.max_cache_percent == 60
        &&& self.min_cache_percent == 5
        &&& self.evict_batch == 4
    }

    /// The two shards are observably identical.
    pub open spec fn same_all(pre: Self, post: Self) -> bool {
        &&& Self::same_content(pre, post)
        &&& Self::same_stats(pre, post)
        &&& Self::same_config(pre, post)
    }

    /// The two shards hold the same entries, LRU queue, cold count and
    /// capacity.
    pub open spec fn same_content(pre: Self, post: Self) -> bool {
        &&& post.entries@ == pre.entries@
        &&& post.lru@ == pre.lru@
        &&& post.cold == pre.cold
        &&& post.capacity == pre.capacity
    }

    /// The two shards agree on the adaptive statistics.
    pub open spec fn same_stats(pre: Self, post: Self) -> bool {
        &&& post.maxused == pre.maxused
        &&& post.maxused_countdown == pre.maxused_countdown
        &&& post.cold_target == pre.cold_target
    }

    /// The two shards agree on the operator-tunable configuration.
    pub open spec fn same_config(pre: Self, post: Self) -> bool {
        &&& post.target_cooldown == pre.target_cooldown
        &&& post.maxused_reduction == pre.maxused_reduction
        &&& post.max_capacity_limit == pre.max_capacity_limit
        &&& post.min_capacity_limit == pre.min_capacity_limit
        &&& post.max_cache_percent == pre.max_cache_percent
        &&& post.min_cache_percent == pre.min_cache_percent
        &&& post.evict_batch == pre.evict_batch
    }

    /// How one call of `update_maxused` moves the adaptive statistics, given
    /// the in-use count `now_used` it observed: the peak is raised; while the
    /// countdown runs it only counts down; when it expires, it resets to the
    /// cooldown, the peak decays one step, and the cold target is
    /// re-interpolated.
    pub open spec fn stats_transition(pre: Self, post: Self, now_used: int) -> bool {
        let m0 = spec_maxused_peak(pre.maxused as int, now_used);
        if pre.maxused_countdown > 0 {
            &&& post.maxused == m0
            &&& post.maxused_countdown == pre.maxused_countdown - 1
            &&& post.cold_target == pre.cold_target
        } else {
            &&& post.maxused == spec_decayed(m0, now_used, pre.maxused_reduction as int)
            &&& post.maxused_countdown == pre.target_cooldown
            &&& post.cold_target == spec_cold_target(
                post.maxused as int,
                pre.min_capacity_limit as int,
                pre.max_capacity_limit as int,
                pre.min_cache_percent as int,
                pre.max_cache_percent as int,
            )
        }
    }

    /// Refreshes the decaying peak of the in-use entry count, counting the
    /// entry about to be created or revived, and returns the adjusted peak.
    /// At decay cadence it also re-interpolates the cold target.
    pub fn update_maxused(&mut self) -> (r: usize)
        requires
            old(self).cold <= old(self).entries@.len(),
            old(self).maxused_reduction >= 2,
            old(self).min_cache_percent < 100,
            old(self).max_cache_percent < 100,
        ensures
            Self::stats_transition(
                *old(self),
                *final(self),
                spec_now_used(old(self).entries@.len() as int, old(self).cold as int),
            ),
            r == final(self).maxused,
            final(self).cold_target < 100 || final(self).cold_target == old(self).cold_target,
            Self::same_content(*old(self), *final(self)),
            Self::same_config(*old(self), *final(self)),
    {
        let len = self.entries.len();
        let lp1 = if len < usize::MAX {
            len + 1
        } else {
            len
        };
        let now_used = lp1 - self.cold;
        if now_used > self.maxused {
            self.maxused = now_used;
        }
        let countdown = self.maxused_countdown;
        if countdown > 0 {
            self.maxused_countdown = countdown - 1;
        } else {
            self.maxused_countdown = self.target_cooldown;
            let m = self.maxused;
            if m > 0 && m != now_used {
                proof {
                    lemma_decayed_in_range(m as int, now_used as int, self.maxused_reduction as int);
                }
                self.maxused = m - (m / self.maxused_reduction + 1);
            }
            self.cold_target = cold_target_for(
                self.maxused,
                self.min_capacity_limit,
                self.max_capacity_limit,
                self.min_cache_percent,
                self.max_cache_percent,
            );
        }
        self.maxused
    }

    /// Updating one entry in place leaves every other key's presence and
    /// record untouched, and the updated record is found under its key.
    pub proof fn lemma_update_entry_frame(pre: Self, post: Self, i: int)
        requires
            seq_unique_keys(pre.entries@),
            0 <= i < pre.entries@.len(),
            post.entries@ == pre.entries@.update(i, post.entries@[i]),
            post.entries@[i].key@ == pre.entries@[i].key@,
        ensures
            forall|kv: <K as View>::V|
                kv != pre.entries@[i].key@ ==> ((#[trigger] post.has_kv(kv)) <==> pre.has_kv(kv)),
            forall|kv: <K as View>::V|
                kv != pre.entries@[i].key@ && pre.has_kv(kv) ==> #[trigger] post.entry_at(kv)
                    == pre.entry_at(kv),
            post.has_kv(pre.entries@[i].key@),
            post.idx_of(pre.entries@[i].key@) == i,
            post.entry_at(pre.entries@[i].key@) == post.entries@[i],
    {
        assert(seq_unique_keys(post.entries@));
        lemma_seq_idx_unique(post.entries@, pre.entries@[i].key@, i);
        assert forall|kv: <K as View>::V| kv != pre.entries@[i].key@ implies ((
        #[trigger] post.has_kv(kv)) <==> pre.has_kv(kv)) by {
            if pre.has_kv(kv) {
                let w = seq_idx_of(pre.entries@, kv);
                assert(w != i);
                assert(post.entries@[w] == pre.entries@[w]);
                lemma_seq_idx_unique(post.entries@, kv, w);
            }
            if post.has_kv(kv) {
                let w = seq_idx_of(post.entries@, kv);
                assert(w != i);
                assert(pre.entries@[w] == post.entries@[w]);
                lemma_seq_idx_unique(pre.entries@, kv, w);
            }
        }
        assert forall|kv: <K as View>::V|
            kv != pre.entries@[i].key@ && pre.has_kv(kv) implies #[trigger] post.entry_at(kv)
            == pre.entry_at(kv) by {
            let w = seq_idx_of(pre.entries@, kv);
            assert(w != i);
            assert(post.entries@[w] == pre.entries@[w]);
            lemma_seq_idx_unique(post.entries@, kv, w);
        }
    }

    /// Restores shard well-formedness after an in-place entry update that
    /// keeps the key and the LRU membership flag.
    proof fn lemma_update_keeps_wf(pre: Self, post: Self, i: int)
        requires
            pre.wf(),
            0 <= i < pre.entries@.len(),
            post.entries@ == pre.entries@.update(i, post.entries@[i]),
            post.entries@[i].key@ == pre.entries@[i].key@,
            post.entries@[i].linked == pre.entries@[i].linked,
            post.entries@[i].wf(),
            post.lru@ == pre.lru@,
            post.cold == pre.cold,
            post.capacity == pre.capacity,
            post.maxused_reduction == pre.maxused_reduction,
            post.min_cache_percent == pre.min_cache_percent,
            post.max_cache_percent == pre.max_cache_percent,
            post.cold_target == pre.cold_target,
        ensures
            post.wf(),
    {
        let es0 = pre.entries@;
        let es1 = post.entries@;
        lemma_num_linked_update(es0, i, es1[i]);
        assert(seq_unique_keys(es1));
        Self::lemma_update_entry_frame(pre, post, i);
        assert forall|j: int| 0 <= j < post.lru@.len() implies post.has_kv(
            (#[trigger] post.lru@[j])@,
        ) && post.entry_at(post.lru@[j]@).linked by {
            let kv = pre.lru@[j]@;
            assert(pre.has_kv(kv) && pre.entry_at(kv).linked);
            if kv == es0[i].key@ {
                lemma_seq_idx_unique(es0, kv, i);
            }
        }
        assert forall|k: int|
            0 <= k < es1.len() && (#[trigger] es1[k]).linked implies post.lru_has(es1[k].key@) by {
            assert(es0[k].linked && es0[k].key@ == es1[k].key@);
        }
    }

    /// Creates the record for a new key: value empty, one use owned by the
    /// caller, the construction write lock already held (no contention is
    /// possible on a brand-new record), not linked. Refreshes the adaptive
    /// peak, counting the new entry, and grows the modelled capacity when
    /// the record exceeds it. Returns the record's index.
    pub(crate) fn insert_new(&mut self, key: K) -> (i: usize)
        requires
            old(self).wf(),
            !old(self).has_kv(key@),
        ensures
            final(self).wf(),
            i == old(self).entries@.len(),
            final(self).entries@ == old(self).entries@.push(
                Entry {
                    key: key,
                    value: None,
                    linked: false,
                    use_count: 1,
                    expire: false,
                    readers: 0,
                    writer: true,
                },
            ),
            final(self).lru@ == old(self).lru@,
            final(self).cold == old(self).cold,
            final(self).capacity >= old(self).capacity,
            old(self).entries@.len() + 1 <= old(self).capacity ==> final(self).capacity == old(
                self,
            ).capacity,
            Self::stats_transition(
                *old(self),
                *final(self),
                spec_now_used(old(self).entries@.len() as int, old(self).cold as int),
            ),
            Self::same_config(*old(self), *final(self)),
    {
        let ghost pre = *self;
        proof {
            lemma_num_linked_le_len(pre.entries@);
        }
        let _ = self.update_maxused();
        let i = self.entries.len();
        let mut e = Entry::new(key);
        e.writer = true;
        self.entries.push(e);
        if self.entries.len() > self.capacity {
            let doubled = if self.capacity <= usize::MAX / 2 {
                self.capacity * 2
            } else {
                usize::MAX
            };
            let wanted = if doubled < 8 {
                8
            } else {
                doubled
            };
            self.capacity = if wanted < self.entries.len() {
                self.entries.len()
            } else {
                wanted
            };
        }
        proof {
            let es0 = pre.entries@;
            let es1 = self.entries@;
            let en = es1[i as int];
            lemma_num_linked_push(es0, en);
            assert(seq_unique_keys(es1)) by {
                assert forall|k1: int, k2: int| 0 <= k1 < k2 < es1.len() implies (
                #[trigger] es1[k1]).key@ != (#[trigger] es1[k2]).key@ by {
                    if k2 == i as int {
                        assert(seq_has_kv(es0, es1[k1].key@));
                    }
                }
            }
            assert forall|j: int| 0 <= j < self.lru@.len() implies self.has_kv(
                (#[trigger] self.lru@[j])@,
            ) && self.entry_at(self.lru@[j]@).linked by {
                let kv = pre.lru@[j]@;
                let w = pre.idx_of(kv);
                assert(pre.has_kv(kv) && pre.entry_at(kv).linked);
                assert(es1[w] == es0[w]);
                lemma_seq_idx_unique(es1, kv, w);
            }
            assert forall|k: int|
                0 <= k < es1.len() && (#[trigger] es1[k]).linked implies self.lru_has(
                es1[k].key@,
            ) by {
                assert(k != i as int);
                assert(es0[k].linked);
            }
        }
        i
    }

    /// Sets the value-lock state of one entry. The new state must be covered
    /// by the entry's uses and respect reader/writer exclusion.
    pub(crate) fn update_lock(&mut self, i: usize, readers: usize, writer: bool)
        requires
            old(self).wf(),
            i < old(self).entries@.len(),
            readers + (if writer {
                1int
            } else {
                0int
            }) <= old(self).entries@[i as int].use_count,
            !(writer && readers > 0),
            old(self).entries@[i as int].value is None ==> writer,
        ensures
            final(self).wf(),
            ({
                let e0 = old(self).entries@[i as int];
                final(self).entries@ == old(self).entries@.update(
                    i as int,
                    Entry { readers: readers, writer: writer, ..e0 },
                )
            }),
            final(self).lru@ == old(self).lru@,
            final(self).cold == old(self).cold,
            final(self).capacity == old(self).capacity,
            Self::same_stats(*old(self), *final(self)),
            Self::same_config(*old(self), *final(self)),
    {
        let ghost pre = *self;
        let mut e = self.entries.remove(i);
        e.readers = readers;
        e.writer = writer;
        self.entries.insert(i, e);
        proof {
            let e0 = pre.entries@[i as int];
            assert(self.entries@ =~= pre.entries@.update(
                i as int,
                Entry { readers: readers, writer: writer, ..e0 },
            ));
            Self::lemma_update_keeps_wf(pre, *self, i as int);
        }
    }

    /// Stores a value into an entry's slot, which the construction protocol
    /// and write guards do under the write lock.
    pub(crate) fn fill_value(&mut self, i: usize, v: V)
        requires
            old(self).wf(),
            i < old(self).entries@.len(),
            old(self).entries@[i as int].writer,
        ensures
            final(self).wf(),
            ({
                let e0 = old(self).entries@[i as int];
                final(self).entries@ == old(self).entries@.update(
                    i as int,
                    Entry { value: Some(v), ..e0 },
                )
            }),
            final(self).lru@ == old(self).lru@,
            final(self).cold == old(self).cold,
            final(self).capacity == old(self).capacity,
            Self::same_stats(*old(self), *final(self)),
            Self::same_config(*old(self), *final(self)),
    {
        let ghost pre = *self;
        let mut e = self.entries.remove(i);
        e.value = Some(v);
        self.entries.insert(i, e);
        proof {
            let e0 = pre.entries@[i as int];
            assert(self.entries@ =~= pre.entries@.update(i as int, Entry { value: Some(v), ..e0 }));
            Self::lemma_update_keeps_wf(pre, *self, i as int);
        }
    }

    /// Sets the advisory expire flag of one entry.
    pub(crate) fn set_expire(&mut self, i: usize)
        requires
            old(self).wf(),
            i < old(self).entries@.len(),
        ensures
            final(self).wf(),
            ({
                let e0 = old(self).entries@[i as int];
                final(self).entries@ == old(self).entries@.update(
                    i as int,
                    Entry { expire: true, ..e0 },
                )
            }),
            final(self).lru@ == old(self).lru@,
            final(self).cold == old(self).cold,
            final(self).capacity == old(self).capacity,
            Self::same_stats(*old(self), *final(self)),
            Self::same_config(*old(self), *final(self)),
    {
        let ghost pre = *self;
        let mut e = self.entries.remove(i);
        e.expire = true;
        self.entries.insert(i, e);
        proof {
            let e0 = pre.entries@[i as int];
            assert(self.entries@ =~= pre.entries@.update(i as int, Entry { expire: true, ..e0 }));
            Self::lemma_update_keeps_wf(pre, *self, i as int);
        }
    }

    /// Removes a record whose construction failed: it is still unlinked and
    /// solely owned by the constructing caller, so no other holder can
    /// observe it. No partially constructed record stays behind.
    pub(crate) fn remove_new(&mut self, i: usize)
        requires
            old(self).wf(),
            i < old(self).entries@.len(),
            old(self).entries@[i as int].use_count == 1,
            old(self).entries@[i as int].writer,
        ensures
            final(self).wf(),
            final(self).entries@ == old(self).entries@.remove(i as int),
            !final(self).has_kv(old(self).entries@[i as int].key@),
            forall|kv: <K as View>::V|
                kv != old(self).entries@[i as int].key@ ==> ((#[trigger] final(self).has_kv(kv))
                    <==> old(self).has_kv(kv)),
            forall|kv: <K as View>::V|
                kv != old(self).entries@[i as int].key@ && old(self).has_kv(kv)
                    ==> #[trigger] final(self).entry_at(kv) == old(self).entry_at(kv),
            final(self).lru@ == old(self).lru@,
            final(self).cold == old(self).cold,
            final(self).capacity == old(self).capacity,
            Self::same_stats(*old(self), *final(self)),
            Self::same_config(*old(self), *final(self)),
    {
        let ghost pre = *self;
        let _ = self.entries.remove(i);
        proof {
            let es0 = pre.entries@;
            let es1 = self.entries@;
            let kv0 = es0[i as int].key@;
            assert(!es0[i as int].linked);
            lemma_num_linked_remove(es0, i as int);
            assert(forall|k: int|
                0 <= k < es1.len() ==> es1[k] == es0[if k < i as int {
                    k
                } else {
                    k + 1
                }]);
            assert(seq_unique_keys(es1));
            assert forall|k: int| 0 <= k < es1.len() implies (#[trigger] es1[k]).key@ != kv0 by {
                let k0: int = if k < i as int {
                    k
                } else {
                    k + 1
                };
                if es0[k0].key@ == kv0 {
                    lemma_seq_idx_unique(es0, kv0, k0);
                }
            }
            assert forall|j: int| 0 <= j < self.lru@.len() implies self.has_kv(
                (#[trigger] self.lru@[j])@,
            ) && self.entry_at(self.lru@[j]@).linked by {
                let kv = pre.lru@[j]@;
                let w = pre.idx_of(kv);
                assert(pre.has_kv(kv) && pre.entry_at(kv).linked);
                assert(w != i as int);
                let k1: int = if w < i as int {
                    w
                } else {
                    w - 1
                };
                assert(es1[k1] == es0[w]);
                lemma_seq_idx_unique(es1, kv, k1);
            }
            assert forall|k: int|
                0 <= k < es1.len() && (#[trigger] es1[k]).linked implies self.lru_has(
                es1[k].key@,
            ) by {
                let k0: int = if k < i as int {
                    k
                } else {
                    k + 1
                };
                assert(es0[k0].linked);
            }
            assert forall|kv: <K as View>::V| kv != kv0 implies ((#[trigger] self.has_kv(kv))
                <==> pre.has_kv(kv)) by {
                if pre.has_kv(kv) {
                    let w = seq_idx_of(es0, kv);
                    assert(w != i as int);
                    let k1: int = if w < i as int {
                        w
                    } else {
                        w - 1
                    };
                    assert(es1[k1] == es0[w]);
                    lemma_seq_idx_unique(es1, kv, k1);
                }
                if self.has_kv(kv) {
                    let w = seq_idx_of(es1, kv);
                    let k0: int = if w < i as int {
                        w
                    } else {
                        w + 1
                    };
                    assert(es0[k0] == es1[w]);
                    lemma_seq_idx_unique(es0, kv, k0);
                }
            }
            assert forall|kv: <K as View>::V|
                kv != kv0 && pre.has_kv(kv) implies #[trigger] self.entry_at(kv) == pre.entry_at(
                kv,
            ) by {
                let w = seq_idx_of(es0, kv);
                assert(w != i as int);
                let k1: int = if w < i as int {
                    w
                } else {
                    w - 1
                };
                assert(es1[k1] == es0[w]);
                lemma_seq_idx_unique(es1, kv, k1);
            }
        }
    }

    /// The construction protocol on one shard, once the key was found
    /// absent: optionally make room first, then create the record with the
    /// construction write lock held and fill its value slot. Returns the
    /// record's index, together with the intermediate shard state (after the
    /// eviction decision) and the eviction count, for the caller's frame
    /// reasoning.
    /// The opening of the construction protocol on one shard, once the key
    /// was found absent: optionally make room, then create the record with
    /// its value slot still empty and the construction write lock held.
    /// Returns the record's index, together with the intermediate shard
    /// state (after the eviction decision) and the eviction count, for the
    /// caller's frame reasoning.
    pub(crate) fn begin_construct(&mut self, key: K, run_evict: bool) -> (res: (
        usize,
        Ghost<Self>,
        Ghost<int>,
    ))
        requires
            old(self).wf(),
            !old(self).has_kv(key@),
        ensures
            final(self).wf(),
            ({
                let (i, mid, r) = res;
                &&& mid@.wf()
                &&& Self::evict_post(*old(self), mid@, r@)
                &&& if run_evict && old(self).entries@.len() >= old(self).capacity && old(
                    self,
                ).cold * 100 > old(self).cold_target * old(self).capacity {
                    r@ == min_int(old(self).evict_batch as int, old(self).cold as int)
                } else {
                    r@ == 0 && Self::same_content(*old(self), mid@)
                }
                &&& !mid@.has_kv(key@)
                &&& i as int == mid@.entries@.len()
                &&& final(self).entries@ == mid@.entries@.push(
                    Entry {
                        key: key,
                        value: None,
                        linked: false,
                        use_count: 1,
                        expire: false,
                        readers: 0,
                        writer: true,
                    },
                )
                &&& final(self).lru@ == mid@.lru@
                &&& final(self).cold == mid@.cold
                &&& Self::same_config(*old(self), *final(self))
            }),
    {
        let ghost pre = *self;
        let ghost pressure = pre.entries@.len() >= pre.capacity && pre.cold * 100
            > pre.cold_target * pre.capacity;
        if run_evict {
            self.maybe_evict();
        }
        let ghost mid = *self;
        let ghost r: int = if run_evict && pressure {
            min_int(pre.evict_batch as int, pre.cold as int)
        } else {
            0
        };
        proof {
            if !(run_evict && pressure) {
                assert(mid.lru@ =~= pre.lru@.subrange(0, pre.lru@.len() as int));
                assert(Self::evict_post(pre, mid, 0));
            }
        }
        let i = self.insert_new(key);
        (i, Ghost(mid), Ghost(r))
    }

    /// The whole construction protocol on one shard: `begin_construct`,
    /// then the value filled under the construction write lock.
    pub(crate) fn construct(&mut self, key: K, v: V, run_evict: bool) -> (res: (
        usize,
        Ghost<Self>,
        Ghost<int>,
    ))
        requires
            old(self).wf(),
            !old(self).has_kv(key@),
        ensures
            final(self).wf(),
            ({
                let (i, mid, r) = res;
                &&& mid@.wf()
                &&& Self::evict_post(*old(self), mid@, r@)
                &&& if run_evict && old(self).entries@.len() >= old(self).capacity && old(
                    self,
                ).cold * 100 > old(self).cold_target * old(self).capacity {
                    r@ == min_int(old(self).evict_batch as int, old(self).cold as int)
                } else {
                    r@ == 0 && Self::same_content(*old(self), mid@)
                }
                &&& !mid@.has_kv(key@)
                &&& i as int == mid@.entries@.len()
                &&& final(self).entries@ == mid@.entries@.push(
                    Entry {
                        key: key,
                        value: Some(v),
                        linked: false,
                        use_count: 1,
                        expire: false,
                        readers: 0,
                        writer: true,
                    },
                )
                &&& final(self).lru@ == mid@.lru@
                &&& final(self).cold == mid@.cold
                &&& Self::same_config(*old(self), *final(self))
            }),
    {
        let ghost pre = *self;
        let (i, mid, r) = self.begin_construct(key, run_evict);
        self.fill_value(i, v);
        proof {
            assert(self.entries@ =~= mid@.entries@.push(self.entries@[i as int]));
        }
        (i, mid, r)
    }

    /// Takes back the use acquired by `use_entry` when the value lock could
    /// not be had: the lock holders that caused the failure still cover the
    /// remaining uses, so the entry stays unlinked.
    pub(crate) fn rollback_use(&mut self, i: usize)
        requires
            old(self).wf(),
            i < old(self).entries@.len(),
            old(self).entries@[i as int].use_count > old(self).entries@[i as int].readers + (if old(
                self,
            ).entries@[i as int].writer {
                1int
            } else {
                0int
            }),
            old(self).entries@[i as int].use_count > 1,
        ensures
            final(self).wf(),
            ({
                let e0 = old(self).entries@[i as int];
                final(self).entries@ == old(self).entries@.update(
                    i as int,
                    Entry { use_count: (e0.use_count - 1) as usize, ..e0 },
                )
            }),
            final(self).lru@ == old(self).lru@,
            final(self).cold == old(self).cold,
            final(self).capacity == old(self).capacity,
            Self::same_stats(*old(self), *final(self)),
            Self::same_config(*old(self), *final(self)),
    {
        let ghost pre = *self;
        let mut e = self.entries.remove(i);
        e.use_count = e.use_count - 1;
        self.entries.insert(i, e);
        proof {
            let e0 = pre.entries@[i as int];
            assert(self.entries@ =~= pre.entries@.update(
                i as int,
                Entry { use_count: (e0.use_count - 1) as usize, ..e0 },
            ));
            Self::lemma_update_keeps_wf(pre, *self, i as int);
        }
    }

    /// Eviction never touches an entry in use: whatever `evict` removed,
    /// every record with a positive use count survives unchanged, because
    /// only idle (linked) entries stand in the LRU queue.
    pub proof fn lemma_evict_preserves_in_use(pre: Self, post: Self, r: int)
        requires
            pre.wf(),
            Self::evict_post(pre, post, r),
        ensures
            forall|kv: <K as View>::V|
                pre.has_kv(kv) && (#[trigger] pre.entry_at(kv)).use_count > 0 ==> post.has_kv(kv)
                    && post.entry_at(kv) == pre.entry_at(kv),
    {
        assert forall|kv: <K as View>::V|
            pre.has_kv(kv) && (#[trigger] pre.entry_at(kv)).use_count > 0 implies post.has_kv(kv)
            && post.entry_at(kv) == pre.entry_at(kv) by {
            if exists|j: int| 0 <= j < r && (#[trigger] pre.lru@[j])@ == kv {
                let j = choose|j: int| 0 <= j < r && (#[trigger] pre.lru@[j])@ == kv;
                assert(pre.has_kv(pre.lru@[j]@) && pre.entry_at(pre.lru@[j]@).linked);
                assert(pre.entry_at(kv).use_count == 0);
            }
        }
    }

    /// What evicting `r` entries does to a shard: the `r` coldest queue keys
    /// and their records leave; every other record survives unchanged; the
    /// statistics, configuration and capacity stay.
    pub open spec fn evict_post(pre: Self, post: Self, r: int) -> bool {
        &&& 0 <= r <= pre.cold
        &&& post.cold == pre.cold - r
        &&& post.lru@ == pre.lru@.subrange(r, pre.lru@.len() as int)
        &&& post.entries@.len() == pre.entries@.len() - r
        &&& forall|j: int| 0 <= j < r ==> !post.has_kv((#[trigger] pre.lru@[j])@)
        &&& forall|kv: <K as View>::V| #[trigger]
            post.has_kv(kv) ==> pre.has_kv(kv) && post.entry_at(kv) == pre.entry_at(kv)
        &&& forall|kv: <K as View>::V|
            pre.has_kv(kv) && !(exists|j: int| 0 <= j < r && (#[trigger] pre.lru@[j])@ == kv)
                ==> #[trigger] post.has_kv(kv)
        &&& forall|i: int|
            0 <= i < post.entries@.len() ==> pre.has_kv((#[trigger] post.entries@[i]).key@)
        &&& post.capacity == pre.capacity
        &&& Self::same_stats(pre, post)
        &&& Self::same_config(pre, post)
    }

    /// Evicts up to `n` entries from the cold end of the LRU queue, removing
    /// each record from the shard. Returns the number actually evicted,
    /// which is `n` capped at the number of idle entries.
    pub fn evict(&mut self, n: usize) -> (r: usize)
        requires
            old(self).wf(),
        ensures
            final(self).wf(),
            r == if n as int <= old(self).cold as int {
                n as int
            } else {
                old(self).cold as int
            },
            Self::evict_post(*old(self), *final(self), r as int),
    {
        let ghost pre = *self;
        let mut count: usize = 0;
        while count < n
            invariant
                pre == *old(self),
                pre.wf(),
                self.wf(),
                count <= n,
                count <= pre.cold,
                self.cold == pre.cold - count,
                self.lru@ == pre.lru@.subrange(count as int, pre.lru@.len() as int),
                self.entries@.len() == pre.entries@.len() - count,
                forall|j: int| 0 <= j < count ==> !self.has_kv((#[trigger] pre.lru@[j])@),
                forall|kv: <K as View>::V| #[trigger]
                    self.has_kv(kv) ==> pre.has_kv(kv) && self.entry_at(kv) == pre.entry_at(kv),
                forall|kv: <K as View>::V|
                    pre.has_kv(kv) && !(exists|j: int|
                        0 <= j < count && (#[trigger] pre.lru@[j])@ == kv) ==> #[trigger] self.has_kv(
                        kv,
                    ),
                forall|i: int|
                    0 <= i < self.entries@.len() ==> pre.has_kv((#[trigger] self.entries@[i]).key@),
                self.capacity == pre.capacity,
                Self::same_stats(pre, *self),
                Self::same_config(pre, *self),
            decreases n - count,
        {
            if self.lru.len() == 0 {
                return count;
            }
            let ghost mid = *self;
            let key = self.lru.remove(0);
            proof {
                assert(mid.lru@[0] == pre.lru@[count as int]);
                assert(mid.has_kv(key@) && mid.entry_at(key@).linked);
            }
            let idx = match self.find(&key) {
                Some(idx) => idx,
                None => {
                    proof {
                        assert(seq_has_kv(mid.entries@, key@));
                        assert(false);
                    }
                    0
                },
            };
            let _ = self.entries.remove(idx);
            self.cold = self.cold - 1;
            count = count + 1;
            proof {
                let es0 = mid.entries@;
                let es1 = self.entries@;
                let kv0 = key@;
                let w0 = seq_idx_of(es0, kv0);
                lemma_seq_idx_unique(es0, kv0, idx as int);
                assert(w0 == idx as int);
                assert(es0[idx as int].linked);
                lemma_num_linked_remove(es0, idx as int);
                assert(self.lru@ =~= pre.lru@.subrange(count as int, pre.lru@.len() as int));
                // Each surviving index maps back to an old index.
                assert(forall|k: int|
                    0 <= k < es1.len() ==> es1[k] == es0[if k < idx as int {
                        k
                    } else {
                        k + 1
                    }]);
                assert(seq_unique_keys(es1));
                // The removed key is gone: any witness would collide with
                // uniqueness of key views.
                assert forall|k: int| 0 <= k < es1.len() implies (#[trigger] es1[k]).key@ != kv0 by {
                    let k0: int = if k < idx as int {
                        k
                    } else {
                        k + 1
                    };
                    if es0[k0].key@ == kv0 {
                        lemma_seq_idx_unique(es0, kv0, k0);
                    }
                }
                // Queue keys still name linked records.
                assert forall|j: int| 0 <= j < self.lru@.len() implies self.has_kv(
                    (#[trigger] self.lru@[j])@,
                ) && self.entry_at(self.lru@[j]@).linked by {
                    let kv = mid.lru@[j + 1]@;
                    assert(self.lru@[j] == mid.lru@[j + 1]);
                    assert(kv != kv0);
                    let w = mid.idx_of(kv);
                    assert(mid.has_kv(kv) && mid.entry_at(kv).linked);
                    assert(w != idx as int);
                    let k1: int = if w < idx as int {
                        w
                    } else {
                        w - 1
                    };
                    assert(es1[k1] == es0[w]);
                    lemma_seq_idx_unique(es1, kv, k1);
                }
                // Linked records are still queued.
                assert forall|k: int|
                    0 <= k < es1.len() && (#[trigger] es1[k]).linked implies self.lru_has(
                    es1[k].key@,
                ) by {
                    let k0: int = if k < idx as int {
                        k
                    } else {
                        k + 1
                    };
                    assert(es0[k0].linked);
                    let q = choose|q: int|
                        0 <= q < mid.lru@.len() && (#[trigger] mid.lru@[q])@ == es0[k0].key@;
                    assert(q != 0);
                    assert(self.lru@[q - 1] == mid.lru@[q]);
                }
                // Presence tracking relative to the starting state.
                assert forall|kv: <K as View>::V| #[trigger]
                    self.has_kv(kv) implies pre.has_kv(kv) && self.entry_at(kv) == pre.entry_at(
                    kv,
                ) by {
                    let k = self.idx_of(kv);
                    let k0: int = if k < idx as int {
                        k
                    } else {
                        k + 1
                    };
                    assert(es1[k] == es0[k0]);
                    lemma_seq_idx_unique(es0, kv, k0);
                    assert(mid.has_kv(kv) && mid.entry_at(kv) == es1[k]);
                }
                assert forall|kv: <K as View>::V|
                    pre.has_kv(kv) && !(exists|j: int|
                        0 <= j < count && (#[trigger] pre.lru@[j])@ == kv) implies #[trigger] self.has_kv(
                    kv,
                ) by {
                    assert(pre.lru@[count - 1] == mid.lru@[0]);
                    assert(kv != kv0);
                    assert(mid.has_kv(kv));
                    let w = mid.idx_of(kv);
                    assert(w != idx as int);
                    let k1: int = if w < idx as int {
                        w
                    } else {
                        w - 1
                    };
                    assert(es1[k1] == es0[w]);
                }
                assert forall|j: int| 0 <= j < count implies !self.has_kv(
                    (#[trigger] pre.lru@[j])@,
                ) by {
                    if j < count - 1 {
                        assert(!mid.has_kv(pre.lru@[j]@));
                        if self.has_kv(pre.lru@[j]@) {
                            let k = self.idx_of(pre.lru@[j]@);
                            let k0: int = if k < idx as int {
                                k
                            } else {
                                k + 1
                            };
                            assert(es1[k] == es0[k0]);
                            assert(seq_has_kv(es0, pre.lru@[j]@));
                        }
                    } else {
                        assert(pre.lru@[j] == mid.lru@[0]);
                    }
                }
            }
        }
        count
    }

    /// Decides, before a speculative insertion, whether to make room: while
    /// the backing capacity has headroom, nothing happens; under pressure,
    /// when the cold fraction of capacity reaches the adaptive target, one
    /// batch is evicted from the cold end; otherwise the map is left to grow.
    pub fn maybe_evict(&mut self)
        requires
            old(self).wf(),
        ensures
            final(self).wf(),
            ({
                let pre = *old(self);
                let pressure = pre.entries@.len() >= pre.capacity && pre.cold * 100
                    > pre.cold_target * pre.capacity;
                if pressure {
                    Self::evict_post(
                        *old(self),
                        *final(self),
                        if pre.evict_batch as int <= pre.cold as int {
                            pre.evict_batch as int
                        } else {
                            pre.cold as int
                        },
                    )
                } else {
                    Self::same_content(pre, *final(self)) && Self::same_stats(pre, *final(self))
                        && Self::same_config(pre, *final(self))
                }
            }),
    {
        if self.entries.len() < self.capacity {
            return ;
        }
        let cold_scaled: u128 = (self.cold as u128) * 100;
        assert(((self.cold_target as u128) as int) * ((self.capacity as u128) as int) <= 99 * (
        0xffff_ffff_ffff_ffffu128 as int)) by (nonlinear_arith)
            requires
                ((self.cold_target as u128) as int) <= 99,
                ((self.capacity as u128) as int) <= (0xffff_ffff_ffff_ffffu128 as int),
        ;
        let target_scaled: u128 = (self.cold_target as u128) * (self.capacity as u128);
        if cold_scaled > target_scaled {
            let batch = self.evict_batch;
            let _ = self.evict(batch as usize);
        }
    }

    /// Law: an entry is linked into the LRU queue exactly when it is idle,
    /// that is, when its use count is zero.
    pub proof fn lemma_linked_iff_idle(&self)
        requires
            self.wf(),
        ensures
            forall|i: int|
                0 <= i < self.entries@.len() ==> ((#[trigger] self.entries@[i]).linked
                    <==> self.entries@[i].use_count == 0),
    {
    }

    /// Law: the cold counter equals the number of linked entries, which is
    /// also the length of the LRU queue.
    pub proof fn lemma_cold_counts(&self)
        requires
            self.wf(),
        ensures
            self.cold == num_linked(self.entries@),
            self.cold == self.lru@.len(),
            self.cold <= self.entries@.len(),
    {
        lemma_num_linked_le_len(self.entries@);
    }

    /// Law: evicting up to `per` from each shard of `bs` removes at most
    /// `per` entries per shard.
    pub proof fn lemma_evictable_sum_bounded(bs: Seq<Bucket<K, V>>, per: int)
        requires
            per >= 0,
        ensures
            0 <= evictable_sum(bs, per) <= bs.len() * per,
        decreases bs.len(),
    {
        if bs.len() == 0 {
        } else {
            Self::lemma_evictable_sum_bounded(bs.drop_last(), per);
            assert((bs.len() - 1) * per + per == bs.len() as int * per) by (nonlinear_arith);
        }
    }

    /// Checks the universal shard invariants by scanning the records: every
    /// entry linked exactly when idle, and the cold counter equal to both
    /// the linked count and the LRU queue length. On a well-formed shard
    /// this never reports a violation.
    pub fn check_invariants(&self) -> (r: bool)
        requires
            self.wf(),
        ensures
            r,
    {
        let n = self.entries.len();
        let mut i: usize = 0;
        let mut linked_count: usize = 0;
        while i < n
            invariant
                self.wf(),
                i <= n,
                n == self.entries@.len(),
                linked_count as int == num_linked(self.entries@.subrange(0, i as int)),
                linked_count <= i,
            decreases n - i,
        {
            let linked = self.entries[i].linked;
            if linked != (self.entries[i].use_count == 0) {
                return false;
            }
            proof {
                assert(self.entries@.subrange(0, i + 1).drop_last() =~= self.entries@.subrange(
                    0,
                    i as int,
                ));
            }
            if linked {
                linked_count = linked_count + 1;
            }
            i = i + 1;
        }
        proof {
            assert(self.entries@.subrange(0, n as int) =~= self.entries@);
        }
        if linked_count != self.cold {
            return false;
        }
        if self.lru.len() != self.cold {
            return false;
        }
        true
    }

    /// Takes an entry into use: if it is linked, detaches it from the LRU
    /// queue, decrements the cold count and refreshes the adaptive peak;
    /// then increments the use count. Called on every successful lookup.
    #[verifier::rlimit(60)]
    pub(crate) fn use_entry(&mut self, i: usize)
        requires
            old(self).wf(),
            i < old(self).entries@.len(),
            old(self).entries@[i as int].use_count < usize::MAX,
        ensures
            final(self).wf(),
            ({
                let e0 = old(self).entries@[i as int];
                final(self).entries@ == old(self).entries@.update(
                    i as int,
                    Entry { linked: false, use_count: (e0.use_count + 1) as usize, ..e0 },
                )
            }),
            old(self).entries@[i as int].linked ==> {
                &&& final(self).cold == old(self).cold - 1
                &&& exists|p: int|
                    0 <= p < old(self).lru@.len() && (#[trigger] old(self).lru@[p])@ == old(
                        self,
                    ).entries@[i as int].key@ && final(self).lru@ == old(self).lru@.remove(p)
                &&& Self::stats_transition(
                    *old(self),
                    *final(self),
                    spec_now_used(old(self).entries@.len() as int, old(self).cold - 1),
                )
            },
            !old(self).entries@[i as int].linked ==> final(self).lru@ == old(self).lru@
                && final(self).cold == old(self).cold && Self::same_stats(*old(self), *final(self)),
            final(self).capacity == old(self).capacity,
            final(self).entries@.len() == old(self).entries@.len(),
            Self::same_config(*old(self), *final(self)),
    {
        let ghost pre = *self;
        if self.entries[i].linked {
            let key = self.entries[i].key.key_clone();
            assert(self.lru_has(key@));
            let p = self.lru_pos(&key);
            let _ = self.lru.remove(p);
            self.cold = self.cold - 1;
            proof {
                lemma_num_linked_le_len(pre.entries@);
            }
            let _ = self.update_maxused();
            let ghost mid = *self;
            let mut e = self.entries.remove(i);
            e.use_count = e.use_count + 1;
            e.linked = false;
            self.entries.insert(i, e);
            proof {
                let es0 = pre.entries@;
                let e0 = es0[i as int];
                let e1 = Entry { linked: false, use_count: (e0.use_count + 1) as usize, ..e0 };
                assert(self.entries@ =~= es0.update(i as int, e1));
                let es1 = self.entries@;
                lemma_num_linked_update(es0, i as int, e1);
                // Entry well-formedness and key uniqueness carry over.
                assert(forall|k: int| 0 <= k < es1.len() ==> (#[trigger] es1[k]).wf());
                assert(forall|k: int| 0 <= k < es1.len() ==> (#[trigger] es1[k]).key@ == es0[k].key@);
                assert(seq_unique_keys(es1));
                // The removed queue position held exactly this entry's key.
                assert(pre.lru@[p as int]@ == e0.key@);
                // Remaining queue keys still name linked entries.
                assert forall|j: int| 0 <= j < self.lru@.len() implies self.has_kv(
                    (#[trigger] self.lru@[j])@,
                ) && self.entry_at(self.lru@[j]@).linked by {
                    let q: int = if j < p { j } else { j + 1 };
                    assert(self.lru@[j] == pre.lru@[q]);
                    let kv = pre.lru@[q]@;
                    assert(kv != pre.lru@[p as int]@);
                    let w = pre.idx_of(kv);
                    assert(pre.has_kv(kv) && pre.entry_at(kv).linked);
                    assert(0 <= w < es0.len() && es0[w].key@ == kv);
                    assert(w != i);
                    self.lemma_idx_unique(kv, w);
                }
                // Linked entries all remain in the queue.
                assert forall|k: int|
                    0 <= k < es1.len() && (#[trigger] es1[k]).linked implies self.lru_has(
                    es1[k].key@,
                ) by {
                    assert(k != i);
                    assert(es0[k].linked);
                    let q = choose|q: int|
                        0 <= q < pre.lru@.len() && (#[trigger] pre.lru@[q])@ == es0[k].key@;
                    assert(es0[k].key@ != es0[i as int].key@);
                    assert(q != p);
                    let j: int = if q < p { q } else { q - 1 };
                    assert(self.lru@[j] == pre.lru@[q]);
                }
                // No duplicate keys in the shortened queue.
                assert forall|j1: int, j2: int| 0 <= j1 < j2 < self.lru@.len() implies (
                #[trigger] self.lru@[j1])@ != (#[trigger] self.lru@[j2])@ by {
                    let q1: int = if j1 < p { j1 } else { j1 + 1 };
                    let q2: int = if j2 < p { j2 } else { j2 + 1 };
                    assert(self.lru@[j1] == pre.lru@[q1]);
                    assert(self.lru@[j2] == pre.lru@[q2]);
                }
            }
        } else {
            let mut e = self.entries.remove(i);
            e.use_count = e.use_count + 1;
            e.linked = false;
            self.entries.insert(i, e);
            proof {
                let es0 = pre.entries@;
                let e0 = es0[i as int];
                let e1 = Entry { linked: false, use_count: (e0.use_count + 1) as usize, ..e0 };
                assert(self.entries@ =~= es0.update(i as int, e1));
                let es1 = self.entries@;
                lemma_num_linked_update(es0, i as int, e1);
                assert(forall|k: int| 0 <= k < es1.len() ==> (#[trigger] es1[k]).key@ == es0[k].key@);
                assert(seq_unique_keys(es1));
                assert forall|j: int| 0 <= j < self.lru@.len() implies self.has_kv(
                    (#[trigger] self.lru@[j])@,
                ) && self.entry_at(self.lru@[j]@).linked by {
                    let kv = pre.lru@[j]@;
                    let w = pre.idx_of(kv);
                    assert(pre.has_kv(kv) && pre.entry_at(kv).linked);
                    assert(0 <= w < es0.len() && es0[w].key@ == kv);
                    assert(w != i);
                    self.lemma_idx_unique(kv, w);
                }
                assert forall|k: int|
                    0 <= k < es1.len() && (#[trigger] es1[k]).linked implies self.lru_has(
                    es1[k].key@,
                ) by {
                    assert(k != i);
                    assert(es0[k].linked);
                }
            }
        }
    }

    /// Releases one use of an entry together with the value lock the caller
    /// held (the write lock when `release_writer`, one read lock otherwise):
    /// decrements the use count; on the transition to idle, increments the
    /// cold count and links the entry at the warm end of the LRU queue.
    /// Called when a guard is handed back.
    pub(crate) fn unuse_entry(&mut self, i: usize, release_writer: bool)
        requires
            old(self).wf(),
            i < old(self).entries@.len(),
            old(self).entries@[i as int].use_count >= 1,
            release_writer ==> old(self).entries@[i as int].writer,
            !release_writer ==> old(self).entries@[i as int].readers >= 1,
            old(self).entries@[i as int].value is Some,
        ensures
            final(self).wf(),
            ({
                let e0 = old(self).entries@[i as int];
                final(self).entries@ == old(self).entries@.update(
                    i as int,
                    Entry {
                        linked: e0.use_count == 1,
                        use_count: (e0.use_count - 1) as usize,
                        readers: if release_writer {
                            e0.readers
                        } else {
                            (e0.readers - 1) as usize
                        },
                        writer: if release_writer {
                            false
                        } else {
                            e0.writer
                        },
                        ..e0
                    },
                )
            }),
            old(self).entries@[i as int].use_count == 1 ==> {
                &&& final(self).cold == old(self).cold + 1
                &&& final(self).lru@.len() == old(self).lru@.len() + 1
                &&& final(self).lru@[old(self).lru@.len() as int]@ == old(self).entries@[i as int].key@
                &&& forall|j: int|
                    0 <= j < old(self).lru@.len() ==> final(self).lru@[j] == old(self).lru@[j]
            },
            old(self).entries@[i as int].use_count > 1 ==> final(self).lru@ == old(self).lru@
                && final(self).cold == old(self).cold,
            final(self).capacity == old(self).capacity,
            final(self).entries@.len() == old(self).entries@.len(),
            Self::same_stats(*old(self), *final(self)),
            Self::same_config(*old(self), *final(self)),
    {
        let ghost pre = *self;
        let becomes_idle = self.entries[i].use_count == 1;
        let mut e = self.entries.remove(i);
        e.use_count = e.use_count - 1;
        e.linked = becomes_idle;
        if release_writer {
            e.writer = false;
        } else {
            e.readers = e.readers - 1;
        }
        let key = e.key.key_clone();
        self.entries.insert(i, e);
        proof {
            let es0 = pre.entries@;
            let e0 = es0[i as int];
            let e1 = Entry {
                linked: e0.use_count == 1,
                use_count: (e0.use_count - 1) as usize,
                readers: if release_writer {
                    e0.readers
                } else {
                    (e0.readers - 1) as usize
                },
                writer: if release_writer {
                    false
                } else {
                    e0.writer
                },
                ..e0
            };
            assert(self.entries@ =~= es0.update(i as int, e1));
            lemma_num_linked_update(es0, i as int, e1);
            assert(forall|k: int|
                0 <= k < self.entries@.len() ==> (#[trigger] self.entries@[k]).key@ == es0[k].key@);
            assert(seq_unique_keys(self.entries@));
        }
        if becomes_idle {
            proof {
                lemma_num_linked_le_len(self.entries@);
            }
            self.cold = self.cold + 1;
            self.lru.push(key);
            proof {
                let es1 = self.entries@;
                let kv = pre.entries@[i as int].key@;
                let last = self.lru@.len() - 1;
                assert(self.lru@[last]@ == kv);
                // The key was not already queued: only linked entries are.
                assert forall|j: int| 0 <= j < pre.lru@.len() implies (#[trigger] pre.lru@[j])@
                    != kv by {
                    let w = pre.idx_of(pre.lru@[j]@);
                    assert(pre.has_kv(pre.lru@[j]@) && pre.entry_at(pre.lru@[j]@).linked);
                    if pre.lru@[j]@ == kv {
                        lemma_seq_idx_unique(pre.entries@, kv, i as int);
                    }
                }
                assert forall|j1: int, j2: int| 0 <= j1 < j2 < self.lru@.len() implies (
                #[trigger] self.lru@[j1])@ != (#[trigger] self.lru@[j2])@ by {
                    if j2 == last {
                        assert(self.lru@[j1] == pre.lru@[j1]);
                    } else {
                        assert(self.lru@[j1] == pre.lru@[j1]);
                        assert(self.lru@[j2] == pre.lru@[j2]);
                    }
                }
                assert forall|j: int| 0 <= j < self.lru@.len() implies self.has_kv(
                    (#[trigger] self.lru@[j])@,
                ) && self.entry_at(self.lru@[j]@).linked by {
                    if j == last {
                        self.lemma_idx_unique(kv, i as int);
                    } else {
                        let kv2 = pre.lru@[j]@;
                        let w = pre.idx_of(kv2);
                        assert(pre.has_kv(kv2) && pre.entry_at(kv2).linked);
                        assert(w != i);
                        self.lemma_idx_unique(kv2, w);
                        assert(self.lru@[j] == pre.lru@[j]);
                    }
                }
                assert forall|k: int|
                    0 <= k < es1.len() && (#[trigger] es1[k]).linked implies self.lru_has(
                    es1[k].key@,
                ) by {
                    if k == i {
                        assert(self.lru@[last]@ == es1[k].key@);
                    } else {
                        assert(pre.entries@[k].linked);
                        let q = choose|q: int|
                            0 <= q < pre.lru@.len() && (#[trigger] pre.lru@[q])@
                                == pre.entries@[k].key@;
                        assert(self.lru@[q] == pre.lru@[q]);
                    }
                }
            }
        } else {
            proof {
                let es1 = self.entries@;
                assert forall|j: int| 0 <= j < self.lru@.len() implies self.has_kv(
                    (#[trigger] self.lru@[j])@,
                ) && self.entry_at(self.lru@[j]@).linked by {
                    let kv = pre.lru@[j]@;
                    let w = pre.idx_of(kv);
                    assert(pre.has_kv(kv) && pre.entry_at(kv).linked);
                    assert(w != i);
                    self.lemma_idx_unique(kv, w);
                }
                assert forall|k: int|
                    0 <= k < es1.len() && (#[trigger] es1[k]).linked implies self.lru_has(
                    es1[k].key@,
                ) by {
                    assert(k != i);
                    assert(pre.entries@[k].linked);
                }
            }
        }
    }
}

} // verus!
