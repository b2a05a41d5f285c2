use std::sync::atomic::{AtomicU64, Ordering};
use vstd::prelude::*;
use vstd::rwlock::{RwLock, RwLockPredicate};
use vstd::string::StringSliceAdditionalSpecFns;
use crate::keymap::{Key, KeyMap, lemma_table_series};
use crate::series::lemma_total_at_least_buckets;

verus! {

/// Partitions of a counter made with `Default`.
pub const DEFAULT_PARTITIONS: u32 = 1024;

/// Retention, in seconds, of a counter made with `Default`.
pub const DEFAULT_TTL: u64 = 300;

/// Sweep period, and bucket width, in seconds, of a counter made with `Default`.
pub const DEFAULT_SWEEP: u64 = 60;

/// The 64-bit XXH3 hash, with seed 0, of a byte string.
pub uninterp spec fn xxh3_64(data: Seq<u8>) -> u64;

/// Relies on `twox_hash::xxh3::hash64`: the XXH3 64-bit hash of `data` with
/// seed 0, which depends on the bytes alone.
#[verifier::external_body]
fn hash64(data: &[u8]) -> (r: u64)
    ensures
        r == xxh3_64(data@),
{
    twox_hash::xxh3::hash64(data)
}

/// Relies on `std::time::SystemTime::now` and `SystemTime::duration_since`
/// against `UNIX_EPOCH`: whole seconds since the Unix epoch, or `None` where
/// the system clock reads earlier than the epoch.
#[verifier::external_body]
fn unix_time_secs() -> (r: Option<u64>) {
    std::time::SystemTime::now().duration_since(std::time::UNIX_EPOCH).ok().map(|d| d.as_secs())
}

/// What went wrong inside a counter.
#[derive(Debug, Clone, Copy, PartialEq, Eq, Structural)]
pub enum CacheErrorKind {
    /// A partition lock is unusable after a panic while it was held. The
    /// verified lock used here is never left in that state.
    PartitionPoisoned,
    /// Construction inputs make no sense, such as zero partitions.
    ConfigInvalid,
}

#[derive(Debug, Clone, Copy, PartialEq, Eq, Structural)]
pub struct CacheError {
    pub kind: CacheErrorKind,
}

/// What each partition's lock guarantees of the table inside it.
pub struct PartitionInv {
    pub window: u64,
}

impl RwLockPredicate<KeyMap> for PartitionInv {
    open spec fn inv(self, v: KeyMap) -> bool {
        v.wf() && v.window_spec() == self.window
    }
}

/// The partition a key hash selects: the hash's low 32 bits modulo the
/// number of partitions.
pub open spec fn partition_of(hash: u64, partition_count: u32) -> int {
    (hash as int % 0x1_0000_0000) % (partition_count as int)
}

/// Computes `partition_of`.
pub fn partition_for_hash(hash: u64, partition_count: u32) -> (r: u32)
    requires
        partition_count > 0,
    ensures
        r == partition_of(hash, partition_count),
        r < partition_count,
{
    let low = #[verifier::truncate] (hash as u32);
    assert((#[verifier::truncate] (hash as u32)) as u64 == hash % 0x1_0000_0000) by (bit_vector);
    low % partition_count
}

/// The cutoff that a sweep at clock `now` applies: `now - ttl`, or 0 where
/// `ttl` exceeds `now`.
pub fn sweep_cutoff(now: u64, ttl: u64) -> (r: u64)
    ensures
        r == if now >= ttl {
            now - ttl
        } else {
            0
        },
{
    if now >= ttl {
        now - ttl
    } else {
        0
    }
}

/// A time-windowed counter of events by key, split over independently
/// locked partitions, with a clock that a ticker advances.
pub struct Local {
    partition_count: u32,
    ttl: u64,
    window: u64,
    sweep: u64,
    partitions: Vec<RwLock<KeyMap, PartitionInv>>,
    clock: AtomicU64,
}

impl Local {
    #[verifier::type_invariant]
    spec fn inv(&self) -> bool {
        &&& self.partition_count > 0
        &&& self.partitions@.len() == self.partition_count
        &&& forall|i: int|
            0 <= i < self.partitions@.len() ==> (#[trigger] self.partitions@[i]).pred()
                == (PartitionInv { window: self.window })
    }

    pub closed spec fn spec_partition_count(&self) -> u32 {
        self.partition_count
    }

    pub closed spec fn spec_ttl(&self) -> u64 {
        self.ttl
    }

    pub closed spec fn spec_window(&self) -> u64 {
        self.window
    }

    pub closed spec fn spec_sweep(&self) -> u64 {
        self.sweep
    }

    /// A counter whose clock starts at `clock`, with `partition_count` empty
    /// partitions of bucket width `window`.
    pub fn with_clock(partition_count: u32, ttl: u64, window: u64, sweep: u64, clock: u64) -> (r:
        Local)
        requires
            partition_count > 0,
        ensures
            r.spec_partition_count() == partition_count,
            r.spec_ttl() == ttl,
            r.spec_window() == window,
            r.spec_sweep() == sweep,
    {
        let mut partitions: Vec<RwLock<KeyMap, PartitionInv>> = Vec::with_capacity(
            partition_count as usize,
        );
        let mut i: u32 = 0;
        while i < partition_count
            invariant
                i <= partition_count,
                partitions@.len() == i,
                forall|j: int|
                    0 <= j < partitions@.len() ==> (#[trigger] partitions@[j]).pred()
                        == (PartitionInv { window }),
            decreases partition_count - i,
        {
            let table = KeyMap::new(window);
            partitions.push(RwLock::new(table, Ghost(PartitionInv { window })));
            i = i + 1;
        }
        Local { partition_count, ttl, window, sweep, partitions, clock: AtomicU64::new(clock) }
    }

    /// A counter whose clock starts at the current time, in seconds since
    /// the Unix epoch (0 where the system clock reads earlier than that).
    pub fn new(partition_count: u32, ttl: u64, window: u64, sweep: u64) -> (r: Local)
        requires
            partition_count > 0,
        ensures
            r.spec_partition_count() == partition_count,
            r.spec_ttl() == ttl,
            r.spec_window() == window,
            r.spec_sweep() == sweep,
    {
        let now = match unix_time_secs() {
            Some(s) => s,
            None => 0,
        };
        Local::with_clock(partition_count, ttl, window, sweep, now)
    }

    /// `new`, refusing zero partitions with `ConfigInvalid`.
    pub fn try_new(partition_count: u32, ttl: u64, window: u64, sweep: u64) -> (r: Result<
        Local,
        CacheError,
    >)
        ensures
            partition_count == 0 <==> r is Err,
            r is Err ==> r->Err_0 == (CacheError { kind: CacheErrorKind::ConfigInvalid }),
            r is Ok ==> r->Ok_0.spec_partition_count() == partition_count && r->Ok_0.spec_ttl()
                == ttl && r->Ok_0.spec_window() == window && r->Ok_0.spec_sweep() == sweep,
    {
        if partition_count == 0 {
            Err(CacheError { kind: CacheErrorKind::ConfigInvalid })
        } else {
            Ok(Local::new(partition_count, ttl, window, sweep))
        }
    }

    /// Retention of buckets, in seconds.
    pub fn ttl(&self) -> (r: u64)
        ensures
            r == self.spec_ttl(),
    {
        self.ttl
    }

    pub fn partition_count(&self) -> (r: u32)
        ensures
            r == self.spec_partition_count(),
            r > 0,
    {
        proof {
            use_type_invariant(self);
        }
        self.partition_count
    }

    /// Bucket width, in seconds.
    pub fn window(&self) -> (r: u64)
        ensures
            r == self.spec_window(),
    {
        self.window
    }

    /// Sweep period, in seconds.
    pub fn sweep(&self) -> (r: u64)
        ensures
            r == self.spec_sweep(),
    {
        self.sweep
    }

    /// The clock reading that events are stamped with.
    pub fn clock(&self) -> u64 {
        self.clock.load(Ordering::Relaxed)
    }

    /// Sets the clock reading, in seconds since the Unix epoch.
    pub fn set_clock(&self, secs: u64) {
        self.clock.store(secs, Ordering::Relaxed);
    }

    /// The partition that holds `key`.
    pub fn partition_index(&self, key: &str) -> (r: usize)
        ensures
            r == partition_of(xxh3_64(key.spec_bytes()), self.spec_partition_count()),
            r < self.spec_partition_count(),
    {
        proof {
            use_type_invariant(self);
        }
        let h = hash64(key.as_bytes());
        partition_for_hash(h, self.partition_count) as usize
    }

    /// Answers the total of `key` in its partition, after recording an
    /// event at the current clock reading when `create` holds. Each call
    /// holds one partition's lock throughout and no other.
    pub fn get_or_create(&self, key: &str, create: bool) -> (r: Result<u64, CacheError>)
        ensures
            r is Ok,
            create ==> r->Ok_0 >= 1,
    {
        proof {
            use_type_invariant(self);
        }
        let p = self.partition_index(key);
        let ts = self.clock.load(Ordering::Relaxed);
        let (mut table, handle) = self.partitions[p].acquire_write();
        proof {
            lemma_table_series(&table);
            if table@.contains_key(key@) {
                lemma_total_at_least_buckets(table@[key@]);
            }
        }
        let v = table.get_or_create(Key { k: key, ts }, create);
        handle.release_write(table);
        Ok(v)
    }

    /// Sweeps every partition in turn: each is trimmed at the cutoff that
    /// the clock gives when its turn comes, holding only its own lock.
    pub fn lru(&self) {
        proof {
            use_type_invariant(self);
        }
        let mut i: usize = 0;
        while i < self.partitions.len()
            invariant
                self.partitions@.len() == self.partition_count,
                forall|j: int|
                    0 <= j < self.partitions@.len() ==> (#[trigger] self.partitions@[j]).pred()
                        == (PartitionInv { window: self.window }),
            decreases self.partitions@.len() - i,
        {
            let cutoff = sweep_cutoff(self.clock.load(Ordering::Relaxed), self.ttl);
            let (mut table, handle) = self.partitions[i].acquire_write();
            table.lru(cutoff);
            handle.release_write(table);
            i = i + 1;
        }
    }
}

impl Default for Local {
    fn default() -> (r: Local)
        ensures
            r.spec_partition_count() == DEFAULT_PARTITIONS,
            r.spec_ttl() == DEFAULT_TTL,
            r.spec_window() == DEFAULT_SWEEP,
            r.spec_sweep() == DEFAULT_SWEEP,
    {
        Local::new(DEFAULT_PARTITIONS, DEFAULT_TTL, DEFAULT_SWEEP, DEFAULT_SWEEP)
    }
}

} // verus!
