use vstd::prelude::*;
use crate::local::DEFAULT_SWEEP;

verus! {

/// Distance between two timestamps.
pub open spec fn dist(a: u64, b: u64) -> int {
    if a >= b {
        a - b
    } else {
        b - a
    }
}

/// Bucket keys are strictly increasing.
pub open spec fn sorted_keys(s: Seq<(u64, u64)>) -> bool {
    forall|i: int, j: int| 0 <= i < j < s.len() ==> s[i].0 < s[j].0
}

/// Every bucket has counted at least one event.
pub open spec fn counts_positive(s: Seq<(u64, u64)>) -> bool {
    forall|i: int| 0 <= i < s.len() ==> s[i].1 >= 1
}

/// Sum of the counts of all buckets.
pub open spec fn sum_counts(s: Seq<(u64, u64)>) -> int
    decreases s.len(),
{
    if s.len() == 0 {
        0
    } else {
        sum_counts(s.drop_last()) + s.last().1
    }
}

/// The buckets as a map from bucket-start timestamp to count.
pub open spec fn bucket_map(s: Seq<(u64, u64)>) -> Map<u64, u64>
    decreases s.len(),
{
    if s.len() == 0 {
        Map::empty()
    } else {
        bucket_map(s.drop_last()).insert(s.last().0, s.last().1)
    }
}

/// Count held for `k`, zero where there is no bucket `k`.
pub open spec fn count_at(m: Map<u64, u64>, k: u64) -> int {
    if m.contains_key(k) {
        m[k] as int
    } else {
        0
    }
}

/// The bucket an event at `t` lands in: the most recent bucket when `t` is
/// strictly less than `window` away from it, else a bucket that starts at `t`.
pub open spec fn bucket_for(s: Seq<(u64, u64)>, window: u64, t: u64) -> u64 {
    if s.len() > 0 && dist(t, s.last().0) < window {
        s.last().0
    } else {
        t
    }
}

/// No two distinct bucket keys are less than `window` apart.
pub open spec fn spaced(m: Map<u64, u64>, window: u64) -> bool {
    forall|a: u64, b: u64|
        m.contains_key(a) && m.contains_key(b) && a < b ==> b - a >= window
}

/// Time-bucketed event counts for one key.
pub struct TTLValues {
    window: u64,
    vals: Vec<(u64, u64)>,
}

impl View for TTLValues {
    type V = Map<u64, u64>;

    open spec fn view(&self) -> Map<u64, u64> {
        bucket_map(self.buckets())
    }
}

/// `new` is `old` after one event at `t`: the event's bucket gains one and
/// nothing else changes.
pub open spec fn increments(old: TTLValues, new: TTLValues, t: u64) -> bool {
    let b = bucket_for(old.buckets(), old.window_spec(), t);
    &&& new.wf()
    &&& new.window_spec() == old.window_spec()
    &&& new@ == old@.insert(b, (count_at(old@, b) + 1) as u64)
    &&& new.total() == old.total() + 1
}

/// `new` is `old` with every bucket whose key is below `cutoff` removed.
pub open spec fn trimmed(old: TTLValues, new: TTLValues, cutoff: u64) -> bool {
    &&& new.wf()
    &&& new.window_spec() == old.window_spec()
    &&& new@ == old@.restrict(old@.dom().filter(|k: u64| k >= cutoff))
}

impl TTLValues {
    /// Buckets in increasing key order, each a (start timestamp, count) pair.
    pub closed spec fn buckets(&self) -> Seq<(u64, u64)> {
        self.vals@
    }

    pub closed spec fn window_spec(&self) -> u64 {
        self.window
    }

    pub open spec fn wf(&self) -> bool {
        &&& sorted_keys(self.buckets())
        &&& counts_positive(self.buckets())
        &&& sum_counts(self.buckets()) <= u64::MAX
    }

    /// Number of events recorded in all live buckets.
    pub open spec fn total(&self) -> int {
        sum_counts(self.buckets())
    }

    /// The most recent bucket key; meaningful on a non-empty series.
    pub open spec fn latest(&self) -> u64 {
        self.buckets().last().0
    }

    pub fn new(window: u64) -> (r: Self)
        ensures
            r.wf(),
            r.window_spec() == window,
            r.buckets() == Seq::<(u64, u64)>::empty(),
            r@ == Map::<u64, u64>::empty(),
            r.total() == 0,
    {
        TTLValues { window, vals: Vec::new() }
    }

    pub fn window(&self) -> (r: u64)
        ensures
            r == self.window_spec(),
    {
        self.window
    }

    /// Number of buckets held.
    pub fn bucket_count(&self) -> (r: usize)
        requires
            self.wf(),
        ensures
            r == self@.dom().len(),
            r == self.buckets().len(),
    {
        proof {
            lemma_bucket_map_dom_len(self.buckets());
        }
        self.vals.len()
    }

    pub fn is_empty(&self) -> (r: bool)
        requires
            self.wf(),
        ensures
            r <==> self@ == Map::<u64, u64>::empty(),
            r <==> self.total() == 0,
    {
        proof {
            lemma_bucket_map_facts(self.buckets());
            lemma_sum_positive(self.buckets());
            if self.buckets().len() > 0 {
                assert(self@.contains_key(self.buckets()[0].0));
            }
        }
        self.vals.len() == 0
    }

    fn find_bucket(&self, val: u64) -> (r: u64)
        ensures
            r == bucket_for(self.buckets(), self.window_spec(), val),
    {
        let n = self.vals.len();
        if n == 0 {
            val
        } else {
            let last = self.vals[n - 1].0;
            let d = if val >= last {
                val - last
            } else {
                last - val
            };
            if d < self.window {
                last
            } else {
                val
            }
        }
    }

    /// Where `key` is, or would be inserted: `(true, i)` with bucket `i`
    /// holding `key`, or `(false, i)` with every key before `i` below `key`
    /// and every key from `i` on above it.
    fn search(&self, key: u64) -> (r: (bool, usize))
        requires
            self.wf(),
        ensures
            r.1 <= self.buckets().len(),
            r.0 ==> r.1 < self.buckets().len() && self.buckets()[r.1 as int].0 == key,
            !r.0 ==> forall|j: int| 0 <= j < r.1 ==> self.buckets()[j].0 < key,
            !r.0 ==> forall|j: int| r.1 <= j < self.buckets().len() ==> self.buckets()[j].0 > key,
    {
        let mut i = self.vals.len();
        while i > 0 && self.vals[i - 1].0 > key
            invariant
                self.wf(),
                i <= self.buckets().len(),
                forall|j: int| i <= j < self.buckets().len() ==> self.buckets()[j].0 > key,
            decreases i,
        {
            i = i - 1;
        }
        if i > 0 && self.vals[i - 1].0 == key {
            (true, i - 1)
        } else {
            (false, i)
        }
    }

    /// Count of the bucket that an event at `val` would land in.
    pub fn get_inner(&self, val: u64) -> (r: u64)
        requires
            self.wf(),
        ensures
            r == count_at(self@, bucket_for(self.buckets(), self.window_spec(), val)),
    {
        let bucket = self.find_bucket(val);
        let (found, i) = self.search(bucket);
        proof {
            lemma_bucket_map_facts(self.buckets());
            if !found {
                assert(!self@.contains_key(bucket)) by {
                    if self@.contains_key(bucket) {
                        let j = choose|j: int|
                            0 <= j < self.buckets().len() && self.buckets()[j].0 == bucket;
                        if j < i {
                        } else {
                        }
                    }
                }
            }
        }
        if found {
            self.vals[i].1
        } else {
            0
        }
    }

    /// Sum of the counts of all buckets.
    pub fn get(&self) -> (r: u64)
        requires
            self.wf(),
        ensures
            r == self.total(),
    {
        let mut acc: u64 = 0;
        let mut i: usize = 0;
        while i < self.vals.len()
            invariant
                self.wf(),
                i <= self.buckets().len(),
                acc == sum_counts(self.buckets().subrange(0, i as int)),
            decreases self.buckets().len() - i,
        {
            proof {
                let s = self.buckets();
                assert(s.subrange(0, i + 1).drop_last() == s.subrange(0, i as int));
                lemma_sum_prefix_bounded(s, i + 1);
            }
            acc = acc + self.vals[i].1;
            i = i + 1;
        }
        proof {
            assert(self.buckets().subrange(0, i as int) == self.buckets());
        }
        acc
    }

    /// Records one event at `val` and returns the new count of its bucket.
    pub fn inc(&mut self, val: u64) -> (r: u64)
        requires
            old(self).wf(),
            old(self).total() < u64::MAX,
        ensures
            increments(*old(self), *final(self), val),
            r == count_at(
                old(self)@,
                bucket_for(old(self).buckets(), old(self).window_spec(), val),
            ) + 1,
    {
        let bucket = self.find_bucket(val);
        let (found, i) = self.search(bucket);
        let ghost s0 = self.buckets();
        proof {
            lemma_bucket_map_facts(s0);
            lemma_sum_positive(s0);
        }
        if found {
            let c = self.vals[i].1;
            proof {
                lemma_count_le_sum(s0, i as int);
            }
            let updated = c + 1;
            self.vals.set(i, (bucket, updated));
            proof {
                let s1 = self.buckets();
                assert(s1 == s0.update(i as int, (bucket, updated)));
                lemma_sum_update(s0, i as int, (bucket, updated));
                lemma_bucket_map_update(s0, i as int, updated);
            }
            updated
        } else {
            self.vals.insert(i, (bucket, 1));
            proof {
                let s1 = self.buckets();
                assert(s1 == s0.insert(i as int, (bucket, 1u64)));
                assert(!bucket_map(s0).contains_key(bucket)) by {
                    if bucket_map(s0).contains_key(bucket) {
                        let j = choose|j: int| 0 <= j < s0.len() && s0[j].0 == bucket;
                        if j < i {
                        } else {
                        }
                    }
                }
                lemma_sum_insert(s0, i as int, (bucket, 1u64));
                lemma_bucket_map_insert(s0, i as int, bucket, 1);
            }
            1
        }
    }

    /// Records one event at `val` and returns the total over all buckets.
    pub fn inc_and_get(&mut self, val: u64) -> (r: u64)
        requires
            old(self).wf(),
            old(self).total() < u64::MAX,
        ensures
            increments(*old(self), *final(self), val),
            r == final(self).total(),
            r == old(self).total() + 1,
    {
        self.inc(val);
        self.get()
    }

    /// Drops every bucket whose key is below `cutoff`; a bucket at `cutoff`
    /// itself stays.
    pub fn lru(&mut self, cutoff: u64)
        requires
            old(self).wf(),
        ensures
            trimmed(*old(self), *final(self), cutoff),
            forall|k: u64| final(self)@.contains_key(k) ==> k >= cutoff,
    {
        let ghost s0 = self.buckets();
        let mut j: usize = 0;
        while j < self.vals.len() && self.vals[j].0 < cutoff
            invariant
                self.wf(),
                self.buckets() == s0,
                j <= s0.len(),
                forall|i: int| 0 <= i < j ==> s0[i].0 < cutoff,
            decreases s0.len() - j,
        {
            j = j + 1;
        }
        let kept = self.vals.split_off(j);
        self.vals = kept;
        proof {
            let s1 = self.buckets();
            assert(s1 == s0.subrange(j as int, s0.len() as int));
            lemma_sum_suffix(s0, j as int);
            lemma_bucket_map_facts(s0);
            lemma_bucket_map_facts(s1);
            let m0 = bucket_map(s0);
            let want = m0.restrict(m0.dom().filter(|k: u64| k >= cutoff));
            assert forall|k: u64| #[trigger] bucket_map(s1).contains_key(k) <==> want.contains_key(k) by {
                if bucket_map(s1).contains_key(k) {
                    let i = choose|i: int| 0 <= i < s1.len() && s1[i].0 == k;
                    assert(s0[j + i].0 == k);
                    assert(s0[j + i].0 >= cutoff) by {
                        if j > 0 {
                            assert(s0[j - 1].0 < cutoff);
                        }
                        if s0[j + i].0 < cutoff {
                            assert(!(j < s0.len() && s0[j as int].0 < cutoff));
                        }
                    }
                }
                if want.contains_key(k) {
                    let i = choose|i: int| 0 <= i < s0.len() && s0[i].0 == k;
                    assert(i >= j);
                    assert(s1[i - j].0 == k);
                }
            }
            assert forall|k: u64| #[trigger] bucket_map(s1).contains_key(k) implies bucket_map(s1)[k]
                == want[k] by {
                let i = choose|i: int| 0 <= i < s1.len() && s1[i].0 == k;
                assert(s0[j + i] == s1[i]);
            }
            assert(bucket_map(s1) =~= want);
        }
    }
}

impl Default for TTLValues {
    fn default() -> (r: Self)
        ensures
            r.wf(),
            r.window_spec() == DEFAULT_SWEEP,
            r@ == Map::<u64, u64>::empty(),
            r.total() == 0,
    {
        TTLValues::new(DEFAULT_SWEEP)
    }
}

/// An event at `t` would break the spacing of `s`: it lands a full window
/// or more away from the most recent bucket, opening a bucket at `t`, while
/// some other bucket lies less than a window from `t`.
pub open spec fn breaks_spacing(s: TTLValues, t: u64) -> bool {
    &&& s.buckets().len() > 0
    &&& dist(t, s.latest()) >= s.window_spec()
    &&& exists|k: u64| s@.contains_key(k) && k != t && dist(k, t) < s.window_spec()
}

/// From an empty series, the total after any run of recorded events is the
/// number of events recorded.
pub proof fn lemma_total_counts_events(states: Seq<TTLValues>, ts: Seq<u64>)
    requires
        states.len() == ts.len() + 1,
        states[0].wf(),
        states[0]@ == Map::<u64, u64>::empty(),
        forall|i: int| 0 <= i < ts.len() ==> increments(#[trigger] states[i], states[i + 1], ts[i]),
    ensures
        forall|i: int| 0 <= i < states.len() ==> #[trigger] states[i].total() == i,
{
    lemma_bucket_map_dom_len(states[0].buckets());
    assert(states[0].buckets().len() == 0);
    assert forall|i: int| 0 <= i < states.len() implies #[trigger] states[i].total() == i by {
        lemma_total_at(states, ts, i);
    }
}

proof fn lemma_total_at(states: Seq<TTLValues>, ts: Seq<u64>, i: int)
    requires
        states.len() == ts.len() + 1,
        states[0].total() == 0,
        forall|j: int| 0 <= j < ts.len() ==> increments(#[trigger] states[j], states[j + 1], ts[j]),
        0 <= i < states.len(),
    ensures
        states[i].total() == i,
    decreases i,
{
    if i > 0 {
        lemma_total_at(states, ts, i - 1);
        assert(increments(states[i - 1], states[i], ts[i - 1]));
    }
}

/// Recording an event keeps distinct bucket keys at least a window apart,
/// except where the event breaks the spacing as `breaks_spacing` describes.
pub proof fn lemma_spacing_kept(old: TTLValues, new: TTLValues, t: u64)
    requires
        old.wf(),
        spaced(old@, old.window_spec()),
        increments(old, new, t),
        !breaks_spacing(old, t),
    ensures
        spaced(new@, new.window_spec()),
{
    let s = old.buckets();
    let w = old.window_spec();
    let b = bucket_for(s, w, t);
    lemma_bucket_map_facts(s);
    if s.len() > 0 && dist(t, s.last().0) < w {
        assert(old@.contains_key(s.last().0));
        assert(new@.dom() =~= old@.dom());
    } else {
        assert forall|a: u64, c: u64|
            new@.contains_key(a) && new@.contains_key(c) && a < c implies c - a >= w by {
            if a != t && c != t {
                assert(old@.contains_key(a) && old@.contains_key(c));
            } else if !old@.contains_key(t) {
                if a == t {
                    assert(old@.contains_key(c));
                    assert(dist(c, t) >= w);
                } else {
                    assert(old@.contains_key(a));
                    assert(dist(a, t) >= w);
                }
            } else {
                assert(old@.contains_key(a) && old@.contains_key(c));
            }
        }
    }
}

/// Trimming keeps distinct bucket keys at least a window apart.
pub proof fn lemma_spacing_trimmed(old: TTLValues, new: TTLValues, cutoff: u64)
    requires
        spaced(old@, old.window_spec()),
        trimmed(old, new, cutoff),
    ensures
        spaced(new@, new.window_spec()),
{
}

/// An event exactly one window after the most recent bucket opens a new
/// bucket at its own timestamp: the coalescing test is strict.
pub proof fn lemma_window_boundary(old: TTLValues, new: TTLValues, t: u64)
    requires
        old.wf(),
        old.buckets().len() > 0,
        old.window_spec() > 0,
        t == old.latest() + old.window_spec(),
        increments(old, new, t),
    ensures
        !old@.contains_key(t),
        new@.dom() == old@.dom().insert(t),
        new@[t] == 1,
{
    let s = old.buckets();
    lemma_bucket_map_facts(s);
    assert(!old@.contains_key(t)) by {
        if old@.contains_key(t) {
            let i = choose|i: int| 0 <= i < s.len() && s[i].0 == t;
            if i < s.len() - 1 {
                assert(s[i].0 < s[s.len() - 1].0);
            }
        }
    }
    assert(new@.dom() =~= old@.dom().insert(t));
}

/// Trimming at `cutoff` keeps a bucket that starts exactly at `cutoff`.
pub proof fn lemma_trim_keeps_cutoff(old: TTLValues, new: TTLValues, cutoff: u64)
    requires
        trimmed(old, new, cutoff),
        old@.contains_key(cutoff),
    ensures
        new@.contains_key(cutoff),
        new@[cutoff] == old@[cutoff],
{
}

/// A well-formed series has a total of at least its number of buckets.
pub proof fn lemma_total_at_least_buckets(s: TTLValues)
    requires
        s.wf(),
    ensures
        s.total() >= s.buckets().len(),
{
    lemma_sum_positive(s.buckets());
}

/// A well-formed series with buckets has a non-empty map view.
pub proof fn lemma_view_nonempty(s: TTLValues)
    requires
        s.wf(),
        s.buckets().len() > 0,
    ensures
        s@.contains_key(s.latest()),
        s@ != Map::<u64, u64>::empty(),
{
    lemma_bucket_map_facts(s.buckets());
    assert(s@.contains_key(s.buckets()[s.buckets().len() - 1].0));
}

/// The most recent bucket of a well-formed series is its largest key.
pub proof fn lemma_latest_is_max(s: TTLValues)
    requires
        s.wf(),
        s@ != Map::<u64, u64>::empty(),
    ensures
        s.buckets().len() > 0,
        s@.contains_key(s.latest()),
        forall|k: u64| #[trigger] s@.contains_key(k) ==> k <= s.latest(),
{
    if s.buckets().len() == 0 {
        assert(s@ == Map::<u64, u64>::empty());
    }
    let b = s.buckets();
    lemma_bucket_map_facts(b);
    assert(s@.contains_key(b[b.len() - 1].0));
    assert forall|k: u64| #[trigger] s@.contains_key(k) implies k <= s.latest() by {
        let i = choose|i: int| 0 <= i < b.len() && b[i].0 == k;
        if i < b.len() - 1 {
            assert(b[i].0 < b[b.len() - 1].0);
        }
    }
}

/// Two events less than a window apart would both open a bucket: the first
/// lands a full window or more before the most recent bucket, at a new key,
/// and the second lands a full window or more from that bucket too, at a key
/// that is neither old nor the first one's.
pub open spec fn opens_two_buckets(s: TTLValues, t1: u64, t2: u64) -> bool {
    &&& s.buckets().len() > 0
    &&& t1 + s.window_spec() <= s.latest()
    &&& !s@.contains_key(t1)
    &&& dist(t2, s.latest()) >= s.window_spec()
    &&& t2 != t1
    &&& !s@.contains_key(t2)
}

/// Two events less than a window apart add exactly two to the total and at
/// most one bucket, except where `opens_two_buckets` holds.
pub proof fn lemma_two_close_events(s0: TTLValues, s1: TTLValues, s2: TTLValues, t1: u64, t2: u64)
    requires
        s0.wf(),
        increments(s0, s1, t1),
        increments(s1, s2, t2),
        dist(t1, t2) < s0.window_spec(),
        !opens_two_buckets(s0, t1, t2),
    ensures
        s2.total() == s0.total() + 2,
        s0@.dom().finite(),
        s2@.dom().finite(),
        s2@.dom().len() <= s0@.dom().len() + 1,
{
    let w = s0.window_spec();
    let b1 = bucket_for(s0.buckets(), w, t1);
    let b2 = bucket_for(s1.buckets(), w, t2);
    lemma_bucket_map_dom_len(s0.buckets());
    lemma_bucket_map_dom_len(s1.buckets());
    lemma_bucket_map_dom_len(s2.buckets());
    assert(s1@.dom() == s0@.dom().insert(b1));
    assert(s2@.dom() == s1@.dom().insert(b2));
    assert(s1@.contains_key(b1));
    lemma_latest_is_max(s1);
    if s0@.contains_key(b1) {
        assert(s1@.dom() =~= s0@.dom());
    } else {
        if s0.buckets().len() > 0 {
            lemma_latest_is_max(s0);
        }
        if s0.buckets().len() == 0 || t1 > s0.latest() {
            if s0.buckets().len() == 0 {
                assert(s0@ == Map::<u64, u64>::empty());
                assert(s1@.dom() =~= set![t1]);
            }
            assert(s1@.contains_key(t1));
            if s1.latest() != t1 {
                assert(s0@.contains_key(s1.latest()));
            }
            assert(s1.latest() == t1);
            assert(b2 == t1);
            assert(s2@.dom() =~= s1@.dom());
        } else {
            assert(s1@.contains_key(s0.latest()));
            if s1.latest() != t1 {
                assert(s0@.contains_key(s1.latest()));
            }
            assert(s1.latest() == s0.latest());
            if dist(t2, s0.latest()) < w {
                assert(s2@.dom() =~= s1@.dom());
            } else {
                assert(s1@.contains_key(t2));
                assert(s2@.dom() =~= s1@.dom());
            }
        }
    }
}

proof fn lemma_sum_positive(s: Seq<(u64, u64)>)
    requires
        counts_positive(s),
    ensures
        sum_counts(s) >= s.len(),
    decreases s.len(),
{
    if s.len() > 0 {
        lemma_sum_positive(s.drop_last());
    }
}

proof fn lemma_sum_nonneg(s: Seq<(u64, u64)>)
    ensures
        sum_counts(s) >= 0,
    decreases s.len(),
{
    if s.len() > 0 {
        lemma_sum_nonneg(s.drop_last());
    }
}

proof fn lemma_sum_prefix_bounded(s: Seq<(u64, u64)>, n: int)
    requires
        0 <= n <= s.len(),
    ensures
        sum_counts(s.subrange(0, n)) <= sum_counts(s),
    decreases s.len(),
{
    if n < s.len() {
        assert(s.drop_last().subrange(0, n) == s.subrange(0, n));
        lemma_sum_prefix_bounded(s.drop_last(), n);
    } else {
        assert(s.subrange(0, n) == s);
    }
}

proof fn lemma_count_le_sum(s: Seq<(u64, u64)>, i: int)
    requires
        0 <= i < s.len(),
    ensures
        s[i].1 <= sum_counts(s),
    decreases s.len(),
{
    lemma_sum_nonneg(s.drop_last());
    if i < s.len() - 1 {
        lemma_count_le_sum(s.drop_last(), i);
    }
}

proof fn lemma_sum_update(s: Seq<(u64, u64)>, i: int, x: (u64, u64))
    requires
        0 <= i < s.len(),
    ensures
        sum_counts(s.update(i, x)) == sum_counts(s) - s[i].1 + x.1,
    decreases s.len(),
{
    if i == s.len() - 1 {
        assert(s.update(i, x).drop_last() == s.drop_last());
    } else {
        assert(s.update(i, x).drop_last() == s.drop_last().update(i, x));
        lemma_sum_update(s.drop_last(), i, x);
    }
}

proof fn lemma_sum_insert(s: Seq<(u64, u64)>, i: int, x: (u64, u64))
    requires
        0 <= i <= s.len(),
    ensures
        sum_counts(s.insert(i, x)) == sum_counts(s) + x.1,
    decreases s.len(),
{
    if i == s.len() {
        assert(s.insert(i, x).drop_last() == s);
    } else {
        assert(s.insert(i, x).drop_last() == s.drop_last().insert(i, x));
        lemma_sum_insert(s.drop_last(), i, x);
    }
}

proof fn lemma_sum_suffix(s: Seq<(u64, u64)>, j: int)
    requires
        0 <= j <= s.len(),
    ensures
        sum_counts(s.subrange(j, s.len() as int)) <= sum_counts(s),
        sum_counts(s.subrange(j, s.len() as int)) >= 0,
    decreases s.len(),
{
    lemma_sum_nonneg(s.subrange(j, s.len() as int));
    if j < s.len() {
        assert(s.subrange(j, s.len() as int).drop_last() == s.drop_last().subrange(
            j,
            s.len() - 1,
        ));
        lemma_sum_suffix(s.drop_last(), j);
    } else {
        lemma_sum_nonneg(s);
    }
}

/// Membership and values of `bucket_map` read off the sequence, for
/// strictly sorted keys.
proof fn lemma_bucket_map_facts(s: Seq<(u64, u64)>)
    requires
        sorted_keys(s),
    ensures
        forall|k: u64| #[trigger]
            bucket_map(s).contains_key(k) <==> exists|i: int| 0 <= i < s.len() && s[i].0 == k,
        forall|i: int| 0 <= i < s.len() ==> #[trigger] bucket_map(s)[s[i].0] == s[i].1,
        forall|i: int| 0 <= i < s.len() ==> bucket_map(s).contains_key(#[trigger] s[i].0),
    decreases s.len(),
{
    if s.len() > 0 {
        let t = s.drop_last();
        assert(sorted_keys(t)) by {
            assert forall|a: int, b: int| 0 <= a < b < t.len() implies t[a].0 < t[b].0 by {
                assert(t[a] == s[a] && t[b] == s[b]);
            }
        }
        lemma_bucket_map_facts(t);
        assert forall|k: u64| #[trigger]
            bucket_map(s).contains_key(k) <==> exists|i: int| 0 <= i < s.len() && s[i].0 == k by {
            if bucket_map(s).contains_key(k) {
                if k == s.last().0 {
                    assert(s[s.len() - 1].0 == k);
                } else {
                    assert(bucket_map(t).contains_key(k));
                    let i = choose|i: int| 0 <= i < t.len() && t[i].0 == k;
                    assert(t[i] == s[i]);
                    assert(s[i].0 == k);
                }
            }
            if exists|i: int| 0 <= i < s.len() && s[i].0 == k {
                let i = choose|i: int| 0 <= i < s.len() && s[i].0 == k;
                if i < s.len() - 1 {
                    assert(t[i] == s[i]);
                    assert(t[i].0 == k);
                    assert(bucket_map(t).contains_key(k));
                }
            }
        }
        assert forall|i: int| 0 <= i < s.len() implies #[trigger] bucket_map(s)[s[i].0] == s[i].1 by {
            if i < s.len() - 1 {
                assert(t[i] == s[i]);
                assert(s[i].0 < s.last().0);
            }
        }
        assert forall|i: int| 0 <= i < s.len() implies bucket_map(s).contains_key(
            #[trigger] s[i].0,
        ) by {
            if i < s.len() - 1 {
                assert(t[i] == s[i]);
            }
        }
    }
}

proof fn lemma_bucket_map_dom_len(s: Seq<(u64, u64)>)
    requires
        sorted_keys(s),
    ensures
        bucket_map(s).dom().finite(),
        bucket_map(s).dom().len() == s.len(),
    decreases s.len(),
{
    if s.len() > 0 {
        let t = s.drop_last();
        lemma_bucket_map_dom_len(t);
        lemma_bucket_map_facts(t);
        assert(!bucket_map(t).contains_key(s.last().0)) by {
            if bucket_map(t).contains_key(s.last().0) {
                let i = choose|i: int| 0 <= i < t.len() && t[i].0 == s.last().0;
                assert(s[i].0 < s.last().0);
            }
        }
    }
}

proof fn lemma_bucket_map_update(s: Seq<(u64, u64)>, i: int, c: u64)
    requires
        sorted_keys(s),
        0 <= i < s.len(),
    ensures
        sorted_keys(s.update(i, (s[i].0, c))),
        bucket_map(s.update(i, (s[i].0, c))) == bucket_map(s).insert(s[i].0, c),
{
    let s1 = s.update(i, (s[i].0, c));
    lemma_bucket_map_facts(s);
    lemma_bucket_map_facts(s1);
    assert forall|k: u64| #[trigger] bucket_map(s1).contains_key(k) <==> bucket_map(s).insert(
        s[i].0,
        c,
    ).contains_key(k) by {
        if bucket_map(s1).contains_key(k) {
            let j = choose|j: int| 0 <= j < s1.len() && s1[j].0 == k;
            assert(s[j].0 == k);
        }
        if bucket_map(s).contains_key(k) {
            let j = choose|j: int| 0 <= j < s.len() && s[j].0 == k;
            assert(s1[j].0 == k);
        }
    }
    assert forall|k: u64| #[trigger] bucket_map(s1).contains_key(k) implies bucket_map(s1)[k]
        == bucket_map(s).insert(s[i].0, c)[k] by {
        let j = choose|j: int| 0 <= j < s1.len() && s1[j].0 == k;
        assert(bucket_map(s1)[s1[j].0] == s1[j].1);
        if j != i {
            assert(bucket_map(s)[s[j].0] == s[j].1);
        }
    }
    assert(bucket_map(s1) =~= bucket_map(s).insert(s[i].0, c));
}

proof fn lemma_bucket_map_insert(s: Seq<(u64, u64)>, i: int, k: u64, c: u64)
    requires
        sorted_keys(s),
        0 <= i <= s.len(),
        forall|j: int| 0 <= j < i ==> s[j].0 < k,
        forall|j: int| i <= j < s.len() ==> s[j].0 > k,
    ensures
        sorted_keys(s.insert(i, (k, c))),
        bucket_map(s.insert(i, (k, c))) == bucket_map(s).insert(k, c),
{
    let s1 = s.insert(i, (k, c));
    assert(sorted_keys(s1)) by {
        assert forall|a: int, b: int| 0 <= a < b < s1.len() implies s1[a].0 < s1[b].0 by {
            if a < i && b > i {
                assert(s1[b] == s[b - 1]);
            } else if a > i {
                assert(s1[a] == s[a - 1]);
                assert(s1[b] == s[b - 1]);
            }
        }
    }
    lemma_bucket_map_facts(s);
    lemma_bucket_map_facts(s1);
    let want = bucket_map(s).insert(k, c);
    assert forall|x: u64| #[trigger] bucket_map(s1).contains_key(x) <==> want.contains_key(x) by {
        if bucket_map(s1).contains_key(x) && x != k {
            let j = choose|j: int| 0 <= j < s1.len() && s1[j].0 == x;
            if j < i {
                assert(s[j].0 == x);
            } else {
                assert(s[j - 1].0 == x);
            }
        }
        if bucket_map(s).contains_key(x) {
            let j = choose|j: int| 0 <= j < s.len() && s[j].0 == x;
            if j < i {
                assert(s1[j].0 == x);
            } else {
                assert(s1[j + 1].0 == x);
            }
        }
        if x == k {
            assert(s1[i].0 == k);
        }
    }
    assert forall|x: u64| #[trigger] bucket_map(s1).contains_key(x) implies bucket_map(s1)[x]
        == want[x] by {
        let j = choose|j: int| 0 <= j < s1.len() && s1[j].0 == x;
        assert(bucket_map(s1)[s1[j].0] == s1[j].1);
        if j < i {
            assert(s1[j] == s[j]);
        } else if j > i {
            assert(s1[j] == s[j - 1]);
        }
    }
    assert(bucket_map(s1) =~= want);
}

} // verus!
