use vstd::prelude::*;
use crate::series::{
    dist, increments, lemma_latest_is_max, lemma_total_at_least_buckets, lemma_two_close_events,
    lemma_view_nonempty, opens_two_buckets, trimmed, TTLValues,
};

verus! {

/// A lookup or an event: the key and the clock reading it comes with.
pub struct Key<'a> {
    pub k: &'a str,
    pub ts: u64,
}

/// Series by key; every stored series holds at least one bucket.
pub struct KeyMap {
    window: u64,
    ttls: Vec<(String, TTLValues)>,
}

/// No key occurs twice among the entries.
pub open spec fn unique_keys(s: Seq<(String, TTLValues)>) -> bool {
    forall|i: int, j: int| 0 <= i < j < s.len() ==> s[i].0@ != s[j].0@
}

/// The entries as a map from key text to series.
pub open spec fn entries_map(s: Seq<(String, TTLValues)>) -> Map<Seq<char>, TTLValues>
    decreases s.len(),
{
    if s.len() == 0 {
        Map::empty()
    } else {
        entries_map(s.drop_last()).insert(s.last().0@, s.last().1)
    }
}

/// A series that a table of bucket width `window` may hold.
pub open spec fn stored_series(s: TTLValues, window: u64) -> bool {
    &&& s.wf()
    &&& s.window_spec() == window
    &&& s.buckets().len() > 0
}

/// Some bucket of `s` starts at or after `cutoff`.
pub open spec fn survives(s: TTLValues, cutoff: u64) -> bool {
    exists|b: u64| s@.contains_key(b) && b >= cutoff
}

/// The effect of `get_or_create(key, create)` at clock `ts` on a table of
/// bucket width `window`, going from `old` to `new` and answering `r`.
///
/// A present key answers its series' total, after recording the event when
/// `create` holds (a total that already stands at `u64::MAX` stays as it
/// is). An absent key answers 0 and is left absent, or with `create` gets a
/// new series holding one event at `ts` and answers 1.
pub open spec fn upserted(
    old: Map<Seq<char>, TTLValues>,
    new: Map<Seq<char>, TTLValues>,
    window: u64,
    k: Seq<char>,
    ts: u64,
    create: bool,
    r: u64,
) -> bool {
    if old.contains_key(k) {
        if create && old[k].total() < u64::MAX {
            &&& new.contains_key(k)
            &&& new == old.insert(k, new[k])
            &&& increments(old[k], new[k], ts)
            &&& r == new[k].total()
        } else {
            &&& new == old
            &&& r == old[k].total()
        }
    } else if create {
        &&& new.contains_key(k)
        &&& new == old.insert(k, new[k])
        &&& stored_series(new[k], window)
        &&& new[k]@ == map![ts => 1u64]
        &&& new[k].total() == 1
        &&& r == 1
    } else {
        &&& new == old
        &&& r == 0
    }
}

impl View for KeyMap {
    type V = Map<Seq<char>, TTLValues>;

    open spec fn view(&self) -> Map<Seq<char>, TTLValues> {
        entries_map(self.entries())
    }
}

impl KeyMap {
    pub closed spec fn entries(&self) -> Seq<(String, TTLValues)> {
        self.ttls@
    }

    pub closed spec fn window_spec(&self) -> u64 {
        self.window
    }

    pub open spec fn wf(&self) -> bool {
        &&& unique_keys(self.entries())
        &&& forall|i: int|
            0 <= i < self.entries().len() ==> stored_series(
                #[trigger] self.entries()[i].1,
                self.window_spec(),
            )
    }

    pub fn new(window: u64) -> (r: KeyMap)
        ensures
            r.wf(),
            r.window_spec() == window,
            r@ == Map::<Seq<char>, TTLValues>::empty(),
    {
        KeyMap { window, ttls: Vec::new() }
    }

    pub fn window(&self) -> (r: u64)
        ensures
            r == self.window_spec(),
    {
        self.window
    }

    /// Number of keys held.
    pub fn len(&self) -> (r: usize)
        requires
            self.wf(),
        ensures
            r == self@.dom().len(),
    {
        proof {
            lemma_entries_dom_len(self.entries());
        }
        self.ttls.len()
    }

    /// Answers the total for `key.k`; with `create`, first records an event
    /// at `key.ts`, making the key's series where there is none.
    pub fn get_or_create(&mut self, key: Key, create: bool) -> (r: u64)
        requires
            old(self).wf(),
        ensures
            final(self).wf(),
            final(self).window_spec() == old(self).window_spec(),
            upserted(old(self)@, final(self)@, old(self).window_spec(), key.k@, key.ts, create, r),
    {
        let owned = key.k.to_owned();
        let ghost s0 = self.entries();
        proof {
            lemma_entries_facts(s0);
        }
        let mut i: usize = 0;
        while i < self.ttls.len() && !self.ttls[i].0.eq(&owned)
            invariant
                owned@ == key.k@,
                self.entries() == s0,
                i <= s0.len(),
                forall|j: int| 0 <= j < i ==> s0[j].0@ != key.k@,
            decreases s0.len() - i,
        {
            i = i + 1;
        }
        if i < self.ttls.len() {
            assert(stored_series(s0[i as int].1, self.window));
            if create && self.ttls[i].1.get() < u64::MAX {
                let r = self.ttls[i].1.inc_and_get(key.ts);
                proof {
                    let s1 = self.entries();
                    assert(s1 == s0.update(i as int, (s0[i as int].0, s1[i as int].1)));
                    lemma_entries_update(s0, i as int, s1[i as int].1);
                    lemma_bucket_count_grows(s0[i as int].1, s1[i as int].1, key.ts);
                }
                r
            } else {
                self.ttls[i].1.get()
            }
        } else {
            assert(!entries_map(s0).contains_key(key.k@));
            if create {
                let mut val = TTLValues::new(self.window);
                let state = val.inc_and_get(key.ts);
                proof {
                    lemma_new_series(val, key.ts);
                }
                self.ttls.push((owned, val));
                proof {
                    let s1 = self.entries();
                    assert(s1.drop_last() == s0);
                    assert(unique_keys(s1));
                }
                state
            } else {
                0
            }
        }
    }

    /// Trims every series at `cutoff` and drops the keys whose series is
    /// left without buckets.
    pub fn lru(&mut self, cutoff: u64)
        requires
            old(self).wf(),
        ensures
            final(self).wf(),
            final(self).window_spec() == old(self).window_spec(),
            forall|k: Seq<char>| #[trigger]
                final(self)@.contains_key(k) <==> old(self)@.contains_key(k) && survives(
                    old(self)@[k],
                    cutoff,
                ),
            forall|k: Seq<char>| #[trigger]
                final(self)@.contains_key(k) ==> trimmed(old(self)@[k], final(self)@[k], cutoff),
            forall|k: Seq<char>, b: u64|
                final(self)@.contains_key(k) && #[trigger] final(self)@[k]@.contains_key(b) ==> b
                    >= cutoff,
            forall|k: Seq<char>| #[trigger]
                final(self)@.contains_key(k) ==> final(self)@[k].buckets().len() > 0,
    {
        let ghost s0 = self.entries();
        let ghost n = s0.len();
        let mut rest = self.ttls.split_off(0);
        proof {
            assert(rest@ == s0);
            lemma_entries_facts(s0);
        }
        while rest.len() > 0
            invariant
                self.window == old(self).window,
                unique_keys(s0),
                forall|i: int| 0 <= i < n ==> stored_series(#[trigger] s0[i].1, self.window),
                s0.len() == n,
                rest@.len() <= n,
                rest@ == s0.subrange(0, rest@.len() as int),
                unique_keys(self.entries()),
                forall|m: int|
                    0 <= m < self.entries().len() ==> stored_series(
                        #[trigger] self.entries()[m].1,
                        self.window,
                    ),
                forall|m: int|
                    #![trigger self.entries()[m]]
                    0 <= m < self.entries().len() ==> exists|j: int|
                        rest@.len() <= j < n && s0[j].0@ == self.entries()[m].0@ && trimmed(
                            s0[j].1,
                            self.entries()[m].1,
                            cutoff,
                        ),
                forall|j: int|
                    #![trigger s0[j]]
                    rest@.len() <= j < n && survives(s0[j].1, cutoff) ==> exists|m: int|
                        0 <= m < self.entries().len() && s0[j].0@ == self.entries()[m].0@,
            decreases rest@.len(),
        {
            let ghost r = rest@.len() - 1;
            let ghost before = self.entries();
            let entry = rest.pop();
            proof {
                assert(rest@ =~= s0.subrange(0, r));
            }
            match entry {
                Some(e) => {
                    let (name, mut series) = e;
                    assert(stored_series(s0[r].1, self.window));
                    series.lru(cutoff);
                    proof {
                        lemma_survives_trimmed(s0[r].1, series, cutoff);
                    }
                    if !series.is_empty() {
                        self.ttls.push((name, series));
                        proof {
                            let s1 = self.entries();
                            assert(s1.drop_last() == before);
                            assert forall|a: int, b: int| 0 <= a < b < s1.len() implies s1[a].0@
                                != s1[b].0@ by {
                                if b == s1.len() - 1 {
                                    assert(s1[a] == before[a]);
                                    let j = choose|j: int|
                                        r + 1 <= j < n && s0[j].0@ == before[a].0@ && trimmed(
                                            s0[j].1,
                                            before[a].1,
                                            cutoff,
                                        );
                                    assert(s0[j].0@ != s0[r].0@);
                                } else {
                                    assert(s1[a] == before[a] && s1[b] == before[b]);
                                }
                            }
                            assert forall|m: int|
                                #![trigger s1[m]]
                                0 <= m < s1.len() implies exists|j: int|
                                    r <= j < n && s0[j].0@ == s1[m].0@ && trimmed(
                                        s0[j].1,
                                        s1[m].1,
                                        cutoff,
                                    ) by {
                                if m < s1.len() - 1 {
                                    assert(s1[m] == before[m]);
                                    let j = choose|j: int|
                                        r + 1 <= j < n && s0[j].0@ == before[m].0@ && trimmed(
                                            s0[j].1,
                                            before[m].1,
                                            cutoff,
                                        );
                                    assert(r <= j < n && s0[j].0@ == s1[m].0@);
                                } else {
                                    assert(s0[r].0@ == s1[m].0@);
                                }
                            }
                            assert forall|j: int|
                                #![trigger s0[j]]
                                r <= j < n && survives(s0[j].1, cutoff) implies exists|m: int|
                                    0 <= m < s1.len() && s0[j].0@ == s1[m].0@ by {
                                if j == r {
                                    assert(s0[j].0@ == s1[s1.len() - 1].0@);
                                } else {
                                    let m = choose|m: int|
                                        0 <= m < before.len() && s0[j].0@ == before[m].0@;
                                    assert(s1[m] == before[m]);
                                }
                            }
                        }
                    } else {
                        proof {
                            assert forall|m: int|
                                #![trigger self.entries()[m]]
                                0 <= m < self.entries().len() implies exists|j: int|
                                    r <= j < n && s0[j].0@ == self.entries()[m].0@ && trimmed(
                                        s0[j].1,
                                        self.entries()[m].1,
                                        cutoff,
                                    ) by {
                                let j = choose|j: int|
                                    r + 1 <= j < n && s0[j].0@ == self.entries()[m].0@
                                        && trimmed(s0[j].1, self.entries()[m].1, cutoff);
                                assert(r <= j < n);
                            }
                        }
                    }
                },
                None => {},
            }
        }
        proof {
            let s1 = self.entries();
            lemma_entries_facts(s1);
            assert forall|k: Seq<char>| #[trigger]
                entries_map(s1).contains_key(k) <==> entries_map(s0).contains_key(k) && survives(
                    entries_map(s0)[k],
                    cutoff,
                ) by {
                if entries_map(s1).contains_key(k) {
                    let m = choose|m: int| 0 <= m < s1.len() && s1[m].0@ == k;
                    let j = choose|j: int|
                        0 <= j < n && s0[j].0@ == s1[m].0@ && trimmed(s0[j].1, s1[m].1, cutoff);
                    assert(entries_map(s0)[s0[j].0@] == s0[j].1);
                    assert(stored_series(s1[m].1, self.window));
                    lemma_view_nonempty(s1[m].1);
                    lemma_survives_trimmed(s0[j].1, s1[m].1, cutoff);
                }
                if entries_map(s0).contains_key(k) && survives(entries_map(s0)[k], cutoff) {
                    let j = choose|j: int| 0 <= j < n && s0[j].0@ == k;
                    assert(entries_map(s0)[s0[j].0@] == s0[j].1);
                    assert(s0[j] == s0[j]);
                    let m = choose|m: int| 0 <= m < s1.len() && s0[j].0@ == s1[m].0@;
                    assert(s1[m].0@ == k);
                }
            }
            assert forall|k: Seq<char>| #[trigger] entries_map(s1).contains_key(k) implies trimmed(
                entries_map(s0)[k],
                entries_map(s1)[k],
                cutoff,
            ) by {
                let m = choose|m: int| 0 <= m < s1.len() && s1[m].0@ == k;
                assert(entries_map(s1)[s1[m].0@] == s1[m].1);
                assert(s1[m] == s1[m]);
                let j = choose|j: int|
                    0 <= j < n && s0[j].0@ == s1[m].0@ && trimmed(s0[j].1, s1[m].1, cutoff);
                assert(entries_map(s0)[s0[j].0@] == s0[j].1);
            }
            assert forall|k: Seq<char>| #[trigger] entries_map(s1).contains_key(k) implies entries_map(
                s1,
            )[k].buckets().len() > 0 by {
                let m = choose|m: int| 0 <= m < s1.len() && s1[m].0@ == k;
                assert(entries_map(s1)[s1[m].0@] == s1[m].1);
                assert(stored_series(s1[m].1, self.window));
            }
        }
    }
}

/// Every series of `m` is one that a table of bucket width `window` may hold.
pub open spec fn table_series(m: Map<Seq<char>, TTLValues>, window: u64) -> bool {
    forall|k: Seq<char>| #[trigger] m.contains_key(k) ==> stored_series(m[k], window)
}

/// The total that a lookup of `k` answers.
pub open spec fn total_of(m: Map<Seq<char>, TTLValues>, k: Seq<char>) -> int {
    if m.contains_key(k) {
        m[k].total()
    } else {
        0
    }
}

/// Every series of a well-formed table is one that its bucket width allows.
pub proof fn lemma_table_series(m: &KeyMap)
    requires
        m.wf(),
    ensures
        table_series(m@, m.window_spec()),
{
    lemma_entries_facts(m.entries());
    assert forall|k: Seq<char>| #[trigger] m@.contains_key(k) implies stored_series(
        m@[k],
        m.window_spec(),
    ) by {
        let i = choose|i: int| 0 <= i < m.entries().len() && m.entries()[i].0@ == k;
        assert(m@[m.entries()[i].0@] == m.entries()[i].1);
        assert(stored_series(m.entries()[i].1, m.window_spec()));
    }
}

/// A lookup without `create` changes nothing, so repeating it answers the
/// same and still changes nothing.
pub proof fn lemma_lookup_is_pure(
    m0: Map<Seq<char>, TTLValues>,
    m1: Map<Seq<char>, TTLValues>,
    m2: Map<Seq<char>, TTLValues>,
    window: u64,
    k: Seq<char>,
    ts1: u64,
    ts2: u64,
    r1: u64,
    r2: u64,
)
    requires
        upserted(m0, m1, window, k, ts1, false, r1),
        upserted(m1, m2, window, k, ts2, false, r2),
    ensures
        m1 == m0,
        m2 == m0,
        r1 == r2,
        r1 == total_of(m0, k),
{
}

/// Two events for one key less than a window apart raise its total by
/// exactly two and add at most one bucket, except where the key's series
/// is too near `u64::MAX` to take two more events or where
/// `opens_two_buckets` holds of it.
pub proof fn lemma_two_close_events_for_key(
    m0: Map<Seq<char>, TTLValues>,
    m1: Map<Seq<char>, TTLValues>,
    m2: Map<Seq<char>, TTLValues>,
    window: u64,
    k: Seq<char>,
    t1: u64,
    t2: u64,
    r1: u64,
    r2: u64,
)
    requires
        table_series(m0, window),
        upserted(m0, m1, window, k, t1, true, r1),
        upserted(m1, m2, window, k, t2, true, r2),
        dist(t1, t2) < window,
        m0.contains_key(k) ==> m0[k].total() + 2 <= u64::MAX,
        m0.contains_key(k) ==> !opens_two_buckets(m0[k], t1, t2),
    ensures
        r2 == total_of(m0, k) + 2,
        m2.contains_key(k),
        m2[k]@.dom().finite(),
        m0.contains_key(k) ==> m0[k]@.dom().finite() && m2[k]@.dom().len() <= m0[k]@.dom().len()
            + 1,
        !m0.contains_key(k) ==> m2[k]@.dom().len() == 1,
{
    if m0.contains_key(k) {
        lemma_two_close_events(m0[k], m1[k], m2[k], t1, t2);
    } else {
        let s1 = m1[k];
        assert(s1@.contains_key(t1));
        lemma_latest_is_max(s1);
        assert(s1@.dom() =~= set![t1]);
        assert(s1.latest() == t1);
        assert(m2[k]@ =~= map![t1 => 2u64]);
        assert(m2[k]@.dom() =~= set![t1]);
    }
}

/// Events for a key that is absent at first, whose timestamps all lie less
/// than a window apart, leave the key with one bucket, at the first event's
/// timestamp, counting all of them, in whatever order they are recorded.
pub proof fn lemma_events_within_window(
    ms: Seq<Map<Seq<char>, TTLValues>>,
    window: u64,
    k: Seq<char>,
    ts: Seq<u64>,
    rs: Seq<u64>,
)
    requires
        ms.len() == ts.len() + 1,
        rs.len() == ts.len(),
        ts.len() <= u64::MAX,
        !ms[0].contains_key(k),
        forall|i: int|
            0 <= i < ts.len() ==> upserted(#[trigger] ms[i], ms[i + 1], window, k, ts[i], true, rs[i]),
        forall|i: int, j: int| 0 <= i < ts.len() && 0 <= j < ts.len() ==> dist(ts[i], ts[j]) < window,
    ensures
        ts.len() > 0 ==> ms.last().contains_key(k) && ms.last()[k]@ == map![ts[0] => ts.len() as u64]
            && ms.last()[k].total() == ts.len() && rs.last() == ts.len(),
{
    if ts.len() > 0 {
        lemma_events_within_window_at(ms, window, k, ts, rs, ts.len() as int);
    }
}

proof fn lemma_events_within_window_at(
    ms: Seq<Map<Seq<char>, TTLValues>>,
    window: u64,
    k: Seq<char>,
    ts: Seq<u64>,
    rs: Seq<u64>,
    n: int,
)
    requires
        ms.len() == ts.len() + 1,
        rs.len() == ts.len(),
        ts.len() <= u64::MAX,
        !ms[0].contains_key(k),
        forall|i: int|
            0 <= i < ts.len() ==> upserted(#[trigger] ms[i], ms[i + 1], window, k, ts[i], true, rs[i]),
        forall|i: int, j: int| 0 <= i < ts.len() && 0 <= j < ts.len() ==> dist(ts[i], ts[j]) < window,
        1 <= n <= ts.len(),
    ensures
        ms[n].contains_key(k),
        ms[n][k].wf(),
        ms[n][k].window_spec() == window,
        ms[n][k]@ == map![ts[0] => n as u64],
        ms[n][k].total() == n,
        rs[n - 1] == n,
    decreases n,
{
    assert(upserted(ms[n - 1], ms[n], window, k, ts[n - 1], true, rs[n - 1]));
    if n > 1 {
        lemma_events_within_window_at(ms, window, k, ts, rs, n - 1);
        let s = ms[n - 1][k];
        assert(s@.contains_key(ts[0]));
        lemma_latest_is_max(s);
        assert(s@.dom() =~= set![ts[0]]);
        assert(s.latest() == ts[0]);
        assert(dist(ts[n - 1], ts[0]) < window);
        assert(ms[n][k]@ =~= map![ts[0] => n as u64]);
    }
}

/// A series trimmed at `cutoff` keeps a bucket exactly when some bucket
/// started at or after `cutoff`.
proof fn lemma_survives_trimmed(old: TTLValues, new: TTLValues, cutoff: u64)
    requires
        trimmed(old, new, cutoff),
    ensures
        survives(old, cutoff) <==> new@ != Map::<u64, u64>::empty(),
        forall|b: u64| #[trigger] new@.contains_key(b) ==> b >= cutoff,
{
    if survives(old, cutoff) {
        let b = choose|b: u64| old@.contains_key(b) && b >= cutoff;
        assert(new@.contains_key(b));
    }
    if new@ != Map::<u64, u64>::empty() {
        assert(exists|b: u64| new@.contains_key(b)) by {
            if !(exists|b: u64| new@.contains_key(b)) {
                assert(new@ =~= Map::<u64, u64>::empty());
            }
        }
        let b = choose|b: u64| new@.contains_key(b);
        assert(old@.contains_key(b) && b >= cutoff);
    }
}

/// Recording an event in a series that has buckets leaves it with buckets.
proof fn lemma_bucket_count_grows(old: TTLValues, new: TTLValues, t: u64)
    requires
        old.wf(),
        old.buckets().len() > 0,
        increments(old, new, t),
    ensures
        new.buckets().len() > 0,
{
    lemma_total_at_least_buckets(old);
    if new.buckets().len() == 0 {
        assert(new.total() == 0);
    }
}

/// A fresh series after one event at `t` holds just that event.
proof fn lemma_new_series(s: TTLValues, t: u64)
    requires
        exists|e: TTLValues|
            e.wf() && e@ == Map::<u64, u64>::empty() && e.buckets().len() == 0 && increments(
                e,
                s,
                t,
            ),
    ensures
        s@ == map![t => 1u64],
        s.total() == 1,
        s.buckets().len() > 0,
{
    let e = choose|e: TTLValues|
        e.wf() && e@ == Map::<u64, u64>::empty() && e.buckets().len() == 0 && increments(e, s, t);
    assert(s@ =~= map![t => 1u64]);
    if s.buckets().len() == 0 {
        assert(s.total() == 0);
    }
}

proof fn lemma_entries_facts(s: Seq<(String, TTLValues)>)
    requires
        unique_keys(s),
    ensures
        forall|k: Seq<char>| #[trigger]
            entries_map(s).contains_key(k) <==> exists|i: int| 0 <= i < s.len() && s[i].0@ == k,
        forall|i: int| 0 <= i < s.len() ==> #[trigger] entries_map(s)[s[i].0@] == s[i].1,
        forall|i: int| 0 <= i < s.len() ==> entries_map(s).contains_key(#[trigger] s[i].0@),
    decreases s.len(),
{
    if s.len() > 0 {
        let t = s.drop_last();
        assert(unique_keys(t)) by {
            assert forall|a: int, b: int| 0 <= a < b < t.len() implies t[a].0@ != t[b].0@ by {
                assert(t[a] == s[a] && t[b] == s[b]);
            }
        }
        lemma_entries_facts(t);
        assert forall|k: Seq<char>| #[trigger]
            entries_map(s).contains_key(k) <==> exists|i: int| 0 <= i < s.len() && s[i].0@ == k by {
            if entries_map(s).contains_key(k) {
                if k == s.last().0@ {
                    assert(s[s.len() - 1].0@ == k);
                } else {
                    assert(entries_map(t).contains_key(k));
                    let i = choose|i: int| 0 <= i < t.len() && t[i].0@ == k;
                    assert(t[i] == s[i]);
                }
            }
            if exists|i: int| 0 <= i < s.len() && s[i].0@ == k {
                let i = choose|i: int| 0 <= i < s.len() && s[i].0@ == k;
                if i < s.len() - 1 {
                    assert(t[i] == s[i]);
                    assert(entries_map(t).contains_key(k));
                }
            }
        }
        assert forall|i: int| 0 <= i < s.len() implies #[trigger] entries_map(s)[s[i].0@] == s[i].1 by {
            if i < s.len() - 1 {
                assert(t[i] == s[i]);
            }
        }
        assert forall|i: int| 0 <= i < s.len() implies entries_map(s).contains_key(
            #[trigger] s[i].0@,
        ) by {
            if i < s.len() - 1 {
                assert(t[i] == s[i]);
            }
        }
    }
}

proof fn lemma_entries_dom_len(s: Seq<(String, TTLValues)>)
    requires
        unique_keys(s),
    ensures
        entries_map(s).dom().finite(),
        entries_map(s).dom().len() == s.len(),
    decreases s.len(),
{
    if s.len() > 0 {
        let t = s.drop_last();
        assert(unique_keys(t)) by {
            assert forall|a: int, b: int| 0 <= a < b < t.len() implies t[a].0@ != t[b].0@ by {
                assert(t[a] == s[a] && t[b] == s[b]);
            }
        }
        lemma_entries_dom_len(t);
        lemma_entries_facts(t);
        assert(!entries_map(t).contains_key(s.last().0@)) by {
            if entries_map(t).contains_key(s.last().0@) {
                let i = choose|i: int| 0 <= i < t.len() && t[i].0@ == s.last().0@;
                assert(t[i] == s[i]);
            }
        }
    }
}

proof fn lemma_entries_update(s: Seq<(String, TTLValues)>, i: int, v: TTLValues)
    requires
        unique_keys(s),
        0 <= i < s.len(),
    ensures
        unique_keys(s.update(i, (s[i].0, v))),
        entries_map(s.update(i, (s[i].0, v))) == entries_map(s).insert(s[i].0@, v),
{
    let s1 = s.update(i, (s[i].0, v));
    assert(unique_keys(s1)) by {
        assert forall|a: int, b: int| 0 <= a < b < s1.len() implies s1[a].0@ != s1[b].0@ by {
            assert(s1[a].0 == s[a].0 && s1[b].0 == s[b].0);
        }
    }
    lemma_entries_facts(s);
    lemma_entries_facts(s1);
    let want = entries_map(s).insert(s[i].0@, v);
    assert forall|k: Seq<char>| #[trigger] entries_map(s1).contains_key(k) <==> want.contains_key(k) by {
        if entries_map(s1).contains_key(k) {
            let j = choose|j: int| 0 <= j < s1.len() && s1[j].0@ == k;
            assert(s[j].0@ == k);
        }
        if entries_map(s).contains_key(k) {
            let j = choose|j: int| 0 <= j < s.len() && s[j].0@ == k;
            assert(s1[j].0@ == k);
        }
    }
    assert forall|k: Seq<char>| #[trigger] entries_map(s1).contains_key(k) implies entries_map(s1)[k]
        == want[k] by {
        let j = choose|j: int| 0 <= j < s1.len() && s1[j].0@ == k;
        assert(entries_map(s1)[s1[j].0@] == s1[j].1);
        if j != i {
            assert(entries_map(s)[s[j].0@] == s[j].1);
        }
    }
    assert(entries_map(s1) =~= want);
}

} // verus!
