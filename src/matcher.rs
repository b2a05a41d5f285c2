use vstd::prelude::*;

verus! {

/// The collections a collection is linked with, and its rate.
#[derive(Debug, PartialEq, Eq)]
pub struct Link {
    pub contexts: Vec<String>,
    pub rate: u64,
}

/// One linker as configured: its name, the collections it names as
/// contexts, its count and its retention.
#[derive(Debug, PartialEq, Eq)]
pub struct LinkerEntry {
    pub name: String,
    pub contexts: Vec<String>,
    pub count: u64,
    pub ttl_seconds: u64,
}

/// Linked collections by name, with each one's retention.
#[derive(Debug, PartialEq, Eq)]
pub struct ContextLinker {
    entries: Vec<(String, Link, u64)>,
    sweep: u64,
}

/// A linker, as (contexts, rate, retention).
pub type LinkSpec = (Seq<Seq<char>>, u64, u64);

pub open spec fn texts(s: Seq<String>) -> Seq<Seq<char>> {
    s.map_values(|t: String| t@)
}

/// `c` names one of the linkers.
pub open spec fn is_linker_name(ls: Seq<LinkerEntry>, c: Seq<char>) -> bool {
    exists|i: int| 0 <= i < ls.len() && #[trigger] ls[i].name@ == c
}

/// The contexts of `cs` that name a linker of `ls`, in order.
pub open spec fn kept_contexts(cs: Seq<Seq<char>>, ls: Seq<LinkerEntry>) -> Seq<Seq<char>>
    decreases cs.len(),
{
    if cs.len() == 0 {
        Seq::empty()
    } else if is_linker_name(ls, cs.last()) {
        kept_contexts(cs.drop_last(), ls).push(cs.last())
    } else {
        kept_contexts(cs.drop_last(), ls)
    }
}

/// The first `n` linkers of `ls` by name, a later one replacing an earlier
/// one of the same name, each keeping only contexts that name a linker.
pub open spec fn linker_map(ls: Seq<LinkerEntry>, n: int) -> Map<Seq<char>, LinkSpec>
    decreases n,
{
    if n <= 0 {
        Map::empty()
    } else {
        linker_map(ls, n - 1).insert(
            ls[n - 1].name@,
            (kept_contexts(texts(ls[n - 1].contexts@), ls), ls[n - 1].count, ls[n - 1].ttl_seconds),
        )
    }
}

pub open spec fn entry_spec(e: (String, Link, u64)) -> LinkSpec {
    (texts(e.1.contexts@), e.1.rate, e.2)
}

pub open spec fn unique_entry_names(s: Seq<(String, Link, u64)>) -> bool {
    forall|i: int, j: int| 0 <= i < j < s.len() ==> s[i].0@ != s[j].0@
}

pub open spec fn entries_spec(s: Seq<(String, Link, u64)>) -> Map<Seq<char>, LinkSpec>
    decreases s.len(),
{
    if s.len() == 0 {
        Map::empty()
    } else {
        entries_spec(s.drop_last()).insert(s.last().0@, entry_spec(s.last()))
    }
}

proof fn lemma_entries_spec_facts(s: Seq<(String, Link, u64)>)
    requires
        unique_entry_names(s),
    ensures
        forall|k: Seq<char>| #[trigger]
            entries_spec(s).contains_key(k) <==> exists|i: int| 0 <= i < s.len() && s[i].0@ == k,
        forall|i: int| 0 <= i < s.len() ==> #[trigger] entries_spec(s)[s[i].0@] == entry_spec(s[i]),
    decreases s.len(),
{
    if s.len() > 0 {
        let t = s.drop_last();
        assert(unique_entry_names(t)) by {
            assert forall|a: int, b: int| 0 <= a < b < t.len() implies t[a].0@ != t[b].0@ by {
                assert(t[a] == s[a] && t[b] == s[b]);
            }
        }
        lemma_entries_spec_facts(t);
        assert forall|k: Seq<char>| #[trigger]
            entries_spec(s).contains_key(k) <==> exists|i: int| 0 <= i < s.len() && s[i].0@ == k by {
            if entries_spec(s).contains_key(k) {
                if k == s.last().0@ {
                    assert(s[s.len() - 1].0@ == k);
                } else {
                    assert(entries_spec(t).contains_key(k));
                    let i = choose|i: int| 0 <= i < t.len() && t[i].0@ == k;
                    assert(t[i] == s[i]);
                }
            }
            if exists|i: int| 0 <= i < s.len() && s[i].0@ == k {
                let i = choose|i: int| 0 <= i < s.len() && s[i].0@ == k;
                if i < s.len() - 1 {
                    assert(t[i] == s[i]);
                    assert(entries_spec(t).contains_key(k));
                }
            }
        }
        assert forall|i: int| 0 <= i < s.len() implies #[trigger] entries_spec(s)[s[i].0@]
            == entry_spec(s[i]) by {
            if i < s.len() - 1 {
                assert(t[i] == s[i]);
                assert(s[i].0@ != s[s.len() - 1].0@);
                assert(entries_spec(t)[t[i].0@] == entry_spec(t[i]));
            }
        }
    }
}

/// Whether `c` names one of the linkers.
fn names_linker(ls: &Vec<LinkerEntry>, c: &String) -> (r: bool)
    ensures
        r == is_linker_name(ls@, c@),
{
    let mut i: usize = 0;
    while i < ls.len()
        invariant
            i <= ls@.len(),
            forall|j: int| 0 <= j < i ==> #[trigger] ls@[j].name@ != c@,
        decreases ls@.len() - i,
    {
        if ls[i].name.eq(c) {
            return true;
        }
        i = i + 1;
    }
    false
}

/// The contexts of `cs` that name a linker of `ls`, in order.
fn keep_contexts(cs: &Vec<String>, ls: &Vec<LinkerEntry>) -> (r: Vec<String>)
    ensures
        texts(r@) == kept_contexts(texts(cs@), ls@),
{
    let mut out: Vec<String> = Vec::new();
    let mut i: usize = 0;
    while i < cs.len()
        invariant
            i <= cs@.len(),
            texts(out@) == kept_contexts(texts(cs@.subrange(0, i as int)), ls@),
        decreases cs@.len() - i,
    {
        let ghost before = out@;
        proof {
            assert(texts(cs@.subrange(0, i + 1)).drop_last() == texts(cs@.subrange(0, i as int)));
            assert(texts(cs@.subrange(0, i + 1)).last() == cs@[i as int]@);
        }
        if names_linker(ls, &cs[i]) {
            out.push(cs[i].clone());
            proof {
                assert(texts(out@) == texts(before).push(cs@[i as int]@));
            }
        }
        i = i + 1;
    }
    proof {
        assert(cs@.subrange(0, i as int) == cs@);
    }
    out
}

impl ContextLinker {
    pub closed spec fn entry_seq(&self) -> Seq<(String, Link, u64)> {
        self.entries@
    }

    pub closed spec fn sweep_spec(&self) -> u64 {
        self.sweep
    }

    /// Linkers by name, as (contexts, rate, retention).
    pub open spec fn links(&self) -> Map<Seq<char>, LinkSpec> {
        entries_spec(self.entry_seq())
    }

    pub open spec fn wf(&self) -> bool {
        unique_entry_names(self.entry_seq())
    }

    /// Links the configured linkers: each keeps, of its contexts, those that
    /// name a linker; a later linker replaces an earlier one of the same name.
    pub fn from_linkers(linkers: &Vec<LinkerEntry>, sweep: u64) -> (r: ContextLinker)
        ensures
            r.wf(),
            r.links() == linker_map(linkers@, linkers@.len() as int),
            r.sweep_spec() == sweep,
    {
        let mut entries: Vec<(String, Link, u64)> = Vec::new();
        let mut i: usize = 0;
        while i < linkers.len()
            invariant
                i <= linkers@.len(),
                unique_entry_names(entries@),
                entries_spec(entries@) == linker_map(linkers@, i as int),
            decreases linkers@.len() - i,
        {
            let contexts = keep_contexts(&linkers[i].contexts, linkers);
            let link = Link { contexts, rate: linkers[i].count };
            put_entry(&mut entries, (linkers[i].name.clone(), link, linkers[i].ttl_seconds));
            i = i + 1;
        }
        ContextLinker { entries, sweep }
    }

    /// The link of the collection `key`, if it has one.
    pub fn get_context(&self, key: &str) -> (r: Option<&Link>)
        requires
            self.wf(),
        ensures
            match r {
                None => !self.links().contains_key(key@),
                Some(l) => self.links().contains_key(key@) && self.links()[key@].0 == texts(
                    l.contexts@,
                ) && self.links()[key@].1 == l.rate,
            },
    {
        let owned = key.to_owned();
        let mut i: usize = 0;
        while i < self.entries.len()
            invariant
                owned@ == key@,
                self.wf(),
                i <= self.entry_seq().len(),
                forall|j: int| 0 <= j < i ==> self.entry_seq()[j].0@ != key@,
            decreases self.entry_seq().len() - i,
        {
            if self.entries[i].0.eq(&owned) {
                proof {
                    lemma_entries_spec_facts(self.entry_seq());
                    assert(self.entry_seq()[i as int].0@ == key@);
                }
                return Some(&self.entries[i].1);
            }
            i = i + 1;
        }
        proof {
            lemma_entries_spec_facts(self.entry_seq());
        }
        None
    }

    /// Each linked collection with its retention.
    pub fn get_ttls(&self) -> (r: Vec<(String, u64)>)
        requires
            self.wf(),
        ensures
            r@.len() == self.entry_seq().len(),
            forall|k: Seq<char>|
                self.links().contains_key(k) <==> exists|i: int|
                    0 <= i < r@.len() && #[trigger] r@[i].0@ == k,
            forall|i: int|
                0 <= i < r@.len() ==> #[trigger] self.links()[r@[i].0@].2 == r@[i].1,
    {
        let mut out: Vec<(String, u64)> = Vec::new();
        let mut i: usize = 0;
        while i < self.entries.len()
            invariant
                i <= self.entry_seq().len(),
                out@.len() == i,
                forall|j: int|
                    0 <= j < i ==> #[trigger] out@[j].0@ == self.entry_seq()[j].0@ && out@[j].1
                        == self.entry_seq()[j].2,
            decreases self.entry_seq().len() - i,
        {
            out.push((self.entries[i].0.clone(), self.entries[i].2));
            i = i + 1;
        }
        proof {
            let s = self.entry_seq();
            lemma_entries_spec_facts(s);
            assert forall|k: Seq<char>|
                self.links().contains_key(k) implies exists|i: int|
                    0 <= i < out@.len() && #[trigger] out@[i].0@ == k by {
                let i = choose|i: int| 0 <= i < s.len() && s[i].0@ == k;
                assert(out@[i].0@ == k);
            }
            assert forall|i: int| 0 <= i < out@.len() implies #[trigger] self.links()[out@[i].0@].2
                == out@[i].1 by {
                assert(entries_spec(s)[s[i].0@] == entry_spec(s[i]));
            }
        }
        out
    }

    /// Sweep period, in seconds.
    pub fn sweep(&self) -> (r: u64)
        ensures
            r == self.sweep_spec(),
    {
        self.sweep
    }
}

/// Inserts `e`, replacing an entry of the same name.
fn put_entry(acc: &mut Vec<(String, Link, u64)>, e: (String, Link, u64))
    requires
        unique_entry_names(old(acc)@),
    ensures
        unique_entry_names(final(acc)@),
        entries_spec(final(acc)@) == entries_spec(old(acc)@).insert(e.0@, entry_spec(e)),
{
    let ghost s0 = acc@;
    let ghost ev = e;
    proof {
        lemma_entries_spec_facts(s0);
    }
    let mut i: usize = 0;
    while i < acc.len() && !acc[i].0.eq(&e.0)
        invariant
            acc@ == s0,
            i <= s0.len(),
            forall|j: int| 0 <= j < i ==> s0[j].0@ != e.0@,
        decreases s0.len() - i,
    {
        i = i + 1;
    }
    if i < acc.len() {
        acc.set(i, e);
        proof {
            let s1 = acc@;
            assert(unique_entry_names(s1)) by {
                assert forall|a: int, b: int| 0 <= a < b < s1.len() implies s1[a].0@ != s1[b].0@ by {
                    if a != i {
                        assert(s1[a] == s0[a]);
                    }
                    if b != i {
                        assert(s1[b] == s0[b]);
                    }
                }
            }
            lemma_entries_spec_facts(s1);
            let want = entries_spec(s0).insert(ev.0@, entry_spec(ev));
            assert forall|k: Seq<char>| #[trigger] entries_spec(s1).contains_key(k) <==> want.contains_key(
                k,
            ) by {
                assert(s1[i as int] == ev);
                if k == ev.0@ {
                    assert(s1[i as int].0@ == k);
                }
                if entries_spec(s1).contains_key(k) {
                    let j = choose|j: int| 0 <= j < s1.len() && s1[j].0@ == k;
                    if j != i {
                        assert(s0[j] == s1[j]);
                    }
                }
                if entries_spec(s0).contains_key(k) {
                    let j = choose|j: int| 0 <= j < s0.len() && s0[j].0@ == k;
                    if j != i {
                        assert(s0[j] == s1[j]);
                    }
                }
            }
            assert forall|k: Seq<char>| #[trigger] entries_spec(s1).contains_key(k) implies entries_spec(
                s1,
            )[k] == want[k] by {
                let j = choose|j: int| 0 <= j < s1.len() && s1[j].0@ == k;
                assert(entries_spec(s1)[s1[j].0@] == entry_spec(s1[j]));
                if j != i {
                    assert(s0[j] == s1[j]);
                    assert(entries_spec(s0)[s0[j].0@] == entry_spec(s0[j]));
                }
            }
            assert(entries_spec(s1) =~= want);
        }
    } else {
        acc.push(e);
        proof {
            let s1 = acc@;
            assert(s1.drop_last() == s0);
            assert(unique_entry_names(s1));
        }
    }
}

} // verus!
