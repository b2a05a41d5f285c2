use vstd::prelude::*;
use vstd::string::{StrSliceExecFns, StringExecFns};

verus! {

/// Retention, in seconds, that every parsed configuration carries.
pub const HARDCODED_TTL: u64 = 30;

/// A parsed rate rule, as (name, count limit, window seconds, window nanoseconds).
pub type RateSpec = (Seq<char>, u64, u64, u32);

#[derive(Debug, PartialEq, Eq)]
pub struct ConfigError {
    pub msg: String,
}

/// One collection: its name, how many events it allows, and the window.
#[derive(Debug, PartialEq, Eq)]
pub struct RateConfig {
    pub name: String,
    pub count: u64,
    pub window_secs: u64,
    pub window_nanos: u32,
}

/// The collections, by name, and the retention that applies to all of them.
#[derive(Debug)]
pub struct Config {
    configs: Vec<RateConfig>,
    ttl_seconds: u64,
}

/// What `parse_duration::parse` makes of a text: whole seconds and
/// nanoseconds, or the text of its error.
pub uninterp spec fn duration_parse(s: Seq<char>) -> Result<(u64, u32), Seq<char>>;

/// Relies on `parse_duration::parse`, which reads a human-readable duration
/// such as `1 minute`, and on the `Display` text of its error; both depend
/// on the input text alone.
#[verifier::external_body]
fn parse_window(s: &str) -> (r: Result<(u64, u32), String>)
    ensures
        match r {
            Ok(d) => duration_parse(s@) == Ok::<(u64, u32), Seq<char>>(d),
            Err(e) => duration_parse(s@) == Err::<(u64, u32), Seq<char>>(e@),
        },
{
    parse_duration::parse(s).map(|d| (d.as_secs(), d.subsec_nanos())).map_err(|e| e.to_string())
}

pub open spec fn is_digit(c: char) -> bool {
    '0' <= c && c <= '9'
}

/// The value of a run of decimal digits.
pub open spec fn digits_value(s: Seq<char>) -> nat
    decreases s.len(),
{
    if s.len() == 0 {
        0
    } else {
        digits_value(s.drop_last()) * 10 + (s.last() as nat - '0' as nat) as nat
    }
}

/// The value of an optional `+` followed by one or more decimal digits,
/// where it fits in a `u64`.
pub open spec fn decimal_u64(s: Seq<char>) -> Option<u64> {
    let d = if s.len() > 0 && s[0] == '+' {
        s.drop_first()
    } else {
        s
    };
    if d.len() > 0 && (forall|i: int| 0 <= i < d.len() ==> is_digit(#[trigger] d[i]))
        && digits_value(d) <= u64::MAX {
        Some(digits_value(d) as u64)
    } else {
        None
    }
}

/// The `Display` text of the error that `u64` parsing gives for a text.
pub uninterp spec fn int_parse_error(s: Seq<char>) -> Seq<char>;

/// Relies on `u64`'s `FromStr` (`str::parse::<u64>`): it accepts an
/// optional `+` and then decimal digits whose value fits in a `u64`, and
/// otherwise fails with an error whose `Display` text depends on the input.
#[verifier::external_body]
fn parse_count(s: &str) -> (r: Result<u64, String>)
    ensures
        match decimal_u64(s@) {
            Some(v) => r == Ok::<u64, String>(v),
            None => r is Err && r->Err_0@ == int_parse_error(s@),
        },
{
    s.parse::<u64>().map_err(|e| e.to_string())
}

/// Index of the last `c` in `s`, or -1.
pub open spec fn last_index(s: Seq<char>, c: char) -> int
    decreases s.len(),
{
    if s.len() == 0 {
        -1
    } else if s.last() == c {
        s.len() - 1
    } else {
        last_index(s.drop_last(), c)
    }
}

/// Index of the first `c` in `s`, or -1.
pub open spec fn first_index(s: Seq<char>, c: char) -> int
    decreases s.len(),
{
    if s.len() == 0 {
        -1
    } else if s[0] == c {
        0
    } else if first_index(s.drop_first(), c) < 0 {
        -1
    } else {
        first_index(s.drop_first(), c) + 1
    }
}

/// The pieces of `s` between occurrences of `c`.
pub open spec fn split_on(s: Seq<char>, c: char) -> Seq<Seq<char>>
    decreases s.len(),
{
    let i = first_index(s, c);
    if i < 0 || i >= s.len() {
        seq![s]
    } else {
        seq![s.subrange(0, i)] + split_on(s.subrange(i + 1, s.len() as int), c)
    }
}

/// The last piece of `s` before the last `c`, where there is a `c`.
pub open spec fn before_last(s: Seq<char>, c: char) -> Option<Seq<char>> {
    let j = last_index(s, c);
    if j < 0 {
        None
    } else {
        Some(s.subrange(last_index(s.subrange(0, j), c) + 1, j))
    }
}

/// What follows the last `c` in `s` (all of `s` where there is none).
pub open spec fn after_last(s: Seq<char>, c: char) -> Seq<char> {
    s.subrange(last_index(s, c) + 1, s.len() as int)
}

/// What parsing a count text gives.
pub open spec fn count_parse(s: Seq<char>) -> Result<u64, Seq<char>> {
    match decimal_u64(s) {
        Some(v) => Ok(v),
        None => Err(int_parse_error(s)),
    }
}

/// A rule from its name, its parsed window and, where the rate held a `:`,
/// its parsed count; a window error comes first.
pub open spec fn rate_result(
    name: Seq<char>,
    window: Result<(u64, u32), Seq<char>>,
    count: Option<Result<u64, Seq<char>>>,
) -> Result<RateSpec, Seq<char>> {
    match window {
        Err(e) => Err("parse window: "@ + e),
        Ok(w) => match count {
            None => Err("no count in rate"@),
            Some(Err(e)) => Err("parse rate count: "@ + e),
            Some(Ok(n)) => Ok((name, n, w.0, w.1)),
        },
    }
}

/// What one `name=count:window` entry parses to. The name is the piece
/// before the last `=`, the rate what follows it; within the rate the window
/// is what follows the last `:` and the count the piece before it.
pub open spec fn rate_outcome(s: Seq<char>) -> Result<RateSpec, Seq<char>> {
    match before_last(s, '=') {
        None => Err("no name in rate"@),
        Some(name) => {
            let rate = after_last(s, '=');
            rate_result(
                name,
                duration_parse(after_last(rate, ':')),
                match before_last(rate, ':') {
                    None => None,
                    Some(t) => Some(count_parse(t)),
                },
            )
        },
    }
}

/// The rules of several entries, by name, a later entry replacing an earlier
/// one of the same name; or the error of the first entry that fails.
pub open spec fn configs_outcome(ps: Seq<Seq<char>>) -> Result<Map<Seq<char>, RateSpec>, Seq<char>>
    decreases ps.len(),
{
    if ps.len() == 0 {
        Ok(Map::empty())
    } else {
        match configs_outcome(ps.drop_last()) {
            Err(e) => Err(e),
            Ok(m) => match rate_outcome(ps.last()) {
                Err(e) => Err(e),
                Ok(rc) => Ok(m.insert(rc.0, rc)),
            },
        }
    }
}

pub open spec fn rate_view(r: RateConfig) -> RateSpec {
    (r.name@, r.count, r.window_secs, r.window_nanos)
}

pub open spec fn rate_result_view(r: Result<RateConfig, ConfigError>) -> Result<RateSpec, Seq<char>> {
    match r {
        Ok(c) => Ok(rate_view(c)),
        Err(e) => Err(e.msg@),
    }
}

/// No two rules share a name.
pub open spec fn unique_names(s: Seq<RateConfig>) -> bool {
    forall|i: int, j: int| 0 <= i < j < s.len() ==> s[i].name@ != s[j].name@
}

/// The rules as a map by name.
pub open spec fn rates_map(s: Seq<RateConfig>) -> Map<Seq<char>, RateSpec>
    decreases s.len(),
{
    if s.len() == 0 {
        Map::empty()
    } else {
        rates_map(s.drop_last()).insert(s.last().name@, rate_view(s.last()))
    }
}

/// Index of the last `c` in `s` before `end`.
fn last_index_before(s: &str, c: char, end: usize) -> (r: Option<usize>)
    requires
        end <= s@.len(),
    ensures
        match r {
            None => last_index(s@.subrange(0, end as int), c) == -1,
            Some(i) => last_index(s@.subrange(0, end as int), c) == i && i < end,
        },
{
    let mut i = end;
    while i > 0 && s.get_char(i - 1) != c
        invariant
            i <= end <= s@.len(),
            last_index(s@.subrange(0, end as int), c) == last_index(s@.subrange(0, i as int), c),
        decreases i,
    {
        proof {
            assert(s@.subrange(0, i as int).drop_last() == s@.subrange(0, i - 1));
        }
        i = i - 1;
    }
    if i == 0 {
        None
    } else {
        Some(i - 1)
    }
}

/// Index of the first `c` in `s` at or after `start`, or the length of `s`.
fn next_index(s: &str, n: usize, c: char, start: usize) -> (r: usize)
    requires
        n == s@.len(),
        start <= n,
    ensures
        start <= r <= n,
        r < n ==> first_index(s@.subrange(start as int, n as int), c) == r - start,
        r == n ==> first_index(s@.subrange(start as int, n as int), c) == -1,
{
    let mut i = start;
    while i < n && s.get_char(i) != c
        invariant
            n == s@.len(),
            start <= i <= n,
            forall|j: int| start <= j < i ==> s@[j] != c,
        decreases n - i,
    {
        i = i + 1;
    }
    proof {
        lemma_first_index(s@.subrange(start as int, n as int), c, i - start);
    }
    i
}

/// `first_index` is the first position holding `c`.
proof fn lemma_first_index(s: Seq<char>, c: char, k: int)
    requires
        0 <= k <= s.len(),
        forall|j: int| 0 <= j < k ==> s[j] != c,
        k < s.len() ==> s[k] == c,
    ensures
        k < s.len() ==> first_index(s, c) == k,
        k == s.len() ==> first_index(s, c) == -1,
    decreases s.len(),
{
    if s.len() > 0 && k > 0 {
        lemma_first_index(s.drop_first(), c, k - 1);
    }
}

impl RateConfig {
    /// A rule from its name and the parsed window and count, the count
    /// absent where the rate held no `:`.
    pub fn from_fields(
        name: &str,
        window: Result<(u64, u32), String>,
        count: Option<Result<u64, String>>,
    ) -> (r: Result<RateConfig, ConfigError>)
        ensures
            rate_result_view(r) == rate_result(
                name@,
                match window {
                    Ok(w) => Ok(w),
                    Err(e) => Err(e@),
                },
                match count {
                    None => None,
                    Some(Ok(n)) => Some(Ok(n)),
                    Some(Err(e)) => Some(Err(e@)),
                },
            ),
    {
        match window {
            Err(e) => {
                let mut msg = "parse window: ".to_owned();
                msg.append(e.as_str());
                Err(ConfigError { msg })
            },
            Ok(w) => match count {
                None => Err(ConfigError { msg: "no count in rate".to_owned() }),
                Some(Err(e)) => {
                    let mut msg = "parse rate count: ".to_owned();
                    msg.append(e.as_str());
                    Err(ConfigError { msg })
                },
                Some(Ok(n)) => Ok(
                    RateConfig { name: name.to_owned(), count: n, window_secs: w.0, window_nanos: w.1 },
                ),
            },
        }
    }

    /// Parses one `name=count:window` entry.
    pub fn try_from(value: &str) -> (r: Result<RateConfig, ConfigError>)
        ensures
            rate_result_view(r) == rate_outcome(value@),
    {
        let n = value.unicode_len();
        match last_index_before(value, '=', n) {
            None => {
                proof {
                    assert(value@.subrange(0, n as int) == value@);
                }
                Err(ConfigError { msg: "no name in rate".to_owned() })
            },
            Some(j) => {
                proof {
                    assert(value@.subrange(0, n as int) == value@);
                }
                let name_start = match last_index_before(value, '=', j) {
                    None => 0,
                    Some(i) => i + 1,
                };
                let name = value.substring_char(name_start, j);
                let rate = value.substring_char(j + 1, n);
                let rn = rate.unicode_len();
                let colon = last_index_before(rate, ':', rn);
                proof {
                    assert(rate@.subrange(0, rn as int) == rate@);
                }
                let window_start = match colon {
                    None => 0,
                    Some(k) => k + 1,
                };
                let window_raw = rate.substring_char(window_start, rn);
                let window = parse_window(window_raw);
                let count = match colon {
                    None => None,
                    Some(k) => {
                        let count_start = match last_index_before(rate, ':', k) {
                            None => 0,
                            Some(i) => i + 1,
                        };
                        let count_raw = rate.substring_char(count_start, k);
                        Some(parse_count(count_raw))
                    },
                };
                let r = RateConfig::from_fields(name, window, count);
                proof {
                    let rate_s = after_last(value@, '=');
                    assert(rate@ == rate_s);
                    assert(window_raw@ == after_last(rate_s, ':'));
                }
                r
            },
        }
    }
}

/// Inserts `rc`, replacing a rule of the same name.
fn put_rate(acc: &mut Vec<RateConfig>, rc: RateConfig)
    requires
        unique_names(old(acc)@),
    ensures
        unique_names(final(acc)@),
        rates_map(final(acc)@) == rates_map(old(acc)@).insert(rc.name@, rate_view(rc)),
{
    let ghost s0 = acc@;
    proof {
        lemma_rates_facts(s0);
    }
    let mut i: usize = 0;
    while i < acc.len() && !acc[i].name.eq(&rc.name)
        invariant
            acc@ == s0,
            i <= s0.len(),
            forall|j: int| 0 <= j < i ==> s0[j].name@ != rc.name@,
        decreases s0.len() - i,
    {
        i = i + 1;
    }
    if i < acc.len() {
        let ghost name = rc.name@;
        acc.set(i, rc);
        proof {
            let s1 = acc@;
            assert(unique_names(s1)) by {
                assert forall|a: int, b: int| 0 <= a < b < s1.len() implies s1[a].name@
                    != s1[b].name@ by {
                    if a != i && b != i {
                        assert(s1[a] == s0[a] && s1[b] == s0[b]);
                    } else if a == i {
                        assert(s1[b] == s0[b]);
                    } else {
                        assert(s1[a] == s0[a]);
                    }
                }
            }
            lemma_rates_facts(s1);
            let want = rates_map(s0).insert(name, rate_view(s1[i as int]));
            assert forall|k: Seq<char>| #[trigger] rates_map(s1).contains_key(k) <==> want.contains_key(
                k,
            ) by {
                if rates_map(s1).contains_key(k) {
                    let j = choose|j: int| 0 <= j < s1.len() && s1[j].name@ == k;
                    if j != i {
                        assert(s0[j] == s1[j]);
                    }
                }
                if rates_map(s0).contains_key(k) {
                    let j = choose|j: int| 0 <= j < s0.len() && s0[j].name@ == k;
                    if j != i {
                        assert(s0[j] == s1[j]);
                    }
                }
            }
            assert forall|k: Seq<char>| #[trigger] rates_map(s1).contains_key(k) implies rates_map(
                s1,
            )[k] == want[k] by {
                let j = choose|j: int| 0 <= j < s1.len() && s1[j].name@ == k;
                assert(rates_map(s1)[s1[j].name@] == rate_view(s1[j]));
                if j != i {
                    assert(s0[j] == s1[j]);
                    assert(rates_map(s0)[s0[j].name@] == rate_view(s0[j]));
                }
            }
            assert(rates_map(s1) =~= want);
        }
    } else {
        acc.push(rc);
        proof {
            let s1 = acc@;
            assert(s1.drop_last() == s0);
            assert(unique_names(s1));
        }
    }
}

pub proof fn lemma_rates_facts(s: Seq<RateConfig>)
    requires
        unique_names(s),
    ensures
        forall|k: Seq<char>| #[trigger]
            rates_map(s).contains_key(k) <==> exists|i: int| 0 <= i < s.len() && s[i].name@ == k,
        forall|i: int| 0 <= i < s.len() ==> #[trigger] rates_map(s)[s[i].name@] == rate_view(s[i]),
    decreases s.len(),
{
    if s.len() > 0 {
        let t = s.drop_last();
        assert(unique_names(t)) by {
            assert forall|a: int, b: int| 0 <= a < b < t.len() implies t[a].name@ != t[b].name@ by {
                assert(t[a] == s[a] && t[b] == s[b]);
            }
        }
        lemma_rates_facts(t);
        assert forall|k: Seq<char>| #[trigger]
            rates_map(s).contains_key(k) <==> exists|i: int| 0 <= i < s.len() && s[i].name@ == k by {
            if rates_map(s).contains_key(k) {
                if k == s.last().name@ {
                    assert(s[s.len() - 1].name@ == k);
                } else {
                    assert(rates_map(t).contains_key(k));
                    let i = choose|i: int| 0 <= i < t.len() && t[i].name@ == k;
                    assert(t[i] == s[i]);
                }
            }
            if exists|i: int| 0 <= i < s.len() && s[i].name@ == k {
                let i = choose|i: int| 0 <= i < s.len() && s[i].name@ == k;
                if i < s.len() - 1 {
                    assert(t[i] == s[i]);
                    assert(rates_map(t).contains_key(k));
                }
            }
        }
        assert forall|i: int| 0 <= i < s.len() implies #[trigger] rates_map(s)[s[i].name@]
            == rate_view(s[i]) by {
            if i < s.len() - 1 {
                assert(t[i] == s[i]);
                assert(s[i].name@ != s[s.len() - 1].name@);
                assert(rates_map(t)[t[i].name@] == rate_view(t[i]));
                assert(rates_map(s) == rates_map(t).insert(s.last().name@, rate_view(s.last())));
            }
        }
    }
}

/// Once a run of entries fails, more entries leave its error as it is.
proof fn lemma_outcome_error_stays(ps: Seq<Seq<char>>, qs: Seq<Seq<char>>)
    requires
        configs_outcome(ps) is Err,
    ensures
        configs_outcome(ps + qs) == configs_outcome(ps),
    decreases qs.len(),
{
    if qs.len() > 0 {
        lemma_outcome_error_stays(ps, qs.drop_last());
        assert((ps + qs).drop_last() == ps + qs.drop_last());
    } else {
        assert(ps + qs == ps);
    }
}

impl Config {
    pub closed spec fn rate_seq(&self) -> Seq<RateConfig> {
        self.configs@
    }

    pub closed spec fn ttl_spec(&self) -> u64 {
        self.ttl_seconds
    }

    /// The rules by name.
    pub open spec fn rules(&self) -> Map<Seq<char>, RateSpec> {
        rates_map(self.rate_seq())
    }

    pub open spec fn wf(&self) -> bool {
        unique_names(self.rate_seq())
    }

    /// Parses a comma-separated list of `name=count:window` entries.
    pub fn try_from(value: &str) -> (r: Result<Config, ConfigError>)
        ensures
            match configs_outcome(split_on(value@, ',')) {
                Ok(m) => r is Ok && r->Ok_0.wf() && r->Ok_0.rules() == m && r->Ok_0.ttl_spec()
                    == HARDCODED_TTL,
                Err(e) => r is Err && r->Err_0.msg@ == e,
            },
    {
        let n = value.unicode_len();
        let mut start: usize = 0;
        let mut acc: Vec<RateConfig> = Vec::new();
        let ghost mut done: Seq<Seq<char>> = Seq::empty();
        proof {
            assert(value@.subrange(0, n as int) == value@);
            assert(done + split_on(value@, ',') == split_on(value@, ','));
        }
        loop
            invariant
                n == value@.len(),
                start <= n,
                split_on(value@, ',') == done + split_on(value@.subrange(start as int, n as int), ','),
                unique_names(acc@),
                configs_outcome(done) == Ok::<Map<Seq<char>, RateSpec>, Seq<char>>(rates_map(acc@)),
            decreases n - start,
        {
            let end = next_index(value, n, ',', start);
            let piece = value.substring_char(start, end);
            let ghost rest = value@.subrange(start as int, n as int);
            proof {
                if end < n {
                    assert(rest.subrange(0, end - start) == piece@);
                    assert(rest.subrange(end - start + 1, rest.len() as int) == value@.subrange(
                        end + 1,
                        n as int,
                    ));
                    assert(split_on(rest, ',') == seq![piece@] + split_on(
                        value@.subrange(end + 1, n as int),
                        ',',
                    ));
                } else {
                    assert(rest == piece@);
                    assert(split_on(rest, ',') == seq![piece@]);
                }
            }
            match RateConfig::try_from(piece) {
                Err(e) => {
                    proof {
                        let ps = done.push(piece@);
                        assert(ps.drop_last() == done);
                        assert(configs_outcome(ps) is Err);
                        let tail = if end < n {
                            split_on(value@.subrange(end + 1, n as int), ',')
                        } else {
                            Seq::empty()
                        };
                        assert(split_on(value@, ',') == ps + tail);
                        lemma_outcome_error_stays(ps, tail);
                    }
                    return Err(e);
                },
                Ok(rc) => {
                    proof {
                        let ps = done.push(piece@);
                        assert(ps.drop_last() == done);
                    }
                    put_rate(&mut acc, rc);
                    proof {
                        done = done.push(piece@);
                    }
                },
            }
            if end == n {
                proof {
                    assert(split_on(value@, ',') == done);
                }
                return Ok(Config { configs: acc, ttl_seconds: HARDCODED_TTL });
            }
            start = end + 1;
            proof {
                assert(done.drop_last() + seq![done.last()] == done);
            }
        }
    }

    /// The rule named `name`, if any.
    pub fn get(&self, name: &str) -> (r: Option<&RateConfig>)
        requires
            self.wf(),
        ensures
            match r {
                None => !self.rules().contains_key(name@),
                Some(c) => self.rules().contains_key(name@) && self.rules()[name@] == rate_view(*c),
            },
    {
        let owned = name.to_owned();
        proof {
            lemma_rates_facts(self.rate_seq());
        }
        let mut i: usize = 0;
        while i < self.configs.len()
            invariant
                owned@ == name@,
                self.wf(),
                i <= self.rate_seq().len(),
                forall|j: int| 0 <= j < i ==> self.rate_seq()[j].name@ != name@,
            decreases self.rate_seq().len() - i,
        {
            if self.configs[i].name.eq(&owned) {
                proof {
                    lemma_rates_facts(self.rate_seq());
                    assert(self.rate_seq()[i as int].name@ == name@);
                }
                return Some(&self.configs[i]);
            }
            i = i + 1;
        }
        proof {
            lemma_rates_facts(self.rate_seq());
        }
        None
    }

    /// All rules, in no particular order.
    pub fn rates(&self) -> (r: &Vec<RateConfig>)
        ensures
            r@ == self.rate_seq(),
    {
        &self.configs
    }

    /// The rules, given up by the configuration.
    pub fn into_rates(self) -> (r: Vec<RateConfig>)
        ensures
            r@ == self.rate_seq(),
    {
        self.configs
    }

    /// Retention, in seconds, for every collection.
    pub fn ttl_seconds(&self) -> (r: u64)
        ensures
            r == self.ttl_spec(),
    {
        self.ttl_seconds
    }

    /// Number of rules.
    pub fn len(&self) -> (r: usize)
        ensures
            r == self.rate_seq().len(),
    {
        self.configs.len()
    }
}

} // verus!
