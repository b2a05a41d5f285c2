use std::sync::Arc;
use vstd::prelude::*;
use vstd::string::StringExecFns;
use crate::config::{unique_names, Config, RateConfig};
use crate::local::{Local, DEFAULT_PARTITIONS, DEFAULT_SWEEP};

verus! {

/// Status of a request the client got wrong.
pub const BAD_REQUEST: u16 = 400;

/// Status of a failure inside the service.
pub const INTERNAL_SERVER_ERROR: u16 = 500;

/// The answer to a rate query.
#[derive(Debug, Clone, Copy, PartialEq, Eq)]
pub struct Response {
    pub allowed: bool,
}

/// A failed rate query: what went wrong and the HTTP status it maps to.
#[derive(Debug, PartialEq, Eq)]
pub struct HTTPError {
    pub msg: String,
    pub code: u16,
}

/// A key is allowed while its total does not exceed the collection's limit.
pub fn respond(total: u64, count_limit: u64) -> (r: Response)
    ensures
        r.allowed == (total <= count_limit),
{
    Response { allowed: total <= count_limit }
}

/// One counter per collection, beside the collection's rule.
pub struct Handler {
    rates: Vec<RateConfig>,
    caches: Vec<Arc<Local>>,
}

impl Handler {
    #[verifier::type_invariant]
    spec fn inv(&self) -> bool {
        &&& self.rates@.len() == self.caches@.len()
        &&& unique_names(self.rates@)
    }

    pub closed spec fn rate_seq(&self) -> Seq<RateConfig> {
        self.rates@
    }

    pub closed spec fn cache_seq(&self) -> Seq<Arc<Local>> {
        self.caches@
    }

    /// A counter for each collection of `linker`, with the configured
    /// retention and the collection's window in whole seconds, and the
    /// default partition count and sweep period.
    pub fn new(linker: Config) -> (r: Handler)
        requires
            linker.wf(),
        ensures
            r.rate_seq() == linker.rate_seq(),
            r.cache_seq().len() == r.rate_seq().len(),
            forall|i: int|
                #![trigger r.cache_seq()[i]]
                0 <= i < r.cache_seq().len() ==> {
                    let c = *r.cache_seq()[i];
                    &&& c.spec_partition_count() == DEFAULT_PARTITIONS
                    &&& c.spec_ttl() == linker.ttl_spec()
                    &&& c.spec_window() == r.rate_seq()[i].window_secs
                    &&& c.spec_sweep() == DEFAULT_SWEEP
                },
    {
        let ttl = linker.ttl_seconds();
        let rates = linker.into_rates();
        let mut caches: Vec<Arc<Local>> = Vec::new();
        let mut i: usize = 0;
        while i < rates.len()
            invariant
                i <= rates@.len(),
                caches@.len() == i,
                forall|j: int|
                    #![trigger caches@[j]]
                    0 <= j < i ==> {
                        let c = *caches@[j];
                        &&& c.spec_partition_count() == DEFAULT_PARTITIONS
                        &&& c.spec_ttl() == ttl
                        &&& c.spec_window() == rates@[j].window_secs
                        &&& c.spec_sweep() == DEFAULT_SWEEP
                    },
            decreases rates@.len() - i,
        {
            let local = Local::new(DEFAULT_PARTITIONS, ttl, rates[i].window_secs, DEFAULT_SWEEP);
            caches.push(Arc::new(local));
            i = i + 1;
        }
        Handler { rates, caches }
    }

    /// Index of the collection named `name`.
    fn find(&self, name: &str) -> (r: Option<usize>)
        ensures
            match r {
                None => forall|j: int|
                    0 <= j < self.rate_seq().len() ==> #[trigger] self.rate_seq()[j].name@ != name@,
                Some(i) => i < self.rate_seq().len() && i < self.cache_seq().len()
                    && self.rate_seq()[i as int].name@ == name@,
            },
    {
        proof {
            use_type_invariant(self);
        }
        let owned = name.to_owned();
        let mut i: usize = 0;
        while i < self.rates.len()
            invariant
                owned@ == name@,
                self.rates@.len() == self.caches@.len(),
                i <= self.rates@.len(),
                forall|j: int| 0 <= j < i ==> #[trigger] self.rates@[j].name@ != name@,
            decreases self.rates@.len() - i,
        {
            if self.rates[i].name.eq(&owned) {
                return Some(i);
            }
            i = i + 1;
        }
        None
    }

    /// The counter of the collection named `name`.
    pub fn cache(&self, name: &str) -> (r: Option<&Arc<Local>>)
        ensures
            match r {
                None => forall|j: int|
                    0 <= j < self.rate_seq().len() ==> #[trigger] self.rate_seq()[j].name@ != name@,
                Some(c) => exists|i: int|
                    0 <= i < self.cache_seq().len() && self.rate_seq()[i].name@ == name@ && *c
                        == self.cache_seq()[i],
            },
    {
        match self.find(name) {
            None => None,
            Some(i) => Some(&self.caches[i]),
        }
    }

    /// All counters, one per collection.
    pub fn caches(&self) -> (r: &Vec<Arc<Local>>)
        ensures
            r@ == self.cache_seq(),
    {
        &self.caches
    }

    /// Counts one request for `key` in `collection` and answers whether the
    /// key is still within the collection's limit.
    ///
    /// A missing collection or key, or a collection with no rule, is refused
    /// with `BAD_REQUEST`. Otherwise the answer is `respond(total, limit)`
    /// for the total the counter reports after the request, which is at
    /// least 1.
    pub fn handle(&self, collection: Option<&str>, key: Option<&str>) -> (r: Result<
        Response,
        HTTPError,
    >)
        ensures
            collection is None ==> r is Err && r->Err_0.code == BAD_REQUEST && r->Err_0.msg@
                == "missing collection parameter"@,
            collection is Some && key is None ==> r is Err && r->Err_0.code == BAD_REQUEST
                && r->Err_0.msg@ == "missing key parameter"@,
            collection is Some && key is Some && (forall|j: int|
                0 <= j < self.rate_seq().len() ==> #[trigger] self.rate_seq()[j].name@
                    != collection->Some_0@) ==> r is Err && r->Err_0.code == BAD_REQUEST
                && r->Err_0.msg@ == "cannot find cache for collection parameter "@
                + collection->Some_0@,
            collection is Some && key is Some && (exists|j: int|
                0 <= j < self.rate_seq().len() && #[trigger] self.rate_seq()[j].name@
                    == collection->Some_0@) ==> r is Ok,
            r is Ok ==> exists|j: int|
                0 <= j < self.rate_seq().len() && #[trigger] self.rate_seq()[j].name@
                    == collection->Some_0@ && (r->Ok_0.allowed ==> self.rate_seq()[j].count
                    >= 1),
    {
        let coll = match collection {
            None => {
                return Err(
                    HTTPError { msg: "missing collection parameter".to_owned(), code: BAD_REQUEST },
                );
            },
            Some(c) => c,
        };
        let key = match key {
            None => {
                return Err(
                    HTTPError { msg: "missing key parameter".to_owned(), code: BAD_REQUEST },
                );
            },
            Some(k) => k,
        };
        let i = match self.find(coll) {
            None => {
                let mut msg = "cannot find cache for collection parameter ".to_owned();
                msg.append(coll);
                return Err(HTTPError { msg, code: BAD_REQUEST });
            },
            Some(i) => i,
        };
        let val = match self.caches[i].get_or_create(key, true) {
            Ok(v) => v,
            Err(_) => {
                return Err(
                    HTTPError {
                        msg: "failed to get_or_create val".to_owned(),
                        code: INTERNAL_SERVER_ERROR,
                    },
                );
            },
        };
        Ok(respond(val, self.rates[i].count))
    }
}

} // verus!
