use vstd::prelude::*;

use rayon::iter::{IntoParallelRefIterator, ParallelIterator};

use crate::errors::Errors;
use crate::text::string_views;

verus! {

/// The classified result of one network request within a batch. Exactly
/// one is produced per requested URL.
pub enum FetchOutcome {
    /// The request completed without a "not found" answer; the payload.
    Success(Vec<u8>),
    /// The request exceeded the timeout policy.
    Timeout,
    /// The request answered with "not found".
    NotFound,
    /// Any other transport-level failure, with its cause.
    TransportError(String),
}

/// The timeout applied to each request of a batch: a finite number of
/// seconds for documents, or none for large downloads.
pub enum TimeoutPolicy {
    Bounded(u64),
    Unbounded,
}

/// The capability that performs one blocking network GET. A production
/// adapter speaks HTTP; a test adapter answers from fixtures keyed by URL.
/// Nothing is assumed of the outcome: every caller must cope with each
/// variant.
pub trait Fetcher: Sync {
    fn fetch(&self, url: &String, policy: &TimeoutPolicy) -> FetchOutcome;
}

/// A fixture-backed adapter: answers with the stored body for a known URL
/// and with `NotFound` otherwise.
pub struct FixtureFetcher {
    pub entries: Vec<(String, Vec<u8>)>,
}

impl FixtureFetcher {
    pub fn new() -> (r: Self)
        ensures
            r.entries@.len() == 0,
    {
        Self { entries: Vec::new() }
    }

    pub fn add_fixture(&mut self, url: String, body: Vec<u8>)
        ensures
            final(self).entries@ == old(self).entries@.push((url, body)),
    {
        self.entries.push((url, body));
    }
}

impl Fetcher for FixtureFetcher {
    fn fetch(&self, url: &String, _policy: &TimeoutPolicy) -> FetchOutcome {
        let mut i: usize = 0;
        while i < self.entries.len()
            decreases self.entries@.len() - i,
        {
            if self.entries[i].0 == *url {
                return FetchOutcome::Success(self.entries[i].1.clone());
            }
            i += 1;
        }
        FetchOutcome::NotFound
    }
}

/// No two requested URLs of a batch read the same.
pub open spec fn distinct_urls(urls: Seq<Seq<char>>) -> bool {
    forall|i: int, j: int| 0 <= i < j < urls.len() ==> urls[i] != urls[j]
}

/// Relies on rayon's ThreadPoolBuilder::build, ThreadPool::install,
/// par_iter, map and collect: the pool bounds how many fetches run at
/// once, and collecting a parallel map into a Vec keeps one result per
/// input, in input order. When no pool can be built the batch runs on the
/// calling thread instead.
#[verifier::external_body]
fn fetch_all_raw<F: Fetcher>(
    fetcher: &F,
    urls: &Vec<String>,
    policy: &TimeoutPolicy,
    workers: usize,
) -> (r: Vec<(String, FetchOutcome)>)
    ensures
        r@.len() == urls@.len(),
        forall|i: int| 0 <= i < r@.len() ==> (#[trigger] r@[i].0)@ == urls@[i]@,
{
    let task = || -> Vec<(String, FetchOutcome)> {
        urls.par_iter().map(|u| (u.clone(), fetcher.fetch(u, policy))).collect()
    };
    match rayon::ThreadPoolBuilder::new().num_threads(workers).build() {
        Ok(pool) => pool.install(task),
        Err(_) => urls.iter().map(|u| (u.clone(), fetcher.fetch(u, policy))).collect(),
    }
}

/// Dispatches a batch of distinct URLs across a bounded worker pool and
/// collects exactly one outcome per URL.
pub struct Orchestrator<'a, F: Fetcher> {
    pub fetcher: &'a F,
    pub workers: usize,
}

impl<'a, F: Fetcher> Orchestrator<'a, F> {
    pub fn new(fetcher: &'a F, workers: usize) -> (r: Self)
        ensures
            r.workers == workers,
    {
        Self { fetcher, workers }
    }

    /// One fetch per URL, each bounded by `policy`; a URL's failure never
    /// aborts the rest. The result pairs each requested URL, in request
    /// order, with its one outcome; callers look outcomes up by URL,
    /// which the distinctness of the batch makes unambiguous.
    pub fn fetch_batch(&self, urls: &Vec<String>, policy: &TimeoutPolicy) -> (r: Vec<
        (String, FetchOutcome),
    >)
        requires
            distinct_urls(string_views(urls@)),
        ensures
            r@.len() == urls@.len(),
            forall|i: int| 0 <= i < r@.len() ==> (#[trigger] r@[i].0)@ == urls@[i]@,
    {
        fetch_all_raw(self.fetcher, urls, policy, self.workers)
    }
}

/// Classifies a request that completed with an HTTP status: a "not
/// found" status becomes `NotFound`; any other status, whatever its
/// class, hands its payload through as a success.
pub fn classify_completed(status: u16, body: Vec<u8>) -> (r: FetchOutcome)
    ensures
        status == 404 ==> r == FetchOutcome::NotFound,
        status != 404 ==> (r matches FetchOutcome::Success(b) && b@ == body@),
{
    if status == 404 {
        FetchOutcome::NotFound
    } else {
        FetchOutcome::Success(body)
    }
}

/// Classifies a request that failed before completing: a timeout when the
/// policy was exceeded, else a transport error carrying the cause.
pub fn classify_failed(timed_out: bool, cause: String) -> (r: FetchOutcome)
    ensures
        timed_out ==> r == FetchOutcome::Timeout,
        !timed_out ==> (r matches FetchOutcome::TransportError(c) && c@ == cause@),
{
    if timed_out {
        FetchOutcome::Timeout
    } else {
        FetchOutcome::TransportError(cause)
    }
}

/// The flow-level error a failed outcome surfaces for a URL, when a flow
/// chooses to report rather than drop it; a success surfaces none.
pub fn outcome_error(outcome: &FetchOutcome, url: &String) -> (r: Option<Errors>)
    ensures
        match outcome {
            FetchOutcome::Success(_) => r is None,
            FetchOutcome::Timeout => r matches Some(e) && e matches Errors::Timeout(u) && u@
                == url@,
            FetchOutcome::NotFound => r matches Some(e) && e matches Errors::NotFound(u) && u@
                == url@,
            FetchOutcome::TransportError(c) => r matches Some(e) && e matches Errors::Network(m)
                && m@ == c@,
        },
{
    match outcome {
        FetchOutcome::Success(_) => None,
        FetchOutcome::Timeout => Some(Errors::Timeout(url.clone())),
        FetchOutcome::NotFound => Some(Errors::NotFound(url.clone())),
        FetchOutcome::TransportError(c) => Some(Errors::Network(c.clone())),
    }
}

} // verus!
