//! The decisions of the request driver: the shared countdown of requests,
//! the number of client tasks, and the sampling of each request; and the
//! server's replier.

use crate::distribution::{value_at, Distribution, PERCENTILE_MAX};
use crate::latency::Latency;
use crate::message::{Reply, Spec};
use rand::RngCore;
use std::sync::atomic::{AtomicUsize, Ordering};
use vstd::prelude::*;

verus! {

/// What advancing a count of `c` gives: the next count, unless the bound
/// is reached (or the count is at its largest value).
pub open spec fn countdown_next(c: usize, limit: Option<usize>) -> Option<usize> {
    if limit is Some && c >= limit->Some_0 {
        None
    } else if c == usize::MAX {
        None
    } else {
        Some((c + 1) as usize)
    }
}

/// One advance of a count: the next count, or `None` once the bound is
/// reached.
pub fn countdown_step(c: usize, limit: Option<usize>) -> (r: Option<usize>)
    ensures
        r == countdown_next(c, limit),
{
    match limit {
        Some(l) => {
            if c >= l {
                return None;
            }
        },
        None => {},
    }
    if c == usize::MAX {
        None
    } else {
        Some(c + 1)
    }
}

/// Relies on `AtomicUsize::fetch_update`: it applies `countdown_step` to
/// the count atomically and returns the count it replaced, or fails where
/// the step declined.
#[verifier::external_body]
fn fetch_advance(count: &AtomicUsize, limit: Option<usize>) -> (r: Option<usize>)
    ensures
        r is Some ==> countdown_next(r->Some_0, limit) is Some,
{
    count.fetch_update(Ordering::SeqCst, Ordering::SeqCst, |c| countdown_step(c, limit)).ok()
}

/// A count of requests shared by all client tasks, with an optional bound:
/// each task reserves its own sequence number atomically.
pub struct Countdown {
    limit: Option<usize>,
    count: AtomicUsize,
}

impl Countdown {
    pub closed spec fn spec_limit(self) -> Option<usize> {
        self.limit
    }

    /// A countdown from zero; a bound of zero means no bound.
    pub fn new(limit: Option<usize>) -> (r: Countdown)
        ensures
            r.spec_limit() == (if limit == Some(0usize) {
                None
            } else {
                limit
            }),
    {
        let limit = match limit {
            Some(0) => None,
            l => l,
        };
        Countdown { limit, count: AtomicUsize::new(0) }
    }

    /// Reserves the next sequence number; `None` once the bound is reached.
    pub fn advance(&self) -> (r: Option<usize>)
        ensures
            r is Some ==> countdown_next(r->Some_0, self.spec_limit()) is Some,
            r is Some && self.spec_limit() is Some ==> r->Some_0 < self.spec_limit()->Some_0,
    {
        fetch_advance(&self.count, self.limit)
    }
}

/// The count after `k` advances from zero, one after another.
pub open spec fn count_after(limit: Option<usize>, k: nat) -> usize
    decreases k,
{
    if k == 0 {
        0
    } else {
        let c = count_after(limit, (k - 1) as nat);
        match countdown_next(c, limit) {
            Some(n) => n,
            None => c,
        }
    }
}

/// What the advance after `k` others returns.
pub open spec fn advance_result(limit: Option<usize>, k: nat) -> Option<usize> {
    let c = count_after(limit, k);
    if countdown_next(c, limit) is Some {
        Some(c)
    } else {
        None
    }
}

/// Advances that each take effect atomically, one after another (as
/// `fetch_update` makes them, across threads), return exactly
/// `0, 1, ..., limit - 1`, each once, and then nothing more.
pub proof fn lemma_countdown_partitions(limit: usize, k: nat)
    requires
        limit > 0,
    ensures
        count_after(Some(limit), k) == (if k < limit {
            k
        } else {
            limit as nat
        }),
        advance_result(Some(limit), k) == (if k < limit {
            Some(k as usize)
        } else {
            None
        }),
    decreases k,
{
    if k > 0 {
        lemma_countdown_partitions(limit, (k - 1) as nat);
    }
}

/// The number of client tasks: as configured, or one per worker thread
/// when that is absent or zero.
pub fn effective_clients(clients: Option<usize>, threads: usize) -> (r: usize)
    ensures
        r == (match clients {
            Some(c) if c > 0 => c,
            _ => threads,
        }),
{
    match clients {
        Some(c) if c > 0 => c,
        _ => threads,
    }
}

/// Drives requests: a number of client tasks share a countdown of requests
/// and sample each request from two distributions.
pub struct Runner {
    clients: usize,
    counter: Countdown,
    response_latencies: Distribution,
    response_sizes: Distribution,
}

impl Runner {
    pub closed spec fn spec_clients(self) -> usize {
        self.clients
    }

    pub closed spec fn spec_limit(self) -> Option<usize> {
        self.counter.spec_limit()
    }

    pub closed spec fn spec_latencies(self) -> Seq<(u32, u64)> {
        self.response_latencies@
    }

    pub closed spec fn spec_sizes(self) -> Seq<(u32, u64)> {
        self.response_sizes@
    }

    pub fn new(
        clients: usize,
        total_requests: Option<usize>,
        response_latencies: Distribution,
        response_sizes: Distribution,
    ) -> (r: Runner)
        ensures
            r.spec_clients() == clients,
            r.spec_limit() == (if total_requests == Some(0usize) {
                None
            } else {
                total_requests
            }),
            r.spec_latencies() == response_latencies@,
            r.spec_sizes() == response_sizes@,
    {
        Runner { clients, counter: Countdown::new(total_requests), response_latencies, response_sizes }
    }

    pub fn clients(&self) -> (r: usize)
        ensures
            r == self.spec_clients(),
    {
        self.clients
    }

    /// Reserves the next request; `None` once the total is reached.
    pub fn next_request(&self) -> (r: Option<usize>)
        ensures
            r is Some && self.spec_limit() is Some ==> r->Some_0 < self.spec_limit()->Some_0,
    {
        self.counter.advance()
    }

    /// Samples a request: its latency and its size, each from its
    /// distribution at a uniformly drawn percentile.
    pub fn sample_spec(&self) -> (r: Spec)
        ensures
            exists|p: int| 0 <= p <= PERCENTILE_MAX && r.latency.millis == value_at(self.spec_latencies(), p),
            exists|p: int|
                0 <= p <= PERCENTILE_MAX && r.response_size == value_at(self.spec_sizes(), p) as usize,
            self.spec_latencies()[0].1 <= r.latency.millis <= self.spec_latencies().last().1,
    {
        let millis = self.response_latencies.sample();
        let size = self.response_sizes.sample();
        proof {
            let p = choose|p: int| 0 <= p <= PERCENTILE_MAX && millis == value_at(self.response_latencies@, p);
            assert(millis == value_at(self.spec_latencies(), p));
            let q = choose|q: int| 0 <= q <= PERCENTILE_MAX && size == value_at(self.response_sizes@, q);
            assert(size as usize == value_at(self.spec_sizes(), q) as usize);
        }
        Spec { latency: Latency { millis }, response_size: size as usize }
    }
}

// === Replier ===

/// The longer of two waits, in milliseconds.
pub open spec fn longer(a: u64, b: u64) -> u64 {
    if a >= b {
        a
    } else {
        b
    }
}

/// Relies on `rand::thread_rng` and `RngCore::fill_bytes`: `n` bytes, all
/// of them random.
#[verifier::external_body]
fn random_bytes(n: usize) -> (r: Vec<u8>)
    ensures
        r@.len() == n,
{
    let mut data = vec![0u8; n];
    rand::thread_rng().fill_bytes(&mut data);
    data
}

/// Serves requests: waits at least the requested latency, or one sampled
/// from its own distribution if that is longer, and replies with as many
/// random bytes as were asked for.
pub struct Replier {
    latencies: Distribution,
}

impl Replier {
    pub closed spec fn spec_latencies(self) -> Seq<(u32, u64)> {
        self.latencies@
    }

    pub fn new(latencies: Distribution) -> (r: Replier)
        ensures
            r.spec_latencies() == latencies@,
    {
        Replier { latencies }
    }

    /// How long to wait before replying, given a sampled latency: the
    /// longer of the requested latency and the sampled one.
    pub fn wait_for(spec: &Spec, sampled: u64) -> (r: Latency)
        ensures
            r.millis == longer(spec.latency.millis, sampled),
    {
        if sampled > spec.latency.millis {
            Latency { millis: sampled }
        } else {
            spec.latency
        }
    }

    /// How long to wait before replying: the longer of the requested
    /// latency and one sampled from the replier's distribution.
    pub fn reply_latency(&self, spec: &Spec) -> (r: Latency)
        ensures
            exists|p: int|
                0 <= p <= PERCENTILE_MAX && r.millis == longer(
                    spec.latency.millis,
                    value_at(self.spec_latencies(), p) as u64,
                ),
    {
        let sampled = self.latencies.sample();
        proof {
            let p = choose|p: int| 0 <= p <= PERCENTILE_MAX && sampled == value_at(self.latencies@, p);
            assert(sampled == value_at(self.spec_latencies(), p) as u64);
        }
        Replier::wait_for(spec, sampled)
    }

    /// The reply: `response_size` random bytes.
    pub fn reply(&self, spec: &Spec) -> (r: Reply)
        ensures
            r.data@.len() == spec.response_size,
    {
        Reply { data: random_bytes(spec.response_size) }
    }
}

} // verus!
