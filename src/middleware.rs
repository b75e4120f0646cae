//! The decisions of the client middleware: the backoff between reconnect
//! attempts, when a recycled client is rebuilt, and the layer that holds a
//! limiter's permit around each call.

use crate::distribution::random_up_to;
use crate::latency::Latency;
use vstd::arithmetic::div_mod::{lemma_fundamental_div_mod, lemma_fundamental_div_mod_converse};
use vstd::prelude::*;

verus! {

/// The longest wait between reconnect attempts unless configured otherwise:
/// one minute.
pub const DEFAULT_MAX_BACKOFF_MS: u64 = 60_000;

/// The wait before a reconnect attempt: the current backoff plus a jitter
/// of at most a tenth of it.
pub open spec fn jittered(current: u64, jitter: u64) -> u64 {
    if current + jitter <= u64::MAX {
        (current + jitter) as u64
    } else {
        u64::MAX
    }
}

/// The backoff after a failed attempt: doubled, up to the maximum.
pub open spec fn doubled(current: u64, max: u64) -> u64 {
    if 2 * current <= max {
        (2 * current) as u64
    } else {
        max
    }
}

/// Exponential backoff between reconnect attempts, capped and jittered.
#[derive(Copy, Clone, Debug, PartialEq, Eq, Structural)]
pub struct Backoff {
    pub initial: Latency,
    pub max: Latency,
    pub current: Latency,
}

impl Backoff {
    pub open spec fn wf(self) -> bool {
        self.current.millis <= self.max.millis
    }

    /// Starts at `initial`, capped at `max`.
    pub fn new(initial: Latency, max: Latency) -> (r: Backoff)
        ensures
            r.wf(),
            r.initial == initial,
            r.max == max,
            r.current.millis == (if initial.millis <= max.millis {
                initial.millis
            } else {
                max.millis
            }),
    {
        let current = if initial.millis <= max.millis {
            initial
        } else {
            max
        };
        Backoff { initial, max, current }
    }

    /// The wait for a given jitter, which must be at most a tenth of the
    /// current backoff.
    pub fn delay_with(&self, jitter: u64) -> (r: Latency)
        ensures
            r.millis == jittered(self.current.millis, jitter),
    {
        Latency { millis: self.current.millis.saturating_add(jitter) }
    }

    /// After a failed attempt: the wait before the next one, and the
    /// backoff doubles up to the maximum.
    pub fn next_delay(&mut self) -> (r: Latency)
        requires
            old(self).wf(),
        ensures
            final(self).wf(),
            final(self).initial == old(self).initial,
            final(self).max == old(self).max,
            old(self).current.millis <= r.millis,
            exists|j: u64| j <= old(self).current.millis / 10 && r.millis == jittered(old(self).current.millis, j),
            final(self).current.millis == doubled(old(self).current.millis, old(self).max.millis),
    {
        let jitter = random_up_to(self.current.millis / 10);
        let r = self.delay_with(jitter);
        let c = self.current.millis;
        let next = if c <= self.max.millis / 2 {
            2 * c
        } else {
            self.max.millis
        };
        self.current = Latency { millis: next };
        r
    }

    /// After a successful attempt: back to the initial backoff.
    pub fn reset(&mut self)
        requires
            old(self).wf(),
        ensures
            final(self).wf(),
            final(self).initial == old(self).initial,
            final(self).max == old(self).max,
            final(self).current.millis == (if old(self).initial.millis <= old(self).max.millis {
                old(self).initial.millis
            } else {
                old(self).max.millis
            }),
    {
        self.current = if self.initial.millis <= self.max.millis {
            self.initial
        } else {
            self.max
        };
    }
}

/// Successive backoffs double until the cap, and never exceed it.
pub proof fn lemma_backoff_doubles(current: u64, max: u64)
    requires
        current <= max,
    ensures
        doubled(current, max) <= max,
        2 * current <= max ==> doubled(current, max) == 2 * current,
        current <= doubled(current, max),
{
}

/// Rebuilds the client of a connection every `requests_per_client` calls.
#[derive(Clone, Debug)]
pub struct MakeRecycle<M> {
    pub inner: M,
    pub requests_per_client: Option<usize>,
}

impl<M> MakeRecycle<M> {
    pub fn new(inner: M, requests_per_client: Option<usize>) -> (r: MakeRecycle<M>)
        ensures
            r.inner == inner,
            r.requests_per_client == requests_per_client,
    {
        MakeRecycle { inner, requests_per_client }
    }

    /// Whether the call numbered `request` (counting from zero) rebuilds
    /// the client first: every `n`-th call (calls `n`, `2n`, ... counting
    /// from one); never without a positive `n`.
    pub fn should_recycle(&self, request: usize) -> (r: bool)
        ensures
            r == (self.requests_per_client matches Some(n) && n > 0 && (request + 1) % (n as int)
                == 0),
    {
        match self.requests_per_client {
            Some(n) => {
                if n == 0 {
                    return false;
                }
                proof {
                    let x = request as int;
                    let d = n as int;
                    lemma_fundamental_div_mod(x, d);
                    let q = x / d;
                    let m = x % d;
                    assert(x == q * d + m) by (nonlinear_arith)
                        requires
                            x == d * (x / d) + (x % d),
                            q == x / d,
                            m == x % d,
                    ;
                    if m == d - 1 {
                        assert(x + 1 == (q + 1) * d + 0) by (nonlinear_arith)
                            requires
                                x == q * d + m,
                                m == d - 1,
                        ;
                        lemma_fundamental_div_mod_converse(x + 1, d, q + 1, 0);
                    } else {
                        assert(x + 1 == q * d + (m + 1));
                        lemma_fundamental_div_mod_converse(x + 1, d, q, m + 1);
                    }
                }
                request % n == n - 1
            },
            None => false,
        }
    }
}

/// Holds a permit of a limiter for the length of each call.
#[derive(Clone, Debug)]
pub struct Limit<A, M> {
    pub acquire: A,
    pub inner: M,
}

impl<A, M> Limit<A, M> {
    pub fn new(acquire: A, inner: M) -> (r: Limit<A, M>)
        ensures
            r.acquire == acquire,
            r.inner == inner,
    {
        Limit { acquire, inner }
    }
}

} // verus!
