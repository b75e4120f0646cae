//! Budgets of the limiters: ramps that move a budget from a minimum to a
//! maximum over a period, the refill of a rate limit at the end of each
//! window, and the steps of a ramping concurrency limit.

use crate::latency::Latency;
use vstd::prelude::*;

verus! {

/// How a budget (permits per window, or permits in flight) moves from `min`
/// to `max` over `period`, then optionally starts over.
#[derive(Copy, Clone, Debug, PartialEq, Eq, Structural)]
pub struct Ramp {
    pub min: usize,
    pub max: usize,
    pub min_step: usize,
    pub period: Latency,
    pub reset: bool,
}

/// Why ramp settings were refused.
#[derive(Copy, Clone, Debug, PartialEq, Eq, Structural)]
pub enum InvalidRamp {
    /// The minimum exceeds the maximum.
    MinAboveMax,
    /// The minimum and maximum differ but there is no period to ramp over.
    PeriodRequired,
}

impl Ramp {
    /// A ramp is well formed when `min <= max`, `min_step >= 1`, and a
    /// budget that moves has a period.
    pub open spec fn wf(self) -> bool {
        &&& self.min <= self.max
        &&& self.min_step >= 1
        &&& self.min != self.max ==> self.period.millis > 0
    }

    /// Checks ramp settings; a step under one is taken as one.
    pub fn try_new(min: usize, max: usize, min_step: usize, period: Latency, reset: bool) -> (r:
        Result<Ramp, InvalidRamp>)
        ensures
            min > max ==> r == Err::<Ramp, _>(InvalidRamp::MinAboveMax),
            min <= max && period.millis == 0 && min != max ==> r == Err::<Ramp, _>(
                InvalidRamp::PeriodRequired,
            ),
            r is Ok <==> min <= max && (period.millis > 0 || min == max),
            r is Ok ==> r->Ok_0.wf() && r->Ok_0 == (Ramp {
                min,
                max,
                min_step: if min_step >= 1 {
                    min_step
                } else {
                    1
                },
                period,
                reset,
            }),
    {
        if min > max {
            return Err(InvalidRamp::MinAboveMax);
        }
        if period.millis == 0 && min != max {
            return Err(InvalidRamp::PeriodRequired);
        }
        let min_step = if min_step >= 1 {
            min_step
        } else {
            1
        };
        Ok(Ramp { min, max, min_step, period, reset })
    }

    /// A budget that does not move.
    pub fn fixed(value: usize) -> (r: Ramp)
        ensures
            r.wf(),
            r.min == value && r.max == value && r.min_step == 1 && r.period.millis == 0 && !r.reset,
    {
        Ramp { min: value, max: value, min_step: 1, period: Latency { millis: 0 }, reset: false }
    }

    pub open spec fn spec_init(self) -> usize {
        if self.period.millis == 0 {
            self.max
        } else {
            self.min
        }
    }

    /// The budget at the start: the maximum when there is no period to ramp
    /// over, else the minimum.
    pub fn init(&self) -> (r: usize)
        ensures
            r == self.spec_init(),
    {
        if self.period.millis == 0 {
            self.max
        } else {
            self.min
        }
    }
}

// === Rate limit ===

/// How much a rate budget grows per window: the spread of the ramp over the
/// number of whole windows in its period, rounded down; zero when either
/// is zero or the period is shorter than a window.
pub open spec fn spec_rate_step(ramp: Ramp, window: Latency) -> usize {
    let p = ramp.period.millis;
    let w = window.millis;
    if p == 0 || w == 0 || p / w == 0 {
        0
    } else {
        ((ramp.max - ramp.min) / ((p / w) as int)) as usize
    }
}

pub fn rate_step(ramp: Ramp, window: Latency) -> (r: usize)
    requires
        ramp.wf(),
    ensures
        r == spec_rate_step(ramp, window),
{
    let p = ramp.period.millis;
    let w = window.millis;
    if p == 0 || w == 0 {
        return 0;
    }
    let steps = p / w;
    if steps == 0 {
        return 0;
    }
    if steps > usize::MAX as u64 {
        proof {
            assert((ramp.max - ramp.min) / (steps as int) == 0) by (nonlinear_arith)
                requires
                    0 <= ramp.max - ramp.min <= usize::MAX,
                    steps > usize::MAX,
            ;
        }
        return 0;
    }
    (ramp.max - ramp.min) / (steps as usize)
}

/// What to do with a semaphore's permits after a window: add some, take
/// some away for good, or nothing.
#[derive(Copy, Clone, Debug, PartialEq, Eq, Structural)]
pub enum Refill {
    Add(usize),
    Forget(usize),
    Keep,
}

/// The budget of a rate limit: permits per window.
#[derive(Copy, Clone, Debug, PartialEq, Eq, Structural)]
pub struct RateBudget {
    pub ramp: Ramp,
    pub limit: usize,
    pub step: usize,
}

/// The budget after a window: it grows by the step up to the maximum; once
/// at the maximum it starts over from the initial budget if the ramp resets.
pub open spec fn next_limit(ramp: Ramp, limit: usize, step: usize) -> usize {
    if limit < ramp.max {
        if limit + step < ramp.max {
            (limit + step) as usize
        } else {
            ramp.max
        }
    } else if ramp.reset {
        ramp.spec_init()
    } else {
        limit
    }
}

impl RateBudget {
    pub open spec fn wf(self) -> bool {
        self.ramp.wf() && self.limit <= self.ramp.max
    }

    /// A budget at its initial value, with a window of `window`.
    pub fn new(ramp: Ramp, window: Latency) -> (r: RateBudget)
        requires
            ramp.wf(),
        ensures
            r.wf(),
            r.ramp == ramp,
            r.limit == ramp.spec_init(),
            r.step == spec_rate_step(ramp, window),
    {
        RateBudget { ramp, limit: ramp.init(), step: rate_step(ramp, window) }
    }

    /// At the end of a window, with `available` permits left: moves the
    /// budget and says how to bring the permits to exactly the new budget.
    pub fn refill(&mut self, available: usize) -> (r: Refill)
        requires
            old(self).wf(),
        ensures
            final(self).wf(),
            final(self).ramp == old(self).ramp,
            final(self).step == old(self).step,
            final(self).limit == next_limit(old(self).ramp, old(self).limit, old(self).step),
            match r {
                Refill::Add(n) => n > 0 && available + n == final(self).limit,
                Refill::Forget(n) => n > 0 && available - n == final(self).limit,
                Refill::Keep => available == final(self).limit,
            },
    {
        let ramp = self.ramp;
        if self.limit < ramp.max {
            if self.step < ramp.max - self.limit {
                self.limit = self.limit + self.step;
            } else {
                self.limit = ramp.max;
            }
        } else if ramp.reset {
            self.limit = ramp.init();
        }
        if available < self.limit {
            Refill::Add(self.limit - available)
        } else if available > self.limit {
            Refill::Forget(available - self.limit)
        } else {
            Refill::Keep
        }
    }
}

/// Whether a rate limit applies at all: a positive maximum and a window.
pub fn rate_limited(ramp: Ramp, window: Latency) -> (r: bool)
    ensures
        r == (ramp.max > 0 && window.millis > 0),
{
    ramp.max > 0 && window.millis > 0
}

/// After any refill, the permits available for the next window are the
/// budget, which never exceeds the ramp's maximum: no window starts with
/// more than the maximum rate.
pub proof fn lemma_refill_bounded(ramp: Ramp, limit: usize, step: usize)
    requires
        ramp.wf(),
        limit <= ramp.max,
    ensures
        next_limit(ramp, limit, step) <= ramp.max,
        ramp.min <= limit ==> ramp.min <= next_limit(ramp, limit, step),
{
}

/// The budget of a rate limit after `k` windows from its initial budget.
pub open spec fn limit_after(ramp: Ramp, step: usize, k: nat) -> usize
    decreases k,
{
    if k == 0 {
        ramp.spec_init()
    } else {
        next_limit(ramp, limit_after(ramp, step, (k - 1) as nat), step)
    }
}

/// Every window of a rate limit starts with exactly its budget of permits,
/// and no budget exceeds the ramp's maximum `R`: calls that consume permits
/// number at most `R` in any window, the first (the initial burst) included.
pub proof fn lemma_rate_per_window(ramp: Ramp, step: usize, k: nat)
    requires
        ramp.wf(),
    ensures
        ramp.min <= limit_after(ramp, step, k) <= ramp.max,
    decreases k,
{
    if k > 0 {
        lemma_rate_per_window(ramp, step, (k - 1) as nat);
    }
}

// === Concurrency ramp ===

/// What a ramping concurrency limit does at a tick of its timer.
#[derive(Copy, Clone, Debug, PartialEq, Eq, Structural)]
pub enum RampAction {
    /// Add permits.
    Add(usize),
    /// Take permits away for good, by acquiring and forgetting them.
    Forget(usize),
    /// The ramp is over.
    Stop,
}

/// A concurrency limit that ramps from `min` to `max` by `min_step` at each
/// tick, then starts over if the ramp resets.
#[derive(Copy, Clone, Debug, PartialEq, Eq, Structural)]
pub struct ConcurrencyRamp {
    pub ramp: Ramp,
    pub concurrency: usize,
}

/// The budget after a tick, and the action that takes the permits there.
pub open spec fn spec_ramp_step(ramp: Ramp, c: usize) -> (usize, RampAction) {
    if c < ramp.max {
        if ramp.min_step < ramp.max - c {
            ((c + ramp.min_step) as usize, RampAction::Add(ramp.min_step))
        } else {
            (ramp.max, RampAction::Add((ramp.max - c) as usize))
        }
    } else if ramp.reset && ramp.min < ramp.max {
        (ramp.min, RampAction::Forget((ramp.max - ramp.min) as usize))
    } else {
        (c, RampAction::Stop)
    }
}

/// The number of whole steps from `min` to `max`.
pub open spec fn ramp_updates(ramp: Ramp) -> int {
    (ramp.max - ramp.min) / (ramp.min_step as int)
}

impl ConcurrencyRamp {
    pub open spec fn wf(self) -> bool {
        self.ramp.wf() && self.ramp.min <= self.concurrency <= self.ramp.max
    }

    /// Whether the limit moves at all; a fixed limit needs no timer.
    pub fn is_ramping(ramp: &Ramp) -> (r: bool)
        ensures
            r == (ramp.spec_init() != ramp.max),
    {
        ramp.init() != ramp.max
    }

    /// Starts at the ramp's initial budget.
    pub fn new(ramp: Ramp) -> (r: ConcurrencyRamp)
        requires
            ramp.wf(),
        ensures
            r.wf(),
            r.ramp == ramp,
            r.concurrency == ramp.spec_init(),
    {
        ConcurrencyRamp { ramp, concurrency: ramp.init() }
    }

    /// The time between ticks: the period spread over the steps from `min`
    /// to `max`.
    pub fn interval(&self) -> (r: Latency)
        requires
            self.wf(),
        ensures
            ramp_updates(self.ramp) > 0 ==> r.millis == self.ramp.period.millis / (ramp_updates(
                self.ramp,
            ) as u64),
            ramp_updates(self.ramp) == 0 ==> r.millis == self.ramp.period.millis,
    {
        let updates = (self.ramp.max - self.ramp.min) / self.ramp.min_step;
        if updates == 0 {
            return Latency { millis: self.ramp.period.millis };
        }
        proof {
            assert(updates >= 1);
        }
        Latency { millis: self.ramp.period.millis / (updates as u64) }
    }

    /// One tick: add a step of permits until the maximum, then, if the ramp
    /// resets, take back everything above the minimum.
    pub fn tick(&mut self) -> (r: RampAction)
        requires
            old(self).wf(),
        ensures
            final(self).wf(),
            final(self).ramp == old(self).ramp,
            (final(self).concurrency, r) == spec_ramp_step(old(self).ramp, old(self).concurrency),
            match r {
                RampAction::Add(n) => final(self).concurrency == old(self).concurrency + n,
                RampAction::Forget(n) => final(self).concurrency == old(self).concurrency - n,
                RampAction::Stop => final(self).concurrency == old(self).concurrency,
            },
    {
        let ramp = self.ramp;
        let c = self.concurrency;
        if c < ramp.max {
            if ramp.min_step < ramp.max - c {
                self.concurrency = c + ramp.min_step;
                RampAction::Add(ramp.min_step)
            } else {
                self.concurrency = ramp.max;
                RampAction::Add(ramp.max - c)
            }
        } else if ramp.reset && ramp.min < ramp.max {
            self.concurrency = ramp.min;
            RampAction::Forget(ramp.max - ramp.min)
        } else {
            RampAction::Stop
        }
    }
}

/// The budget of a ramping concurrency limit after `k` ticks.
pub open spec fn concurrency_after(ramp: Ramp, k: nat) -> usize
    decreases k,
{
    if k == 0 {
        ramp.spec_init()
    } else {
        spec_ramp_step(ramp, concurrency_after(ramp, (k - 1) as nat)).0
    }
}

/// However many ticks pass, the permits of a concurrency limit stay within
/// `[min, max]`; a fixed limit of `N` stays at `N`, so no more than `N`
/// calls hold a permit at once.
pub proof fn lemma_concurrency_bounded(ramp: Ramp, k: nat)
    requires
        ramp.wf(),
    ensures
        ramp.min <= concurrency_after(ramp, k) <= ramp.max,
        ramp.min == ramp.max ==> concurrency_after(ramp, k) == ramp.max,
    decreases k,
{
    if k > 0 {
        lemma_concurrency_bounded(ramp, (k - 1) as nat);
        lemma_ramp_within_bounds(ramp, concurrency_after(ramp, (k - 1) as nat));
    }
}

/// The permits of a ramping concurrency limit always stay between its
/// minimum and maximum: a fixed limit of `N` never grants more than `N`.
pub proof fn lemma_ramp_within_bounds(ramp: Ramp, c: usize)
    requires
        ramp.wf(),
        ramp.min <= c <= ramp.max,
    ensures
        ramp.min <= spec_ramp_step(ramp, c).0 <= ramp.max,
        ramp.min == ramp.max ==> spec_ramp_step(ramp, c) == (c, RampAction::Stop),
{
}

} // verus!
