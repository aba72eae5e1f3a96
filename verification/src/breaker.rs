//! A circuit breaker guarding the quote source of one symbol: after three
//! failures in a row it stays open, and requests are skipped, until five
//! minutes have passed since the last failure.

use std::time::{Duration, Instant};
use vstd::prelude::*;

verus! {

#[verifier::external_type_specification]
#[verifier::external_body]
pub struct ExInstant(Instant);

/// Failures in a row that open the breaker.
pub const FAILURE_THRESHOLD: u32 = 3;

/// How long an open breaker stays open after its last failure, in
/// nanoseconds (five minutes).
pub const COOL_DOWN_NANOS: u128 = 300_000_000_000;

/// Calls `Instant::now`. Nothing is claimed of the instant: it is the clock's.
#[verifier::external_body]
fn instant_now() -> Instant {
    Instant::now()
}

/// Calls `Instant::elapsed`. Nothing is claimed of the duration: it is the
/// clock's.
#[verifier::external_body]
fn elapsed_since(since: &Instant) -> Duration {
    since.elapsed()
}

/// Calls `Duration::as_nanos`. Nothing is claimed of the count.
#[verifier::external_body]
fn whole_nanos(d: &Duration) -> u128 {
    d.as_nanos()
}

/// Failure count and time of the last failure of one quote source.
pub struct CircuitBreaker {
    pub failures: u32,
    pub last_failure: Option<Instant>,
}

impl CircuitBreaker {
    /// The breaker is open when `elapsed` nanoseconds have passed since the
    /// last failure.
    pub open spec fn open_at(self, elapsed: u128) -> bool {
        &&& self.failures >= FAILURE_THRESHOLD
        &&& (self.last_failure is None || elapsed <= COOL_DOWN_NANOS)
    }

    /// A closed breaker with no failures.
    pub fn new() -> (r: CircuitBreaker)
        ensures
            r.failures == 0,
            r.last_failure is None,
    {
        CircuitBreaker { failures: 0, last_failure: None }
    }

    /// Counts one more failure, which happened now.
    pub fn record_failure(&mut self)
        requires
            old(self).failures < u32::MAX,
        ensures
            final(self).failures == old(self).failures + 1,
            final(self).last_failure is Some,
    {
        let now = instant_now();
        self.record_failure_at(now);
    }

    /// Counts one more failure, which happened at `when`.
    pub fn record_failure_at(&mut self, when: Instant)
        requires
            old(self).failures < u32::MAX,
        ensures
            final(self).failures == old(self).failures + 1,
            final(self).last_failure == Some(when),
    {
        self.failures = self.failures + 1;
        self.last_failure = Some(when);
    }

    /// Whether requests are to be skipped now: three or more failures, the
    /// last of them no more than five minutes ago.
    pub fn is_open(&self) -> (r: bool)
        ensures
            self.failures < FAILURE_THRESHOLD ==> !r,
            self.failures >= FAILURE_THRESHOLD && self.last_failure is None ==> r,
            r ==> exists|elapsed: u128| self.open_at(elapsed),
            !r ==> exists|elapsed: u128| !self.open_at(elapsed),
    {
        let elapsed = match &self.last_failure {
            Some(last) => whole_nanos(&elapsed_since(last)),
            None => 0,
        };
        self.is_open_after(elapsed)
    }

    /// Whether requests are to be skipped when `elapsed` nanoseconds have
    /// passed since the last failure.
    pub fn is_open_after(&self, elapsed: u128) -> (r: bool)
        ensures
            r == self.open_at(elapsed),
    {
        if self.failures >= FAILURE_THRESHOLD {
            match &self.last_failure {
                Some(_) => elapsed <= COOL_DOWN_NANOS,
                None => true,
            }
        } else {
            false
        }
    }

    /// Forgets all failures: the breaker closes.
    pub fn reset(&mut self)
        ensures
            final(self).failures == 0,
            final(self).last_failure is None,
    {
        self.failures = 0;
        self.last_failure = None;
    }
}

/// A breaker that has seen fewer than three failures since it was made or
/// reset is closed, however recent the failures.
pub proof fn lemma_closed_below_threshold(b: CircuitBreaker, elapsed: u128)
    requires
        b.failures < FAILURE_THRESHOLD,
    ensures
        !b.open_at(elapsed),
{
}

/// Three failures in a row, counted from a new or reset breaker, open it:
/// it stays closed after the first two and, after the third, is open until
/// five minutes have passed.
pub proof fn lemma_third_failure_opens(
    b0: CircuitBreaker,
    b1: CircuitBreaker,
    b2: CircuitBreaker,
    b3: CircuitBreaker,
    elapsed: u128,
)
    requires
        b0.failures == 0,
        b1.failures == b0.failures + 1,
        b2.failures == b1.failures + 1,
        b3.failures == b2.failures + 1,
        b3.last_failure is Some,
    ensures
        !b0.open_at(elapsed),
        !b1.open_at(elapsed),
        !b2.open_at(elapsed),
        b3.open_at(elapsed) <==> elapsed <= COOL_DOWN_NANOS,
{
}

/// A reset breaker is closed.
pub proof fn lemma_reset_closes(b: CircuitBreaker, elapsed: u128)
    requires
        b.failures == 0,
    ensures
        !b.open_at(elapsed),
{
}


/// Five minutes after the last failure a breaker is closed again, however
/// many failures it has seen; within them, three or more failures keep it
/// open. Stated for the elapsed time handed to `is_open_after`, which
/// `is_open` reads from the clock.
pub proof fn lemma_cool_down_closes(b: CircuitBreaker, elapsed: u128)
    requires
        b.last_failure is Some,
    ensures
        elapsed > COOL_DOWN_NANOS ==> !b.open_at(elapsed),
        elapsed <= COOL_DOWN_NANOS && b.failures >= FAILURE_THRESHOLD ==> b.open_at(elapsed),
        elapsed > 300_000_000_000 ==> !b.open_at(elapsed),
{
}
} // verus!
