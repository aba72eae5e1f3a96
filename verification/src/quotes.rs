//! Decisions around fetching the quote of one symbol: skip it while its
//! breaker is open, reuse a cached quote younger than thirty seconds, fetch
//! it otherwise; and the tally of what was done.

use crate::breaker::CircuitBreaker;
use crate::text::{decimal_string, decimal_text};
use vstd::prelude::*;

verus! {

/// How long a cached quote is reused, in nanoseconds (thirty seconds).
pub const CACHE_TTL_NANOS: u128 = 30_000_000_000;

/// How often the quotes are refreshed on their own, in nanoseconds (one
/// minute).
pub const AUTO_REFRESH_NANOS: u128 = 60_000_000_000;

/// Whether the quotes are due for their periodic refresh, `elapsed`
/// nanoseconds after the last one.
pub fn refresh_due(elapsed: u128) -> (r: bool)
    ensures
        r == (elapsed >= AUTO_REFRESH_NANOS),
{
    elapsed >= AUTO_REFRESH_NANOS
}

/// What to do for one symbol.
#[derive(Debug, Clone, Copy, PartialEq, Eq)]
pub enum QuoteStep {
    /// The breaker is open: do not ask the source; a cached quote, however
    /// old, is shown.
    SkipBreakerOpen,
    /// A cached quote is young enough: show it.
    UseCached,
    /// Ask the source.
    Fetch,
}

/// The step for a symbol whose breaker is `open` and whose cached quote, if
/// any, is `cached_age` nanoseconds old.
pub open spec fn quote_step(open: bool, cached_age: Option<u128>) -> QuoteStep {
    if open {
        QuoteStep::SkipBreakerOpen
    } else if cached_age matches Some(age) && age < CACHE_TTL_NANOS {
        QuoteStep::UseCached
    } else {
        QuoteStep::Fetch
    }
}

/// The step for a symbol given whether its breaker is open.
pub fn plan_quote_with(breaker_open: bool, cached_age: Option<u128>) -> (r: QuoteStep)
    ensures
        r == quote_step(breaker_open, cached_age),
{
    if breaker_open {
        QuoteStep::SkipBreakerOpen
    } else {
        match cached_age {
            Some(age) => if age < CACHE_TTL_NANOS {
                QuoteStep::UseCached
            } else {
                QuoteStep::Fetch
            },
            None => QuoteStep::Fetch,
        }
    }
}

/// The step for a symbol now, asking its breaker.
pub fn plan_quote(breaker: &CircuitBreaker, cached_age: Option<u128>) -> (r: QuoteStep)
    ensures
        breaker.failures < crate::breaker::FAILURE_THRESHOLD ==> r == quote_step(false, cached_age),
        breaker.failures >= crate::breaker::FAILURE_THRESHOLD && breaker.last_failure is None ==> r
            == QuoteStep::SkipBreakerOpen,
        r == QuoteStep::SkipBreakerOpen || r == quote_step(false, cached_age),
{
    let open = breaker.is_open();
    plan_quote_with(open, cached_age)
}

/// How many quotes were fetched, reused from the cache and skipped.
#[derive(Debug, Clone, Copy)]
pub struct FetchTally {
    pub fetched: u32,
    pub cached: u32,
    pub skipped: u32,
}

impl FetchTally {
    /// Nothing done yet.
    pub fn new() -> (r: FetchTally)
        ensures
            r.fetched == 0 && r.cached == 0 && r.skipped == 0,
    {
        FetchTally { fetched: 0, cached: 0, skipped: 0 }
    }

    /// Counts a step taken without asking the source.
    pub fn count_step(&mut self, step: QuoteStep)
        requires
            old(self).cached < u32::MAX,
            old(self).skipped < u32::MAX,
        ensures
            final(self).fetched == old(self).fetched,
            final(self).cached == old(self).cached + if step == QuoteStep::UseCached { 1int } else { 0int },
            final(self).skipped == old(self).skipped + if step == QuoteStep::SkipBreakerOpen { 1int } else { 0int },
    {
        match step {
            QuoteStep::SkipBreakerOpen => self.skipped = self.skipped + 1,
            QuoteStep::UseCached => self.cached = self.cached + 1,
            QuoteStep::Fetch => {},
        }
    }

    /// A fetch succeeded: it is counted and the breaker closes.
    pub fn fetch_succeeded(&mut self, breaker: &mut CircuitBreaker)
        requires
            old(self).fetched < u32::MAX,
        ensures
            final(self).fetched == old(self).fetched + 1,
            final(self).cached == old(self).cached,
            final(self).skipped == old(self).skipped,
            final(breaker).failures == 0,
            final(breaker).last_failure is None,
    {
        self.fetched = self.fetched + 1;
        breaker.reset();
    }

    /// The status line: ` v0.7 | Fetched: f | Cached: c | Skipped: s`.
    pub fn status_line(&self) -> (r: String)
        ensures
            r@ == " v0.7 | Fetched: "@ + decimal_text(self.fetched as nat) + " | Cached: "@ + decimal_text(
                self.cached as nat,
            ) + " | Skipped: "@ + decimal_text(self.skipped as nat),
    {
        let fetched = decimal_string(self.fetched as u64);
        let cached = decimal_string(self.cached as u64);
        let skipped = decimal_string(self.skipped as u64);
        let head = " v0.7 | Fetched: ".to_owned();
        head.concat(fetched.as_str()).concat(" | Cached: ").concat(cached.as_str()).concat(" | Skipped: ").concat(
            skipped.as_str(),
        )
    }
}

/// How a fetch from the quote source went.
#[derive(Debug, Clone, Copy, PartialEq, Eq)]
pub enum FetchOutcome {
    /// A quote came back.
    Succeeded,
    /// The source was asked and gave no quote.
    Failed,
    /// The source could not be reached at all; nothing was asked.
    Unavailable,
}

/// Where the quote shown for a symbol comes from.
#[derive(Debug, Clone, Copy, PartialEq, Eq)]
pub enum QuoteSource {
    /// The quote just fetched, which is also cached.
    Fresh,
    /// The cached quote.
    Cache,
    /// No quote is shown.
    NoQuote,
}

/// Where the quote shown comes from after a step and its outcome (the
/// outcome counts only for a fetch), given whether a cached quote exists.
pub open spec fn quote_source(step: QuoteStep, outcome: FetchOutcome, has_cached: bool) -> QuoteSource {
    match step {
        QuoteStep::Fetch => match outcome {
            FetchOutcome::Succeeded => QuoteSource::Fresh,
            FetchOutcome::Failed => if has_cached {
                QuoteSource::Cache
            } else {
                QuoteSource::NoQuote
            },
            FetchOutcome::Unavailable => QuoteSource::NoQuote,
        },
        _ => if has_cached {
            QuoteSource::Cache
        } else {
            QuoteSource::NoQuote
        },
    }
}

/// Settles one symbol after its step: a successful fetch is counted and
/// closes the breaker, a failed one counts as a breaker failure, a step
/// that asks no source is counted as cached or skipped, and where the
/// source could not be reached nothing changes. Says where the quote shown
/// comes from.
pub fn settle_quote(
    tally: &mut FetchTally,
    breaker: &mut CircuitBreaker,
    step: QuoteStep,
    outcome: FetchOutcome,
    has_cached: bool,
) -> (r: QuoteSource)
    requires
        step == QuoteStep::Fetch && outcome == FetchOutcome::Succeeded ==> old(tally).fetched < u32::MAX,
        step == QuoteStep::Fetch && outcome == FetchOutcome::Failed ==> old(breaker).failures < u32::MAX,
        step != QuoteStep::Fetch ==> old(tally).cached < u32::MAX && old(tally).skipped < u32::MAX,
    ensures
        r == quote_source(step, outcome, has_cached),
        step == QuoteStep::Fetch && outcome == FetchOutcome::Succeeded ==> final(tally).fetched == old(tally).fetched
            + 1 && final(tally).cached == old(tally).cached && final(tally).skipped == old(tally).skipped
            && final(breaker).failures == 0 && final(breaker).last_failure is None,
        step == QuoteStep::Fetch && outcome == FetchOutcome::Failed ==> *final(tally) == *old(tally)
            && final(breaker).failures == old(breaker).failures + 1 && final(breaker).last_failure is Some,
        step == QuoteStep::Fetch && outcome == FetchOutcome::Unavailable ==> *final(tally) == *old(tally)
            && *final(breaker) == *old(breaker),
        step == QuoteStep::UseCached ==> final(tally).cached == old(tally).cached + 1 && final(tally).fetched
            == old(tally).fetched && final(tally).skipped == old(tally).skipped && *final(breaker) == *old(breaker),
        step == QuoteStep::SkipBreakerOpen ==> final(tally).skipped == old(tally).skipped + 1 && final(tally).fetched
            == old(tally).fetched && final(tally).cached == old(tally).cached && *final(breaker) == *old(breaker),
{
    match step {
        QuoteStep::Fetch => match outcome {
            FetchOutcome::Succeeded => {
                tally.fetch_succeeded(breaker);
                QuoteSource::Fresh
            },
            FetchOutcome::Failed => {
                breaker.record_failure();
                if has_cached {
                    QuoteSource::Cache
                } else {
                    QuoteSource::NoQuote
                }
            },
            FetchOutcome::Unavailable => QuoteSource::NoQuote,
        },
        _ => {
            tally.count_step(step);
            if has_cached {
                QuoteSource::Cache
            } else {
                QuoteSource::NoQuote
            }
        },
    }
}

/// A symbol is fetched only while its breaker is closed and no cached quote
/// younger than thirty seconds exists; an open breaker always skips it.
pub proof fn lemma_fetch_only_when_needed(open: bool, cached_age: Option<u128>)
    ensures
        quote_step(open, cached_age) == QuoteStep::Fetch ==> !open && (cached_age is None || cached_age->Some_0
            >= CACHE_TTL_NANOS),
        open ==> quote_step(open, cached_age) == QuoteStep::SkipBreakerOpen,
        !open && cached_age is Some && cached_age->Some_0 < CACHE_TTL_NANOS ==> quote_step(open, cached_age)
            == QuoteStep::UseCached,
{
}

/// Once five minutes have passed since a breaker's last failure, the symbol
/// is planned as if the breaker had never opened: fetched unless a cached
/// quote younger than thirty seconds exists.
pub proof fn lemma_cooled_breaker_fetches_again(b: CircuitBreaker, elapsed: u128, cached_age: Option<u128>)
    requires
        b.last_failure is Some,
        elapsed > crate::breaker::COOL_DOWN_NANOS,
    ensures
        quote_step(b.open_at(elapsed), cached_age) == quote_step(false, cached_age),
        cached_age is None ==> quote_step(b.open_at(elapsed), cached_age) == QuoteStep::Fetch,
        quote_step(b.open_at(elapsed), cached_age) != QuoteStep::SkipBreakerOpen,
{
}
} // verus!
