use invest_dash::breaker::CircuitBreaker;
use invest_dash::quotes::{settle_quote, FetchOutcome, QuoteSource, plan_quote, plan_quote_with, refresh_due, FetchTally, QuoteStep, AUTO_REFRESH_NANOS, CACHE_TTL_NANOS};

#[test]
fn open_breaker_skips() {
    assert_eq!(plan_quote_with(true, None), QuoteStep::SkipBreakerOpen);
    assert_eq!(plan_quote_with(true, Some(0)), QuoteStep::SkipBreakerOpen);
}

#[test]
fn young_cache_is_reused_and_old_cache_refetched() {
    assert_eq!(plan_quote_with(false, Some(CACHE_TTL_NANOS - 1)), QuoteStep::UseCached);
    assert_eq!(plan_quote_with(false, Some(CACHE_TTL_NANOS)), QuoteStep::Fetch);
    assert_eq!(plan_quote_with(false, None), QuoteStep::Fetch);
}

#[test]
fn plan_asks_the_breaker() {
    let mut b = CircuitBreaker::new();
    assert_eq!(plan_quote(&b, None), QuoteStep::Fetch);
    for _ in 0..3 {
        b.record_failure();
    }
    assert_eq!(plan_quote(&b, Some(0)), QuoteStep::SkipBreakerOpen);
}

#[test]
fn tally_and_status_line() {
    let mut t = FetchTally::new();
    let mut b = CircuitBreaker::new();
    b.record_failure();
    t.count_step(QuoteStep::SkipBreakerOpen);
    t.count_step(QuoteStep::UseCached);
    t.count_step(QuoteStep::SkipBreakerOpen);
    t.count_step(QuoteStep::Fetch);
    t.fetch_succeeded(&mut b);
    assert_eq!(b.failures, 0);
    assert_eq!(t.status_line(), " v0.7 | Fetched: 1 | Cached: 1 | Skipped: 2");
}

#[test]
fn quotes_refresh_every_minute() {
    assert!(!refresh_due(0));
    assert!(!refresh_due(59_999_999_999));
    assert!(refresh_due(60_000_000_000));
    assert!(refresh_due(AUTO_REFRESH_NANOS + 1));
}

#[test]
fn settling_each_step() {
    let mut tally = FetchTally::new();
    let mut breaker = CircuitBreaker::new();
    assert_eq!(settle_quote(&mut tally, &mut breaker, QuoteStep::Fetch, FetchOutcome::Failed, true), QuoteSource::Cache);
    assert_eq!(breaker.failures, 1);
    assert_eq!(settle_quote(&mut tally, &mut breaker, QuoteStep::Fetch, FetchOutcome::Failed, false), QuoteSource::NoQuote);
    assert_eq!(breaker.failures, 2);
    assert_eq!(settle_quote(&mut tally, &mut breaker, QuoteStep::Fetch, FetchOutcome::Unavailable, true), QuoteSource::NoQuote);
    assert_eq!(breaker.failures, 2);
    assert_eq!(settle_quote(&mut tally, &mut breaker, QuoteStep::Fetch, FetchOutcome::Succeeded, false), QuoteSource::Fresh);
    assert_eq!(breaker.failures, 0);
    assert_eq!(settle_quote(&mut tally, &mut breaker, QuoteStep::UseCached, FetchOutcome::Unavailable, true), QuoteSource::Cache);
    assert_eq!(settle_quote(&mut tally, &mut breaker, QuoteStep::SkipBreakerOpen, FetchOutcome::Unavailable, false), QuoteSource::NoQuote);
    assert_eq!((tally.fetched, tally.cached, tally.skipped), (1, 1, 1));
}
