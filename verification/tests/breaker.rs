use invest_dash::breaker::{CircuitBreaker, COOL_DOWN_NANOS};

#[test]
fn new_breaker_is_closed() {
    let b = CircuitBreaker::new();
    assert_eq!(b.failures, 0);
    assert!(b.last_failure.is_none());
    assert!(!b.is_open());
}

#[test]
fn three_failures_open_the_breaker() {
    let mut b = CircuitBreaker::new();
    b.record_failure();
    assert!(!b.is_open());
    b.record_failure();
    assert!(!b.is_open());
    b.record_failure();
    assert_eq!(b.failures, 3);
    assert!(b.is_open());
    assert!(b.is_open_after(COOL_DOWN_NANOS));
    assert!(!b.is_open_after(COOL_DOWN_NANOS + 1));
}

#[test]
fn reset_closes_the_breaker() {
    let mut b = CircuitBreaker::new();
    for _ in 0..5 {
        b.record_failure();
    }
    assert!(b.is_open());
    b.reset();
    assert_eq!(b.failures, 0);
    assert!(!b.is_open());
}

#[test]
fn failures_without_a_time_keep_it_open() {
    let b = CircuitBreaker { failures: 3, last_failure: None };
    assert!(b.is_open());
    assert!(b.is_open_after(u128::MAX));
}

#[test]
fn record_failure_at_keeps_the_time() {
    let when = std::time::Instant::now();
    let mut b = CircuitBreaker::new();
    b.record_failure_at(when);
    assert_eq!(b.last_failure, Some(when));
    assert_eq!(b.failures, 1);
}
