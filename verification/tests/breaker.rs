use whim_dav_proxy::backoff::{
    clock_reading, is_transient, is_transient_status, millis_since_epoch, retry_step, Attempt, CircuitBreaker,
    RetryStep,
};

#[test]
fn failures_open_the_breaker() {
    let mut b = CircuitBreaker::new(3, 1000);
    b.record_failure_at(10_000);
    b.record_failure_at(10_000);
    assert!(b.allow_at(10_000));
    b.record_failure_at(10_000);
    assert!(!b.allow_at(10_000));
    assert!(!b.allow_at(10_999));
    assert!(b.allow_at(11_000));
    assert!(b.allow_at(10_000));
}

#[test]
fn a_success_closes_the_breaker() {
    let mut b = CircuitBreaker::new(1, 1000);
    b.record_failure_at(5);
    assert!(!b.allow_at(6));
    b.record_success();
    assert!(b.allow_at(6));
}

#[test]
fn failures_are_forgotten_after_the_cooldown() {
    let mut b = CircuitBreaker::new(2, 100);
    b.record_failure_at(1);
    b.record_failure_at(1);
    assert!(b.allow_at(101));
    b.record_failure_at(101);
    assert!(b.allow_at(101));
    b.record_failure_at(101);
    assert!(!b.allow_at(101));
}

#[test]
fn a_clock_that_goes_back_closes_the_breaker() {
    let mut b = CircuitBreaker::new(1, 1000);
    b.record_failure_at(5000);
    assert!(b.allow_at(4999));
}

#[test]
fn a_breaker_opened_at_zero_lets_requests_pass() {
    let mut b = CircuitBreaker::new(1, 1000);
    b.record_failure_at(0);
    assert!(b.allow_at(1));
}

#[test]
fn the_clock_of_the_machine_is_used() {
    assert_eq!(clock_reading(None), 0);
    assert_eq!(clock_reading(Some(5)), 5);
    assert_eq!(clock_reading(Some((7 << 64) + 5)), 5);
    let before = millis_since_epoch();
    assert!(before > 1_600_000_000_000);
    let mut b = CircuitBreaker::new(1, 1_000_000);
    assert!(b.allow());
    assert!(b.can_count());
    b.record_failure();
    assert!(!b.allow());
    assert!(b.allow_at(before + 3_000_000));
}

#[test]
fn transient_failures() {
    for code in [500, 502, 503, 504, 429, 408] {
        assert!(is_transient_status(code));
    }
    for code in [200, 206, 404, 501, 505, 400] {
        assert!(!is_transient_status(code));
    }
    assert!(is_transient(true, false, false));
    assert!(is_transient(false, true, false));
    assert!(is_transient(false, false, true));
    assert!(!is_transient(false, false, false));
}

#[test]
fn requests_are_repeated() {
    let mut delays = Vec::new();
    let mut attempt = 0;
    while let RetryStep::Again { attempt: next, delay_ms } =
        retry_step(8, attempt, &Attempt::Status(503))
    {
        delays.push(delay_ms);
        attempt = next;
    }
    assert_eq!(delays, [200, 400, 800, 1600, 3200, 6400, 6400, 6400]);
    assert!(matches!(retry_step(2, 0, &Attempt::Status(404)), RetryStep::Return));
    assert!(matches!(retry_step(0, 0, &Attempt::Status(503)), RetryStep::Return));
    let timeout = Attempt::Error { timeout: true, connect: false, request: false };
    assert!(matches!(retry_step(2, 1, &timeout), RetryStep::Again { attempt: 2, delay_ms: 400 }));
    assert!(matches!(retry_step(2, 2, &timeout), RetryStep::Return));
    let other = Attempt::Error { timeout: false, connect: false, request: false };
    assert!(matches!(retry_step(2, 0, &other), RetryStep::Return));
}
