use pulsur::circuit_breaker::{
    CircuitBreaker, CircuitBreakerConfig, CircuitBreakerError, CircuitState, ExecutionPermit,
    RequestOutcome, RollingWindowMetrics,
};

const SEC: u64 = 1_000_000_000;

fn test_config() -> CircuitBreakerConfig {
    CircuitBreakerConfig {
        failure_rate_threshold: 5000,
        minimum_requests: 4,
        rolling_window_size: 8,
        reset_timeout: 30 * SEC,
    }
}

#[test]
fn rolling_window_keeps_only_the_last_n_requests() {
    let mut metrics = RollingWindowMetrics::new(4);
    metrics.record(RequestOutcome::Success);
    metrics.record(RequestOutcome::Failure);
    metrics.record(RequestOutcome::Timeout);
    metrics.record(RequestOutcome::Success);
    metrics.record(RequestOutcome::Failure);

    let snapshot = metrics.snapshot();
    assert_eq!(snapshot.total_requests, 4);
    assert_eq!(snapshot.success_count, 1);
    assert_eq!(snapshot.failure_count, 2);
    assert_eq!(snapshot.timeout_count, 1);
    let failure_rate = (snapshot.failure_count + snapshot.timeout_count) as f64
        / snapshot.total_requests as f64
        * 100.0;
    assert!((failure_rate - 75.0).abs() < f64::EPSILON);
}

#[test]
fn circuit_opens_when_failure_rate_threshold_is_exceeded() {
    let mut breaker = CircuitBreaker::with_config("payments", test_config());
    let now = 100 * SEC;

    for _ in 0..3 {
        let permit = breaker.try_acquire_permission_at(now).expect("closed circuit should allow");
        breaker.record_result_at(
            now,
            permit,
            Err(CircuitBreakerError::Downstream("upstream failed".to_string())),
        );
    }

    assert_eq!(breaker.state(), CircuitState::Closed);

    let permit = breaker.try_acquire_permission_at(now).expect("closed circuit should allow");
    breaker.record_result_at(now, permit, Ok(()));

    assert_eq!(breaker.state(), CircuitState::Open);
    assert_eq!(breaker.metrics().failure_count, 3);
    assert_eq!(breaker.metrics().success_count, 1);
}

fn tripped(now: u64) -> CircuitBreaker {
    let mut breaker = CircuitBreaker::with_config("payments", test_config());
    for _ in 0..4 {
        let permit = breaker.try_acquire_permission_at(now).expect("closed circuit should allow");
        breaker.record_result_at(now, permit, Err(CircuitBreakerError::Downstream("boom".to_string())));
    }
    breaker
}

#[test]
fn open_circuit_transitions_to_half_open_after_reset_timeout() {
    let now = 100 * SEC;
    let mut breaker = tripped(now);

    assert_eq!(breaker.state(), CircuitState::Open);
    assert!(matches!(
        breaker.try_acquire_permission_at(now + 29 * SEC),
        Err(CircuitBreakerError::Open)
    ));

    let permit = breaker
        .try_acquire_permission_at(now + 30 * SEC)
        .expect("half-open probe should be allowed");
    assert_eq!(permit, ExecutionPermit::HalfOpenProbe);
    assert_eq!(breaker.state(), CircuitState::HalfOpen);
    assert!(matches!(
        breaker.try_acquire_permission_at(now + 30 * SEC),
        Err(CircuitBreakerError::HalfOpenProbeInFlight)
    ));
}

#[test]
fn half_open_success_closes_and_resets_metrics() {
    let now = 100 * SEC;
    let mut breaker = tripped(now);

    let permit = breaker
        .try_acquire_permission_at(now + 31 * SEC)
        .expect("half-open probe should be allowed");
    breaker.record_result_at(now + 31 * SEC, permit, Ok(()));

    assert_eq!(breaker.state(), CircuitState::Closed);
    let metrics = breaker.metrics();
    assert_eq!(metrics.total_requests, 0);
    assert_eq!(metrics.failure_count, 0);
}

#[test]
fn half_open_failure_reopens_circuit() {
    let now = 100 * SEC;
    let mut breaker = tripped(now);

    let permit = breaker
        .try_acquire_permission_at(now + 31 * SEC)
        .expect("half-open probe should be allowed");
    breaker.record_result_at(now + 31 * SEC, permit, Err(CircuitBreakerError::Timeout));

    assert_eq!(breaker.state(), CircuitState::Open);
}

#[test]
fn refused_calls_are_not_recorded() {
    let mut breaker = CircuitBreaker::new("search");
    breaker.record_result_at(0, ExecutionPermit::Closed, Err(CircuitBreakerError::Open));
    assert_eq!(breaker.metrics().total_requests, 0);
    assert_eq!(breaker.name(), "search");
    assert_eq!(breaker.config().minimum_requests, 20);
    assert_eq!(CircuitBreakerError::HalfOpenProbeInFlight.message(), "half-open probe is already in flight");
}

#[test]
fn call_with_timeout_records_timeout_and_opens_circuit() {
    let config = CircuitBreakerConfig {
        failure_rate_threshold: 5000,
        minimum_requests: 2,
        rolling_window_size: 4,
        reset_timeout: SEC,
    };
    let mut breaker = CircuitBreaker::with_config("search", config);
    let p = breaker.try_acquire_permission_at(0).unwrap();
    breaker.record_result_at(0, p, Err(CircuitBreakerError::Timeout));
    let p = breaker.try_acquire_permission_at(0).unwrap();
    breaker.record_result_at(0, p, Err(CircuitBreakerError::Downstream("x".into())));
    assert_eq!(breaker.state(), CircuitState::Open);
    assert_eq!(breaker.metrics().timeout_count, 1);
}
