use echofront::breaker::{BreakerConfig, BreakerState, CircuitBreaker};

fn cfg() -> BreakerConfig {
    BreakerConfig {
        failure_threshold: 3,
        success_threshold: 2,
        cooldown_ms: 1000,
        ..BreakerConfig::default()
    }
}

#[test]
fn closed_to_open_on_threshold() {
    let mut b = CircuitBreaker::new(cfg());
    assert_eq!(b.state(), BreakerState::Closed);
    b.on_failure(0);
    b.on_failure(0);
    assert_eq!(b.state(), BreakerState::Closed);
    b.on_failure(0);
    assert_eq!(b.state(), BreakerState::Open);
    assert!(!b.is_callable(0));
}

#[test]
fn success_resets_failure_run() {
    let mut b = CircuitBreaker::new(cfg());
    b.on_failure(0);
    b.on_failure(0);
    b.on_success(0);
    b.on_failure(0);
    b.on_failure(0);
    assert_eq!(b.state(), BreakerState::Closed);
}

#[test]
fn open_to_half_open_after_cooldown() {
    let mut b = CircuitBreaker::new(cfg());
    for _ in 0..3 {
        b.on_failure(0);
    }
    assert_eq!(b.state(), BreakerState::Open);
    b.poll(999);
    assert_eq!(b.state(), BreakerState::Open);
    b.poll(1000);
    assert_eq!(b.state(), BreakerState::HalfOpen);
    assert!(b.is_callable(1000));
}

#[test]
fn half_open_closes_after_successes() {
    let mut b = CircuitBreaker::new(cfg());
    for _ in 0..3 {
        b.on_failure(0);
    }
    b.poll(1000);
    b.on_success(1000);
    assert_eq!(b.state(), BreakerState::HalfOpen);
    b.on_success(1000);
    assert_eq!(b.state(), BreakerState::Closed);
}

#[test]
fn half_open_reopens_on_failure() {
    let mut b = CircuitBreaker::new(cfg());
    for _ in 0..3 {
        b.on_failure(0);
    }
    b.poll(1000);
    assert_eq!(b.state(), BreakerState::HalfOpen);
    b.on_failure(1000);
    assert_eq!(b.state(), BreakerState::Open);
    assert_eq!(b.trips(), 2);
}

#[test]
fn default_breaker_admits_one_trial_call() {
    let cfg = BreakerConfig::default();
    assert_eq!(cfg.failure_threshold, 5);
    assert_eq!(cfg.success_threshold, 2);
    assert_eq!(cfg.cooldown_ms, 5_000);
    assert_eq!(cfg.half_open_max_calls, 1);
    let b = CircuitBreaker::new(cfg);
    assert_eq!(b.config().cooldown_ms, 5_000);
}

#[test]
fn trial_cap_counts_calls_in_flight() {
    let mut b = CircuitBreaker::new(BreakerConfig { half_open_max_calls: 2, ..cfg() });
    assert!(b.admits(0, 1_000_000), "a closed breaker has no cap");
    for _ in 0..3 {
        b.on_failure(0);
    }
    assert!(!b.admits(999, 0));
    // The cap holds from the moment the cooldown has elapsed, polled or not.
    assert!(b.admits(1000, 1));
    assert!(!b.admits(1000, 2));
    b.poll(1000);
    assert!(b.admits(1000, 1));
    assert!(!b.admits(1000, 2));
}

#[test]
fn open_breaker_ignores_outcomes_before_cooldown() {
    let mut b = CircuitBreaker::new(cfg());
    for _ in 0..3 {
        b.on_failure(10);
    }
    b.on_success(20);
    b.on_failure(30);
    assert_eq!(b.state(), BreakerState::Open);
    assert_eq!(b.trips(), 1);
    // The cooldown runs from the trip, not from what came later.
    b.poll(1009);
    assert_eq!(b.state(), BreakerState::Open);
    b.poll(1010);
    assert_eq!(b.state(), BreakerState::HalfOpen);
}

#[test]
fn outcome_after_cooldown_belongs_to_the_trial() {
    let mut b = CircuitBreaker::new(cfg());
    for _ in 0..3 {
        b.on_failure(0);
    }
    b.on_failure(1000);
    assert_eq!(b.state(), BreakerState::Open);
    assert_eq!(b.trips(), 2);
    b.on_success(2000);
    assert_eq!(b.state(), BreakerState::HalfOpen);
}

#[test]
fn clock_that_goes_backwards_does_not_end_the_cooldown() {
    let mut b = CircuitBreaker::new(cfg());
    for _ in 0..3 {
        b.on_failure(5_000);
    }
    b.poll(0);
    assert_eq!(b.state(), BreakerState::Open);
    assert!(!b.is_callable(0));
}

#[test]
fn zero_thresholds_act_like_one() {
    let mut b = CircuitBreaker::new(BreakerConfig {
        failure_threshold: 0,
        success_threshold: 0,
        cooldown_ms: 0,
        half_open_max_calls: 1,
    });
    b.on_failure(7);
    assert_eq!(b.state(), BreakerState::Open);
    b.poll(7);
    assert_eq!(b.state(), BreakerState::HalfOpen);
    b.on_success(7);
    assert_eq!(b.state(), BreakerState::Closed);
}

#[test]
fn cloned_breaker_goes_its_own_way() {
    let mut a = CircuitBreaker::new(cfg());
    a.on_failure(0);
    a.on_failure(0);
    let mut b = a.clone();
    b.on_failure(0);
    assert_eq!(a.state(), BreakerState::Closed);
    assert_eq!(b.state(), BreakerState::Open);
}
