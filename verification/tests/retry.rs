use echofront::retry::{RetryBudget, RetryConfig};

fn drain(b: &mut RetryBudget) {
    // Spend the initial burst allowance without any deposits.
    while b.try_retry() {}
}

#[test]
fn budget_caps_retry_rate() {
    let mut b = RetryBudget::new(RetryConfig::default());
    // 100 all failing requests, each trying one retry. The bucket allows an
    // initial burst then throttles toward the 20 percent deposit ratio, so
    // the granted count is far below 100 yet clearly nonzero.
    let mut allowed = 0;
    for _ in 0..100 {
        b.on_request();
        if b.try_retry() {
            allowed += 1;
        }
    }
    assert!(allowed < 60, "retries {allowed} not throttled below request count");
    assert!(allowed >= 20, "retries {allowed} unexpectedly low");
}

#[test]
fn no_retry_once_drained() {
    let mut b = RetryBudget::new(RetryConfig::default());
    drain(&mut b);
    assert!(!b.try_retry());
    assert!(b.denied() >= 1);
}

#[test]
fn deposits_accumulate_then_spend() {
    let mut b = RetryBudget::new(RetryConfig::default());
    drain(&mut b);
    for _ in 0..5 {
        b.on_request();
    }
    // 5 * 0.2 = 1.0 token, exactly one retry after being drained.
    assert!(b.try_retry());
    assert!(!b.try_retry());
}

#[test]
fn bucket_starts_full_and_never_overflows() {
    let mut b = RetryBudget::new(RetryConfig::default());
    assert_eq!(b.max_retries_per_request(), 2);
    assert_eq!(b.tokens_milli(), 10_000);
    b.on_request();
    assert_eq!(b.tokens_milli(), 10_000);
    assert!(b.try_retry());
    assert_eq!(b.tokens_milli(), 9_000);
    b.on_request();
    assert_eq!(b.tokens_milli(), 9_200);
    assert_eq!(b.granted(), 1);
    assert_eq!(b.denied(), 0);
}

#[test]
fn granted_retries_stay_under_the_token_bound() {
    let cfg = RetryConfig::default();
    let mut b = RetryBudget::new(cfg);
    for n in 1..=200i64 {
        b.on_request();
        b.try_retry();
        b.try_retry();
        let bound = (cfg.max_milli + n * cfg.deposit_milli) / cfg.retry_cost_milli;
        assert!((b.granted() as i64) <= bound);
    }
    // Ten tokens to start with and forty more deposited.
    assert_eq!(b.granted(), 49);
    assert_eq!(b.granted() + b.denied(), 400);
}

#[test]
fn cloned_budget_goes_its_own_way() {
    let mut a = RetryBudget::new(RetryConfig::default());
    let mut b = a.clone();
    assert!(b.try_retry());
    assert_eq!(a.granted(), 0);
    assert!(a.try_retry());
    assert_eq!(a.tokens_milli(), b.tokens_milli());
}

#[test]
fn every_retry_is_granted_or_denied() {
    let mut b = RetryBudget::new(RetryConfig::default());
    for asked in 1..=30u64 {
        if asked % 3 == 0 {
            b.on_request();
        }
        let granted = b.granted();
        assert_eq!(b.try_retry(), b.granted() == granted + 1);
        assert_eq!(b.granted() + b.denied(), asked);
    }
    assert_eq!(b.granted(), 12);
}
