use echofront::ewma::EwmaConfig;

#[test]
fn fold_seeds_then_smooths() {
    let cfg = EwmaConfig::default();
    let a = cfg.fold(None, 100);
    assert_eq!(a, 100_000);
    // alpha 250: 0.25 * 0 + 0.75 * 100000 = 75000
    let b = cfg.fold(Some(a), 0);
    assert_eq!(b, 75_000);
}

#[test]
fn threshold_scales_mean() {
    let cfg = EwmaConfig::default();
    assert_eq!(cfg.threshold_milli(10_000), 30_000);
    assert_eq!(cfg.threshold_milli(0), 0);
}

#[test]
fn hostile_sample_saturates_the_average() {
    let cfg = EwmaConfig::default();
    assert_eq!(cfg.fold(None, u64::MAX), u64::MAX);
    assert_eq!(cfg.fold(Some(u64::MAX), u64::MAX), u64::MAX);
    // A quarter of the way from zero to the top.
    assert_eq!(cfg.fold(Some(0), u64::MAX), u64::MAX / 4);
}

#[test]
fn average_stays_between_old_value_and_sample() {
    let cfg = EwmaConfig::default();
    let up = cfg.fold(Some(10_000), 50);
    assert_eq!(up, 20_000);
    let down = cfg.fold(Some(50_000), 10);
    assert_eq!(down, 40_000);
}

#[test]
fn alpha_above_one_takes_the_sample_whole() {
    let cfg = EwmaConfig { alpha_milli: 5_000, ..EwmaConfig::default() };
    assert_eq!(cfg.fold(Some(90_000), 7), 7_000);
    let still = EwmaConfig { alpha_milli: 0, ..EwmaConfig::default() };
    assert_eq!(still.fold(Some(90_000), 7), 90_000);
}

#[test]
fn ejection_line_saturates_monotonically() {
    let cfg = EwmaConfig::default();
    let mut last = 0u64;
    for mean in [0u64, 1, 1_000, u64::MAX / 3_000, u64::MAX / 2, u64::MAX - 1, u64::MAX] {
        let line = cfg.threshold_milli(mean);
        assert!(line >= last, "a bigger mean gave a smaller line");
        last = line;
    }
    assert_eq!(last, u64::MAX / 1_000);
}

#[test]
fn default_latency_layer() {
    let cfg = EwmaConfig::default();
    assert_eq!(cfg.alpha_milli, 250);
    assert_eq!(cfg.factor_milli, 3_000);
    assert_eq!(cfg.window_ms, 2_000);
    assert_eq!(cfg.min_samples, 8);
    assert_eq!(cfg.ejection_ms, 1_500);
    assert_eq!(cfg.reinstate_percent, 25);
    assert_eq!(cfg.ramp_window_ms, 1_000);
}
