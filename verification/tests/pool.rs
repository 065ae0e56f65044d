use echofront::breaker::{BreakerConfig, BreakerState};
use echofront::clock::ManualClock;
use echofront::ewma::EwmaConfig;
use echofront::http::Request;
use echofront::pool::{Backend, HealthConfig, Pool, Strategy};
use echofront::upstream::{MockUpstream, Step, UpstreamError};

type MockPool = Pool<Box<MockUpstream>>;

fn pool_with(strategy: Strategy, names_weights: &[(&str, u32)]) -> MockPool {
    let health = HealthConfig::default();
    let mut p = Pool::new("svc", strategy, health);
    for (n, w) in names_weights {
        let up = Box::new(MockUpstream::healthy(*n));
        p.add_backend(Backend::new(*n, *w, up, &health, BreakerConfig::default()));
    }
    p
}

#[test]
fn round_robin_exact_cycle() {
    let mut p = pool_with(Strategy::RoundRobin, &[("a", 1), ("b", 1), ("c", 1)]);
    p.poll(0);
    let picks: Vec<usize> = (0..6).map(|_| p.select(0, None, &[]).unwrap()).collect();
    assert_eq!(picks, vec![0, 1, 2, 0, 1, 2]);
}

#[test]
fn least_conn_prefers_idle() {
    let mut p = pool_with(Strategy::LeastConnections, &[("a", 1), ("b", 1), ("c", 1)]);
    p.poll(0);
    p.begin(0);
    p.begin(0);
    p.begin(1);
    let pick = p.select(0, None, &[]).unwrap();
    assert_eq!(pick, 2);
}

#[test]
fn open_breaker_is_never_selected() {
    let mut p = pool_with(Strategy::RoundRobin, &[("a", 1), ("b", 1)]);
    // Trip backend 0.
    for _ in 0..BreakerConfig::default().failure_threshold {
        p.record_failure(0, 0);
    }
    p.poll(0);
    assert_eq!(p.backend(0).breaker_state(), BreakerState::Open);
    for _ in 0..20 {
        let pick = p.select(0, None, &[]).unwrap();
        assert_eq!(pick, 1, "must never pick the open breaker");
    }
}

#[test]
fn outlier_ejection_and_reinstatement() {
    let mut p = pool_with(Strategy::RoundRobin, &[("a", 1), ("b", 1)]);
    let n = HealthConfig::default().outlier_consecutive_failures;
    for _ in 0..n {
        p.record_failure(0, 100);
    }
    p.poll(100);
    assert!(p.backend(0).is_ejected(100));
    assert_eq!(p.backend(0).ejections(), 1);
    // Before cooldown, only backend 1 is selectable.
    assert_eq!(p.select(100, None, &[]).unwrap(), 1);
    // After cooldown it comes back (breaker also recovered by then).
    let t = 100 + HealthConfig::default().ejection_base_ms + 10;
    p.poll(t);
    assert!(!p.backend(0).is_ejected(t));
}

#[test]
fn active_health_flips_unhealthy_then_recovers() {
    let health = HealthConfig::default();
    let mut p = Pool::new("svc", Strategy::RoundRobin, health);
    let mut up = MockUpstream::new("a");
    up.push_probes(vec![false, false]);
    p.add_backend(Backend::new("a", 1, Box::new(up), &health, BreakerConfig::default()));

    p.run_health_checks(0);
    assert!(p.backend(0).is_healthy());
    p.run_health_checks(1000);
    p.run_health_checks(2000);
    assert!(!p.backend(0).is_healthy(), "two failed probes eject it");
    // Default probe result is true, so it recovers after the up threshold.
    p.run_health_checks(3000);
    p.run_health_checks(4000);
    assert!(p.backend(0).is_healthy());
}

#[test]
fn weighted_distribution_matches_weights() {
    let mut p = pool_with(Strategy::Weighted, &[("a", 1), ("b", 1), ("c", 3)]);
    p.poll(0);
    let mut counts = [0usize; 3];
    for _ in 0..5000 {
        counts[p.select(0, None, &[]).unwrap()] += 1;
    }
    // c has weight 3 of total 5, so about 60 percent.
    let frac_c = counts[2] as f64 / 5000.0;
    assert!((frac_c - 0.6).abs() < 0.02, "c fraction {frac_c}");
    assert!((counts[0] as f64 / 5000.0 - 0.2).abs() < 0.02);
}

#[test]
fn dispatch_reaches_upstream() {
    let health = HealthConfig::default();
    let mut p = Pool::new("svc", Strategy::RoundRobin, health);
    let mut up = MockUpstream::new("a");
    up.push(Step::fail(UpstreamError::Timeout));
    p.add_backend(Backend::new("a", 1, Box::new(up), &health, BreakerConfig::default()));
    p.poll(0);
    let idx = p.select(0, None, &[]).unwrap();
    let reply = p.dispatch(idx, &Request::get("/"));
    assert!(reply.outcome.is_err());
}

fn picks(p: &mut MockPool, now: u64, n: usize) -> Vec<usize> {
    (0..n).map(|_| p.select(now, None, &[]).unwrap()).collect()
}

#[test]
fn strategy_names() {
    for (name, strategy) in [
        ("round-robin", Strategy::RoundRobin),
        ("roundrobin", Strategy::RoundRobin),
        ("RR", Strategy::RoundRobin),
        ("Weighted", Strategy::Weighted),
        ("wrr", Strategy::Weighted),
        ("least-conn", Strategy::LeastConnections),
        ("least-connections", Strategy::LeastConnections),
        ("leastconn", Strategy::LeastConnections),
        ("lc", Strategy::LeastConnections),
        ("consistent-hash", Strategy::ConsistentHash),
        ("STICKY", Strategy::ConsistentHash),
        ("hash", Strategy::ConsistentHash),
    ] {
        assert_eq!(Strategy::parse(name), Some(strategy));
        assert_eq!(Strategy::parse(strategy.as_str()), Some(strategy));
    }
    assert_eq!(Strategy::parse("random"), None);
    assert_eq!(Strategy::parse(""), None);
}

#[test]
fn empty_pool_selects_nobody() {
    let mut p: MockPool = Pool::new("svc", Strategy::Weighted, HealthConfig::default());
    assert!(p.is_empty());
    assert_eq!(p.len(), 0);
    assert_eq!(p.name(), "svc");
    p.poll(5);
    assert_eq!(p.select(5, None, &[]), None);
    assert!(p.distribution(5).is_empty());
}

#[test]
fn default_health() {
    let h = HealthConfig::default();
    let p = pool_with(Strategy::RoundRobin, &[]);
    assert_eq!(p.health_config().probe_interval_ms, h.probe_interval_ms);
    assert_eq!(h.probe_interval_ms, 1_000);
    assert_eq!(h.unhealthy_probe_threshold, 2);
    assert_eq!(h.healthy_probe_threshold, 2);
    assert_eq!(h.outlier_consecutive_failures, 5);
    assert_eq!(h.ejection_base_ms, 5_000);
    assert!(h.start_healthy);
}

#[test]
fn backend_that_starts_unhealthy_waits_for_probes() {
    let h = HealthConfig { start_healthy: false, ..HealthConfig::default() };
    let mut p: MockPool = Pool::new("svc", Strategy::RoundRobin, h);
    let up = Box::new(MockUpstream::healthy("a"));
    p.add_backend(Backend::new("a", 1, up, &h, BreakerConfig::default()));
    assert_eq!(p.select(0, None, &[]), None);
    p.run_health_checks(0);
    // Nothing is due before the interval has passed.
    p.run_health_checks(999);
    assert_eq!(p.select(999, None, &[]), None);
    p.run_health_checks(1_000);
    assert_eq!(p.select(1_000, None, &[]), Some(0));
}

#[test]
fn weighted_order_is_smooth() {
    let mut p = pool_with(Strategy::Weighted, &[("a", 5), ("b", 1), ("c", 1)]);
    p.poll(0);
    assert_eq!(picks(&mut p, 0, 7), vec![0, 0, 1, 0, 2, 0, 0]);
    // One period later everything starts over.
    assert_eq!(picks(&mut p, 0, 7), vec![0, 0, 1, 0, 2, 0, 0]);
}

#[test]
fn weights_with_a_common_divisor_cycle_exactly() {
    let mut p = pool_with(Strategy::Weighted, &[("a", 2), ("b", 4), ("c", 6)]);
    p.poll(0);
    for _ in 0..5 {
        let mut counts = [0usize; 3];
        for i in picks(&mut p, 0, 6) {
            counts[i] += 1;
        }
        assert_eq!(counts, [1, 2, 3]);
    }
}

#[test]
fn heaviest_weights_do_not_overflow() {
    let mut p = pool_with(Strategy::Weighted, &[("a", u32::MAX), ("b", u32::MAX)]);
    p.poll(0);
    assert_eq!(picks(&mut p, 0, 6), vec![0, 1, 0, 1, 0, 1]);
}

#[test]
fn excluded_backends_are_skipped_by_every_strategy() {
    for strategy in [
        Strategy::RoundRobin,
        Strategy::Weighted,
        Strategy::LeastConnections,
        Strategy::ConsistentHash,
    ] {
        let mut p = pool_with(strategy, &[("a", 1), ("b", 1), ("c", 1)]);
        p.poll(0);
        for k in 0..20 {
            let key = format!("k-{k}");
            assert_eq!(p.select(0, Some(&key), &[0, 2]), Some(1));
        }
        assert_eq!(p.select(0, Some("k"), &[0, 1, 2]), None);
    }
}

#[test]
fn sticky_without_key_takes_turns() {
    let mut p = pool_with(Strategy::ConsistentHash, &[("a", 1), ("b", 1), ("c", 1)]);
    p.poll(0);
    assert_eq!(picks(&mut p, 0, 6), vec![0, 1, 2, 0, 1, 2]);
}

#[test]
fn sticky_keys_survive_a_loss_and_come_home() {
    let mut p = pool_with(Strategy::ConsistentHash, &[("a", 1), ("b", 1), ("c", 1), ("d", 1)]);
    p.poll(0);
    let keys: Vec<String> = (0..300).map(|i| format!("s-{i}")).collect();
    let home: Vec<usize> = keys.iter().map(|k| p.select(0, Some(k), &[]).unwrap()).collect();
    let mut moved = 0;
    for (k, &h) in keys.iter().zip(&home) {
        let now = p.select(0, Some(k), &[2]).unwrap();
        if h == 2 {
            assert_ne!(now, 2);
            moved += 1;
        } else {
            assert_eq!(now, h, "a key on a survivor moved");
        }
    }
    assert!(moved > 0);
    for (k, &h) in keys.iter().zip(&home) {
        assert_eq!(p.select(0, Some(k), &[]), Some(h));
    }
    // A newcomer takes keys from the others, and nobody else gains any.
    let h = *p.health_config();
    let up = Box::new(MockUpstream::healthy("e"));
    p.add_backend(Backend::new("e", 1, up, &h, BreakerConfig::default()));
    for (k, &h) in keys.iter().zip(&home) {
        let now = p.select(0, Some(k), &[]).unwrap();
        assert!(now == h || now == 4);
    }
}

#[test]
fn least_connections_survives_out_of_order_ends() {
    let mut p = pool_with(Strategy::LeastConnections, &[("a", 1), ("b", 1)]);
    p.poll(0);
    p.begin(0);
    p.begin(1);
    p.begin(0);
    p.begin(1);
    p.end(1);
    assert_eq!(p.select(0, None, &[]), Some(1));
    p.end(0);
    p.end(0);
    p.end(1);
    assert_eq!(p.backend(0).in_flight, 0);
    assert_eq!(p.backend(1).in_flight(), 0);
    // An end without a begin stays at zero, and ties go to the first.
    p.end(0);
    assert_eq!(p.backend(0).in_flight, 0);
    assert_eq!(p.select(0, None, &[]), Some(0));
}

#[test]
fn breakers_and_ejections_arm_at_time_zero() {
    let h = HealthConfig { outlier_consecutive_failures: 2, ..HealthConfig::default() };
    let cfg = BreakerConfig { failure_threshold: 2, ..BreakerConfig::default() };
    let mut p: MockPool = Pool::new("svc", Strategy::RoundRobin, h);
    p.add_backend(Backend::new("a", 1, Box::new(MockUpstream::healthy("a")), &h, cfg));
    p.record_failure(0, 0);
    p.record_failure(0, 0);
    p.poll(0);
    assert_eq!(p.backend(0).breaker_state(), BreakerState::Open);
    assert_eq!(p.backend(0).ejected_until(), Some(5_000));
    assert_eq!(p.select(0, None, &[]), None);
}

#[test]
fn clock_jump_to_the_top_leaves_the_pool_selectable() {
    let mut p = pool_with(Strategy::Weighted, &[("a", 1), ("b", 2)]);
    p.enable_ewma(EwmaConfig::default());
    for _ in 0..5 {
        p.record_failure(0, 10);
    }
    p.poll(10);
    assert!(p.backend(0).is_ejected(10));
    p.poll(u64::MAX);
    assert!(!p.backend(0).is_ejected(u64::MAX));
    assert!(p.select(u64::MAX, None, &[]).is_some());
    assert_eq!(p.backend(0).ramp_percent(), 25);
}

#[test]
fn success_without_latency_leaves_the_average_alone() {
    let mut p = pool_with(Strategy::RoundRobin, &[("a", 1)]);
    assert!(p.ewma_config().is_none());
    // Without the layer a latency is not recorded either.
    p.record_success_latency(0, 0, 40);
    assert_eq!(p.backend(0).ewma_milli(), None);
    p.enable_ewma(EwmaConfig::default());
    assert_eq!(p.ewma_config().unwrap().min_samples, 8);
    p.record_success(0, 1);
    assert_eq!(p.backend(0).ewma_milli(), None);
    assert_eq!(p.backend(0).ewma_samples(), 0);
    p.record_success_latency(0, 2, 40);
    p.record_success_latency(0, 3, 80);
    assert_eq!(p.backend(0).ewma_milli(), Some(50_000));
    assert_eq!(p.backend(0).ewma_samples(), 2);
    assert_eq!(p.backend(0).served(), 4);
}

#[test]
fn latency_ejection_needs_a_window_and_fresh_samples() {
    let cfg = EwmaConfig {
        min_samples: 2,
        window_ms: 100,
        ejection_ms: 50,
        factor_milli: 1_500,
        ..EwmaConfig::default()
    };
    let mut p = pool_with(Strategy::Weighted, &[("fast", 1), ("slow", 1)]);
    p.enable_ewma(cfg);
    for _ in 0..2 {
        p.record_success_latency(0, 0, 10);
        p.record_success_latency(1, 0, 100);
    }
    // The window opens.
    p.poll(0);
    // The window has passed, but the evidence is stale.
    p.poll(100);
    assert_eq!(p.backend(1).ewma_ejections(), 0);
    p.record_success_latency(1, 100, 100);
    p.poll(100);
    assert_eq!(p.backend(1).ewma_ejections(), 0);
    p.record_success_latency(1, 100, 100);
    p.poll(100);
    assert_eq!(p.backend(1).ewma_ejections(), 1);
    assert_eq!(p.backend(1).ejected_until(), Some(150));
    assert_eq!(p.backend(0).ewma_ejections(), 0);
    // Reinstated at a quarter, and not ejected again on what is old by then.
    p.poll(150);
    assert_eq!(p.backend(1).ramp_percent(), 25);
    p.poll(400);
    assert_eq!(p.backend(1).ewma_ejections(), 1);
}

#[test]
fn ramp_doubles_to_full_weight() {
    let cfg = EwmaConfig { reinstate_percent: 0, ramp_window_ms: 10, ..EwmaConfig::default() };
    let mut p = pool_with(Strategy::Weighted, &[("a", 1), ("b", 1)]);
    p.enable_ewma(cfg);
    for _ in 0..5 {
        p.record_failure(0, 0);
    }
    let mut now = 5_000;
    p.poll(now);
    let mut seen = vec![p.backend(0).ramp_percent()];
    for _ in 0..8 {
        // Nothing happens before the window is over.
        p.poll(now + 9);
        now += 10;
        p.poll(now);
        seen.push(p.backend(0).ramp_percent());
    }
    assert_eq!(seen, vec![1, 2, 4, 8, 16, 32, 64, 100, 100]);
}

#[test]
fn ramped_node_gets_its_exact_share() {
    let cfg = EwmaConfig { ramp_window_ms: 1_000_000, ..EwmaConfig::default() };
    let b = BreakerConfig { failure_threshold: 100, ..BreakerConfig::default() };
    let h = HealthConfig::default();
    let mut p: MockPool = Pool::new("svc", Strategy::Weighted, h);
    for n in ["a", "b"] {
        p.add_backend(Backend::new(n, 1, Box::new(MockUpstream::healthy(n)), &h, b));
    }
    p.enable_ewma(cfg);
    for _ in 0..5 {
        p.record_failure(0, 0);
    }
    p.poll(5_000);
    assert_eq!(p.backend(0).ramp_percent(), 25);
    // Scores of 25 and 100: one in five.
    for _ in 0..10 {
        let of_a = picks(&mut p, 5_000, 5).iter().filter(|&&i| i == 0).count();
        assert_eq!(of_a, 1);
    }
}

#[test]
fn distribution_reports_shares() {
    let mut p = pool_with(Strategy::Weighted, &[("a", 1), ("b", 3)]);
    p.poll(0);
    for i in picks(&mut p, 0, 8) {
        p.record_success(i, 0);
    }
    let rows = p.distribution(0);
    assert_eq!(rows.len(), 2);
    assert_eq!((rows[0].served, rows[1].served), (2, 6));
    assert_eq!(rows[0].total_served, 8);
    assert_eq!((rows[0].score, rows[1].score), (100, 300));
    assert_eq!(rows[1].total_score, 400);
    assert_eq!(rows[1].name, "b");
    assert_eq!(rows[1].weight, 3);
    assert_eq!(rows[0].ewma_milli, None);
    // A node out of rotation has no share.
    for _ in 0..5 {
        p.record_failure(0, 1);
    }
    let rows = p.distribution(1);
    assert!(rows[0].ejected);
    assert_eq!((rows[0].score, rows[0].total_score), (0, 300));
    assert_eq!(rows[0].ramp_percent, 100);
    assert_eq!(rows[0].ewma_ejections, 0);
}

#[test]
fn poll_with_reads_the_clock() {
    let mut p = pool_with(Strategy::RoundRobin, &[("a", 1)]);
    for _ in 0..5 {
        p.record_failure(0, 0);
    }
    let mut clock = ManualClock::new(4_999);
    p.poll_with(&clock);
    assert!(p.backend(0).ejected_until().is_some());
    clock.advance(1);
    p.poll_with(&clock);
    assert_eq!(p.backend(0).ejected_until(), None);
    assert_eq!(p.backend(0).breaker_state(), BreakerState::HalfOpen);
}

#[test]
fn changed_strategy_takes_over_at_once() {
    let mut p = pool_with(Strategy::RoundRobin, &[("a", 0), ("b", 1)]);
    p.poll(0);
    assert_eq!(p.select(0, None, &[]), Some(0));
    p.set_strategy(Strategy::Weighted);
    assert_eq!(p.strategy(), Strategy::Weighted);
    assert_eq!(picks(&mut p, 0, 3), vec![1, 1, 1]);
}

#[test]
fn same_script_same_timeline() {
    let run = || {
        let h = HealthConfig { probe_interval_ms: 10, ..HealthConfig::default() };
        let mut p: MockPool = Pool::new("svc", Strategy::Weighted, h);
        for (n, w) in [("a", 3), ("b", 2), ("c", 1)] {
            let mut up = MockUpstream::new(n);
            up.push_probes(vec![true, false, false, true, false, true, true]);
            for k in 0..40u32 {
                if (k + w) % 3 == 0 {
                    up.push(Step::fail(UpstreamError::Timeout));
                } else {
                    up.push(Step::ok_slow(200, u64::from(k * w)));
                }
            }
            p.add_backend(Backend::new(n, w, Box::new(up), &h, BreakerConfig::default()));
        }
        let mut log = Vec::new();
        for t in 0..120u64 {
            p.run_health_checks(t * 7);
            p.poll(t * 7);
            let pick = p.select(t * 7, None, &[]);
            if let Some(i) = pick {
                p.begin(i);
                let reply = p.dispatch(i, &Request::get("/"));
                match reply.outcome {
                    Ok(_) => p.record_success_latency(i, t * 7, reply.latency_ms),
                    Err(_) => p.record_failure(i, t * 7),
                }
                p.end(i);
            }
            log.push((pick, p.backends().iter().map(|b| b.is_healthy()).collect::<Vec<_>>()));
        }
        log
    };
    assert_eq!(run(), run());
}

#[test]
fn success_starts_the_failure_count_over() {
    let mut p = pool_with(Strategy::RoundRobin, &[("a", 1)]);
    for _ in 0..4 {
        p.record_failure(0, 0);
    }
    p.record_success(0, 0);
    for _ in 0..4 {
        p.record_failure(0, 0);
    }
    assert_eq!(p.backend(0).ejected_until(), None);
    assert_eq!(p.backend(0).breaker_state(), BreakerState::Closed);
    p.record_failure(0, 7);
    assert_eq!(p.backend(0).ejected_until(), Some(5_007));
    assert_eq!(p.backend(0).breaker_state(), BreakerState::Open);
}

#[test]
fn slow_node_stays_without_a_latency_layer() {
    let mut p = pool_with(Strategy::RoundRobin, &[("fast", 1), ("slow", 1)]);
    for t in 0..200u64 {
        p.record_success_latency(0, t * 100, 1);
        p.record_success_latency(1, t * 100, 60_000);
        p.poll(t * 100);
    }
    assert_eq!(p.backend(1).ewma_ejections(), 0);
    assert!(p.backend(1).is_available(20_000));
}

#[test]
fn node_with_few_samples_does_not_move_the_line() {
    let cfg = EwmaConfig { min_samples: 3, window_ms: 0, ..EwmaConfig::default() };
    let mut p = pool_with(Strategy::Weighted, &[("a", 1), ("b", 1), ("c", 1), ("d", 1), ("e", 1)]);
    p.enable_ewma(cfg);
    // Four measured nodes with a mean of 25 ms put the line at 75 ms. A fifth
    // with two samples of a second would lift it to 660 ms.
    for _ in 0..3 {
        for i in 0..3 {
            p.record_success_latency(i, 0, 5);
        }
        p.record_success_latency(3, 0, 85);
    }
    for _ in 0..2 {
        p.record_success_latency(4, 0, 1_000);
    }
    p.poll(0);
    for _ in 0..3 {
        p.record_success_latency(3, 0, 85);
    }
    p.poll(1);
    assert_eq!(p.backend(3).ewma_ejections(), 1);
    assert_eq!(p.backend(4).ewma_ejections(), 0);
}

#[test]
fn report_keeps_ejection_apart_from_health() {
    let health = HealthConfig::default();
    let mut p = Pool::new("svc", Strategy::RoundRobin, health);
    let mut up = MockUpstream::new("a");
    up.push_probes(vec![false, false]);
    p.add_backend(Backend::new("a", 1, Box::new(up), &health, BreakerConfig::default()));
    p.run_health_checks(0);
    p.run_health_checks(1_000);
    assert!(!p.backend(0).is_healthy());
    let rows = p.distribution(1_000);
    assert!(!rows[0].ejected);
    assert_eq!((rows[0].score, rows[0].total_score), (0, 0));
}

#[test]
fn report_adds_up() {
    let mut p = pool_with(Strategy::Weighted, &[("a", 2), ("b", 5), ("c", 0), ("d", 1)]);
    p.poll(0);
    for i in picks(&mut p, 0, 11) {
        p.record_success(i, 0);
    }
    let rows = p.distribution(0);
    assert_eq!(rows.iter().map(|r| r.served).sum::<u64>(), rows[0].total_served);
    assert_eq!(rows.iter().map(|r| i128::from(r.score)).sum::<i128>(), rows[0].total_score);
    assert_eq!((rows[0].total_served, rows[0].total_score), (11, 800));
}

#[test]
fn many_of_the_heaviest_weights_do_not_overflow() {
    let names: Vec<String> = (0..300).map(|i| format!("n-{i}")).collect();
    let weights: Vec<(&str, u32)> = names.iter().map(|n| (n.as_str(), u32::MAX)).collect();
    let mut p = pool_with(Strategy::Weighted, &weights);
    p.poll(0);
    assert_eq!(picks(&mut p, 0, 600), (0..300).chain(0..300).collect::<Vec<usize>>());
    let rows = p.distribution(0);
    assert_eq!(rows[7].total_score, 300 * 100 * i128::from(u32::MAX));
}

#[test]
fn turns_go_by_index_from_the_cursor() {
    let mut p = pool_with(Strategy::RoundRobin, &[("a", 1), ("b", 1), ("c", 1), ("d", 1)]);
    p.poll(0);
    assert_eq!(picks(&mut p, 0, 5), vec![0, 1, 2, 3, 0]);
    // The cursor stands at five: place one of four, place two of three.
    assert_eq!(p.select(0, None, &[0]), Some(3));
    assert_eq!(picks(&mut p, 0, 4), vec![2, 3, 0, 1]);
}

#[test]
fn weighted_blocks_follow_weights_from_anywhere() {
    let mut p = pool_with(Strategy::Weighted, &[("a", 3), ("b", 1), ("c", 2)]);
    p.poll(0);
    for start in 0..6 {
        picks(&mut p, 0, start);
        let mut counts = [0usize; 3];
        for i in picks(&mut p, 0, 6) {
            counts[i] += 1;
        }
        assert_eq!(counts, [3, 1, 2]);
    }
}

#[test]
fn weighted_choice_stays_proportional_after_a_loss() {
    let mut p = pool_with(Strategy::Weighted, &[("a", 1), ("b", 1), ("c", 1)]);
    p.poll(0);
    assert_eq!(picks(&mut p, 0, 1), vec![0]);
    for _ in 0..5 {
        p.record_failure(2, 0);
    }
    p.poll(0);
    // The start is uneven, and what it is off by does not grow.
    assert_eq!(picks(&mut p, 0, 2), vec![1, 1]);
    let (total, score, slack) = (200i64, 100i64, 2 * 3 * 100i64);
    let mut of_a = 0i64;
    for n in 1..=200i64 {
        if p.select(0, None, &[]) == Some(0) {
            of_a += 1;
        }
        assert!((of_a * total - n * score).abs() <= slack);
    }
    assert_eq!(of_a, 100);
}

#[test]
fn joining_backend_only_takes_keys_over() {
    let mut p = pool_with(Strategy::ConsistentHash, &[("a", 1), ("b", 1), ("c", 1)]);
    p.poll(0);
    let keys: Vec<String> = (0..300).map(|i| format!("k-{i}")).collect();
    let before: Vec<_> = keys.iter().map(|k| p.select(0, Some(k.as_str()), &[])).collect();
    let again: Vec<_> = keys.iter().map(|k| p.select(0, Some(k.as_str()), &[])).collect();
    assert_eq!(before, again);
    let health = HealthConfig::default();
    let up = Box::new(MockUpstream::healthy("d"));
    p.add_backend(Backend::new("d", 1, up, &health, BreakerConfig::default()));
    p.poll(0);
    let mut moved = 0;
    for (k, old) in keys.iter().zip(before) {
        let new = p.select(0, Some(k.as_str()), &[]);
        assert!(new == old || new == Some(3));
        if new != old {
            moved += 1;
        }
    }
    assert!(moved > 0 && moved < 200);
}

#[test]
fn latency_is_passed_over_without_a_layer() {
    let mut p = pool_with(Strategy::RoundRobin, &[("a", 1)]);
    p.record_success_latency(0, 0, 70);
    assert_eq!(p.backend(0).served(), 1);
    assert_eq!(p.backend(0).ewma_samples(), 0);
    assert_eq!(p.backend(0).ewma_milli(), None);
    p.enable_ewma(EwmaConfig::default());
    p.record_success_latency(0, 0, 70);
    assert_eq!(p.backend(0).served(), 2);
    assert_eq!(p.backend(0).ewma_samples(), 1);
    assert_eq!(p.backend(0).ewma_milli(), Some(70_000));
}

#[test]
fn counters_count_recorded_outcomes_and_nothing_else() {
    let mut p = pool_with(Strategy::LeastConnections, &[("a", 1), ("b", 1)]);
    let (mut outcomes, mut samples) = ([0u64; 2], [0u32; 2]);
    let mut layer = false;
    for n in 0..120u64 {
        let now = n * 700;
        let idx = (n % 2) as usize;
        p.poll(now);
        p.run_health_checks(now);
        p.select(now, Some("k"), &[]);
        p.begin(idx);
        p.dispatch(idx, &Request::get("/"));
        p.end(idx);
        match n % 5 {
            0 => p.record_success(idx, now),
            1 | 2 => {
                p.record_success_latency(idx, now, 10 + n);
                samples[idx] += u32::from(layer);
            }
            _ => p.record_failure(idx, now),
        }
        outcomes[idx] += 1;
        if n == 40 {
            p.enable_ewma(EwmaConfig::default());
            layer = true;
        }
        p.set_strategy(if n % 2 == 0 { Strategy::Weighted } else { Strategy::RoundRobin });
        for i in 0..2 {
            let b = p.backend(i);
            assert_eq!(b.served(), outcomes[i]);
            assert_eq!(b.ewma_samples(), samples[i]);
            assert_eq!(b.ewma_milli().is_none(), samples[i] == 0);
            assert!(b.ejections() <= b.served());
        }
    }
    assert_eq!(p.distribution(0)[0].total_served, 120);
}

#[test]
fn requests_under_way_end_in_any_order() {
    let mut p = pool_with(Strategy::LeastConnections, &[("a", 1), ("b", 1)]);
    // More calls than are ever under way at a time.
    for idx in [0, 1, 1, 0, 0] {
        p.begin(idx);
    }
    for _ in 0..10_000 {
        p.begin(1);
        p.end(0);
        p.begin(0);
        p.end(1);
    }
    assert_eq!((p.backend(0).in_flight(), p.backend(1).in_flight()), (3, 2));
    for idx in [1, 0, 0, 1, 0] {
        p.end(idx);
    }
    assert_eq!((p.backend(0).in_flight(), p.backend(1).in_flight()), (0, 0));
    p.end(0);
    assert_eq!(p.backend(0).in_flight(), 0);
}
