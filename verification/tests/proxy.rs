use std::rc::Rc;

use echofront::breaker::{BreakerConfig, BreakerState};
use echofront::clock::{Clock, ManualClock};
use echofront::http::Request;
use echofront::pool::{Backend, HealthConfig, Pool, Strategy};
use echofront::proxy::{Proxy, ProxyError};
use echofront::retry::RetryConfig;
use echofront::router::{Route, Router};
use echofront::upstream::{MockUpstream, Step, UpstreamError};

type MockProxy = Proxy<Rc<dyn Clock>, Box<MockUpstream>>;

fn backend(name: &str, up: MockUpstream, health: &HealthConfig) -> Backend<Box<MockUpstream>> {
    Backend::new(name, 1, Box::new(up), health, BreakerConfig::default())
}

fn proxy_with(pool: Pool<Box<MockUpstream>>, clock: Rc<dyn Clock>) -> MockProxy {
    let mut router = Router::new();
    router.add(Route::new(None, "/", pool.name()));
    let mut p = Proxy::new(clock, router, RetryConfig::default());
    p.add_pool(pool);
    p
}

#[test]
fn retry_fails_over_to_healthy_backend() {
    let clock: Rc<dyn Clock> = Rc::new(ManualClock::new(0));
    let health = HealthConfig::default();
    let mut pool = Pool::new("svc", Strategy::RoundRobin, health);
    let mut bad = MockUpstream::new("bad");
    bad.push(Step::fail(UpstreamError::Timeout));
    let good = MockUpstream::new("good");
    pool.add_backend(backend("bad", bad, &health));
    pool.add_backend(backend("good", good, &health));
    let mut proxy = proxy_with(pool, clock);

    let res = proxy.handle(&Request::get("/").with_header("Host", "h"));
    assert!(res.is_success(), "should fail over and succeed");
    assert_eq!(res.status(), 200);
    assert_eq!(res.attempts.len(), 2);
    assert!(!res.attempts[0].ok);
    assert!(res.attempts[1].ok);
    assert!(res.attempts[1].is_retry);
    assert_eq!(proxy.total_failovers(), 1);
}

#[test]
fn no_route_returns_404() {
    let clock: Rc<dyn Clock> = Rc::new(ManualClock::new(0));
    let mut router = Router::new();
    router.add(Route::new(None, "/only", "svc"));
    let mut proxy: MockProxy = Proxy::new(clock, router, RetryConfig::default());
    let health = HealthConfig::default();
    proxy.add_pool(Pool::new("svc", Strategy::RoundRobin, health));
    let res = proxy.handle(&Request::get("/other").with_header("Host", "h"));
    assert_eq!(res.status(), 404);
    assert_eq!(res.response, Err(ProxyError::NoRoute));
}

#[test]
fn all_unhealthy_returns_503() {
    let clock: Rc<dyn Clock> = Rc::new(ManualClock::new(0));
    let health = HealthConfig::default();
    let mut pool = Pool::new("svc", Strategy::RoundRobin, health);
    let up = MockUpstream::always_failing("bad", UpstreamError::Connection);
    pool.add_backend(backend("bad", up, &health));
    let mut proxy = proxy_with(pool, clock);
    // Trip the single backend's breaker.
    let mut last = 0;
    for _ in 0..10 {
        last = proxy.handle(&Request::get("/").with_header("Host", "h")).status();
    }
    assert!(last == 502 || last == 503);
    let breaker_open = proxy
        .pool("svc")
        .unwrap()
        .backend(0)
        .breaker_state();
    assert_eq!(breaker_open, BreakerState::Open);
}

#[test]
fn sticky_key_routes_consistently() {
    let clock: Rc<dyn Clock> = Rc::new(ManualClock::new(0));
    let health = HealthConfig::default();
    let mut pool = Pool::new("svc", Strategy::ConsistentHash, health);
    for n in ["a", "b", "c"] {
        pool.add_backend(backend(n, MockUpstream::new(n), &health));
    }
    let mut proxy = proxy_with(pool, clock);
    let req = Request::get("/")
        .with_header("Host", "h")
        .with_header("X-Session-Id", "user-777");
    let first = proxy.handle(&req).selected;
    for _ in 0..20 {
        assert_eq!(proxy.handle(&req).selected, first);
    }
}

fn service(names: &[&str], strategy: Strategy) -> Pool<Box<MockUpstream>> {
    let health = HealthConfig::default();
    let mut pool = Pool::new("svc", strategy, health);
    for n in names {
        pool.add_backend(backend(n, MockUpstream::new(*n), &health));
    }
    pool
}

fn failing(names: &[&str]) -> Pool<Box<MockUpstream>> {
    let health = HealthConfig::default();
    let mut pool = Pool::new("svc", Strategy::RoundRobin, health);
    for n in names {
        let up = MockUpstream::always_failing(*n, UpstreamError::Connection);
        pool.add_backend(backend(n, up, &health));
    }
    pool
}

fn stopped() -> Rc<dyn Clock> {
    Rc::new(ManualClock::new(0))
}

#[test]
fn error_statuses_and_messages() {
    assert_eq!(ProxyError::NoRoute.status(), 404);
    assert_eq!(ProxyError::NoHealthyUpstream.status(), 503);
    assert_eq!(ProxyError::AllAttemptsFailed(3).status(), 502);
    assert_eq!(ProxyError::NoRoute.message(), "no route matched");
    assert_eq!(ProxyError::NoHealthyUpstream.message(), "no healthy upstream");
    assert_eq!(ProxyError::AllAttemptsFailed(3).message(), "all 3 attempts failed");
}

#[test]
fn attempts_say_what_happened() {
    let health = HealthConfig::default();
    let mut pool = Pool::new("svc", Strategy::RoundRobin, health);
    let mut bad = MockUpstream::new("bad");
    bad.push(Step::ok_slow(503, 70));
    pool.add_backend(backend("bad", bad, &health));
    pool.add_backend(backend("good", MockUpstream::new("good"), &health));
    let mut proxy = proxy_with(pool, stopped());
    let res = proxy.handle(&Request::get("/x"));
    assert_eq!(res.service.as_deref(), Some("svc"));
    assert_eq!(res.selected, Some(0));
    let first = &res.attempts[0];
    assert_eq!(first.backend, 0);
    assert_eq!(first.backend_name, "bad");
    assert_eq!(first.detail, "server error 503");
    assert_eq!(first.latency_ms, 70);
    assert!(!first.is_retry);
    let second = res.attempts[1].clone();
    assert_eq!(second.backend_name, "good");
    assert_eq!(second.detail, "200");
    assert_eq!(second.latency_ms, 5);
    assert!(second.ok && second.is_retry);
    assert_eq!(res.response.unwrap().body, b"good");
    assert_eq!(proxy.total_requests(), 1);
    assert_eq!(proxy.total_retries(), 1);
    assert_eq!(proxy.budget().granted(), 1);
}

#[test]
fn all_attempts_failed_counts_attempts() {
    let mut proxy = proxy_with(failing(&["a", "b", "c", "d"]), stopped());
    let res = proxy.handle(&Request::get("/"));
    // One attempt and two retries, each on a backend of its own.
    assert_eq!(res.response, Err(ProxyError::AllAttemptsFailed(3)));
    assert_eq!(res.status(), 502);
    let tried: Vec<usize> = res.attempts.iter().map(|a| a.backend).collect();
    assert_eq!(tried, vec![0, 2, 1]);
    assert_eq!(res.attempts[2].detail, "connection refused");
    assert_eq!(proxy.total_retries(), 2);
    assert_eq!(proxy.total_failovers(), 2);
}

#[test]
fn retry_without_another_backend_is_no_failover() {
    let mut proxy = proxy_with(failing(&["only"]), stopped());
    let res = proxy.handle(&Request::get("/"));
    assert_eq!(res.response, Err(ProxyError::AllAttemptsFailed(1)));
    // The retry was paid for, but there was nobody left to try.
    assert_eq!(proxy.total_retries(), 1);
    assert_eq!(proxy.total_failovers(), 0);
}

#[test]
fn empty_pool_has_no_healthy_upstream() {
    let mut proxy = proxy_with(service(&[], Strategy::RoundRobin), stopped());
    let res = proxy.handle(&Request::get("/"));
    assert_eq!(res.response, Err(ProxyError::NoHealthyUpstream));
    assert_eq!(res.status(), 503);
    assert_eq!(res.selected, None);
    assert!(!res.is_success());
    assert!(res.attempts.is_empty());
}

#[test]
fn route_without_a_pool_is_no_route() {
    let mut router = Router::new();
    router.add(Route::new(None, "/", "ghost"));
    let mut proxy: MockProxy = Proxy::new(stopped(), router, RetryConfig::default());
    let res = proxy.handle(&Request::get("/"));
    assert_eq!(res.response, Err(ProxyError::NoRoute));
    assert_eq!(res.service.as_deref(), Some("ghost"));
    assert_eq!(proxy.total_requests(), 1);
}

#[test]
fn drained_budget_stops_retries() {
    let mut router = Router::new();
    router.add(Route::new(None, "/", "svc"));
    let retry = RetryConfig {
        max_retries_per_request: 5,
        deposit_milli: 0,
        retry_cost_milli: 1_000,
        max_milli: 3_000,
    };
    let mut proxy: MockProxy = Proxy::new(stopped(), router, retry);
    proxy.add_pool(failing(&["a", "b", "c", "d", "e", "f"]));
    let res = proxy.handle(&Request::get("/"));
    // Three retries are paid for and the fourth is refused.
    assert_eq!(res.response, Err(ProxyError::AllAttemptsFailed(4)));
    assert_eq!(proxy.budget().granted(), 3);
    assert_eq!(proxy.budget().denied(), 1);
    let res = proxy.handle(&Request::get("/"));
    assert_eq!(res.response, Err(ProxyError::AllAttemptsFailed(1)));
    assert_eq!(proxy.total_retries(), 3);
}

#[test]
fn successful_requests_feed_the_latency_average() {
    let health = HealthConfig::default();
    let mut pool = Pool::new("svc", Strategy::RoundRobin, health);
    let up = MockUpstream::new("a").with_default(Step::ok_slow(200, 80));
    pool.add_backend(backend("a", up, &health));
    pool.enable_ewma(echofront::EwmaConfig::default());
    let mut proxy = proxy_with(pool, stopped());
    proxy.handle(&Request::get("/"));
    let b = proxy.pool("svc").unwrap().backend(0);
    assert_eq!(b.ewma_milli(), Some(80_000));
    assert_eq!(b.ewma_samples(), 1);
    assert_eq!(b.served(), 1);
}

#[test]
fn pools_are_found_replaced_and_listed_by_name() {
    let mut proxy = proxy_with(service(&["a"], Strategy::RoundRobin), stopped());
    let health = HealthConfig::default();
    for name in ["zeta", "alpha", "mid", "Upper"] {
        proxy.add_pool(Pool::new(name, Strategy::RoundRobin, health));
    }
    assert_eq!(proxy.service_names(), vec!["Upper", "alpha", "mid", "svc", "zeta"]);
    assert_eq!(proxy.pool("svc").unwrap().len(), 1);
    assert!(proxy.pool("nobody").is_none());
    assert!(proxy.pool_mut("nobody").is_none());
    proxy.add_pool(service(&["x", "y"], Strategy::RoundRobin));
    assert_eq!(proxy.pool("svc").unwrap().len(), 2);
    assert_eq!(proxy.service_names().len(), 5);
    proxy.pool_mut("svc").unwrap().set_strategy(Strategy::Weighted);
    assert_eq!(proxy.pool("svc").unwrap().strategy(), Strategy::Weighted);
}

#[test]
fn sticky_header_can_be_named() {
    let mut proxy = proxy_with(service(&["a", "b", "c", "d"], Strategy::ConsistentHash), stopped());
    proxy.set_sticky_header("X-User");
    let pick = |proxy: &mut MockProxy, user: &str, session: &str| {
        proxy
            .handle(
                &Request::get("/")
                    .with_header("X-User", user)
                    .with_header("X-Session-Id", session),
            )
            .selected
    };
    for u in 0..20 {
        let user = format!("u-{u}");
        let first = pick(&mut proxy, &user, "s-0");
        for s in 1..5 {
            assert_eq!(pick(&mut proxy, &user, &format!("s-{s}")), first);
        }
    }
}

#[test]
fn host_pins_requests_without_a_session() {
    let mut proxy = proxy_with(service(&["a", "b", "c"], Strategy::ConsistentHash), stopped());
    let req = Request::get("/").with_header("host", "one.example.com");
    let first = proxy.handle(&req).selected;
    for _ in 0..10 {
        assert_eq!(proxy.handle(&req).selected, first);
    }
    // With neither, requests take turns.
    let bare: Vec<_> = (0..3).map(|_| proxy.handle(&Request::get("/")).selected).collect();
    assert_eq!(bare, vec![Some(0), Some(1), Some(2)]);
}

#[test]
fn health_checks_run_at_the_time_of_the_clock() {
    let health = HealthConfig::default();
    let mut pool = Pool::new("svc", Strategy::RoundRobin, health);
    let mut up = MockUpstream::new("a");
    up.push_probes(vec![false, false]);
    pool.add_backend(backend("a", up, &health));
    let mut router = Router::new();
    router.add(Route::new(None, "/", "svc"));
    let mut proxy = Proxy::new(ManualClock::new(0), router, RetryConfig::default());
    proxy.add_pool(pool);
    proxy.run_health_checks();
    proxy.clock_mut().advance(999);
    proxy.run_health_checks();
    assert!(proxy.pool("svc").unwrap().backend(0).is_healthy());
    proxy.clock_mut().advance(1);
    proxy.run_health_checks();
    assert!(!proxy.pool("svc").unwrap().backend(0).is_healthy());
    assert_eq!(proxy.now(), 1_000);
    assert_eq!(proxy.clock().now_millis(), 1_000);
    assert_eq!(proxy.handle(&Request::get("/")).status(), 503);
}

#[test]
fn readme_example() {
    let manual = ManualClock::new(0);
    let health = HealthConfig::default();
    let mut pool = Pool::new("web", Strategy::RoundRobin, health);
    for n in ["a", "b"] {
        let up = MockUpstream::healthy(n);
        pool.add_backend(Backend::new(n, 1, up, &health, BreakerConfig::default()));
    }
    let mut router = Router::new();
    router.add(Route::new(None, "/", "web"));
    let mut proxy = Proxy::new(manual, router, RetryConfig::default());
    proxy.add_pool(pool);
    let result = proxy.handle(&Request::get("/").with_header("Host", "example.com"));
    assert!(result.is_success());
    proxy.clock_mut().advance(1_000);
    proxy.run_health_checks();
}

#[test]
fn same_requests_play_out_the_same_way() {
    let run = || {
        let health = HealthConfig::default();
        let mut pool = Pool::new("svc", Strategy::LeastConnections, health);
        for n in ["a", "b", "c"] {
            let mut up = MockUpstream::new(n);
            for k in 0..30u16 {
                up.push(if k % 4 == 1 { Step::ok(500 + k) } else { Step::ok(200) });
            }
            pool.add_backend(backend(n, up, &health));
        }
        let mut router = Router::new();
        router.add(Route::new(None, "/", "svc"));
        let mut proxy = Proxy::new(ManualClock::new(0), router, RetryConfig::default());
        proxy.add_pool(pool);
        let mut log = Vec::new();
        for i in 0..60 {
            proxy.clock_mut().advance(i * 13);
            proxy.run_health_checks();
            let res = proxy.handle(&Request::get("/"));
            let trail: Vec<String> = res.attempts.iter().map(|a| a.detail.clone()).collect();
            log.push((res.status(), res.selected, trail, proxy.budget().tokens_milli()));
        }
        log
    };
    let log = run();
    assert_eq!(log, run());
    assert!(log.iter().any(|entry| entry.2.len() > 1), "nothing was ever retried");
}

#[test]
fn each_attempt_is_one_outcome_and_health_is_left_to_probes() {
    let mut proxy = proxy_with(failing(&["a", "b", "c", "d"]), stopped());
    let res = proxy.handle(&Request::get("/"));
    assert_eq!(res.status(), 502);
    let pool = proxy.pool("svc").unwrap();
    for (i, b) in pool.backends().iter().enumerate() {
        let tried = res.attempts.iter().filter(|a| a.backend == i).count() as u64;
        assert_eq!(b.served(), tried);
        assert!(b.is_healthy());
        assert_eq!(b.in_flight(), 0);
    }
    assert_eq!(res.attempts.len(), 3);
    assert_eq!(res.selected, Some(res.attempts[0].backend));
}

#[test]
fn status_is_that_of_the_last_attempt() {
    let health = HealthConfig::default();
    let mut pool = Pool::new("svc", Strategy::RoundRobin, health);
    let mut bad = MockUpstream::new("bad");
    bad.push(Step::fail(UpstreamError::Connection));
    pool.add_backend(backend("bad", bad, &health));
    let other = MockUpstream::new("other").with_default(Step::ok(404));
    pool.add_backend(backend("other", other, &health));
    let mut proxy = proxy_with(pool, stopped());
    let res = proxy.handle(&Request::get("/"));
    // The status of a response is not one of the proxy's own.
    assert!(res.is_success());
    assert_eq!(res.status(), 404);
    let trail: Vec<_> = res.attempts.iter().map(|a| (a.backend, a.ok, a.is_retry)).collect();
    assert_eq!(trail, vec![(0, false, false), (1, true, true)]);
    assert_eq!(res.selected, Some(0));
}

#[test]
fn counters_add_up_over_many_requests() {
    let retry = RetryConfig {
        max_retries_per_request: 2,
        deposit_milli: 100,
        retry_cost_milli: 1_000,
        max_milli: 4_000,
    };
    let mut router = Router::new();
    router.add(Route::new(None, "/api", "svc"));
    let mut proxy: MockProxy = Proxy::new(stopped(), router, retry);
    proxy.add_pool(failing(&["a", "b"]));
    let mut marked = 0u64;
    for n in 1..=60u64 {
        // Every third request has no route, and pools are put in anew meanwhile.
        let path = if n % 3 == 0 { "/none" } else { "/api" };
        if n % 4 == 0 {
            proxy.add_pool(failing(&["a", "b"]));
        }
        let res = proxy.handle(&Request::get(path));
        marked += res.attempts.iter().filter(|a| a.is_retry).count() as u64;
        assert_eq!(proxy.total_requests(), n);
        assert_eq!(proxy.total_retries(), proxy.budget().granted());
        assert_eq!(proxy.total_failovers(), marked);
        assert!(proxy.total_failovers() <= proxy.total_retries());
        assert!(proxy.total_retries() * 1_000 <= 4_000 + n * 100);
    }
    assert!(proxy.total_failovers() > 0);
    assert!(proxy.total_failovers() < proxy.total_retries());
}

#[test]
fn session_stays_while_others_come_and_go() {
    let mut proxy = proxy_with(service(&["a", "b", "c"], Strategy::ConsistentHash), stopped());
    let mine = Request::get("/").with_header("X-Session-Id", "mine");
    let first = proxy.handle(&mine).selected;
    assert!(first.is_some());
    for n in 0..30 {
        let other = Request::get("/x").with_header("X-Session-Id", format!("other-{n}"));
        proxy.handle(&other);
        let again = Request::get("/other/path").with_header("x-session-id", "mine");
        assert_eq!(proxy.handle(&again).selected, first);
    }
}
