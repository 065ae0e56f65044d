# Echofront

Echofront is a resilience focused layer 7 reverse proxy and load balancer, written
and verified in Verus. It uses the Rust standard library only.

It spreads load over a pool of backends, notices when one goes bad, takes it out of
rotation, retries somewhere healthy without amplifying an incident, and lets the
backend in again when it recovers. All timing goes through a `Clock` and all calls
through an `Upstream`, so every decision is a function of state and time, and the
contracts say which function.

## Layout

- `src/` is the verified library. Each type has a view that its contracts speak of,
  and functions whose name starts with `law_` state what holds of the library as a
  whole.
- `tests/` runs the library from outside.
- `app/` is the command line around it: `demo` walks through an incident on a manual
  clock, `spread <strategy>` prints a distribution report.

## Use

```rust
use echofront::{
    Backend, BreakerConfig, HealthConfig, ManualClock, MockUpstream, Pool, Proxy, Request,
    RetryConfig, Route, Router, Strategy,
};

let health = HealthConfig::default();
let mut pool = Pool::new("web", Strategy::RoundRobin, health);
for name in ["a", "b"] {
    let up = MockUpstream::healthy(name);
    pool.add_backend(Backend::new(name, 1, up, &health, BreakerConfig::default()));
}

let mut router = Router::new();
router.add(Route::new(None, "/", "web"));

let mut proxy = Proxy::new(ManualClock::new(0), router, RetryConfig::default());
proxy.add_pool(pool);

let result = proxy.handle(&Request::get("/").with_header("Host", "example.com"));
assert!(result.is_success());

// Move time by hand to drive health checks and breaker cooldowns.
proxy.clock_mut().advance(1_000);
proxy.run_health_checks();
```

A pool holds upstreams of one type. To mix kinds of upstreams, make that type an
enum of them and implement `Upstream` for it.

## What is proved

- A selection never returns a backend that is unhealthy, ejected, excluded, or on an
  open circuit, and fails only when there is no capacity.
- Round robin visits every available backend once per cycle and in order. The weighted
  strategy gives every backend its exact share over a period, and whatever happened
  before stays within a fixed bound of the share. Least connections takes the idlest,
  and a session key moves only when its backend leaves or a newcomer takes it.
- Breakers, ejections, probes and the latency ramp follow their thresholds exactly,
  at every point of the clock's range.
- A request is attempted at most once per backend and at most once more than it may be
  retried, and retries never exceed what the token bucket can pay for.
- The counters of a backend are the outcomes and latencies that were recorded for it,
  those of the proxy the requests, retries and failovers there were, each once.
- The head of a parsed request ends at its first blank line, and the body is
  everything behind it.
- With scripted upstreams the same requests at the same times play out the same way.

Nothing is assumed but what `std::time` gives: which time the system has is left
open, and what `SystemClock` makes of it is not.
