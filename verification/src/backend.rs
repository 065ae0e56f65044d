//! One member of an upstream pool: its weight, its health and circuit state,
//! its latency average and the three ways it can be taken out of rotation.

use vstd::prelude::*;

use crate::breaker::elapsed;
use crate::breaker::BreakerConfig;
use crate::breaker::BreakerState;
use crate::breaker::BreakerView;
use crate::breaker::CircuitBreaker;
use crate::breaker::Phase;
use crate::ewma::saturated;
use crate::ewma::EwmaConfig;
use crate::http::Request;
use crate::http::RequestView;
use crate::text::IntoText;
use crate::upstream::ReplyView;
use crate::upstream::Upstream;
use crate::upstream::UpstreamReply;

verus! {

#[derive(Clone, Copy, Debug)]
pub struct HealthConfig {
    /// Minimum time between active probes for a backend.
    pub probe_interval_ms: u64,
    /// Consecutive failed probes that flip a backend to unhealthy.
    pub unhealthy_probe_threshold: u32,
    /// Consecutive good probes that flip a backend back to healthy.
    pub healthy_probe_threshold: u32,
    /// Consecutive real request failures that eject a backend as an outlier.
    pub outlier_consecutive_failures: u32,
    /// How long an outlier ejection lasts before reinstatement.
    pub ejection_base_ms: u64,
    pub start_healthy: bool,
}

impl Default for HealthConfig {
    fn default() -> (cfg: Self)
        ensures
            cfg == (HealthConfig {
                probe_interval_ms: 1_000,
                unhealthy_probe_threshold: 2,
                healthy_probe_threshold: 2,
                outlier_consecutive_failures: 5,
                ejection_base_ms: 5_000,
                start_healthy: true,
            }),
    {
        Self {
            probe_interval_ms: 1_000,
            unhealthy_probe_threshold: 2,
            healthy_probe_threshold: 2,
            outlier_consecutive_failures: 5,
            ejection_base_ms: 5_000,
            start_healthy: true,
        }
    }
}

/// What a backend is, apart from how it is stored.
pub struct BackendView<U> {
    pub name: Seq<char>,
    pub weight: u32,
    pub upstream: U,
    pub in_flight: u32,
    pub healthy: bool,
    pub probe_failures: nat,
    pub probe_successes: nat,
    pub last_probe: Option<u64>,
    pub outlier_failures: nat,
    pub ejected_until: Option<u64>,
    pub ejections: nat,
    pub breaker: BreakerView,
    pub current_weight: int,
    pub served: nat,
    pub ewma_milli: Option<u64>,
    pub ewma_samples: nat,
    pub over_since: Option<u64>,
    pub over_since_samples: nat,
    pub ewma_ejections: nat,
    pub ramp_percent: u32,
    pub last_ramp_step: Option<u64>,
}

/// `now + delay`, stopping at the top of the clock range.
pub open spec fn later(now: u64, delay: u64) -> u64 {
    saturated(now + delay) as u64
}

/// The percent a reinstated node starts at: at least one, at most all.
pub open spec fn starting_percent(cfg: EwmaConfig) -> u32 {
    if cfg.reinstate_percent < 1 {
        1
    } else if cfg.reinstate_percent > 100 {
        100
    } else {
        cfg.reinstate_percent
    }
}

impl<U> BackendView<U> {
    pub open spec fn fresh(
        name: Seq<char>,
        weight: u32,
        upstream: U,
        healthy: bool,
        breaker_cfg: BreakerConfig,
    ) -> BackendView<U> {
        BackendView {
            name,
            weight,
            upstream,
            in_flight: 0,
            healthy,
            probe_failures: 0,
            probe_successes: 0,
            last_probe: None,
            outlier_failures: 0,
            ejected_until: None,
            ejections: 0,
            breaker: BreakerView {
                cfg: breaker_cfg,
                phase: Phase::Closed { failures: 0 },
                trips: 0,
            },
            current_weight: 0,
            served: 0,
            ewma_milli: None,
            ewma_samples: 0,
            over_since: None,
            over_since_samples: 0,
            ewma_ejections: 0,
            ramp_percent: 100,
            last_ramp_step: None,
        }
    }

    pub open spec fn is_ejected(self, now: u64) -> bool {
        match self.ejected_until {
            Some(until) => now < until,
            None => false,
        }
    }

    /// Routable right now: healthy, not ejected, and the breaker admits one
    /// more call.
    pub open spec fn is_available(self, now: u64) -> bool {
        self.healthy && !self.is_ejected(now) && self.breaker.admits(now, self.in_flight)
    }

    /// Effective weight: the configured weight scaled by the ramp percent.
    pub open spec fn score(self) -> int {
        self.weight * self.ramp_percent
    }

    /// One more request is under way.
    pub open spec fn begun(self) -> BackendView<U> {
        BackendView { in_flight: (self.in_flight + 1) as u32, ..self }
    }

    /// One request less is under way, and never less than none.
    pub open spec fn ended(self) -> BackendView<U> {
        BackendView {
            in_flight: if self.in_flight > 0 {
                (self.in_flight - 1) as u32
            } else {
                0
            },
            ..self
        }
    }

    /// The backend after requests began and ended in the given order, `true`
    /// standing for a begin.
    pub open spec fn after_calls(self, calls: Seq<bool>) -> BackendView<U>
        decreases calls.len(),
    {
        if calls.len() == 0 {
            self
        } else if calls.last() {
            self.after_calls(calls.drop_last()).begun()
        } else {
            self.after_calls(calls.drop_last()).ended()
        }
    }

    /// The breaker has been told the time.
    pub open spec fn breaker_polled(self, now: u64) -> BackendView<U> {
        BackendView { breaker: self.breaker.polled(now), ..self }
    }

    /// An ejection whose time is up ends. With a latency layer the node comes
    /// back at partial weight.
    pub open spec fn reinstated(self, now: u64, ewma: Option<EwmaConfig>) -> BackendView<U> {
        if self.ejected_until is Some && !self.is_ejected(now) {
            let back = BackendView { ejected_until: None, outlier_failures: 0, ..self };
            match ewma {
                Some(cfg) => BackendView {
                    ramp_percent: starting_percent(cfg),
                    last_ramp_step: Some(now),
                    ..back
                },
                None => back,
            }
        } else {
            self
        }
    }

    /// While no ejection is active, each clean window doubles the ramp percent
    /// until the node is back at full weight.
    pub open spec fn ramped(self, now: u64, cfg: EwmaConfig) -> BackendView<U> {
        let due = match self.last_ramp_step {
            None => true,
            Some(step) => elapsed(step, now) >= cfg.ramp_window_ms,
        };
        if self.ejected_until is None && self.ramp_percent < 100 && due {
            BackendView {
                ramp_percent: if self.ramp_percent >= 50 {
                    100
                } else {
                    (self.ramp_percent * 2) as u32
                },
                last_ramp_step: Some(now),
                ..self
            }
        } else {
            self
        }
    }

    /// Enough samples, and an average over the line.
    pub open spec fn is_slow(self, cfg: EwmaConfig, line: u64) -> bool {
        &&& self.ewma_samples >= cfg.min_samples
        &&& match self.ewma_milli {
            Some(ewma) => ewma > line,
            None => false,
        }
    }

    /// The node has been slow for the whole window, and on fresh evidence: at
    /// least the minimum number of samples arrived since the window opened.
    pub open spec fn is_slow_for_long(self, now: u64, cfg: EwmaConfig, line: u64) -> bool {
        &&& self.ejected_until is None
        &&& self.is_slow(cfg, line)
        &&& match self.over_since {
            Some(since) => elapsed(since, now) >= cfg.window_ms && fresh_samples(
                self.ewma_samples,
                self.over_since_samples,
            ) >= cfg.min_samples,
            None => false,
        }
    }

    /// Sustained latency outlier evaluation, only while not already ejected.
    pub open spec fn judged(self, now: u64, cfg: EwmaConfig, line: u64) -> BackendView<U> {
        if self.ejected_until is Some {
            self
        } else if self.is_slow_for_long(now, cfg, line) {
            BackendView {
                ejected_until: Some(later(now, cfg.ejection_ms)),
                ewma_ejections: self.ewma_ejections + 1,
                over_since: None,
                ..self
            }
        } else if !self.is_slow(cfg, line) {
            BackendView { over_since: None, ..self }
        } else if self.over_since is None {
            BackendView { over_since: Some(now), over_since_samples: self.ewma_samples, ..self }
        } else {
            self
        }
    }

    /// The backend as the latency layer is about to judge it.
    pub open spec fn before_judgement(self, now: u64, cfg: EwmaConfig) -> BackendView<U> {
        self.breaker_polled(now).reinstated(now, Some(cfg)).ramped(now, cfg)
    }

    /// The backend once it has been told the time and the ejection line.
    pub open spec fn polled(self, now: u64, ewma: Option<EwmaConfig>, line: u64) -> BackendView<
        U,
    > {
        match ewma {
            Some(cfg) => self.before_judgement(now, cfg).judged(now, cfg, line),
            None => self.breaker_polled(now).reinstated(now, None),
        }
    }

    /// Polling ejects the backend as a latency outlier.
    pub open spec fn poll_ejects(self, now: u64, ewma: Option<EwmaConfig>, line: u64) -> bool {
        match ewma {
            Some(cfg) => self.before_judgement(now, cfg).is_slow_for_long(now, cfg, line),
            None => false,
        }
    }

    /// The backend after a successful call.
    pub open spec fn succeeded(self, now: u64) -> BackendView<U> {
        BackendView {
            served: self.served + 1,
            outlier_failures: 0,
            breaker: self.breaker.after_success(now),
            ..self
        }
    }

    /// The backend after a latency sample was folded into its average.
    pub open spec fn sampled(self, ewma: Option<EwmaConfig>, latency_ms: u64) -> BackendView<U> {
        match ewma {
            Some(cfg) => BackendView {
                ewma_milli: Some(cfg.folded(self.ewma_milli, latency_ms) as u64),
                ewma_samples: self.ewma_samples + 1,
                ..self
            },
            None => self,
        }
    }

    /// A failure at `now` completes a run that ejects the backend. A backend
    /// that is already ejected is not ejected again.
    pub open spec fn failure_ejects(self, now: u64, health: HealthConfig) -> bool {
        self.outlier_failures + 1 >= health.outlier_consecutive_failures && !self.is_ejected(now)
    }

    /// The backend after a failed call.
    pub open spec fn failed(self, now: u64, health: HealthConfig) -> BackendView<U> {
        let counted = BackendView {
            served: self.served + 1,
            outlier_failures: self.outlier_failures + 1,
            breaker: self.breaker.after_failure(now),
            ..self
        };
        if self.failure_ejects(now, health) {
            BackendView {
                ejected_until: Some(later(now, health.ejection_base_ms)),
                ejections: self.ejections + 1,
                ..counted
            }
        } else {
            counted
        }
    }

    /// The backend after a run of failed calls that ended at the given times.
    pub open spec fn after_failures(self, times: Seq<u64>, health: HealthConfig) -> BackendView<U>
        decreases times.len(),
    {
        if times.len() == 0 {
            self
        } else {
            self.after_failures(times.drop_last(), health).failed(times.last(), health)
        }
    }

    /// The counters have room for one more failed call.
    pub open spec fn can_fail(self, now: u64, health: HealthConfig) -> bool {
        &&& self.served < u64::MAX
        &&& self.outlier_failures < u32::MAX
        &&& self.breaker.trips_on_failure(now) ==> self.breaker.trips < u64::MAX
        &&& self.failure_ejects(now, health) ==> self.ejections < u64::MAX
    }

    pub open spec fn probe_due(self, now: u64, health: HealthConfig) -> bool {
        match self.last_probe {
            None => true,
            Some(at) => elapsed(at, now) >= health.probe_interval_ms,
        }
    }

    /// The backend after a probe at `now` found it live or not.
    pub open spec fn probed(self, now: u64, live: bool, health: HealthConfig) -> BackendView<U> {
        let noted = BackendView {
            last_probe: Some(now),
            probe_successes: if live {
                self.probe_successes + 1
            } else {
                0
            },
            probe_failures: if live {
                0
            } else {
                self.probe_failures + 1
            },
            ..self
        };
        if live && !self.healthy && noted.probe_successes >= health.healthy_probe_threshold {
            BackendView { healthy: true, probe_successes: 0, ..noted }
        } else if !live && self.healthy && noted.probe_failures
            >= health.unhealthy_probe_threshold {
            BackendView { healthy: false, probe_failures: 0, ..noted }
        } else {
            noted
        }
    }
}

impl<U> BackendView<U> {
    /// The backend after a run of probes at the given times that all came out
    /// the same.
    pub open spec fn after_probes(
        self,
        times: Seq<u64>,
        live: bool,
        health: HealthConfig,
    ) -> BackendView<U>
        decreases times.len(),
    {
        if times.len() == 0 {
            self
        } else {
            self.after_probes(times.drop_last(), live, health).probed(times.last(), live, health)
        }
    }

    /// The backend after ramp steps at the given times.
    pub open spec fn after_ramps(self, times: Seq<u64>, cfg: EwmaConfig) -> BackendView<U>
        decreases times.len(),
    {
        if times.len() == 0 {
            self
        } else {
            self.after_ramps(times.drop_last(), cfg).ramped(times.last(), cfg)
        }
    }
}

/// A percent that doubled `n` times, at most all.
pub open spec fn doubled(percent: int, n: nat) -> int
    decreases n,
{
    if n == 0 {
        percent
    } else if doubled(percent, (n - 1) as nat) >= 50 {
        100
    } else {
        2 * doubled(percent, (n - 1) as nat)
    }
}

/// The samples that arrived since the count stood at `then`.
pub open spec fn fresh_samples(samples: nat, then: nat) -> nat {
    if samples >= then {
        (samples - then) as nat
    } else {
        0
    }
}

pub struct Backend<U> {
    pub name: String,
    pub weight: u32,
    upstream: U,
    pub in_flight: u32,
    healthy: bool,
    probe_failures: u32,
    probe_successes: u32,
    last_probe: Option<u64>,
    outlier_failures: u32,
    ejected_until: Option<u64>,
    ejections: u64,
    breaker: CircuitBreaker,
    current_weight: i128,
    served: u64,
    latency_ewma_milli: Option<u64>,
    ewma_samples: u32,
    over_since: Option<u64>,
    over_since_samples: u32,
    ewma_ejections: u64,
    ramp_percent: u32,
    last_ramp_step: Option<u64>,
}

impl<U> View for Backend<U> {
    type V = BackendView<U>;

    closed spec fn view(&self) -> BackendView<U> {
        BackendView {
            name: self.name@,
            weight: self.weight,
            upstream: self.upstream,
            in_flight: self.in_flight,
            healthy: self.healthy,
            probe_failures: self.probe_failures as nat,
            probe_successes: self.probe_successes as nat,
            last_probe: self.last_probe,
            outlier_failures: self.outlier_failures as nat,
            ejected_until: self.ejected_until,
            ejections: self.ejections as nat,
            breaker: self.breaker@,
            current_weight: self.current_weight as int,
            served: self.served as nat,
            ewma_milli: self.latency_ewma_milli,
            ewma_samples: self.ewma_samples as nat,
            over_since: self.over_since,
            over_since_samples: self.over_since_samples as nat,
            ewma_ejections: self.ewma_ejections as nat,
            ramp_percent: self.ramp_percent,
            last_ramp_step: self.last_ramp_step,
        }
    }
}

/// `later` as a number to compute with.
fn later_by(now: u64, delay: u64) -> (at: u64)
    ensures
        at == later(now, delay),
{
    now.saturating_add(delay)
}

impl<U> Backend<U> {
    /// A weight of zero is meaningful: the node gets no traffic under the
    /// weighted strategy. Other strategies ignore weight.
    pub fn new<N: IntoText>(
        name: N,
        weight: u32,
        upstream: U,
        health: &HealthConfig,
        breaker_cfg: BreakerConfig,
    ) -> (backend: Self)
        ensures
            backend@ == BackendView::fresh(
                name.text(),
                weight,
                upstream,
                health.start_healthy,
                breaker_cfg,
            ),
    {
        Self {
            name: name.into_text(),
            weight,
            upstream,
            in_flight: 0,
            healthy: health.start_healthy,
            probe_failures: 0,
            probe_successes: 0,
            last_probe: None,
            outlier_failures: 0,
            ejected_until: None,
            ejections: 0,
            breaker: CircuitBreaker::new(breaker_cfg),
            current_weight: 0,
            served: 0,
            latency_ewma_milli: None,
            ewma_samples: 0,
            over_since: None,
            over_since_samples: 0,
            ewma_ejections: 0,
            ramp_percent: 100,
            last_ramp_step: None,
        }
    }

    pub fn name(&self) -> (name: &str)
        ensures
            name@ == self@.name,
    {
        self.name.as_str()
    }

    pub fn weight(&self) -> (weight: u32)
        ensures
            weight == self@.weight,
    {
        self.weight
    }

    pub fn in_flight(&self) -> (in_flight: u32)
        ensures
            in_flight == self@.in_flight,
    {
        self.in_flight
    }

    pub fn is_healthy(&self) -> (healthy: bool)
        ensures
            healthy == self@.healthy,
    {
        self.healthy
    }

    pub fn is_ejected(&self, now: u64) -> (ejected: bool)
        ensures
            ejected == self@.is_ejected(now),
    {
        match self.ejected_until {
            Some(until) => now < until,
            None => false,
        }
    }

    pub fn ejected_until(&self) -> (until: Option<u64>)
        ensures
            until == self@.ejected_until,
    {
        self.ejected_until
    }

    pub fn breaker_state(&self) -> (state: BreakerState)
        ensures
            state == self@.breaker.state(),
    {
        self.breaker.state()
    }

    pub fn served(&self) -> (served: u64)
        ensures
            served == self@.served,
    {
        self.served
    }

    pub fn ejections(&self) -> (ejections: u64)
        ensures
            ejections == self@.ejections,
    {
        self.ejections
    }

    pub fn ewma_milli(&self) -> (ewma: Option<u64>)
        ensures
            ewma == self@.ewma_milli,
    {
        self.latency_ewma_milli
    }

    pub fn ewma_samples(&self) -> (samples: u32)
        ensures
            samples == self@.ewma_samples,
    {
        self.ewma_samples
    }

    pub fn ewma_ejections(&self) -> (ejections: u64)
        ensures
            ejections == self@.ewma_ejections,
    {
        self.ewma_ejections
    }

    /// Current reinstatement ramp percent, 100 means full weight.
    pub fn ramp_percent(&self) -> (percent: u32)
        ensures
            percent == self@.ramp_percent,
    {
        self.ramp_percent
    }

    /// Available means routable right now: healthy, not ejected, breaker allows
    /// the call (including the half open trial cap), and under `HalfOpen` a trial
    /// slot is free.
    pub fn is_available(&self, now: u64) -> (available: bool)
        ensures
            available == self@.is_available(now),
    {
        self.healthy && !self.is_ejected(now) && self.breaker.admits(now, self.in_flight)
    }

    /// Effective weight of the node for the weighted strategy: configured weight
    /// scaled by the reinstatement ramp percent. With no EWMA layer the ramp is
    /// always 100.
    pub(crate) fn score(&self) -> (score: i64)
        requires
            self@.ramp_percent <= 100,
        ensures
            score == self@.score(),
            0 <= score <= 100 * self@.weight,
    {
        assert(0 <= self.weight * self.ramp_percent <= self.weight * 100) by (nonlinear_arith)
            requires
                0 <= self.weight,
                0 <= self.ramp_percent <= 100,
        ;
        self.weight as i64 * self.ramp_percent as i64
    }

    pub(crate) fn current_weight(&self) -> (weight: i128)
        ensures
            weight == self@.current_weight,
    {
        self.current_weight
    }

    /// Move the running weight that the weighted strategy keeps.
    pub(crate) fn add_weight(&mut self, delta: i128)
        requires
            delta > 0 ==> old(self)@.current_weight + delta <= i128::MAX,
            delta < 0 ==> old(self)@.current_weight + delta >= i128::MIN,
        ensures
            final(self)@ == (BackendView {
                current_weight: old(self)@.current_weight + delta,
                ..old(self)@
            }),
    {
        self.current_weight = self.current_weight + delta;
    }

    pub(crate) fn begin(&mut self)
        requires
            old(self)@.in_flight < u32::MAX,
        ensures
            final(self)@ == old(self)@.begun(),
    {
        self.in_flight = self.in_flight + 1;
    }

    pub(crate) fn end(&mut self)
        ensures
            final(self)@ == old(self)@.ended(),
    {
        self.in_flight = self.in_flight.saturating_sub(1);
    }

    /// Tell the backend the time and, with a latency layer, the ejection line.
    pub(crate) fn poll(&mut self, now: u64, ewma: Option<EwmaConfig>, line: u64)
        requires
            old(self)@.poll_ejects(now, ewma, line) ==> old(self)@.ewma_ejections < u64::MAX,
        ensures
            final(self)@ == old(self)@.polled(now, ewma, line),
    {
        self.breaker.poll(now);
        if let Some(until) = self.ejected_until {
            if now >= until {
                self.ejected_until = None;
                self.outlier_failures = 0;
                // A reinstated node comes back at partial weight and ramps up
                // only while it stays clean.
                if let Some(cfg) = ewma {
                    self.ramp_percent = if cfg.reinstate_percent < 1 {
                        1
                    } else if cfg.reinstate_percent > 100 {
                        100
                    } else {
                        cfg.reinstate_percent
                    };
                    self.last_ramp_step = Some(now);
                }
            }
        }
        assert(self@ == old(self)@.breaker_polled(now).reinstated(now, ewma));
        if let Some(cfg) = ewma {
            self.ramp(now, &cfg);
            self.judge(now, &cfg, line);
        }
    }

    /// Ramp up while no ejection is active.
    fn ramp(&mut self, now: u64, cfg: &EwmaConfig)
        ensures
            final(self)@ == old(self)@.ramped(now, *cfg),
    {
        if self.ejected_until.is_none() && self.ramp_percent < 100 {
            let due: bool = match self.last_ramp_step {
                None => true,
                Some(step) => now.saturating_sub(step) >= cfg.ramp_window_ms,
            };
            if due {
                self.ramp_percent = if self.ramp_percent >= 50 {
                    100
                } else {
                    self.ramp_percent * 2
                };
                self.last_ramp_step = Some(now);
            }
        }
    }

    /// Sustained latency outlier evaluation. Only while not already ejected, and
    /// the sustained window counts only when fresh evidence arrived, so a
    /// reinstated node is never re ejected on stale samples it cannot improve
    /// while it receives little traffic.
    fn judge(&mut self, now: u64, cfg: &EwmaConfig, line: u64)
        requires
            old(self)@.is_slow_for_long(now, *cfg, line) ==> old(self)@.ewma_ejections < u64::MAX,
        ensures
            final(self)@ == old(self)@.judged(now, *cfg, line),
    {
        if self.ejected_until.is_some() {
            return;
        }
        let ewma_milli: u64 = match self.latency_ewma_milli {
            Some(ewma) => ewma,
            None => 0,
        };
        if self.ewma_samples >= cfg.min_samples && ewma_milli > line {
            match self.over_since {
                None => {
                    self.over_since = Some(now);
                    self.over_since_samples = self.ewma_samples;
                },
                Some(since) => {
                    let fresh: u32 = self.ewma_samples.saturating_sub(self.over_since_samples);
                    if now.saturating_sub(since) >= cfg.window_ms && fresh >= cfg.min_samples {
                        self.ejected_until = Some(later_by(now, cfg.ejection_ms));
                        self.ewma_ejections = self.ewma_ejections + 1;
                        self.over_since = None;
                    }
                },
            }
        } else {
            self.over_since = None;
        }
    }

    pub(crate) fn record_success(&mut self, now: u64)
        requires
            old(self)@.served < u64::MAX,
        ensures
            final(self)@ == old(self)@.succeeded(now),
    {
        self.served = self.served + 1;
        self.outlier_failures = 0;
        self.breaker.on_success(now);
    }

    pub(crate) fn record_latency(&mut self, cfg: &EwmaConfig, latency_ms: u64)
        requires
            old(self)@.ewma_samples < u32::MAX,
        ensures
            final(self)@ == old(self)@.sampled(Some(*cfg), latency_ms),
    {
        self.latency_ewma_milli = Some(cfg.fold(self.latency_ewma_milli, latency_ms));
        self.ewma_samples = self.ewma_samples + 1;
    }

    pub(crate) fn record_failure(&mut self, now: u64, health: &HealthConfig)
        requires
            old(self)@.can_fail(now, *health),
        ensures
            final(self)@ == old(self)@.failed(now, *health),
    {
        self.served = self.served + 1;
        self.breaker.on_failure(now);
        self.outlier_failures = self.outlier_failures + 1;
        let already_ejected: bool = self.is_ejected(now);
        if self.outlier_failures >= health.outlier_consecutive_failures && !already_ejected {
            self.ejected_until = Some(later_by(now, health.ejection_base_ms));
            self.ejections = self.ejections + 1;
        }
    }

    pub(crate) fn probe_due(&self, now: u64, health: &HealthConfig) -> (due: bool)
        ensures
            due == self@.probe_due(now, *health),
    {
        match self.last_probe {
            None => true,
            Some(at) => now.saturating_sub(at) >= health.probe_interval_ms,
        }
    }

    /// Take the result of a probe into account.
    pub(crate) fn record_probe(&mut self, now: u64, live: bool, health: &HealthConfig)
        requires
            live ==> old(self)@.probe_successes < u32::MAX,
            !live ==> old(self)@.probe_failures < u32::MAX,
        ensures
            final(self)@ == old(self)@.probed(now, live, *health),
    {
        self.last_probe = Some(now);
        if live {
            self.probe_successes = self.probe_successes + 1;
            self.probe_failures = 0;
            if !self.healthy && self.probe_successes >= health.healthy_probe_threshold {
                self.healthy = true;
                self.probe_successes = 0;
            }
        } else {
            self.probe_failures = self.probe_failures + 1;
            self.probe_successes = 0;
            if self.healthy && self.probe_failures >= health.unhealthy_probe_threshold {
                self.healthy = false;
                self.probe_failures = 0;
            }
        }
    }
}

impl<U: Upstream> BackendView<U> {
    /// Sending `req` to the backend may give `reply` and leave it as `post`.
    pub open spec fn answers(
        self,
        req: RequestView,
        reply: ReplyView,
        post: BackendView<U>,
    ) -> bool {
        &&& self.upstream.answers(req, reply, &post.upstream)
        &&& post == (BackendView { upstream: post.upstream, ..self })
    }

    /// Checking the backend at `now` may leave it as `post`: it is probed when
    /// a probe is due, and left alone otherwise.
    pub open spec fn checked(self, now: u64, health: HealthConfig, post: BackendView<U>) -> bool {
        if self.probe_due(now, health) {
            exists|live: bool| #[trigger]
                self.upstream.probed(live, &post.upstream) && post == (BackendView {
                    upstream: post.upstream,
                    ..self
                }).probed(now, live, health)
        } else {
            post == self
        }
    }

    /// The counters have room for one more probe.
    pub open spec fn can_be_probed(self) -> bool {
        &&& self.upstream.ready()
        &&& self.probe_successes < u32::MAX
        &&& self.probe_failures < u32::MAX
    }
}

impl<U: Upstream> Backend<U> {
    /// Send a request to the upstream and nothing else.
    pub(crate) fn send(&mut self, req: &Request) -> (reply: UpstreamReply)
        requires
            old(self)@.upstream.ready(),
        ensures
            old(self)@.answers(req@, reply@, final(self)@),
    {
        self.upstream.send(req)
    }

    /// Probe the upstream if a probe is due, and take the result into account.
    pub(crate) fn check(&mut self, now: u64, health: &HealthConfig)
        requires
            old(self)@.probe_due(now, *health) ==> old(self)@.can_be_probed(),
        ensures
            old(self)@.checked(now, *health, final(self)@),
    {
        if self.probe_due(now, health) {
            let live: bool = self.upstream.probe();
            assert(old(self)@.upstream.probed(live, &self@.upstream));
            self.record_probe(now, live, health);
        }
    }
}

/// A continuous ejection counts exactly once and ends on schedule: failures that
/// land while the backend is ejected neither count again nor extend it.
pub proof fn law_continuous_ejection_counts_once<U>(
    b: BackendView<U>,
    times: Seq<u64>,
    health: HealthConfig,
)
    requires
        forall|k: int| 0 <= k < times.len() ==> b.is_ejected(#[trigger] times[k]),
    ensures
        b.after_failures(times, health).ejections == b.ejections,
        b.after_failures(times, health).ejected_until == b.ejected_until,
        b.after_failures(times, health).ewma_ejections == b.ewma_ejections,
    decreases times.len(),
{
    if times.len() > 0 {
        let front = times.drop_last();
        assert forall|k: int| 0 <= k < front.len() implies b.is_ejected(#[trigger] front[k]) by {
            assert(front[k] == times[k]);
        }
        law_continuous_ejection_counts_once(b, front, health);
        assert(times.last() == times[times.len() - 1]);
        assert(b.is_ejected(times[times.len() - 1]));
    }
}

/// A run of failures on a backend that is in rotation ejects it exactly when
/// the run reaches the threshold: once, at the last failure, until the cooldown
/// after it is over. A threshold of zero acts like a threshold of one.
pub proof fn law_failure_run_ejects<U>(b: BackendView<U>, times: Seq<u64>, health: HealthConfig)
    requires
        b.ejected_until is None,
        b.outlier_failures == 0,
        times.len() >= 1,
    ensures
        times.len() < health.outlier_consecutive_failures ==> {
            &&& b.after_failures(times, health).ejected_until is None
            &&& b.after_failures(times, health).ejections == b.ejections
            &&& b.after_failures(times, health).outlier_failures == times.len()
        },
        times.len() == health.outlier_consecutive_failures || (health.outlier_consecutive_failures
            == 0 && times.len() == 1) ==> {
            &&& b.after_failures(times, health).ejected_until == Some(
                later(times.last(), health.ejection_base_ms),
            )
            &&& b.after_failures(times, health).ejections == b.ejections + 1
        },
    decreases times.len(),
{
    reveal_with_fuel(BackendView::after_failures, 2);
    if times.len() > 1 {
        law_failure_run_ejects(b, times.drop_last(), health);
    }
}

/// A success starts the count of consecutive failures over and leaves the
/// latency average alone.
pub proof fn law_success_resets_failure_count<U>(b: BackendView<U>, now: u64)
    ensures
        b.succeeded(now).outlier_failures == 0,
        b.succeeded(now).ewma_milli == b.ewma_milli,
        b.succeeded(now).ewma_samples == b.ewma_samples,
{
}

/// An ejection holds until its time and no longer: before it polling changes
/// nothing about it, and from then on polling clears it. The time saturates at
/// the top of the clock.
pub proof fn law_ejection_expires_on_schedule<U>(
    b: BackendView<U>,
    until: u64,
    now: u64,
    ewma: Option<EwmaConfig>,
    line: u64,
)
    requires
        b.ejected_until == Some(until),
    ensures
        b.is_ejected(now) <==> now < until,
        now < until ==> b.polled(now, ewma, line).ejected_until == Some(until),
        now >= until && !b.poll_ejects(now, ewma, line) ==> b.polled(
            now,
            ewma,
            line,
        ).ejected_until is None && b.polled(now, ewma, line).outlier_failures == 0,
{
}

/// The time an ejection ends never lies before the time it began, whatever the
/// cooldown, and is exact as long as the clock can show it.
pub proof fn law_ejection_time_saturates(now: u64, delay: u64)
    ensures
        now <= later(now, delay),
        now + delay <= u64::MAX ==> later(now, delay) == now + delay,
        now + delay > u64::MAX ==> later(now, delay) == u64::MAX,
{
}

/// Probes land one interval apart: after a probe the next one is due as soon as
/// the interval has passed, and not before. The first is due at once.
pub proof fn law_probes_keep_their_interval<U>(
    b: BackendView<U>,
    at: u64,
    live: bool,
    now: u64,
    health: HealthConfig,
)
    requires
        at <= now,
    ensures
        b.last_probe is None ==> b.probe_due(now, health),
        b.probed(at, live, health).probe_due(now, health) <==> now - at >= health.probe_interval_ms,
{
}

/// A healthy backend turns unhealthy exactly when a run of failed probes
/// reaches the threshold.
pub proof fn law_failed_probes_take_out<U>(
    b: BackendView<U>,
    times: Seq<u64>,
    health: HealthConfig,
)
    requires
        b.healthy,
        b.probe_failures == 0,
        times.len() >= 1,
    ensures
        times.len() < health.unhealthy_probe_threshold ==> b.after_probes(
            times,
            false,
            health,
        ).healthy && b.after_probes(times, false, health).probe_failures == times.len(),
        times.len() == health.unhealthy_probe_threshold || (health.unhealthy_probe_threshold == 0
            && times.len() == 1) ==> !b.after_probes(times, false, health).healthy
            && b.after_probes(times, false, health).probe_failures == 0,
    decreases times.len(),
{
    reveal_with_fuel(BackendView::after_probes, 2);
    if times.len() > 1 {
        law_failed_probes_take_out(b, times.drop_last(), health);
    }
}

/// An unhealthy backend turns healthy exactly when a run of good probes
/// reaches the threshold.
pub proof fn law_good_probes_bring_back<U>(
    b: BackendView<U>,
    times: Seq<u64>,
    health: HealthConfig,
)
    requires
        !b.healthy,
        b.probe_successes == 0,
        times.len() >= 1,
    ensures
        times.len() < health.healthy_probe_threshold ==> !b.after_probes(
            times,
            true,
            health,
        ).healthy && b.after_probes(times, true, health).probe_successes == times.len(),
        times.len() == health.healthy_probe_threshold || (health.healthy_probe_threshold == 0
            && times.len() == 1) ==> b.after_probes(times, true, health).healthy
            && b.after_probes(times, true, health).probe_successes == 0,
    decreases times.len(),
{
    reveal_with_fuel(BackendView::after_probes, 2);
    if times.len() > 1 {
        law_good_probes_bring_back(b, times.drop_last(), health);
    }
}

/// A node whose latency average is within tolerance is never ejected for
/// latency, and a poll clears what was held against it.
pub proof fn law_node_within_tolerance_stays<U>(
    b: BackendView<U>,
    now: u64,
    cfg: EwmaConfig,
    line: u64,
)
    requires
        !b.is_slow(cfg, line),
    ensures
        !b.poll_ejects(now, Some(cfg), line),
        b.polled(now, Some(cfg), line).ewma_ejections == b.ewma_ejections,
        !b.is_ejected(now) ==> b.polled(now, Some(cfg), line).ejected_until is None
            && b.polled(now, Some(cfg), line).over_since is None,
{
}

/// Without a latency layer no poll ejects anybody.
pub proof fn law_no_latency_layer_no_ejection<U>(b: BackendView<U>, now: u64)
    ensures
        b.polled(now, None, 0).ewma_ejections == b.ewma_ejections,
        b.polled(now, None, 0).ramp_percent == b.ramp_percent,
        !b.is_ejected(now) ==> b.polled(now, None, 0).ejected_until is None,
{
}

/// A latency ejection needs a sustained window and fresh evidence: the node was
/// seen over the line at least a window ago, and at least the minimum number of
/// samples arrived since. The ejection closes the window, so the next one needs
/// fresh evidence again.
pub proof fn law_latency_ejection_needs_evidence<U>(
    b: BackendView<U>,
    now: u64,
    cfg: EwmaConfig,
    line: u64,
)
    requires
        b.poll_ejects(now, Some(cfg), line),
    ensures
        b.is_slow(cfg, line),
        b.over_since is Some,
        elapsed(b.over_since->0, now) >= cfg.window_ms,
        fresh_samples(b.ewma_samples, b.over_since_samples) >= cfg.min_samples,
        b.polled(now, Some(cfg), line).ejected_until == Some(later(now, cfg.ejection_ms)),
        b.polled(now, Some(cfg), line).ewma_ejections == b.ewma_ejections + 1,
        b.polled(now, Some(cfg), line).over_since is None,
{
}

/// The window opens when a node in rotation is first seen over the line, and
/// remembers how many samples there were.
pub proof fn law_slow_node_opens_window<U>(
    b: BackendView<U>,
    now: u64,
    cfg: EwmaConfig,
    line: u64,
)
    requires
        b.is_slow(cfg, line),
        b.over_since is None,
        !b.is_ejected(now),
    ensures
        !b.poll_ejects(now, Some(cfg), line),
        b.polled(now, Some(cfg), line).over_since == Some(now),
        b.polled(now, Some(cfg), line).over_since_samples == b.ewma_samples,
{
}

/// A node that is still over the line a whole window after it was first seen
/// there is ejected as soon as the evidence is fresh.
pub proof fn law_sustained_slow_node_is_ejected<U>(
    b: BackendView<U>,
    now: u64,
    cfg: EwmaConfig,
    line: u64,
)
    requires
        b.is_slow(cfg, line),
        !b.is_ejected(now),
        b.over_since is Some,
        elapsed(b.over_since->0, now) >= cfg.window_ms,
        fresh_samples(b.ewma_samples, b.over_since_samples) >= cfg.min_samples,
    ensures
        b.poll_ejects(now, Some(cfg), line),
        b.polled(now, Some(cfg), line).ejected_until == Some(later(now, cfg.ejection_ms)),
{
}

/// A node comes back at the configured part of its weight, at least one percent
/// and at most all of it, and its ramp starts counting from then.
pub proof fn law_node_comes_back_at_partial_weight<U>(
    b: BackendView<U>,
    until: u64,
    now: u64,
    cfg: EwmaConfig,
    line: u64,
)
    requires
        b.ejected_until == Some(until),
        until <= now,
        cfg.ramp_window_ms > 0,
    ensures
        b.polled(now, Some(cfg), line).ramp_percent == starting_percent(cfg),
        b.polled(now, Some(cfg), line).last_ramp_step == Some(now),
        1 <= starting_percent(cfg) <= 100,
{
}

/// Polling a node in rotation that is not slow takes the ramp step that is due,
/// and no other.
pub proof fn law_clean_poll_takes_ramp_step<U>(
    b: BackendView<U>,
    now: u64,
    cfg: EwmaConfig,
    line: u64,
)
    requires
        b.ejected_until is None,
        !b.is_slow(cfg, line),
    ensures
        b.polled(now, Some(cfg), line) == (BackendView {
            over_since: None,
            ..b.breaker_polled(now).ramped(now, cfg)
        }),
{
}

/// Each clean window doubles the percent until the node is back at full weight.
pub proof fn law_ramp_doubles<U>(b: BackendView<U>, times: Seq<u64>, cfg: EwmaConfig)
    requires
        b.ejected_until is None,
        1 <= b.ramp_percent <= 100,
        b.last_ramp_step is Some,
        times.len() >= 1 ==> elapsed(b.last_ramp_step->0, times[0]) >= cfg.ramp_window_ms,
        forall|k: int|
            0 < k < times.len() ==> elapsed(times[k - 1], #[trigger] times[k])
                >= cfg.ramp_window_ms,
    ensures
        b.after_ramps(times, cfg).ramp_percent == doubled(b.ramp_percent as int, times.len()),
        b.after_ramps(times, cfg).ejected_until is None,
        1 <= b.after_ramps(times, cfg).ramp_percent <= 100,
        b.after_ramps(times, cfg).ramp_percent < 100 && times.len() >= 1 ==> b.after_ramps(
            times,
            cfg,
        ).last_ramp_step == Some(times.last()),
    decreases times.len(),
{
    if times.len() > 0 {
        let front = times.drop_last();
        assert forall|k: int| 0 < k < front.len() implies elapsed(front[k - 1], #[trigger] front[k])
            >= cfg.ramp_window_ms by {
            assert(front[k] == times[k] && front[k - 1] == times[k - 1]);
        }
        law_ramp_doubles(b, front, cfg);
        assert(times.last() == times[times.len() - 1]);
    }
}

/// Seven clean windows bring a node from any percent back to full weight.
pub proof fn law_ramp_ends_at_full_weight(percent: int, n: nat)
    requires
        1 <= percent <= 100,
        n >= 7,
    ensures
        doubled(percent, n) == 100,
    decreases n,
{
    if n == 7 {
        reveal_with_fuel(doubled, 8);
    } else {
        law_ramp_ends_at_full_weight(percent, (n - 1) as nat);
    }
}

/// How many of the calls are begins.
pub open spec fn begins(calls: Seq<bool>) -> nat
    decreases calls.len(),
{
    if calls.len() == 0 {
        0
    } else {
        begins(calls.drop_last()) + (if calls.last() {
            1nat
        } else {
            0nat
        })
    }
}

/// None of the calls ends a request that has not begun, and the count has room for
/// those under way.
pub open spec fn calls_fit<U>(b: BackendView<U>, calls: Seq<bool>) -> bool {
    forall|n: int|
        0 <= n <= calls.len() ==> 0 <= b.in_flight + 2 * begins(#[trigger] calls.take(n)) - n
            <= u32::MAX
}

/// Requests that begin and end are accounted for in whatever order they end, as
/// long as none ends that has not begun and the count has room.
pub proof fn law_calls_are_accounted_for<U>(b: BackendView<U>, calls: Seq<bool>)
    requires
        calls_fit(b, calls),
    ensures
        b.after_calls(calls) == (BackendView {
            in_flight: (b.in_flight + 2 * begins(calls) - calls.len()) as u32,
            ..b
        }),
        0 <= b.in_flight + 2 * begins(calls) - calls.len() <= u32::MAX,
    decreases calls.len(),
{
    assert(calls.take(calls.len() as int) =~= calls);
    if calls.len() > 0 {
        let front = calls.drop_last();
        assert forall|n: int| 0 <= n <= front.len() implies 0 <= b.in_flight + 2 * begins(
            #[trigger] front.take(n),
        ) - n <= u32::MAX by {
            assert(front.take(n) =~= calls.take(n));
        }
        law_calls_are_accounted_for(b, front);
    }
}

/// An end without a begin leaves the count at zero.
pub proof fn law_in_flight_never_goes_below_zero<U>(b: BackendView<U>)
    requires
        b.in_flight == 0,
    ensures
        b.ended() == b,
{
}

/// A new backend has done nothing: it is as healthy as it was told to be, at full
/// weight, with nothing under way, nothing counted and its breaker closed. So it can be
/// called at once exactly when it starts healthy.
pub proof fn law_new_backend_is_untouched<U>(
    name: Seq<char>,
    weight: u32,
    upstream: U,
    healthy: bool,
    breaker_cfg: BreakerConfig,
    now: u64,
)
    ensures
        ({
            let b = BackendView::fresh(name, weight, upstream, healthy, breaker_cfg);
            &&& b.name == name && b.weight == weight && b.upstream == upstream
            &&& b.healthy == healthy
            &&& b.is_available(now) <==> healthy
            &&& b.score() == 100 * weight
            &&& b.in_flight == 0 && b.served == 0 && b.current_weight == 0
            &&& b.probe_failures == 0 && b.probe_successes == 0 && b.last_probe is None
            &&& b.outlier_failures == 0 && b.ejected_until is None && b.ejections == 0
            &&& b.breaker.cfg == breaker_cfg && b.breaker.trips == 0
            &&& b.breaker.phase == (Phase::Closed { failures: 0 })
            &&& b.ewma_milli is None && b.ewma_samples == 0
            &&& b.over_since is None && b.over_since_samples == 0 && b.ewma_ejections == 0
            &&& b.ramp_percent == 100 && b.last_ramp_step is None
        }),
{
    assert(weight * 100 == 100 * weight) by (nonlinear_arith);
}

/// A backend can be called exactly when it is healthy, no ejection reaches beyond now,
/// and its breaker lets a call through: always when closed, in a trial while fewer calls
/// are under way than may be, and when open only once the cooldown has passed, as in a
/// trial.
pub proof fn law_availability_is_three_gates<U>(b: BackendView<U>, now: u64)
    ensures
        b.is_available(now) <==> {
            &&& b.healthy
            &&& b.ejected_until matches Some(until) ==> until <= now
            &&& match b.breaker.phase {
                Phase::Closed { .. } => true,
                Phase::HalfOpen { .. } => b.in_flight < b.breaker.cfg.half_open_max_calls,
                Phase::Open { since } => {
                    &&& b.breaker.cfg.cooldown_ms == 0 || now >= since + b.breaker.cfg.cooldown_ms
                    &&& b.in_flight < b.breaker.cfg.half_open_max_calls
                },
            }
        },
        b.is_ejected(now) <==> (b.ejected_until matches Some(until) && now < until),
        b.score() == b.weight * b.ramp_percent,
{
}

/// A success counts one outcome, ends the run of failures, tells the breaker, and
/// changes nothing else.
pub proof fn law_success_changes_nothing_else<U>(b: BackendView<U>, now: u64)
    ensures
        ({
            let a = b.succeeded(now);
            &&& a == (BackendView {
                served: a.served,
                outlier_failures: a.outlier_failures,
                breaker: a.breaker,
                ..b
            })
            &&& a.served == b.served + 1
            &&& a.outlier_failures == 0
            &&& a.breaker == b.breaker.after_success(now)
        }),
{
}

/// A failure counts one outcome and one more failure in a row, and tells the breaker. It
/// ejects the backend exactly when the run is then as long as the threshold and no
/// ejection is under way, for the configured time, and changes nothing else.
pub proof fn law_failure_changes_nothing_else<U>(b: BackendView<U>, now: u64, health: HealthConfig)
    ensures
        ({
            let a = b.failed(now, health);
            let out = b.ejected_until matches Some(until) && now < until;
            let ejects = !out && b.outlier_failures + 1 >= health.outlier_consecutive_failures;
            &&& a == (BackendView {
                served: a.served,
                outlier_failures: a.outlier_failures,
                breaker: a.breaker,
                ejected_until: a.ejected_until,
                ejections: a.ejections,
                ..b
            })
            &&& a.served == b.served + 1
            &&& a.outlier_failures == b.outlier_failures + 1
            &&& a.breaker == b.breaker.after_failure(now)
            &&& a.ejections == b.ejections + (if ejects {
                1nat
            } else {
                0nat
            })
            &&& !ejects ==> a.ejected_until == b.ejected_until
            &&& ejects && now + health.ejection_base_ms <= u64::MAX ==> a.ejected_until is Some
                && a.ejected_until->0 == now + health.ejection_base_ms
            &&& ejects && now + health.ejection_base_ms > u64::MAX ==> a.ejected_until == Some(
                u64::MAX,
            )
        }),
{
}

/// How a call ended, and when.
pub struct CallEnd {
    pub at: u64,
    pub good: bool,
}

impl<U> BackendView<U> {
    /// The backend after calls that ended in the given order.
    pub open spec fn after_ends(self, ends: Seq<CallEnd>, health: HealthConfig) -> BackendView<U>
        decreases ends.len(),
    {
        if ends.len() == 0 {
            self
        } else {
            let before = self.after_ends(ends.drop_last(), health);
            if ends.last().good {
                before.succeeded(ends.last().at)
            } else {
                before.failed(ends.last().at, health)
            }
        }
    }

    /// The backend after probes with the given times and results.
    pub open spec fn after_results(
        self,
        probes: Seq<(u64, bool)>,
        health: HealthConfig,
    ) -> BackendView<U>
        decreases probes.len(),
    {
        if probes.len() == 0 {
            self
        } else {
            let (at, live) = probes.last();
            self.after_results(probes.drop_last(), health).probed(at, live, health)
        }
    }
}

/// How many of the last calls failed in a row.
pub open spec fn failed_in_a_row(ends: Seq<CallEnd>) -> nat
    decreases ends.len(),
{
    if ends.len() == 0 || ends.last().good {
        0
    } else {
        failed_in_a_row(ends.drop_last()) + 1
    }
}

/// However the calls to a backend with a clean record end, a failure ejects it exactly
/// when it is not ejected already and at least as many calls as the threshold have then
/// failed in a row. A success never ejects it.
pub proof fn law_only_failures_in_a_row_eject<U>(
    b: BackendView<U>,
    ends: Seq<CallEnd>,
    health: HealthConfig,
)
    requires
        b.outlier_failures == 0,
        ends.len() > 0,
    ensures
        ({
            let before = b.after_ends(ends.drop_last(), health);
            let after = b.after_ends(ends, health);
            let out = before.ejected_until matches Some(until) && ends.last().at < until;
            &&& after.ejections > before.ejections <==> !ends.last().good && !out
                && failed_in_a_row(ends) >= health.outlier_consecutive_failures
            &&& after.ejections <= before.ejections ==> after.ejected_until == before.ejected_until
            &&& after.outlier_failures == failed_in_a_row(ends)
        }),
{
    lemma_failed_in_a_row(b, ends.drop_last(), health);
}

proof fn lemma_failed_in_a_row<U>(b: BackendView<U>, ends: Seq<CallEnd>, health: HealthConfig)
    requires
        b.outlier_failures == 0,
    ensures
        b.after_ends(ends, health).outlier_failures == failed_in_a_row(ends),
    decreases ends.len(),
{
    if ends.len() > 0 {
        lemma_failed_in_a_row(b, ends.drop_last(), health);
    }
}

/// How many of the last probes came out as given, in a row.
pub open spec fn probes_in_a_row(probes: Seq<(u64, bool)>, live: bool) -> nat
    decreases probes.len(),
{
    if probes.len() == 0 || probes.last().1 != live {
        0
    } else {
        probes_in_a_row(probes.drop_last(), live) + 1
    }
}

/// However the probes of a backend with no probes behind it come out, it turns
/// unhealthy only at a failed probe that completes as many failed probes in a row as
/// the threshold, and healthy only at a good one that completes as many good ones. A
/// good probe leaves no failed one counted, and a failed one no good one.
pub proof fn law_only_probes_in_a_row_turn_a_backend<U>(
    b: BackendView<U>,
    probes: Seq<(u64, bool)>,
    health: HealthConfig,
)
    requires
        b.probe_failures == 0,
        b.probe_successes == 0,
        probes.len() > 0,
    ensures
        ({
            let before = b.after_results(probes.drop_last(), health);
            let after = b.after_results(probes, health);
            let (at, live) = probes.last();
            &&& before.healthy && !after.healthy ==> !live && probes_in_a_row(probes, false)
                >= health.unhealthy_probe_threshold
            &&& !before.healthy && after.healthy ==> live && probes_in_a_row(probes, true)
                >= health.healthy_probe_threshold
            &&& live ==> after.probe_failures == 0
            &&& !live ==> after.probe_successes == 0
            &&& after.last_probe == Some(at)
        }),
{
    lemma_probes_in_a_row(b, probes.drop_last(), health);
}

proof fn lemma_probes_in_a_row<U>(
    b: BackendView<U>,
    probes: Seq<(u64, bool)>,
    health: HealthConfig,
)
    requires
        b.probe_failures == 0,
        b.probe_successes == 0,
    ensures
        b.after_results(probes, health).probe_failures <= probes_in_a_row(probes, false),
        b.after_results(probes, health).probe_successes <= probes_in_a_row(probes, true),
    decreases probes.len(),
{
    if probes.len() > 0 {
        lemma_probes_in_a_row(b, probes.drop_last(), health);
    }
}

/// A probe goes on counting those that came out like it and forgets the others. It
/// turns the backend exactly when it came out against what the backend is and the count
/// is then as high as the threshold, which starts the count over. It notes its time and
/// changes nothing else.
pub proof fn law_probe_changes_nothing_else<U>(
    b: BackendView<U>,
    now: u64,
    live: bool,
    health: HealthConfig,
)
    ensures
        ({
            let a = b.probed(now, live, health);
            let count = if live {
                b.probe_successes + 1
            } else {
                b.probe_failures + 1
            };
            let threshold = if live {
                health.healthy_probe_threshold
            } else {
                health.unhealthy_probe_threshold
            };
            let turns = b.healthy != live && count >= threshold;
            let kept = if live {
                a.probe_successes
            } else {
                a.probe_failures
            };
            &&& a == (BackendView {
                healthy: a.healthy,
                probe_failures: a.probe_failures,
                probe_successes: a.probe_successes,
                last_probe: Some(now),
                ..b
            })
            &&& a.healthy == (if turns {
                live
            } else {
                b.healthy
            })
            &&& kept == (if turns {
                0
            } else {
                count
            })
            &&& live ==> a.probe_failures == 0
            &&& !live ==> a.probe_successes == 0
        }),
{
}

/// A probe is due when there was none yet, and else once the interval behind the last
/// one has passed. A health check leaves a backend alone that is not due, and probes
/// one that is, once and at that time.
pub proof fn law_health_check_probes_when_due<U: Upstream>(
    b: BackendView<U>,
    now: u64,
    health: HealthConfig,
    post: BackendView<U>,
)
    requires
        b.checked(now, health, post),
    ensures
        ({
            let due = b.last_probe matches Some(at) ==> health.probe_interval_ms == 0 || now >= at
                + health.probe_interval_ms;
            &&& !due ==> post == b
            &&& due ==> post.last_probe == Some(now)
            &&& due ==> exists|live: bool| #[trigger]
                b.upstream.probed(live, &post.upstream) && post == (BackendView {
                    upstream: post.upstream,
                    ..b
                }).probed(now, live, health)
        }),
{
}

/// Polling tells the breaker the time and ends an ejection whose time has come, with
/// the run of failures behind it. Without a latency layer that is all. With one, what
/// changes besides is the ramp, the window and the ejection by latency.
pub proof fn law_poll_changes_nothing_else<U>(
    b: BackendView<U>,
    now: u64,
    ewma: Option<EwmaConfig>,
    line: u64,
)
    ensures
        ({
            let a = b.polled(now, ewma, line);
            let over = b.ejected_until matches Some(until) && until <= now;
            &&& a == (BackendView {
                breaker: a.breaker,
                ejected_until: a.ejected_until,
                outlier_failures: a.outlier_failures,
                over_since: a.over_since,
                over_since_samples: a.over_since_samples,
                ewma_ejections: a.ewma_ejections,
                ramp_percent: a.ramp_percent,
                last_ramp_step: a.last_ramp_step,
                ..b
            })
            &&& a.breaker == b.breaker.polled(now)
            &&& a.outlier_failures == (if over {
                0
            } else {
                b.outlier_failures
            })
            &&& ewma is None ==> a == (BackendView {
                breaker: a.breaker,
                outlier_failures: a.outlier_failures,
                ejected_until: if over {
                    None
                } else {
                    b.ejected_until
                },
                ..b
            })
        }),
{
}

/// The ramp with a latency layer. While an ejection lasts it stands still. A backend
/// that comes back starts at the configured percent, at least one and at most all. A
/// percent below all doubles, up to all, when a ramp window has passed since the last
/// step, and is left alone otherwise.
pub proof fn law_ramp_follows_the_clock<U>(b: BackendView<U>, now: u64, cfg: EwmaConfig, line: u64)
    requires
        b.ramp_percent <= 100,
    ensures
        ({
            let a = b.polled(now, Some(cfg), line);
            let out = b.ejected_until matches Some(until) && now < until;
            let back = b.ejected_until matches Some(until) && until <= now;
            let from = if !back {
                b.ramp_percent as int
            } else if cfg.reinstate_percent == 0 {
                1
            } else if cfg.reinstate_percent > 100 {
                100
            } else {
                cfg.reinstate_percent as int
            };
            let stepped = if back {
                Some(now)
            } else {
                b.last_ramp_step
            };
            let due = from < 100 && (stepped matches Some(at) ==> cfg.ramp_window_ms == 0 || now
                >= at + cfg.ramp_window_ms);
            if out {
                a.ramp_percent == b.ramp_percent && a.last_ramp_step == b.last_ramp_step
            } else if due {
                &&& a.ramp_percent == (if from >= 50 {
                    100
                } else {
                    2 * from
                })
                &&& a.last_ramp_step == Some(now)
            } else {
                a.ramp_percent == from && a.last_ramp_step == stepped
            }
        }),
{
}

/// The judgement on latency. While an ejection lasts there is none. A backend with too
/// few samples or an average that is not above the line is clean: its window is shut.
/// A slow one opens its window and remembers its samples. It is ejected, for the
/// configured time, exactly when its window has been open for as long as configured and
/// as many samples as configured have come in since, which shuts the window.
pub proof fn law_latency_is_judged_by_window<U>(
    b: BackendView<U>,
    now: u64,
    cfg: EwmaConfig,
    line: u64,
)
    ensures
        ({
            let a = b.polled(now, Some(cfg), line);
            let out = b.ejected_until matches Some(until) && now < until;
            let slow = b.ewma_samples >= cfg.min_samples && (b.ewma_milli matches Some(average)
                && average > line);
            let ripe = b.over_since matches Some(since) && (cfg.window_ms == 0 || now >= since
                + cfg.window_ms) && (cfg.min_samples == 0 || b.ewma_samples >= b.over_since_samples
                + cfg.min_samples);
            if out {
                &&& a.ejected_until == b.ejected_until
                &&& a.over_since == b.over_since
                &&& a.over_since_samples == b.over_since_samples
                &&& a.ewma_ejections == b.ewma_ejections
            } else if slow && ripe {
                &&& a.ejected_until is Some
                &&& a.ejected_until->0 == (if now + cfg.ejection_ms <= u64::MAX {
                    now + cfg.ejection_ms
                } else {
                    u64::MAX as int
                })
                &&& a.over_since is None
                &&& a.ewma_ejections == b.ewma_ejections + 1
            } else {
                &&& a.ejected_until is None
                &&& a.ewma_ejections == b.ewma_ejections
                &&& !slow ==> a.over_since is None
                &&& slow && b.over_since is None ==> a.over_since == Some(now)
                    && a.over_since_samples == b.ewma_samples
                &&& slow && b.over_since is Some ==> a.over_since == b.over_since
                    && a.over_since_samples == b.over_since_samples
            }
        }),
{
}

/// A latency is folded into the average and counted with a latency layer, and passed
/// over without one. Nothing else changes.
pub proof fn law_sample_changes_nothing_else<U>(
    b: BackendView<U>,
    ewma: Option<EwmaConfig>,
    latency_ms: u64,
)
    ensures
        ewma is None ==> b.sampled(ewma, latency_ms) == b,
        ewma matches Some(cfg) ==> b.sampled(ewma, latency_ms) == (BackendView {
            ewma_milli: Some(cfg.folded(b.ewma_milli, latency_ms) as u64),
            ewma_samples: b.ewma_samples + 1,
            ..b
        }),
{
}

} // verus!
