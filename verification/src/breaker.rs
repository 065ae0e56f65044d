//! Per upstream circuit breaker: a small explicit state machine driven by
//! request outcomes and by the time its caller hands it.
//!
//! The contracts speak of a [`BreakerView`], in which the phase carries exactly
//! the one number that matters while the breaker is in it.

use vstd::prelude::*;

verus! {

#[derive(Clone, Copy, Debug, PartialEq, Eq, Structural)]
pub enum BreakerState {
    /// Traffic flows. Consecutive failures are counted.
    Closed,
    /// Tripped. No traffic until the cooldown elapses.
    Open,
    /// Trial period after cooldown. A limited number of successes closes it,
    /// a single failure re opens it.
    HalfOpen,
}

#[derive(Clone, Copy, Debug)]
pub struct BreakerConfig {
    /// Consecutive failures in Closed that trip the breaker.
    pub failure_threshold: u32,
    /// Consecutive successes in HalfOpen that close the breaker.
    pub success_threshold: u32,
    /// How long Open lasts before moving to HalfOpen.
    pub cooldown_ms: u64,
    /// How many calls may be in flight at once while the breaker is HalfOpen.
    pub half_open_max_calls: u32,
}

impl Default for BreakerConfig {
    fn default() -> (cfg: Self)
        ensures
            cfg.failure_threshold == 5,
            cfg.success_threshold == 2,
            cfg.cooldown_ms == 5_000,
            cfg.half_open_max_calls == 1,
    {
        Self {
            failure_threshold: 5,
            success_threshold: 2,
            cooldown_ms: 5_000,
            half_open_max_calls: 1,
        }
    }
}

/// Where a breaker stands, with the count or the time that decides what comes
/// next.
pub enum Phase {
    Closed { failures: nat },
    Open { since: u64 },
    HalfOpen { successes: nat },
}

/// What a breaker is, apart from how it is stored.
pub struct BreakerView {
    pub cfg: BreakerConfig,
    pub phase: Phase,
    pub trips: nat,
}

/// The time from `since` to `now`, zero when the clock went backwards.
pub open spec fn elapsed(since: u64, now: u64) -> int {
    if now >= since {
        now - since
    } else {
        0
    }
}

impl BreakerView {
    /// A run that reaches its threshold ends the phase, so a stored run is
    /// always shorter. A threshold of zero acts like a threshold of one.
    pub open spec fn well_formed(self) -> bool {
        match self.phase {
            Phase::Closed { failures } => failures == 0 || failures < self.cfg.failure_threshold,
            Phase::Open { .. } => true,
            Phase::HalfOpen { successes } => successes == 0 || successes
                < self.cfg.success_threshold,
        }
    }

    pub open spec fn state(self) -> BreakerState {
        match self.phase {
            Phase::Closed { .. } => BreakerState::Closed,
            Phase::Open { .. } => BreakerState::Open,
            Phase::HalfOpen { .. } => BreakerState::HalfOpen,
        }
    }

    /// The breaker is open and its cooldown has elapsed at `now`.
    pub open spec fn cooled(self, now: u64) -> bool {
        match self.phase {
            Phase::Open { since } => elapsed(since, now) >= self.cfg.cooldown_ms,
            _ => false,
        }
    }

    /// The breaker once it has been told the time.
    pub open spec fn polled(self, now: u64) -> BreakerView {
        if self.cooled(now) {
            BreakerView { phase: Phase::HalfOpen { successes: 0 }, ..self }
        } else {
            self
        }
    }

    pub open spec fn callable(self, now: u64) -> bool {
        self.state() != BreakerState::Open || self.cooled(now)
    }

    /// Whether one more call may enter while `in_flight` calls are under way.
    pub open spec fn admits(self, now: u64, in_flight: u32) -> bool {
        &&& self.callable(now)
        &&& self.state() == BreakerState::Closed || in_flight < self.cfg.half_open_max_calls
    }

    pub open spec fn tripped(self, now: u64) -> BreakerView {
        BreakerView { phase: Phase::Open { since: now }, trips: self.trips + 1, ..self }
    }

    /// The breaker after a successful call that ended at `now`.
    pub open spec fn after_success(self, now: u64) -> BreakerView {
        let due = self.polled(now);
        match due.phase {
            Phase::Closed { .. } => BreakerView { phase: Phase::Closed { failures: 0 }, ..due },
            Phase::Open { .. } => due,
            Phase::HalfOpen { successes } => if successes + 1 >= self.cfg.success_threshold {
                BreakerView { phase: Phase::Closed { failures: 0 }, ..due }
            } else {
                BreakerView { phase: Phase::HalfOpen { successes: successes + 1 }, ..due }
            },
        }
    }

    /// Whether a failed call that ended at `now` trips the breaker.
    pub open spec fn trips_on_failure(self, now: u64) -> bool {
        match self.polled(now).phase {
            Phase::Closed { failures } => failures + 1 >= self.cfg.failure_threshold,
            Phase::Open { .. } => false,
            Phase::HalfOpen { .. } => true,
        }
    }

    /// The breaker after a failed call that ended at `now`.
    pub open spec fn after_failure(self, now: u64) -> BreakerView {
        if self.trips_on_failure(now) {
            self.tripped(now)
        } else {
            match self.polled(now).phase {
                Phase::Closed { failures } => BreakerView {
                    phase: Phase::Closed { failures: failures + 1 },
                    ..self
                },
                _ => self,
            }
        }
    }

    /// The breaker after a run of failed calls that ended at the given times.
    pub open spec fn after_failures(self, times: Seq<u64>) -> BreakerView
        decreases times.len(),
    {
        if times.len() == 0 {
            self
        } else {
            self.after_failures(times.drop_last()).after_failure(times.last())
        }
    }

    /// The breaker after a run of successful calls that ended at the given
    /// times.
    pub open spec fn after_successes(self, times: Seq<u64>) -> BreakerView
        decreases times.len(),
    {
        if times.len() == 0 {
            self
        } else {
            self.after_successes(times.drop_last()).after_success(times.last())
        }
    }
}

#[derive(Debug)]
pub struct CircuitBreaker {
    cfg: BreakerConfig,
    state: BreakerState,
    consecutive_failures: u32,
    consecutive_successes: u32,
    opened_at: u64,
    trips: u64,
}

impl View for CircuitBreaker {
    type V = BreakerView;

    closed spec fn view(&self) -> BreakerView {
        BreakerView {
            cfg: self.cfg,
            phase: match self.state {
                BreakerState::Closed => Phase::Closed {
                    failures: self.consecutive_failures as nat,
                },
                BreakerState::Open => Phase::Open { since: self.opened_at },
                BreakerState::HalfOpen => Phase::HalfOpen {
                    successes: self.consecutive_successes as nat,
                },
            },
            trips: self.trips as nat,
        }
    }
}

impl Clone for CircuitBreaker {
    fn clone(&self) -> (copy: Self)
        ensures
            copy == *self,
    {
        proof {
            use_type_invariant(self);
        }
        Self {
            cfg: self.cfg,
            state: self.state,
            consecutive_failures: self.consecutive_failures,
            consecutive_successes: self.consecutive_successes,
            opened_at: self.opened_at,
            trips: self.trips,
        }
    }
}

impl CircuitBreaker {
    #[verifier::type_invariant]
    spec fn inv(self) -> bool {
        &&& self@.well_formed()
        &&& self.state != BreakerState::Closed ==> self.consecutive_failures == 0
        &&& self.state != BreakerState::HalfOpen ==> self.consecutive_successes == 0
    }

    pub fn new(cfg: BreakerConfig) -> (breaker: Self)
        ensures
            breaker@ == (BreakerView { cfg, phase: Phase::Closed { failures: 0 }, trips: 0 }),
    {
        Self {
            cfg,
            state: BreakerState::Closed,
            consecutive_failures: 0,
            consecutive_successes: 0,
            opened_at: 0,
            trips: 0,
        }
    }

    pub fn config(&self) -> (cfg: BreakerConfig)
        ensures
            cfg == self@.cfg,
    {
        self.cfg
    }

    pub fn trips(&self) -> (trips: u64)
        ensures
            trips == self@.trips,
    {
        self.trips
    }

    /// Promote Open to HalfOpen once the cooldown has elapsed. Idempotent, must
    /// be called with the current time before reading state or callability.
    pub fn poll(&mut self, now: u64)
        ensures
            final(self)@ == old(self)@.polled(now),
    {
        proof {
            use_type_invariant(&*self);
        }
        if self.state == BreakerState::Open && now.saturating_sub(self.opened_at)
            >= self.cfg.cooldown_ms {
            self.state = BreakerState::HalfOpen;
        }
    }

    pub fn state(&self) -> (state: BreakerState)
        ensures
            state == self@.state(),
    {
        self.state
    }

    /// Whether a request may be routed through this breaker right now. `poll`
    /// must have been called with `now` first for a time accurate answer.
    pub fn is_callable(&self, now: u64) -> (callable: bool)
        ensures
            callable == self@.callable(now),
    {
        match self.state {
            BreakerState::Closed | BreakerState::HalfOpen => true,
            BreakerState::Open => now.saturating_sub(self.opened_at) >= self.cfg.cooldown_ms,
        }
    }

    /// Whether one more call may enter right now, given how many are already in
    /// flight. A trial lets in at most `half_open_max_calls` calls at a time.
    pub fn admits(&self, now: u64, in_flight: u32) -> (admitted: bool)
        ensures
            admitted == self@.admits(now, in_flight),
    {
        self.is_callable(now) && (self.state == BreakerState::Closed || in_flight
            < self.cfg.half_open_max_calls)
    }

    pub fn on_success(&mut self, now: u64)
        ensures
            final(self)@ == old(self)@.after_success(now),
    {
        self.poll(now);
        proof {
            use_type_invariant(&*self);
        }
        match self.state {
            BreakerState::Closed => {
                self.consecutive_failures = 0;
            },
            BreakerState::HalfOpen => {
                let successes: u32 = self.consecutive_successes + 1;
                if successes >= self.cfg.success_threshold {
                    self.consecutive_successes = 0;
                    self.state = BreakerState::Closed;
                } else {
                    self.consecutive_successes = successes;
                }
            },
            BreakerState::Open => {},
        }
    }

    pub fn on_failure(&mut self, now: u64)
        requires
            old(self)@.trips_on_failure(now) ==> old(self)@.trips < u64::MAX,
        ensures
            final(self)@ == old(self)@.after_failure(now),
    {
        self.poll(now);
        proof {
            use_type_invariant(&*self);
        }
        match self.state {
            BreakerState::Closed => {
                let failures: u32 = self.consecutive_failures + 1;
                if failures >= self.cfg.failure_threshold {
                    self.trip(now);
                } else {
                    self.consecutive_failures = failures;
                }
            },
            BreakerState::HalfOpen => {
                self.trip(now);
            },
            BreakerState::Open => {},
        }
    }

    fn trip(&mut self, now: u64)
        requires
            old(self)@.trips < u64::MAX,
        ensures
            final(self)@ == old(self)@.tripped(now),
    {
        *self = Self {
            cfg: self.cfg,
            state: BreakerState::Open,
            consecutive_failures: 0,
            consecutive_successes: 0,
            opened_at: now,
            trips: self.trips + 1,
        };
    }
}

/// Telling the breaker the same time twice changes nothing more.
pub proof fn law_poll_is_idempotent(b: BreakerView, now: u64)
    ensures
        b.polled(now).polled(now) == b.polled(now),
{
}

/// Once polled, a breaker is callable exactly when it is not open, and an open
/// breaker admits no call at all.
pub proof fn law_open_breaker_is_never_callable(b: BreakerView, now: u64, in_flight: u32)
    ensures
        b.polled(now).callable(now) <==> b.polled(now).state() != BreakerState::Open,
        b.polled(now).state() == BreakerState::Open ==> !b.polled(now).admits(now, in_flight),
{
}

/// Polling does not change who is let in at that time: it only makes the trial
/// visible in the state.
pub proof fn law_poll_keeps_admission(b: BreakerView, now: u64, in_flight: u32)
    ensures
        b.polled(now).callable(now) == b.callable(now),
        b.polled(now).admits(now, in_flight) == b.admits(now, in_flight),
{
}

/// A half open breaker admits at most the configured number of concurrent calls.
pub proof fn law_half_open_trial_is_capped(b: BreakerView, now: u64, in_flight: u32)
    requires
        b.state() == BreakerState::HalfOpen,
    ensures
        b.admits(now, in_flight) <==> in_flight < b.cfg.half_open_max_calls,
{
}

/// A closed breaker with no failure behind it stays closed through any run of
/// failures shorter than the threshold, and the failure that reaches the
/// threshold opens it at that moment.
pub proof fn law_failure_run_trips(b: BreakerView, times: Seq<u64>)
    requires
        b.phase == (Phase::Closed { failures: 0 }),
        times.len() >= 1,
    ensures
        times.len() < b.cfg.failure_threshold ==> b.after_failures(times) == (BreakerView {
            phase: Phase::Closed { failures: times.len() },
            ..b
        }),
        times.len() == b.cfg.failure_threshold || (b.cfg.failure_threshold == 0 && times.len()
            == 1) ==> b.after_failures(times) == b.tripped(times.last()),
    decreases times.len(),
{
    reveal_with_fuel(BreakerView::after_failures, 2);
    if times.len() > 1 {
        law_failure_run_trips(b, times.drop_last());
    }
}

/// A success ends a run of failures: the breaker counts from zero again.
pub proof fn law_success_resets_failure_run(b: BreakerView, now: u64)
    requires
        b.state() == BreakerState::Closed,
    ensures
        b.after_success(now).phase == (Phase::Closed { failures: 0 }),
        b.after_success(now).trips == b.trips,
{
}

/// A trial that has just begun stays half open through any run of successes
/// shorter than the threshold, and the success that reaches it closes the
/// breaker with a clean failure count.
pub proof fn law_success_run_closes_trial(b: BreakerView, times: Seq<u64>)
    requires
        b.phase == (Phase::HalfOpen { successes: 0 }),
        times.len() >= 1,
    ensures
        times.len() < b.cfg.success_threshold ==> b.after_successes(times) == (BreakerView {
            phase: Phase::HalfOpen { successes: times.len() },
            ..b
        }),
        times.len() == b.cfg.success_threshold || (b.cfg.success_threshold == 0 && times.len()
            == 1) ==> b.after_successes(times) == (BreakerView {
            phase: Phase::Closed { failures: 0 },
            ..b
        }),
    decreases times.len(),
{
    reveal_with_fuel(BreakerView::after_successes, 2);
    if times.len() > 1 {
        law_success_run_closes_trial(b, times.drop_last());
    }
}

/// A single failure in a trial opens the breaker again with a fresh cooldown
/// and counts one more trip.
pub proof fn law_trial_failure_reopens(b: BreakerView, now: u64)
    requires
        b.state() == BreakerState::HalfOpen,
    ensures
        b.after_failure(now).phase == (Phase::Open { since: now }),
        b.after_failure(now).trips == b.trips + 1,
{
}

/// An open breaker ignores outcomes until its cooldown has elapsed, and then
/// treats the next outcome as part of a trial.
pub proof fn law_open_breaker_waits_for_cooldown(b: BreakerView, now: u64)
    requires
        b.state() == BreakerState::Open,
    ensures
        !b.cooled(now) ==> b.after_success(now) == b && b.after_failure(now) == b && b.polled(now)
            == b,
        b.cooled(now) ==> b.polled(now).phase == (Phase::HalfOpen { successes: 0 })
            && b.after_failure(now) == b.tripped(now),
{
}

/// Every step keeps a breaker well formed and never takes a trip back.
pub proof fn law_breaker_stays_well_formed(b: BreakerView, now: u64)
    requires
        b.well_formed(),
    ensures
        b.polled(now).well_formed(),
        b.after_success(now).well_formed(),
        b.after_failure(now).well_formed(),
        b.after_success(now).trips == b.trips,
        b.trips <= b.after_failure(now).trips <= b.trips + 1,
{
}

/// An open breaker lets nobody through until the cooldown behind the moment it opened
/// has passed, and until then nothing changes it. From then on it is in a fresh trial: a
/// failure opens it anew, and a success counts as the first of the trial. Without a
/// cooldown the trial begins at once, even when the clock has gone back.
pub proof fn law_open_breaker_cools_on_time(b: BreakerView, since: u64, now: u64, in_flight: u32)
    requires
        b.phase == (Phase::Open { since }),
    ensures
        b.state() == BreakerState::Open,
        ({
            let due = b.cfg.cooldown_ms == 0 || now >= since + b.cfg.cooldown_ms;
            &&& b.callable(now) <==> due
            &&& b.admits(now, in_flight) <==> due && in_flight < b.cfg.half_open_max_calls
            &&& if due {
                &&& b.polled(now) == (BreakerView { phase: Phase::HalfOpen { successes: 0 }, ..b })
                &&& b.after_failure(now) == (BreakerView {
                    phase: Phase::Open { since: now },
                    trips: b.trips + 1,
                    ..b
                })
                &&& b.after_success(now) == (BreakerView {
                    phase: if b.cfg.success_threshold <= 1 {
                        Phase::Closed { failures: 0 }
                    } else {
                        Phase::HalfOpen { successes: 1 }
                    },
                    ..b
                })
            } else {
                &&& b.polled(now) == b
                &&& b.after_failure(now) == b
                &&& b.after_success(now) == b
            }
        }),
{
}

/// A closed breaker lets everybody through at any time. A success wipes out the
/// failures counted so far. A failure is one more, and opens the breaker at that moment
/// when there are then as many as the threshold.
pub proof fn law_closed_breaker_counts_failures(
    b: BreakerView,
    failures: nat,
    now: u64,
    in_flight: u32,
)
    requires
        b.phase == (Phase::Closed { failures }),
    ensures
        b.state() == BreakerState::Closed,
        b.callable(now),
        b.admits(now, in_flight),
        b.polled(now) == b,
        b.after_success(now) == (BreakerView { phase: Phase::Closed { failures: 0 }, ..b }),
        failures + 1 < b.cfg.failure_threshold ==> b.after_failure(now) == (BreakerView {
            phase: Phase::Closed { failures: failures + 1 },
            ..b
        }),
        failures + 1 >= b.cfg.failure_threshold ==> b.after_failure(now) == (BreakerView {
            phase: Phase::Open { since: now },
            trips: b.trips + 1,
            ..b
        }),
{
}

/// A half open breaker lets callers through while fewer are under way than may be. A
/// failure opens it at that moment. A success is one more, and closes the breaker with
/// no failure counted when there are then as many as the threshold.
pub proof fn law_trial_counts_successes(
    b: BreakerView,
    successes: nat,
    now: u64,
    in_flight: u32,
)
    requires
        b.phase == (Phase::HalfOpen { successes }),
    ensures
        b.state() == BreakerState::HalfOpen,
        b.callable(now),
        b.admits(now, in_flight) <==> in_flight < b.cfg.half_open_max_calls,
        b.polled(now) == b,
        b.after_failure(now) == (BreakerView {
            phase: Phase::Open { since: now },
            trips: b.trips + 1,
            ..b
        }),
        successes + 1 < b.cfg.success_threshold ==> b.after_success(now) == (BreakerView {
            phase: Phase::HalfOpen { successes: successes + 1 },
            ..b
        }),
        successes + 1 >= b.cfg.success_threshold ==> b.after_success(now) == (BreakerView {
            phase: Phase::Closed { failures: 0 },
            ..b
        }),
{
}

/// What a breaker can be told: how a call ended, and when.
pub struct BreakerEvent {
    pub at: u64,
    pub good: bool,
}

impl BreakerView {
    /// The breaker after calls that ended in the given order.
    pub open spec fn after_events(self, events: Seq<BreakerEvent>) -> BreakerView
        decreases events.len(),
    {
        if events.len() == 0 {
            self
        } else {
            let before = self.after_events(events.drop_last());
            if events.last().good {
                before.after_success(events.last().at)
            } else {
                before.after_failure(events.last().at)
            }
        }
    }
}

/// How many of the last calls failed in a row.
pub open spec fn failures_in_a_row(events: Seq<BreakerEvent>) -> nat
    decreases events.len(),
{
    if events.len() == 0 || events.last().good {
        0
    } else {
        failures_in_a_row(events.drop_last()) + 1
    }
}

/// How many of the last calls succeeded in a row.
pub open spec fn successes_in_a_row(events: Seq<BreakerEvent>) -> nat
    decreases events.len(),
{
    if events.len() == 0 || !events.last().good {
        0
    } else {
        successes_in_a_row(events.drop_last()) + 1
    }
}

/// However the calls through a new breaker end, it leaves the closed state only at a
/// failure that completes as many failures in a row as the threshold, and is closed
/// again only at a success that completes as many successes in a row as its threshold.
pub proof fn law_breaker_acts_on_runs_only(b: BreakerView, events: Seq<BreakerEvent>)
    requires
        b.phase == (Phase::Closed { failures: 0 }),
        events.len() > 0,
    ensures
        ({
            let before = b.after_events(events.drop_last());
            let after = b.after_events(events);
            let was_closed = before.state() == BreakerState::Closed;
            let is_closed = after.state() == BreakerState::Closed;
            &&& was_closed && !is_closed ==> {
                &&& after.state() == BreakerState::Open
                &&& failures_in_a_row(events) >= b.cfg.failure_threshold
                &&& failures_in_a_row(events) >= 1
            }
            &&& !was_closed && is_closed ==> {
                &&& successes_in_a_row(events) >= b.cfg.success_threshold
                &&& successes_in_a_row(events) >= 1
            }
            &&& was_closed && failures_in_a_row(events) < b.cfg.failure_threshold ==> is_closed
        }),
{
    lemma_runs(b, events.drop_last());
}

proof fn lemma_runs(b: BreakerView, events: Seq<BreakerEvent>)
    requires
        b.phase == (Phase::Closed { failures: 0 }),
    ensures
        b.after_events(events).cfg == b.cfg,
        b.after_events(events).phase matches Phase::Closed { failures } ==> failures
            <= failures_in_a_row(events),
        b.after_events(events).phase matches Phase::HalfOpen { successes } ==> successes
            <= successes_in_a_row(events),
    decreases events.len(),
{
    if events.len() > 0 {
        lemma_runs(b, events.drop_last());
    }
}

} // verus!
