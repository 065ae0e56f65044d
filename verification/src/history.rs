//! What the counters of a backend say about everything that ever happened to its
//! pool, and how the requests under way are counted.

use vstd::prelude::*;

use crate::backend::begins;
use crate::backend::calls_fit;
use crate::backend::law_calls_are_accounted_for;
use crate::backend::BackendView;
use crate::ewma::EwmaConfig;
use crate::pool::served_by;
use crate::pool::PoolView;
use crate::pool::Strategy;
use crate::upstream::Upstream;

verus! {

/// What can be done to a pool.
pub enum PoolStep<U> {
    SetStrategy(Strategy),
    EnableEwma(EwmaConfig),
    AddBackend(BackendView<U>),
    Poll { now: u64 },
    RunHealthChecks { now: u64 },
    Select { now: u64, key: Option<Seq<char>>, exclude: Seq<usize> },
    Begin(usize),
    Dispatch(usize),
    End(usize),
    RecordSuccess { idx: usize, now: u64 },
    RecordSuccessLatency { idx: usize, now: u64, latency_ms: u64 },
    RecordFailure { idx: usize, now: u64 },
}

impl<U> PoolStep<U> {
    /// The step records an outcome of backend `i`.
    pub open spec fn records(self, i: int) -> bool {
        match self {
            PoolStep::RecordSuccess { idx, .. } => idx == i,
            PoolStep::RecordSuccessLatency { idx, .. } => idx == i,
            PoolStep::RecordFailure { idx, .. } => idx == i,
            _ => false,
        }
    }

    /// The step records an outcome of some backend.
    pub open spec fn is_outcome(self) -> bool {
        self is RecordSuccess || self is RecordSuccessLatency || self is RecordFailure
    }

    /// The step hands in a latency of backend `i`.
    pub open spec fn measures(self, i: int) -> bool {
        match self {
            PoolStep::RecordSuccessLatency { idx, .. } => idx == i,
            _ => false,
        }
    }
}

impl<U: Upstream> PoolView<U> {
    /// The step may leave the pool as `post`. A backend that joins has served
    /// nothing yet.
    pub open spec fn steps_to(self, step: PoolStep<U>, post: PoolView<U>) -> bool {
        match step {
            PoolStep::SetStrategy(strategy) => post == (PoolView { strategy, ..self }),
            PoolStep::EnableEwma(cfg) => post == (PoolView { ewma: Some(cfg), ..self }),
            PoolStep::AddBackend(b) => {
                &&& b.served == 0
                &&& b.ewma_samples == 0
                &&& b.ewma_milli is None
                &&& b.outlier_failures == 0
                &&& b.ejections == 0
                &&& b.breaker.trips == 0
                &&& post == (PoolView { backends: self.backends.push(b), ..self })
            },
            PoolStep::Poll { now } => post == self.polled(now),
            PoolStep::RunHealthChecks { now } => self.checked(now, post),
            PoolStep::Select { now, key, exclude } => post == self.after_pick(now, key, exclude),
            PoolStep::Begin(idx) => {
                &&& idx < self.backends.len()
                &&& post == self.with_backend(idx as int, self.backends[idx as int].begun())
            },
            PoolStep::Dispatch(idx) => {
                let upstream = post.backends[idx as int].upstream;
                &&& idx < self.backends.len()
                &&& post == self.with_backend(
                    idx as int,
                    BackendView { upstream, ..self.backends[idx as int] },
                )
            },
            PoolStep::End(idx) => {
                &&& idx < self.backends.len()
                &&& post == self.with_backend(idx as int, self.backends[idx as int].ended())
            },
            PoolStep::RecordSuccess { idx, now } => {
                &&& idx < self.backends.len()
                &&& post == self.with_backend(idx as int, self.backends[idx as int].succeeded(now))
            },
            PoolStep::RecordSuccessLatency { idx, now, latency_ms } => {
                &&& idx < self.backends.len()
                &&& post == self.with_backend(
                    idx as int,
                    self.backends[idx as int].succeeded(now).sampled(self.ewma, latency_ms),
                )
            },
            PoolStep::RecordFailure { idx, now } => {
                &&& idx < self.backends.len()
                &&& post == self.with_backend(
                    idx as int,
                    self.backends[idx as int].failed(now, self.health),
                )
            },
        }
    }
}

/// The steps were taken one after the other by a pool that was new and empty, and
/// led through the states.
pub open spec fn is_history<U: Upstream>(states: Seq<PoolView<U>>, steps: Seq<PoolStep<U>>) -> bool
    decreases steps.len(),
{
    &&& states.len() == steps.len() + 1
    &&& if steps.len() == 0 {
        let p = states[0];
        p == PoolView::<U>::empty(p.name, p.strategy, p.health)
    } else {
        &&& is_history(states.drop_last(), steps.drop_last())
        &&& states[steps.len() - 1].steps_to(steps.last(), states.last())
    }
}

/// How many of the steps record an outcome of backend `i`.
pub open spec fn outcomes_of<U>(steps: Seq<PoolStep<U>>, i: int) -> nat
    decreases steps.len(),
{
    if steps.len() == 0 {
        0
    } else {
        outcomes_of(steps.drop_last(), i) + (if steps.last().records(i) {
            1nat
        } else {
            0nat
        })
    }
}

/// How many of the steps record an outcome.
pub open spec fn all_outcomes<U>(steps: Seq<PoolStep<U>>) -> nat
    decreases steps.len(),
{
    if steps.len() == 0 {
        0
    } else {
        all_outcomes(steps.drop_last()) + (if steps.last().is_outcome() {
            1nat
        } else {
            0nat
        })
    }
}

/// How many of the steps hand in a latency of backend `i` while the pool has a
/// latency layer.
pub open spec fn samples_of<U>(
    states: Seq<PoolView<U>>,
    steps: Seq<PoolStep<U>>,
    i: int,
) -> nat
    decreases steps.len(),
{
    if steps.len() == 0 {
        0
    } else {
        samples_of(states.drop_last(), steps.drop_last(), i) + (if steps.last().measures(i)
            && states[steps.len() - 1].ewma is Some {
            1nat
        } else {
            0nat
        })
    }
}

/// A backend has served an outcome for each failure of its current run, for each
/// of its ejections as an outlier and for each trip of its breaker.
pub open spec fn failures_covered<U>(b: BackendView<U>) -> bool {
    &&& b.outlier_failures <= b.served
    &&& b.ejections <= b.served
    &&& b.breaker.trips <= b.served
}

/// What one step adds to the counters of a backend.
proof fn lemma_step_counts<U: Upstream>(
    p: PoolView<U>,
    step: PoolStep<U>,
    q: PoolView<U>,
    i: int,
)
    requires
        p.steps_to(step, q),
    ensures
        p.backends.len() <= q.backends.len(),
        i >= p.backends.len() ==> !step.records(i) && !step.measures(i),
        0 <= i < p.backends.len() ==> {
            let b = p.backends[i];
            let c = q.backends[i];
            &&& c.served == b.served + (if step.records(i) {
                1nat
            } else {
                0nat
            })
            &&& c.ewma_samples == b.ewma_samples + (if step.measures(i) && p.ewma is Some {
                1nat
            } else {
                0nat
            })
            &&& c.ewma_samples == b.ewma_samples ==> c.ewma_milli == b.ewma_milli
            &&& c.ewma_samples != b.ewma_samples ==> c.ewma_milli is Some
            &&& failures_covered(b) ==> failures_covered(c)
        },
        p.backends.len() <= i < q.backends.len() ==> {
            let c = q.backends[i];
            c.served == 0 && c.ewma_samples == 0 && c.ewma_milli is None && failures_covered(c)
        },
{
    match step {
        PoolStep::RunHealthChecks { now } => {
            if 0 <= i < p.backends.len() {
                assert(p.backends[i].checked(now, p.health, q.backends[i]));
            }
        },
        PoolStep::Select { now, key, exclude } => {
            crate::selection::law_selection_only_takes_turns(p, now, key, exclude);
            if 0 <= i < p.backends.len() {
                assert(q.backends[i] == (BackendView {
                    current_weight: q.backends[i].current_weight,
                    ..p.backends[i]
                }));
            }
        },
        _ => {},
    }
}

proof fn lemma_counters<U: Upstream>(states: Seq<PoolView<U>>, steps: Seq<PoolStep<U>>, i: int)
    requires
        is_history(states, steps),
        0 <= i,
    ensures
        i >= states.last().backends.len() ==> outcomes_of(steps, i) == 0 && samples_of(
            states,
            steps,
            i,
        ) == 0,
        i < states.last().backends.len() ==> {
            let b = states.last().backends[i];
            &&& b.served == outcomes_of(steps, i)
            &&& b.ewma_samples == samples_of(states, steps, i)
            &&& b.ewma_milli is None <==> b.ewma_samples == 0
            &&& failures_covered(b)
        },
    decreases steps.len(),
{
    if steps.len() > 0 {
        let before = states[steps.len() - 1];
        assert(states.drop_last().last() == before);
        lemma_counters(states.drop_last(), steps.drop_last(), i);
        lemma_step_counts(before, steps.last(), states.last(), i);
    }
}

/// Whatever happens to a pool, the outcomes that a backend has served are those
/// that were recorded for it, each once. Polls, health checks, selections, requests
/// that begin or end, replies and changes of strategy add none.
pub proof fn law_served_counts_recorded_outcomes<U: Upstream>(
    states: Seq<PoolView<U>>,
    steps: Seq<PoolStep<U>>,
    i: int,
)
    requires
        is_history(states, steps),
        0 <= i < states.last().backends.len(),
    ensures
        states.last().backends[i].served == outcomes_of(steps, i),
{
    lemma_counters(states, steps, i);
}

/// Whatever happens to a pool, the samples in the latency average of a backend are
/// the latencies that were recorded for it while the pool had a latency layer, each
/// once. There is an average exactly when there is a sample.
pub proof fn law_samples_count_recorded_latencies<U: Upstream>(
    states: Seq<PoolView<U>>,
    steps: Seq<PoolStep<U>>,
    i: int,
)
    requires
        is_history(states, steps),
        0 <= i < states.last().backends.len(),
    ensures
        states.last().backends[i].ewma_samples == samples_of(states, steps, i),
        states.last().backends[i].ewma_milli is None <==> samples_of(states, steps, i) == 0,
{
    lemma_counters(states, steps, i);
}

/// Whatever happens to a pool, no backend has been ejected as an outlier, has
/// tripped its breaker or has failed in a row more often than outcomes were recorded
/// for it.
pub proof fn law_failures_are_covered_by_outcomes<U: Upstream>(
    states: Seq<PoolView<U>>,
    steps: Seq<PoolStep<U>>,
    i: int,
)
    requires
        is_history(states, steps),
        0 <= i < states.last().backends.len(),
    ensures
        ({
            let b = states.last().backends[i];
            &&& b.outlier_failures <= outcomes_of(steps, i)
            &&& b.ejections <= outcomes_of(steps, i)
            &&& b.breaker.trips <= outcomes_of(steps, i)
        }),
{
    lemma_counters(states, steps, i);
}

/// Whatever happens to a pool, its backends together have served all outcomes that
/// were ever recorded.
pub proof fn law_all_outcomes_are_served<U: Upstream>(
    states: Seq<PoolView<U>>,
    steps: Seq<PoolStep<U>>,
)
    requires
        is_history(states, steps),
    ensures
        served_by(states.last().backends) == all_outcomes(steps),
    decreases steps.len(),
{
    if steps.len() > 0 {
        let p = states[steps.len() - 1];
        let q = states.last();
        let step = steps.last();
        assert(states.drop_last().last() == p);
        law_all_outcomes_are_served(states.drop_last(), steps.drop_last());
        assert forall|i: int| 0 <= i < p.backends.len() implies (#[trigger] q.backends[i]).served
            == p.backends[i].served + (if step.records(i) {
            1nat
        } else {
            0nat
        }) by {
            lemma_step_counts(p, step, q, i);
        }
        lemma_step_counts(p, step, q, p.backends.len() as int);
        match step {
            PoolStep::AddBackend(b) => {
                assert(q.backends.drop_last() =~= p.backends);
            },
            PoolStep::RecordSuccess { idx, .. }
            | PoolStep::RecordSuccessLatency { idx, .. }
            | PoolStep::RecordFailure { idx, .. } => {
                lemma_served_by(p.backends, q.backends, idx as int);
            },
            _ => {
                lemma_served_by(p.backends, q.backends, -1);
            },
        }
    }
}

/// One more outcome at `idx`, if that is a place at all, is one more in the sum.
proof fn lemma_served_by<U>(a: Seq<BackendView<U>>, b: Seq<BackendView<U>>, idx: int)
    requires
        a.len() == b.len(),
        forall|i: int|
            0 <= i < a.len() ==> (#[trigger] b[i]).served == a[i].served + (if i == idx {
                1nat
            } else {
                0nat
            }),
    ensures
        served_by(b) == served_by(a) + (if 0 <= idx < a.len() {
            1nat
        } else {
            0nat
        }),
    decreases a.len(),
{
    if a.len() > 0 {
        assert(b[b.len() - 1].served == a[a.len() - 1].served + (if a.len() - 1 == idx {
            1nat
        } else {
            0nat
        }));
        assert forall|i: int| 0 <= i < a.len() - 1 implies (#[trigger] b.drop_last()[i]).served
            == a.drop_last()[i].served + (if i == idx {
            1nat
        } else {
            0nat
        }) by {
            assert(b[i].served == a[i].served + (if i == idx {
                1nat
            } else {
                0nat
            }));
        }
        lemma_served_by(a.drop_last(), b.drop_last(), idx);
    }
}

/// One begin or end of a request at a backend, `true` standing for a begin.
pub type Call = (usize, bool);

impl<U> PoolView<U> {
    /// The pool after requests began and ended in the given order.
    pub open spec fn after_calls(self, calls: Seq<Call>) -> PoolView<U>
        decreases calls.len(),
    {
        if calls.len() == 0 {
            self
        } else {
            let before = self.after_calls(calls.drop_last());
            let (idx, begin) = calls.last();
            let b = before.backends[idx as int];
            before.with_backend(
                idx as int,
                if begin {
                    b.begun()
                } else {
                    b.ended()
                },
            )
        }
    }
}

/// The calls at backend `i`, in order.
pub open spec fn calls_at(calls: Seq<Call>, i: int) -> Seq<bool>
    decreases calls.len(),
{
    if calls.len() == 0 {
        Seq::empty()
    } else {
        let before = calls_at(calls.drop_last(), i);
        let (idx, begin) = calls.last();
        if idx == i {
            before.push(begin)
        } else {
            before
        }
    }
}

/// Requests that begin and end at one backend leave all others alone.
pub proof fn law_calls_stay_at_their_backend<U>(p: PoolView<U>, calls: Seq<Call>, i: int)
    requires
        forall|k: int| 0 <= k < calls.len() ==> (#[trigger] calls[k]).0 < p.backends.len(),
        0 <= i < p.backends.len(),
    ensures
        ({
            let q = p.after_calls(calls);
            &&& q == (PoolView { backends: q.backends, ..p })
            &&& q.backends.len() == p.backends.len()
            &&& q.backends[i] == p.backends[i].after_calls(calls_at(calls, i))
        }),
    decreases calls.len(),
{
    if calls.len() > 0 {
        let front = calls.drop_last();
        assert forall|k: int| 0 <= k < front.len() implies (#[trigger] front[k]).0
            < p.backends.len() by {
            assert(front[k] == calls[k]);
        }
        law_calls_stay_at_their_backend(p, front, i);
        let (idx, begin) = calls.last();
        assert(calls[calls.len() - 1].0 < p.backends.len());
        if idx == i {
            assert(calls_at(calls, i).drop_last() =~= calls_at(front, i));
        }
    }
}

/// As many begins as ends at every backend, in whatever order the requests end, leave
/// the pool as it was, as long as none ends that has not begun and the counts have
/// room.
pub proof fn law_completed_calls_leave_no_trace<U>(p: PoolView<U>, calls: Seq<Call>)
    requires
        forall|k: int| 0 <= k < calls.len() ==> (#[trigger] calls[k]).0 < p.backends.len(),
        forall|i: int|
            0 <= i < p.backends.len() ==> {
                let here = #[trigger] calls_at(calls, i);
                calls_fit(p.backends[i], here) && here.len() == 2 * begins(here)
            },
    ensures
        p.after_calls(calls) == p,
{
    let q = p.after_calls(calls);
    if p.backends.len() > 0 {
        assert forall|i: int| 0 <= i < p.backends.len() implies q.backends.len()
            == p.backends.len() && #[trigger] q.backends[i] == p.backends[i] by {
            law_calls_stay_at_their_backend(p, calls, i);
            law_calls_are_accounted_for(p.backends[i], calls_at(calls, i));
        }
        law_calls_stay_at_their_backend(p, calls, 0);
        assert(q.backends =~= p.backends);
    } else if calls.len() > 0 {
        assert(calls[0].0 < p.backends.len());
    }
}

} // verus!
