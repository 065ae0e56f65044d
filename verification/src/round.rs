//! One request on its way through a pool: select, send, feed the outcome back,
//! and on failure try elsewhere while attempts are left and the budget pays.

use vstd::prelude::*;
use vstd::string::*;

use crate::backend::BackendView;
use crate::http::Request;
use crate::http::RequestView;
use crate::http::Response;
use crate::http::ResponseView;
use crate::pool::key_text;
use crate::pool::Pool;
use crate::pool::PoolView;
use crate::proxy::Attempt;
use crate::proxy::AttemptView;
use crate::proxy::ProxyError;
use crate::retry::BudgetView;
use crate::retry::RetryBudget;
use crate::selection::law_selection_is_available;
use crate::selection::law_selection_only_takes_turns;
use crate::text::append_decimal;
use crate::text::decimal;
use crate::upstream::ReplyView;
use crate::upstream::Upstream;
use crate::upstream::UpstreamReply;

verus! {

/// One call to an upstream: the reply, and the state it left the upstream in.
pub struct Exchange<U> {
    pub reply: ReplyView,
    pub post: U,
}

/// A request on its way: the pool and the budget as they are now, and the
/// attempts made so far, all of them failed.
pub struct Round<U> {
    pub pool: PoolView<U>,
    pub budget: BudgetView,
    pub attempts: Seq<AttemptView>,
}

impl<U> Round<U> {
    /// The backends that were tried, which failover skips.
    pub open spec fn tried(self) -> Seq<usize> {
        self.attempts.map_values(|a: AttemptView| a.backend)
    }

    /// The backend to call next.
    pub open spec fn choice(self, now: u64, key: Option<Seq<char>>) -> Option<usize> {
        self.pool.pick(now, key, self.tried())
    }

    /// No more backends, or no more attempts: the request has failed.
    pub open spec fn verdict(self) -> ProxyError {
        if self.attempts.len() == 0 {
            ProxyError::NoHealthyUpstream
        } else {
            ProxyError::AllAttemptsFailed(self.attempts.len() as u32)
        }
    }

    /// The round after a selection that found nothing.
    pub open spec fn after_choice(self, now: u64, key: Option<Seq<char>>) -> Round<U> {
        Round { pool: self.pool.after_pick(now, key, self.tried()), ..self }
    }

    /// What is written down about a call to backend `idx`.
    pub open spec fn noted(self, idx: usize, reply: ReplyView) -> AttemptView {
        AttemptView {
            backend: idx,
            backend_name: self.pool.backends[idx as int].name,
            ok: reply.outcome is Ok,
            detail: match reply.outcome {
                Ok(resp) => decimal(resp.status as nat),
                Err(e) => e.text(),
            },
            latency_ms: reply.latency_ms,
            is_retry: self.attempts.len() > 0,
        }
    }

    /// The round after backend `idx` was chosen and called, and the outcome fed
    /// back. A success brings its latency along.
    pub open spec fn after_call(
        self,
        now: u64,
        key: Option<Seq<char>>,
        idx: usize,
        x: Exchange<U>,
    ) -> Round<U> {
        let pool = self.pool.after_pick(now, key, self.tried());
        let called = BackendView { upstream: x.post, ..pool.backends[idx as int] };
        let b = match x.reply.outcome {
            Ok(_) => called.succeeded(now).sampled(pool.ewma, x.reply.latency_ms),
            Err(_) => called.failed(now, pool.health),
        };
        Round {
            pool: pool.with_backend(idx as int, b),
            attempts: self.attempts.push(self.noted(idx, x.reply)),
            ..self
        }
    }

    /// The round once the budget was asked for a retry.
    pub open spec fn after_retry(self) -> Round<U> {
        Round { budget: self.budget.after_retry(), ..self }
    }

    /// Attempts are left, so the budget may be asked for another one.
    pub open spec fn may_ask(self) -> bool {
        self.attempts.len() <= self.budget.cfg.max_retries_per_request
    }
}

impl<U: Upstream> Round<U> {
    /// How the request ends if the upstreams answer with the given exchanges:
    /// the last round and the response. `None` when they cannot have answered
    /// so, or when that is not where the request ends.
    pub open spec fn settled(
        self,
        now: u64,
        key: Option<Seq<char>>,
        req: RequestView,
        trace: Seq<Exchange<U>>,
    ) -> Option<(Round<U>, Result<ResponseView, ProxyError>)>
        decreases trace.len(),
    {
        match self.choice(now, key) {
            None => if trace.len() == 0 {
                Some((self.after_choice(now, key), Err(self.verdict())))
            } else {
                None
            },
            Some(idx) => if trace.len() == 0 || !self.pool.backends[idx as int].upstream.answers(
                req,
                trace[0].reply,
                &trace[0].post,
            ) {
                None
            } else {
                let next = self.after_call(now, key, idx, trace[0]);
                match trace[0].reply.outcome {
                    Ok(resp) => if trace.len() == 1 {
                        Some((next, Ok(resp)))
                    } else {
                        None
                    },
                    Err(_) => if !next.may_ask() {
                        if trace.len() == 1 {
                            Some((next, Err(next.verdict())))
                        } else {
                            None
                        }
                    } else if !next.budget.grants() {
                        if trace.len() == 1 {
                            Some((next.after_retry(), Err(next.verdict())))
                        } else {
                            None
                        }
                    } else {
                        next.after_retry().settled(now, key, req, trace.skip(1))
                    },
                }
            },
        }
    }
}

impl<U: Upstream> BackendView<U> {
    /// The upstream and the counters have room for one more call at `now`.
    pub open spec fn can_be_called(self, now: u64, pool: PoolView<U>) -> bool {
        &&& self.upstream.ready()
        &&& self.in_flight < u32::MAX
        &&& pool.ewma is Some ==> self.ewma_samples < u32::MAX
        &&& self.can_fail(now, pool.health)
    }
}

impl<U: Upstream> PoolView<U> {
    /// Whatever is available at `now` can be called once.
    pub open spec fn can_serve(self, now: u64) -> bool {
        forall|i: int|
            0 <= i < self.backends.len() && (#[trigger] self.backends[i]).is_available(now)
                ==> self.backends[i].can_be_called(now, self)
    }
}

/// `now` is what became of `before` while the backends in `tried` were called:
/// everybody else was at most given a turn.
#[verifier::opaque]
pub open spec fn only_tried_changed<U>(
    before: PoolView<U>,
    now: PoolView<U>,
    tried: Seq<usize>,
) -> bool {
    &&& now == (PoolView { backends: now.backends, rr_cursor: now.rr_cursor, ..before })
    &&& now.backends.len() == before.backends.len()
    &&& forall|i: int|
        0 <= i < before.backends.len() ==> {
            let a = #[trigger] now.backends[i];
            let b = before.backends[i];
            &&& a.weight == b.weight
            &&& a.name == b.name
            &&& a.in_flight == b.in_flight
            &&& a.healthy == b.healthy
            &&& !tried.contains(i as usize) ==> a == (BackendView {
                current_weight: a.current_weight,
                ..b
            })
        }
}

/// `now` is what became of `before` while each backend in `tried` was called once:
/// it has recorded one more outcome, and nobody else has.
#[verifier::opaque]
pub open spec fn each_call_counted<U>(
    before: PoolView<U>,
    now: PoolView<U>,
    tried: Seq<usize>,
) -> bool {
    forall|i: int|
        0 <= i < before.backends.len() ==> (#[trigger] now.backends[i]).served
            == before.backends[i].served + (if tried.contains(i as usize) {
            1nat
        } else {
            0nat
        })
}

/// A selection records nothing.
proof fn lemma_choice_counts_nothing<U>(
    before: PoolView<U>,
    r: Round<U>,
    now: u64,
    key: Option<Seq<char>>,
)
    requires
        before.backends.len() == r.pool.backends.len(),
        each_call_counted(before, r.pool, r.tried()),
    ensures
        each_call_counted(before, r.after_choice(now, key).pool, r.tried()),
{
    reveal(each_call_counted);
    let mid = r.after_choice(now, key).pool;
    law_selection_only_takes_turns(r.pool, now, key, r.tried());
    assert forall|i: int| 0 <= i < before.backends.len() implies (
    #[trigger] mid.backends[i]).served == before.backends[i].served + (if r.tried().contains(
        i as usize,
    ) {
        1nat
    } else {
        0nat
    }) by {
        assert(mid.backends[i] == (BackendView {
            current_weight: mid.backends[i].current_weight,
            ..r.pool.backends[i]
        }));
    }
}

/// A call to a backend that was not called before records one outcome there.
proof fn lemma_each_call_counted<U>(
    before: PoolView<U>,
    r: Round<U>,
    now: u64,
    key: Option<Seq<char>>,
    idx: usize,
    x: Exchange<U>,
)
    requires
        before.backends.len() == r.pool.backends.len() <= usize::MAX,
        each_call_counted(before, r.pool, r.tried()),
        idx < before.backends.len(),
        !r.tried().contains(idx),
    ensures
        each_call_counted(
            before,
            r.after_call(now, key, idx, x).pool,
            r.after_call(now, key, idx, x).tried(),
        ),
{
    lemma_choice_counts_nothing(before, r, now, key);
    reveal(each_call_counted);
    let next = r.after_call(now, key, idx, x);
    let mid = r.after_choice(now, key).pool;
    assert(next.tried() =~= r.tried().push(idx));
    assert forall|i: int| 0 <= i < before.backends.len() implies (
    #[trigger] next.pool.backends[i]).served == before.backends[i].served + (
    if next.tried().contains(i as usize) {
        1nat
    } else {
        0nat
    }) by {
        if r.tried().contains(i as usize) {
            let k = choose|k: int| 0 <= k < r.tried().len() && r.tried()[k] == i as usize;
            assert(next.tried()[k] == i as usize);
        }
        if i == idx {
            assert(next.tried()[next.tried().len() - 1] == idx);
        }
    }
}

/// A call to a backend that was chosen keeps everybody else as they were.
pub proof fn lemma_only_tried_changed<U: Upstream>(
    before: PoolView<U>,
    r: Round<U>,
    now: u64,
    key: Option<Seq<char>>,
    idx: usize,
    x: Exchange<U>,
)
    requires
        only_tried_changed(before, r.pool, r.tried()),
        idx < before.backends.len() <= usize::MAX,
    ensures
        only_tried_changed(
            before,
            r.after_call(now, key, idx, x).pool,
            r.after_call(now, key, idx, x).tried(),
        ),
        r.after_call(now, key, idx, x).tried() == r.tried().push(idx),
{
    reveal(only_tried_changed);
    let next = r.after_call(now, key, idx, x);
    let mid = r.pool.after_pick(now, key, r.tried());
    law_selection_only_takes_turns(r.pool, now, key, r.tried());
    assert(next.tried() =~= r.tried().push(idx));
    assert forall|i: int| 0 <= i < before.backends.len() implies ({
        let a = #[trigger] next.pool.backends[i];
        let b = before.backends[i];
        &&& a.weight == b.weight
        &&& a.name == b.name
        &&& a.in_flight == b.in_flight
        &&& a.healthy == b.healthy
        &&& !next.tried().contains(i as usize) ==> a == (BackendView {
            current_weight: a.current_weight,
            ..b
        })
    }) by {
        assert(mid.backends[i] == (BackendView {
            current_weight: mid.backends[i].current_weight,
            ..r.pool.backends[i]
        }));
        if r.tried().contains(i as usize) {
            let k = choose|k: int| 0 <= k < r.tried().len() && r.tried()[k] == i as usize;
            assert(next.tried()[k] == i as usize);
        }
        if i == idx {
            assert(next.tried()[next.tried().len() - 1] == idx);
        }
    }
}

/// The response and the attempts of one request, and what they add to the
/// counters.
pub(crate) struct Outcome {
    pub(crate) response: Result<Response, ProxyError>,
    pub(crate) selected: Option<usize>,
    pub(crate) attempts: Vec<Attempt>,
    pub(crate) retries: u64,
    pub(crate) failovers: u64,
}

/// The first backend that was tried.
pub open spec fn first_tried(attempts: Seq<AttemptView>) -> Option<usize> {
    if attempts.len() == 0 {
        None
    } else {
        Some(attempts[0].backend)
    }
}

/// How many attempts followed a failed one.
pub open spec fn failovers_in(attempts: Seq<AttemptView>) -> nat {
    if attempts.len() == 0 {
        0
    } else {
        (attempts.len() - 1) as nat
    }
}

/// Call one backend and feed the outcome back into its health and circuit state.
fn attempt<U: Upstream>(
    pool: &mut Pool<U>,
    idx: usize,
    now: u64,
    req: &Request,
    is_retry: bool,
) -> (out: (Attempt, Option<Response>, Ghost<Exchange<U>>))
    requires
        old(pool).wf(),
        idx < old(pool)@.backends.len(),
        old(pool)@.backends[idx as int].can_be_called(now, old(pool)@),
    ensures
        final(pool).wf(),
        ({
            let x = out.2@;
            let b = old(pool)@.backends[idx as int];
            let called = BackendView { upstream: x.post, ..b };
            &&& b.upstream.answers(req@, x.reply, &x.post)
            &&& out.0@ == (AttemptView {
                backend: idx,
                backend_name: b.name,
                ok: x.reply.outcome is Ok,
                detail: match x.reply.outcome {
                    Ok(resp) => decimal(resp.status as nat),
                    Err(e) => e.text(),
                },
                latency_ms: x.reply.latency_ms,
                is_retry,
            })
            &&& match x.reply.outcome {
                Ok(resp) => {
                    &&& out.1 is Some
                    &&& out.1->0@ == resp
                    &&& final(pool)@ == old(pool)@.with_backend(
                        idx as int,
                        called.succeeded(now).sampled(old(pool)@.ewma, x.reply.latency_ms),
                    )
                },
                Err(_) => {
                    &&& out.1 is None
                    &&& final(pool)@ == old(pool)@.with_backend(
                        idx as int,
                        called.failed(now, old(pool)@.health),
                    )
                },
            }
        }),
{
    let ghost before = pool@;
    pool.begin(idx);
    let reply: UpstreamReply = pool.dispatch(idx, req);
    let name: String = pool.backend(idx).name().to_owned();
    pool.end(idx);
    let ghost x = Exchange { reply: reply@, post: pool@.backends[idx as int].upstream };
    let ghost called = BackendView { upstream: x.post, ..before.backends[idx as int] };
    assert(pool@.backends[idx as int] == called);
    assert(pool@.backends =~= before.backends.update(idx as int, called));
    let latency_ms: u64 = reply.latency_ms;
    match reply.outcome {
        Ok(resp) => {
            pool.record_success_latency(idx, now, latency_ms);
            assert(pool@.backends =~= before.backends.update(
                idx as int,
                pool@.backends[idx as int],
            ));
            let mut detail: String = String::new();
            append_decimal(&mut detail, resp.status as u32);
            assert(detail@ =~= decimal(resp.status as nat));
            (
                Attempt {
                    backend: idx,
                    backend_name: name,
                    ok: true,
                    detail,
                    latency_ms,
                    is_retry,
                },
                Some(resp),
                Ghost(x),
            )
        },
        Err(e) => {
            pool.record_failure(idx, now);
            assert(pool@.backends =~= before.backends.update(
                idx as int,
                pool@.backends[idx as int],
            ));
            (
                Attempt {
                    backend: idx,
                    backend_name: name,
                    ok: false,
                    detail: e.message(),
                    latency_ms,
                    is_retry,
                },
                None,
                Ghost(x),
            )
        },
    }
}

/// The attempts as the contracts see them.
pub open spec fn attempt_list(attempts: Seq<Attempt>) -> Seq<AttemptView> {
    attempts.map_values(|a: Attempt| a@)
}

fn pursue<U: Upstream>(
    pool: &mut Pool<U>,
    budget: &mut RetryBudget,
    now: u64,
    key: Option<&str>,
    req: &Request,
) -> (out: (Outcome, Ghost<Seq<Exchange<U>>>))
    requires
        old(pool).wf(),
        old(pool)@.can_serve(now),
        old(budget)@.can_spend(old(budget)@.cfg.max_retries_per_request as nat),
        old(budget)@.cfg.max_retries_per_request < u32::MAX || old(pool)@.backends.len()
            <= u32::MAX,
    ensures
        final(pool).wf(),
        ({
            let start = Round {
                pool: old(pool)@,
                budget: old(budget)@,
                attempts: Seq::empty(),
            };
            let attempts = attempt_list(out.0.attempts@);
            let last = Round { pool: final(pool)@, budget: final(budget)@, attempts };
            let response = match out.0.response {
                Ok(resp) => Ok(resp@),
                Err(e) => Err(e),
            };
            &&& ends(start, out.1@, now, key_text(key), req@, last, response)
            &&& out.0.selected == first_tried(attempts)
            &&& out.0.retries == final(budget)@.granted - old(budget)@.granted
            &&& out.0.failovers == failovers_in(attempts)
            &&& out.0.retries <= old(budget)@.cfg.max_retries_per_request
            &&& out.0.failovers <= old(budget)@.cfg.max_retries_per_request
        }),
{
    let max_retries: u32 = budget.max_retries_per_request();
    let ghost start = Round { pool: pool@, budget: budget@, attempts: Seq::empty() };
    let ghost text = key_text(key);
    let ghost mut trace: Seq<Exchange<U>> = Seq::empty();
    let mut attempts: Vec<Attempt> = Vec::new();
    let mut tried: Vec<usize> = Vec::new();
    let mut first_selected: Option<usize> = None;
    let mut attempt_no: u32 = 0;
    let mut failovers: u64 = 0;
    proof {
        assert(attempt_list(attempts@) =~= start.attempts);
        assert(start.tried() =~= tried@);
        lemma_arrives_at_start(start, now, text, req@);
        assert(only_tried_changed(start.pool, pool@, tried@)) by {
            reveal(only_tried_changed);
        }
        assert(distinct_below(tried@, start.pool.backends.len() as int)) by {
            reveal(distinct_below);
        }
    }
    let ghost mut cur = start;
    loop
        invariant
            text == key_text(key),
            start == (Round {
                pool: old(pool)@,
                budget: old(budget)@,
                attempts: Seq::<AttemptView>::empty(),
            }),
            pool.wf(),
            max_retries == start.budget.cfg.max_retries_per_request,
            start.budget.can_spend(max_retries as nat),
            start.pool.can_serve(now),
            start.pool.backends.len() <= usize::MAX,
            max_retries < u32::MAX || start.pool.backends.len() <= u32::MAX,
            attempt_no <= max_retries,
            attempt_no == attempts@.len(),
            attempt_no == tried@.len(),
            distinct_below(tried@, start.pool.backends.len() as int),
            cur.pool == pool@,
            cur.budget == budget@,
            cur.attempts == attempt_list(attempts@),
            cur.tried() == tried@,
            first_selected == first_tried(cur.attempts),
            failovers == failovers_in(cur.attempts),
            budget@ == spent(start.budget, attempt_no as nat),
            only_tried_changed(start.pool, cur.pool, tried@),
            arrives(start, trace, cur, now, text, req@),
        decreases max_retries - attempt_no,
    {
        let chosen: Option<usize> = pool.select(now, key, tried.as_slice());
        assert(chosen == cur.choice(now, text));
        let idx: usize = match chosen {
            Some(i) => i,
            None => {
                let err: ProxyError = if attempts.len() == 0 {
                    ProxyError::NoHealthyUpstream
                } else {
                    ProxyError::AllAttemptsFailed(attempt_no)
                };
                proof {
                    lemma_settled_without_choice(start, cur, now, text, req@, trace);
                    assert(err == cur.verdict());
                }
                return (
                    Outcome {
                        response: Err(err),
                        selected: first_selected,
                        attempts,
                        retries: attempt_no as u64,
                        failovers,
                    },
                    Ghost(trace),
                );
            },
        };
        proof {
            lemma_choice_can_be_called(start.pool, cur, now, text, idx);
            lemma_distinct_below(tried@, idx, start.pool.backends.len() as int);
        }
        if first_selected.is_none() {
            first_selected = Some(idx);
        }
        let is_retry: bool = attempt_no > 0;
        if is_retry {
            failovers = failovers + 1;
        }
        let (note, response, Ghost(x)) = attempt(pool, idx, now, req, is_retry);
        attempts.push(note);
        let ghost next = cur.after_call(now, text, idx, x);
        proof {
            assert(note@ == cur.noted(idx, x.reply));
            assert(attempt_list(attempts@) =~= next.attempts);
            assert(pool@ == next.pool);
            lemma_only_tried_changed(start.pool, cur, now, text, idx, x);
            lemma_settled_step(start, cur, now, text, req@, trace, idx, x);
            trace = trace.push(x);
            cur = next;
        }
        if let Some(resp) = response {
            return (
                Outcome {
                    response: Ok(resp),
                    selected: first_selected,
                    attempts,
                    retries: attempt_no as u64,
                    failovers,
                },
                Ghost(trace),
            );
        }
        tried.push(idx);
        attempt_no = attempt_no + 1;
        assert(ProxyError::AllAttemptsFailed(attempt_no) == next.verdict());
        if attempt_no > max_retries {
            return (
                Outcome {
                    response: Err(ProxyError::AllAttemptsFailed(attempt_no)),
                    selected: first_selected,
                    attempts,
                    retries: (attempt_no - 1) as u64,
                    failovers,
                },
                Ghost(trace),
            );
        }
        proof {
            lemma_spending_fits(start.budget, (attempt_no - 1) as nat, max_retries as nat);
            cur = next.after_retry();
        }
        let allowed: bool = budget.try_retry();
        if !allowed {
            return (
                Outcome {
                    response: Err(ProxyError::AllAttemptsFailed(attempt_no)),
                    selected: first_selected,
                    attempts,
                    retries: (attempt_no - 1) as u64,
                    failovers,
                },
                Ghost(trace),
            );
        }
    }
}

/// Select, send, feed the outcome back, and retry elsewhere until the request
/// succeeds or may not be tried again.
pub(crate) fn forward<U: Upstream>(
    pool: &mut Pool<U>,
    budget: &mut RetryBudget,
    now: u64,
    key: Option<&str>,
    req: &Request,
) -> (out: (Outcome, Ghost<Seq<Exchange<U>>>))
    requires
        old(pool).wf(),
        old(pool)@.can_serve(now),
        old(budget)@.can_spend(old(budget)@.cfg.max_retries_per_request as nat),
        old(budget)@.cfg.max_retries_per_request < u32::MAX || old(pool)@.backends.len()
            <= u32::MAX,
    ensures
        final(pool).wf(),
        ({
            let start = Round {
                pool: old(pool)@,
                budget: old(budget)@,
                attempts: Seq::empty(),
            };
            let attempts = attempt_list(out.0.attempts@);
            let last = Round { pool: final(pool)@, budget: final(budget)@, attempts };
            let response = match out.0.response {
                Ok(resp) => Ok(resp@),
                Err(e) => Err(e),
            };
            &&& start.settled(now, key_text(key), req@, out.1@) == Some((last, response))
            &&& out.0.selected == first_tried(attempts)
            &&& out.0.retries == final(budget)@.granted - old(budget)@.granted
            &&& out.0.failovers == failovers_in(attempts)
            &&& out.0.retries <= old(budget)@.cfg.max_retries_per_request
            &&& out.0.failovers <= old(budget)@.cfg.max_retries_per_request
        }),
{
    proof {
        reveal(ends);
    }
    pursue(pool, budget, now, key, req)
}

/// The budget after `n` retries were paid for.
spec fn spent(b: BudgetView, n: nat) -> BudgetView {
    BudgetView { tokens: b.tokens - n * b.cfg.retry_cost_milli, granted: b.granted + n, ..b }
}

proof fn lemma_spending_fits(b: BudgetView, n: nat, max: nat)
    requires
        b.can_spend(max),
        n < max,
    ensures
        spent(b, n).tokens - b.cfg.retry_cost_milli <= i64::MAX,
        spent(b, n).granted < u64::MAX,
        spent(b, n).denied < u64::MAX,
        spent(b, n).grants() ==> spent(b, n).after_retry() == spent(b, n + 1),
{
    let cost = b.cfg.retry_cost_milli as int;
    let t = b.tokens;
    assert((n + 1) * cost == n * cost + cost) by (nonlinear_arith);
    assert(t - (n + 1) * cost <= i64::MAX) by (nonlinear_arith)
        requires
            t <= i64::MAX,
            t - max * cost <= i64::MAX,
            n + 1 <= max,
    ;
}

/// Different numbers below `n`.
#[verifier::opaque]
spec fn distinct_below(list: Seq<usize>, n: int) -> bool {
    &&& list.no_duplicates()
    &&& list.len() <= n
    &&& forall|k: int| 0 <= k < list.len() ==> (#[trigger] list[k]) < n
}

proof fn lemma_distinct_below(list: Seq<usize>, x: usize, n: int)
    requires
        distinct_below(list, n),
        x < n,
        !list.contains(x),
    ensures
        distinct_below(list.push(x), n),
        list.len() < n,
{
    reveal(distinct_below);
    let more = list.push(x);
    assert forall|i: int, j: int| 0 <= i < more.len() && 0 <= j < more.len() && i != j implies
        more[i] != more[j] by {
        if i < list.len() && j == list.len() {
            assert(list.contains(list[i]));
        }
        if j < list.len() && i == list.len() {
            assert(list.contains(list[j]));
        }
    }
    lemma_distinct_are_few(more, n);
}

/// There are no more different numbers below `n` than `n`.
proof fn lemma_distinct_are_few(list: Seq<usize>, n: int)
    requires
        0 <= n,
        list.no_duplicates(),
        forall|k: int| 0 <= k < list.len() ==> (#[trigger] list[k]) < n,
    ensures
        list.len() <= n,
{
    let ints = list.map_values(|x: usize| x as int);
    assert(ints.no_duplicates());
    ints.unique_seq_to_set();
    let range = vstd::set_lib::set_int_range(0, n);
    vstd::set_lib::lemma_int_range(0, n);
    assert(ints.to_set().subset_of(range)) by {
        assert forall|y: int| ints.to_set().contains(y) implies range.contains(y) by {
            let k = choose|k: int| 0 <= k < ints.len() && ints[k] == y;
            assert(list[k] < n);
        }
    }
    vstd::set_lib::lemma_len_subset(ints.to_set(), range);
}

/// The request ends at `last` with `response` if the upstreams answer with
/// `trace`.
#[verifier::opaque]
spec fn ends<U: Upstream>(
    start: Round<U>,
    trace: Seq<Exchange<U>>,
    now: u64,
    key: Option<Seq<char>>,
    req: RequestView,
    last: Round<U>,
    response: Result<ResponseView, ProxyError>,
) -> bool {
    start.settled(now, key, req, trace) == Some((last, response))
}

/// The request is at `cur` once the upstreams have answered with `trace`, and
/// how it ends from there is how it ends.
#[verifier::opaque]
spec fn arrives<U: Upstream>(
    start: Round<U>,
    trace: Seq<Exchange<U>>,
    cur: Round<U>,
    now: u64,
    key: Option<Seq<char>>,
    req: RequestView,
) -> bool {
    forall|rest: Seq<Exchange<U>>| #[trigger]
        start.settled(now, key, req, trace + rest) == cur.settled(now, key, req, rest)
}

proof fn lemma_arrives_at_start<U: Upstream>(
    start: Round<U>,
    now: u64,
    key: Option<Seq<char>>,
    req: RequestView,
)
    ensures
        arrives(start, Seq::empty(), start, now, key, req),
{
    reveal(arrives);
    let none: Seq<Exchange<U>> = Seq::empty();
    assert forall|rest: Seq<Exchange<U>>| #[trigger]
        start.settled(now, key, req, none + rest) == start.settled(now, key, req, rest) by {
        assert(none + rest =~= rest);
    }
}

proof fn lemma_settled_without_choice<U: Upstream>(
    start: Round<U>,
    cur: Round<U>,
    now: u64,
    key: Option<Seq<char>>,
    req: RequestView,
    trace: Seq<Exchange<U>>,
)
    requires
        arrives(start, trace, cur, now, key, req),
        cur.choice(now, key) is None,
    ensures
        ends(start, trace, now, key, req, cur.after_choice(now, key), Err(cur.verdict())),
{
    reveal(ends);
    reveal(arrives);
    let none: Seq<Exchange<U>> = Seq::empty();
    assert(trace + none =~= trace);
    assert(start.settled(now, key, req, trace + none) == cur.settled(now, key, req, none));
}

/// What is chosen was available from the start, so it can be called.
proof fn lemma_choice_can_be_called<U: Upstream>(
    start: PoolView<U>,
    cur: Round<U>,
    now: u64,
    key: Option<Seq<char>>,
    idx: usize,
)
    requires
        cur.pool.wf(),
        start.can_serve(now),
        only_tried_changed(start, cur.pool, cur.tried()),
        cur.choice(now, key) == Some(idx),
    ensures
        idx < start.backends.len(),
        !cur.tried().contains(idx),
        start.backends[idx as int].is_available(now),
        cur.pool.after_pick(now, key, cur.tried()).backends[idx as int].can_be_called(
            now,
            cur.pool.after_pick(now, key, cur.tried()),
        ),
        cur.pool.after_pick(now, key, cur.tried()).backends[idx as int].upstream
            == cur.pool.backends[idx as int].upstream,
        cur.pool.after_pick(now, key, cur.tried()).backends[idx as int].name
            == cur.pool.backends[idx as int].name,
        cur.pool.after_pick(now, key, cur.tried()).backends.len() == start.backends.len(),
{
    reveal(only_tried_changed);
    let picked = cur.pool.after_pick(now, key, cur.tried());
    law_selection_is_available(cur.pool, now, key, cur.tried());
    law_selection_only_takes_turns(cur.pool, now, key, cur.tried());
    assert(picked.backends[idx as int] == (BackendView {
        current_weight: picked.backends[idx as int].current_weight,
        ..cur.pool.backends[idx as int]
    }));
    assert(cur.pool.backends[idx as int] == (BackendView {
        current_weight: cur.pool.backends[idx as int].current_weight,
        ..start.backends[idx as int]
    }));
    assert(start.backends[idx as int].can_be_called(now, start));
}

/// What one more exchange adds to what is known of how the request ends.
proof fn lemma_settled_step<U: Upstream>(
    start: Round<U>,
    cur: Round<U>,
    now: u64,
    key: Option<Seq<char>>,
    req: RequestView,
    trace: Seq<Exchange<U>>,
    idx: usize,
    x: Exchange<U>,
)
    requires
        arrives(start, trace, cur, now, key, req),
        cur.choice(now, key) == Some(idx),
        cur.pool.backends[idx as int].upstream.answers(req, x.reply, &x.post),
    ensures
        ({
            let next = cur.after_call(now, key, idx, x);
            match x.reply.outcome {
                Ok(resp) => ends(start, trace.push(x), now, key, req, next, Ok(resp)),
                Err(_) => if !next.may_ask() {
                    ends(start, trace.push(x), now, key, req, next, Err(next.verdict()))
                } else if !next.budget.grants() {
                    ends(
                        start,
                        trace.push(x),
                        now,
                        key,
                        req,
                        next.after_retry(),
                        Err(next.verdict()),
                    )
                } else {
                    arrives(start, trace.push(x), next.after_retry(), now, key, req)
                },
            }
        }),
{
    reveal(ends);
    reveal(arrives);
    let one = seq![x];
    assert(trace + one =~= trace.push(x));
    assert(start.settled(now, key, req, trace + one) == cur.settled(now, key, req, one));
    assert forall|rest: Seq<Exchange<U>>| x.reply.outcome is Err && cur.after_call(
        now,
        key,
        idx,
        x,
    ).may_ask() && cur.budget.grants() implies #[trigger] start.settled(
        now,
        key,
        req,
        trace.push(x) + rest,
    ) == cur.after_call(now, key, idx, x).after_retry().settled(now, key, req, rest) by {
        let more = one + rest;
        assert(trace.push(x) + rest =~= trace + more);
        assert(more.skip(1) =~= rest);
        assert(more[0] == x);
        assert(start.settled(now, key, req, trace + more) == cur.settled(now, key, req, more));
    }
}

/// The pool and budget that a request has gone through belong together with the
/// ones it started from.
pub open spec fn follows<U>(r: Round<U>, last: Round<U>) -> bool {
    let made = last.attempts.len() - r.attempts.len();
    let cost = r.budget.cfg.retry_cost_milli;
    let asked = last.budget.granted - r.budget.granted;
    &&& last.pool.wf()
    &&& only_tried_changed(r.pool, last.pool, last.tried())
    &&& made >= 0
    &&& last.attempts.take(r.attempts.len() as int) == r.attempts
    &&& last.budget.cfg == r.budget.cfg
    &&& made - 1 <= asked <= made
    &&& asked >= 0
    &&& last.budget.tokens + last.budget.granted * cost == r.budget.tokens + r.budget.granted * cost
    &&& cost > 0 && r.budget.tokens >= 0 ==> 0 <= last.budget.tokens <= r.budget.tokens
    &&& r.budget.denied <= last.budget.denied <= r.budget.denied + 1
}

/// Each attempt went to a backend of its own that was available when the request
/// started, and only the first is no retry.
pub open spec fn attempts_spread<U>(
    start: PoolView<U>,
    now: u64,
    attempts: Seq<AttemptView>,
) -> bool {
    forall|k: int|
        0 <= k < attempts.len() ==> {
            let a = #[trigger] attempts[k];
            &&& a.backend < start.backends.len()
            &&& start.backends[a.backend as int].is_available(now)
            &&& a.backend_name == start.backends[a.backend as int].name
            &&& a.is_retry == (k > 0)
            &&& forall|j: int| 0 <= j < k ==> (#[trigger] attempts[j]).backend != a.backend
        }
}

proof fn lemma_tried_changes_compose<U>(
    a: PoolView<U>,
    b: PoolView<U>,
    c: PoolView<U>,
    first: Seq<usize>,
    all: Seq<usize>,
)
    requires
        only_tried_changed(a, b, first),
        only_tried_changed(b, c, all),
        forall|x: usize| #[trigger] first.contains(x) ==> all.contains(x),
    ensures
        only_tried_changed(a, c, all),
{
    reveal(only_tried_changed);
    assert forall|i: int| 0 <= i < a.backends.len() implies ({
        let x = #[trigger] c.backends[i];
        let y = a.backends[i];
        &&& x.weight == y.weight
        &&& x.name == y.name
        &&& x.in_flight == y.in_flight
        &&& x.healthy == y.healthy
        &&& !all.contains(i as usize) ==> x == (BackendView {
            current_weight: x.current_weight,
            ..y
        })
    }) by {
        let mid = b.backends[i];
        if !all.contains(i as usize) {
            assert(!first.contains(i as usize));
        }
    }
}

pub proof fn lemma_only_turns_changed<U>(
    p: PoolView<U>,
    now: u64,
    key: Option<Seq<char>>,
    exclude: Seq<usize>,
    tried: Seq<usize>,
)
    ensures
        only_tried_changed(p, p, tried),
        only_tried_changed(p, p.after_pick(now, key, exclude), tried),
{
    reveal(only_tried_changed);
    law_selection_only_takes_turns(p, now, key, exclude);
    let q = p.after_pick(now, key, exclude);
    assert forall|i: int| 0 <= i < p.backends.len() implies ({
        let x = #[trigger] q.backends[i];
        let y = p.backends[i];
        &&& x.weight == y.weight
        &&& x.name == y.name
        &&& x.in_flight == y.in_flight
        &&& x.healthy == y.healthy
        &&& !tried.contains(i as usize) ==> x == (BackendView {
            current_weight: x.current_weight,
            ..y
        })
    }) by {
        assert(q.backends[i] == (BackendView {
            current_weight: q.backends[i].current_weight,
            ..p.backends[i]
        }));
    }
}

/// A call goes to a backend that was available and not tried before, and keeps
/// the pool well formed whatever comes of it.
pub proof fn lemma_call_keeps_pool_well_formed<U>(
    r: Round<U>,
    now: u64,
    key: Option<Seq<char>>,
    idx: usize,
    x: Exchange<U>,
)
    requires
        r.pool.wf(),
        r.choice(now, key) == Some(idx),
    ensures
        idx < r.pool.backends.len(),
        !r.tried().contains(idx),
        r.pool.backends[idx as int].is_available(now),
        r.after_call(now, key, idx, x).pool.wf(),
{
    let next = r.after_call(now, key, idx, x);
    let mid = r.pool.after_pick(now, key, r.tried());
    law_selection_is_available(r.pool, now, key, r.tried());
    law_selection_only_takes_turns(r.pool, now, key, r.tried());
    crate::selection::law_selection_keeps_pool_well_formed(r.pool, now, key, r.tried());
    assert(1 <= mid.backends[idx as int].ramp_percent <= 100);
    crate::selection::lemma_backend_keeps_pool_well_formed(
        mid,
        idx as int,
        next.pool.backends[idx as int],
    );
}

/// What one call does, whatever comes of it.
proof fn lemma_one_call<U: Upstream>(
    r: Round<U>,
    now: u64,
    key: Option<Seq<char>>,
    idx: usize,
    x: Exchange<U>,
)
    requires
        r.pool.wf(),
        r.choice(now, key) == Some(idx),
    ensures
        ({
            let next = r.after_call(now, key, idx, x);
            &&& idx < r.pool.backends.len()
            &&& next.pool.wf()
            &&& only_tried_changed(r.pool, next.pool, next.tried())
            &&& next.tried() == r.tried().push(idx)
            &&& !r.tried().contains(idx)
            &&& r.pool.backends[idx as int].is_available(now)
        }),
{
    lemma_call_keeps_pool_well_formed(r, now, key, idx, x);
    lemma_only_turns_changed(r.pool, now, key, r.tried(), r.tried());
    lemma_only_tried_changed(r.pool, r, now, key, idx, x);
}

proof fn lemma_settled<U: Upstream>(
    start: PoolView<U>,
    r: Round<U>,
    now: u64,
    key: Option<Seq<char>>,
    req: RequestView,
    trace: Seq<Exchange<U>>,
)
    requires
        r.pool.wf(),
        only_tried_changed(start, r.pool, r.tried()),
        each_call_counted(start, r.pool, r.tried()),
        attempts_spread(start, now, r.attempts),
        r.may_ask(),
        forall|k: int| 0 <= k < r.attempts.len() ==> !(#[trigger] r.attempts[k]).ok,
        r.settled(now, key, req, trace) is Some,
    ensures
        ({
            let (last, response) = r.settled(now, key, req, trace)->0;
            &&& follows(r, last)
            &&& each_call_counted(start, last.pool, last.tried())
            &&& attempts_spread(start, now, last.attempts)
            &&& last.attempts.len() == r.attempts.len() + trace.len()
            &&& last.attempts.len() <= r.budget.cfg.max_retries_per_request + 1
            &&& outcome_matches(last.attempts, response)
        }),
    decreases trace.len(),
{
    assert(start.backends.len() == r.pool.backends.len()) by {
        reveal(only_tried_changed);
    }
    match r.choice(now, key) {
        None => {
            lemma_choice_counts_nothing(start, r, now, key);
            crate::selection::law_selection_keeps_pool_well_formed(r.pool, now, key, r.tried());
            lemma_only_turns_changed(r.pool, now, key, r.tried(), r.tried());
            assert(r.attempts.take(r.attempts.len() as int) =~= r.attempts);
        },
        Some(idx) => {
            let x = trace[0];
            let next = r.after_call(now, key, idx, x);
            lemma_one_call(r, now, key, idx, x);
            lemma_each_call_counted(start, r, now, key, idx, x);
            assert(next.attempts.take(r.attempts.len() as int) =~= r.attempts);
            lemma_spread_grows(start, r, now, idx, x.reply);
            match x.reply.outcome {
                Ok(_) => {},
                Err(_) => {
                    if next.may_ask() {
                        let cost = r.budget.cfg.retry_cost_milli as int;
                        let g = r.budget.granted as int;
                        assert((g + 1) * cost == g * cost + cost) by (nonlinear_arith);
                        if next.budget.grants() {
                            let again = next.after_retry();
                            assert(again.tried() == next.tried());
                            assert forall|y: usize| #[trigger] r.tried().contains(y) implies
                                next.tried().contains(y) by {
                                let k = choose|k: int|
                                    0 <= k < r.tried().len() && r.tried()[k] == y;
                                assert(next.tried()[k] == y);
                            }
                            lemma_tried_changes_compose(
                                start,
                                r.pool,
                                next.pool,
                                r.tried(),
                                next.tried(),
                            );
                            lemma_settled(start, again, now, key, req, trace.skip(1));
                            let (last, _) = again.settled(now, key, req, trace.skip(1))->0;
                            lemma_prefix_is_tried(next, last);
                            lemma_tried_changes_compose(
                                r.pool,
                                next.pool,
                                last.pool,
                                next.tried(),
                                last.tried(),
                            );
                            assert(last.attempts.take(r.attempts.len() as int) =~= r.attempts) by {
                                assert(last.attempts.take(next.attempts.len() as int)
                                    == next.attempts);
                                assert(last.attempts.take(r.attempts.len() as int)
                                    =~= next.attempts.take(r.attempts.len() as int));
                            }
                        }
                    }
                },
            }
        },
    }
}

proof fn lemma_prefix_is_tried<U>(r: Round<U>, last: Round<U>)
    requires
        r.attempts.len() <= last.attempts.len(),
        last.attempts.take(r.attempts.len() as int) == r.attempts,
    ensures
        forall|x: usize| #[trigger] r.tried().contains(x) ==> last.tried().contains(x),
{
    assert forall|x: usize| #[trigger] r.tried().contains(x) implies last.tried().contains(x) by {
        let k = choose|k: int| 0 <= k < r.tried().len() && r.tried()[k] == x;
        assert(last.attempts.take(r.attempts.len() as int)[k] == r.attempts[k]);
        assert(last.tried()[k] == x);
    }
}

proof fn lemma_spread_grows<U: Upstream>(
    start: PoolView<U>,
    r: Round<U>,
    now: u64,
    idx: usize,
    reply: ReplyView,
)
    requires
        only_tried_changed(start, r.pool, r.tried()),
        attempts_spread(start, now, r.attempts),
        idx < r.pool.backends.len(),
        r.pool.backends[idx as int].is_available(now),
        !r.tried().contains(idx),
    ensures
        attempts_spread(start, now, r.attempts.push(r.noted(idx, reply))),
{
    reveal(only_tried_changed);
    let n = r.attempts.len() as int;
    let more = r.attempts.push(r.noted(idx, reply));
    assert forall|k: int| 0 <= k < more.len() implies {
        let a = #[trigger] more[k];
        &&& a.backend < start.backends.len()
        &&& start.backends[a.backend as int].is_available(now)
        &&& a.backend_name == start.backends[a.backend as int].name
        &&& a.is_retry == (k > 0)
        &&& forall|j: int| 0 <= j < k ==> (#[trigger] more[j]).backend != a.backend
    } by {
        if k < n {
            assert(more[k] == r.attempts[k]);
            assert forall|j: int| 0 <= j < k implies (#[trigger] more[j]).backend
                != more[k].backend by {
                assert(more[j] == r.attempts[j]);
            }
        } else {
            assert forall|j: int| 0 <= j < k implies (#[trigger] more[j]).backend
                != more[k].backend by {
                assert(r.tried()[j] == more[j].backend);
            }
            assert(r.pool.backends[idx as int] == (BackendView {
                current_weight: r.pool.backends[idx as int].current_weight,
                ..start.backends[idx as int]
            }));
        }
    }
}

/// The response is what the attempts say: that of the last one when it was good,
/// and else the number of attempts that failed.
pub open spec fn outcome_matches(
    attempts: Seq<AttemptView>,
    response: Result<ResponseView, ProxyError>,
) -> bool {
    &&& forall|k: int| 0 <= k < attempts.len() - 1 ==> !(#[trigger] attempts[k]).ok
    &&& match response {
        Ok(_) => attempts.len() > 0 && attempts.last().ok,
        Err(ProxyError::NoRoute) => false,
        Err(ProxyError::NoHealthyUpstream) => attempts.len() == 0,
        Err(ProxyError::AllAttemptsFailed(n)) => {
            &&& attempts.len() > 0
            &&& !attempts.last().ok
            &&& attempts.len() <= u32::MAX ==> n == attempts.len()
        },
    }
}

/// Whatever the upstreams answer, a request that has ended has kept to its pool
/// and budget, has spread its attempts, and is answered by what they came to.
pub proof fn lemma_request_ends_well<U: Upstream>(
    start: Round<U>,
    now: u64,
    key: Option<Seq<char>>,
    req: RequestView,
    trace: Seq<Exchange<U>>,
)
    requires
        start.pool.wf(),
        start.attempts.len() == 0,
        start.settled(now, key, req, trace) is Some,
    ensures
        ({
            let (last, response) = start.settled(now, key, req, trace)->0;
            &&& follows(start, last)
            &&& each_call_counted(start.pool, last.pool, last.tried())
            &&& attempts_spread(start.pool, now, last.attempts)
            &&& last.attempts.len() == trace.len()
            &&& last.attempts.len() <= start.budget.cfg.max_retries_per_request + 1
            &&& last.attempts.len() <= start.pool.backends.len()
            &&& outcome_matches(last.attempts, response)
            &&& first_tried(last.attempts) == start.choice(now, key)
            &&& response matches Ok(resp) ==> trace.last().reply.outcome matches Ok(reply) && reply
                == resp
        }),
{
    lemma_attempts_only_grow(start, now, key, req, trace);
    lemma_only_turns_changed(start.pool, now, key, start.tried(), start.tried());
    assert(each_call_counted(start.pool, start.pool, start.tried())) by {
        reveal(each_call_counted);
    }
    lemma_settled(start.pool, start, now, key, req, trace);
    let (last, _) = start.settled(now, key, req, trace)->0;
    lemma_attempts_are_few(start.pool, now, last.attempts);
    if let Some(idx) = start.choice(now, key) {
        let next = start.after_call(now, key, idx, trace[0]);
        if trace[0].reply.outcome is Err && next.may_ask() && next.budget.grants() {
            lemma_attempts_only_grow(next.after_retry(), now, key, req, trace.skip(1));
            assert(last.attempts.take(1)[0] == next.attempts[0]);
        }
    }
}

/// There is a backend of its own to each attempt.
proof fn lemma_attempts_are_few<U>(start: PoolView<U>, now: u64, attempts: Seq<AttemptView>)
    requires
        attempts_spread(start, now, attempts),
    ensures
        attempts.len() <= start.backends.len(),
{
    let list = attempts.map_values(|a: AttemptView| a.backend);
    assert forall|i: int, j: int| 0 <= i < list.len() && 0 <= j < list.len() && i != j implies
        list[i] != list[j] by {
        assert(list[i] == attempts[i].backend && list[j] == attempts[j].backend);
    }
    assert forall|k: int| 0 <= k < list.len() implies (#[trigger] list[k])
        < start.backends.len() by {
        assert(list[k] == attempts[k].backend);
    }
    lemma_distinct_are_few(list, start.backends.len() as int);
}

/// What was written down stays written down, and a good response is that of the
/// last call.
proof fn lemma_attempts_only_grow<U: Upstream>(
    r: Round<U>,
    now: u64,
    key: Option<Seq<char>>,
    req: RequestView,
    trace: Seq<Exchange<U>>,
)
    requires
        r.settled(now, key, req, trace) is Some,
    ensures
        ({
            let (last, response) = r.settled(now, key, req, trace)->0;
            &&& r.attempts.len() <= last.attempts.len()
            &&& last.attempts.take(r.attempts.len() as int) == r.attempts
            &&& response matches Ok(resp) ==> trace.last().reply.outcome matches Ok(reply) && reply
                == resp
        }),
    decreases trace.len(),
{
    let (last, _) = r.settled(now, key, req, trace)->0;
    match r.choice(now, key) {
        None => {
            assert(last.attempts.take(r.attempts.len() as int) =~= r.attempts);
        },
        Some(idx) => {
            let next = r.after_call(now, key, idx, trace[0]);
            if trace[0].reply.outcome is Err && next.may_ask() && next.budget.grants() {
                lemma_attempts_only_grow(next.after_retry(), now, key, req, trace.skip(1));
                assert(last.attempts.take(r.attempts.len() as int) =~= last.attempts.take(
                    next.attempts.len() as int,
                ).take(r.attempts.len() as int));
                assert(next.attempts.take(r.attempts.len() as int) =~= r.attempts);
            } else {
                assert(last.attempts.take(r.attempts.len() as int) =~= r.attempts);
            }
        },
    }
}

/// Attempts are listed in the order they were made, each as it is.
pub proof fn law_attempts_are_listed_in_order(attempts: Seq<Attempt>, i: int)
    requires
        0 <= i < attempts.len(),
    ensures
        attempt_list(attempts).len() == attempts.len(),
        attempt_list(attempts)[i].backend == attempts[i].backend,
        attempt_list(attempts)[i].backend_name == attempts[i].backend_name@,
        attempt_list(attempts)[i].ok == attempts[i].ok,
        attempt_list(attempts)[i].detail == attempts[i].detail@,
        attempt_list(attempts)[i].latency_ms == attempts[i].latency_ms,
        attempt_list(attempts)[i].is_retry == attempts[i].is_retry,
{
}

} // verus!
