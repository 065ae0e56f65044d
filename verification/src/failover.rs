//! How a request goes from attempt to attempt: which backend each one goes to, what
//! comes of it there, and when there is no further one.

use vstd::prelude::*;

use crate::backend::BackendView;
use crate::hashring::owner_of;
use crate::hashring::ring_of;
use crate::http::is_named;
use crate::http::law_first_header_of_the_name_is_found;
use crate::http::RequestView;
use crate::pool::lemma_idlest;
use crate::pool::PoolView;
use crate::pool::Strategy;
use crate::proxy::law_first_attempt_is_pool_choice;
use crate::proxy::law_success_is_a_good_last_attempt;
use crate::proxy::was_tried;
use crate::proxy::AttemptView;
use crate::proxy::ProxyError;
use crate::proxy::ProxyView;
use crate::proxy::ResultView;
use crate::round::lemma_call_keeps_pool_well_formed;
use crate::round::lemma_only_tried_changed;
use crate::round::lemma_only_turns_changed;
use crate::round::lemma_request_ends_well;
use crate::round::only_tried_changed;
use crate::round::Exchange;
use crate::round::Round;
use crate::router::service_for;
use crate::selection::law_highest_standing_is_chosen;
use crate::selection::law_key_goes_to_its_owner_on_the_ring;
use crate::selection::law_selection_fails_only_without_capacity;
use crate::selection::law_selection_only_takes_turns;
use crate::selection::law_turn_is_taken_at_the_cursor;
use crate::selection::lemma_idlest_exists;
use crate::selection::takes_turns;
use crate::text::decimal;
use crate::upstream::Upstream;
use crate::upstream::UpstreamError;

verus! {

/// The backends of the first `k` attempts.
pub open spec fn tried_before(attempts: Seq<AttemptView>, k: int) -> Seq<usize> {
    Seq::new(k as nat, |j: int| attempts[j].backend)
}

/// Nobody is left to go to: whoever was not tried cannot be called, or has no weight
/// under the weighted strategy.
pub open spec fn nobody_left<U>(start: PoolView<U>, now: u64, tried: Seq<usize>) -> bool {
    forall|i: int|
        0 <= i < start.backends.len() && !tried.contains(i as usize) && (
        #[trigger] start.backends[i]).is_available(now) ==> start.strategy is Weighted
            && start.backends[i].weight == 0
}

/// Attempt `k` went where the strategy sends it, out of the backends that could be
/// called when the request came in and were not tried before: to the owner of the key,
/// to the one with the fewest requests under way, to the one whose turn it is after `k`
/// turns, or to one with a weight.
pub open spec fn goes_by_strategy<U>(
    start: PoolView<U>,
    now: u64,
    key: Option<Seq<char>>,
    attempts: Seq<AttemptView>,
    k: int,
) -> bool {
    let i = attempts[k].backend;
    let before = tried_before(attempts, k);
    let left = start.candidates(now, before);
    &&& left.contains(i)
    &&& match (start.strategy, key) {
        (Strategy::Weighted, _) => start.backends[i as int].weight > 0,
        (Strategy::LeastConnections, _) => start.pick(now, key, before) == Some(i),
        (Strategy::ConsistentHash, Some(_)) => start.pick(now, key, before) == Some(i),
        _ => start.rr_cursor + k <= usize::MAX ==> i == left[(start.rr_cursor + k)
            % left.len() as int],
    }
}

/// Attempt `k` sent the request to its backend as it was and wrote down what came back.
pub open spec fn notes_answer<U: Upstream>(
    start: PoolView<U>,
    req: RequestView,
    a: AttemptView,
    x: Exchange<U>,
) -> bool {
    let b = start.backends[a.backend as int];
    &&& b.upstream.answers(req, x.reply, &x.post)
    &&& a.backend_name == b.name
    &&& a.latency_ms == x.reply.latency_ms
    &&& match x.reply.outcome {
        Ok(resp) => a.ok && a.detail == decimal(resp.status as nat),
        Err(e) => !a.ok && a.detail == e.text(),
    }
}

/// What an answer makes of a backend: a good one is a success with its latency, any
/// other a failure.
pub open spec fn with_outcome<U>(
    b: BackendView<U>,
    x: Exchange<U>,
    now: u64,
    pool: PoolView<U>,
) -> BackendView<U> {
    let called = BackendView { upstream: x.post, ..b };
    if x.reply.outcome is Ok {
        called.succeeded(now).sampled(pool.ewma, x.reply.latency_ms)
    } else {
        called.failed(now, pool.health)
    }
}

/// The backend of an attempt has taken in its outcome. Its running weight is left open.
pub open spec fn took_outcome<U>(
    start: PoolView<U>,
    pool: PoolView<U>,
    a: AttemptView,
    x: Exchange<U>,
    now: u64,
) -> bool {
    let b = pool.backends[a.backend as int];
    b == (BackendView {
        current_weight: b.current_weight,
        ..with_outcome(start.backends[a.backend as int], x, now, start)
    })
}

/// All attempts so far went by the strategy, wrote down their answers and handed the
/// outcomes on.
#[verifier::opaque]
spec fn on_course<U: Upstream>(
    start: PoolView<U>,
    pool: PoolView<U>,
    attempts: Seq<AttemptView>,
    answers: Seq<Exchange<U>>,
    now: u64,
    key: Option<Seq<char>>,
    req: RequestView,
) -> bool {
    &&& attempts.len() == answers.len()
    &&& forall|k: int|
        0 <= k < attempts.len() ==> goes_by_strategy(start, now, key, attempts, k) && notes_answer(
            start,
            req,
            #[trigger] attempts[k],
            answers[k],
        ) && took_outcome(start, pool, attempts[k], answers[k], now)
}

/// A pool in which only tried backends changed offers the same candidates beyond them.
proof fn lemma_candidates_beyond_tried<U>(
    start: PoolView<U>,
    pool: PoolView<U>,
    now: u64,
    tried: Seq<usize>,
    n: int,
)
    requires
        only_tried_changed(start, pool, tried),
        0 <= n <= start.backends.len() <= usize::MAX,
    ensures
        pool.candidates_among(now, tried, n) == start.candidates_among(now, tried, n),
    decreases n,
{
    reveal(only_tried_changed);
    if n > 0 {
        lemma_candidates_beyond_tried(start, pool, now, tried, n - 1);
        let a = pool.backends[n - 1];
        if !tried.contains((n - 1) as usize) {
            assert(a == (BackendView {
                current_weight: a.current_weight,
                ..start.backends[n - 1]
            }));
        }
    }
}

/// What is chosen from such a pool is what the strategy says of the pool at the start.
proof fn lemma_choice_goes_by_strategy<U: Upstream>(
    start: PoolView<U>,
    r: Round<U>,
    now: u64,
    key: Option<Seq<char>>,
    idx: usize,
)
    requires
        r.pool.wf(),
        only_tried_changed(start, r.pool, r.tried()),
        r.choice(now, key) == Some(idx),
        takes_turns(start, key) && start.rr_cursor + r.attempts.len() <= usize::MAX
            ==> r.pool.rr_cursor == start.rr_cursor + r.attempts.len(),
    ensures
        ({
            let left = start.candidates(now, r.tried());
            &&& left.contains(idx)
            &&& match (start.strategy, key) {
                (Strategy::Weighted, _) => start.backends[idx as int].weight > 0,
                (Strategy::LeastConnections, _) => start.pick(now, key, r.tried()) == Some(idx),
                (Strategy::ConsistentHash, Some(_)) => start.pick(now, key, r.tried()) == Some(idx),
                _ => start.rr_cursor + r.attempts.len() <= usize::MAX ==> idx == left[(
                start.rr_cursor + r.attempts.len()) % left.len() as int],
            }
        }),
        takes_turns(start, key) && start.rr_cursor + r.attempts.len() + 1 <= usize::MAX
            ==> r.pool.after_pick(now, key, r.tried()).rr_cursor == start.rr_cursor
            + r.attempts.len() + 1,
{
    reveal(only_tried_changed);
    let tried = r.tried();
    let left = start.candidates(now, tried);
    lemma_candidates_beyond_tried(start, r.pool, now, tried, start.backends.len() as int);
    assert(r.pool.candidates(now, tried) == left);
    crate::selection::law_selection_is_available(r.pool, now, key, tried);
    crate::pool::lemma_candidates(start, now, tried, start.backends.len() as int);
    match (start.strategy, key) {
        (Strategy::Weighted, _) => {
            law_highest_standing_is_chosen(r.pool, now, key, tried);
            assert(r.pool.backends[idx as int].weight == start.backends[idx as int].weight);
        },
        (Strategy::LeastConnections, _) => {
            lemma_idlest_exists(r.pool, left);
            assert forall|j: usize| #[trigger] left.contains(j) implies {
                &&& start.backends[idx as int].in_flight <= start.backends[j as int].in_flight
                &&& j < idx ==> start.backends[idx as int].in_flight
                    < start.backends[j as int].in_flight
            } by {
                let k = choose|k: int| 0 <= k < left.len() && left[k] == j;
                assert(left[k] < start.backends.len());
                assert(r.pool.backends[j as int].in_flight == start.backends[j as int].in_flight);
                assert(r.pool.backends[idx as int].in_flight
                    == start.backends[idx as int].in_flight);
            }
            assert(start.is_idlest(left, idx));
            lemma_idlest(start, left, idx);
        },
        (Strategy::ConsistentHash, Some(_)) => {
            assert forall|k: int| 0 <= k < left.len() implies #[trigger] r.pool.members(left)[k]
                == start.members(left)[k] by {
                assert(left[k] < start.backends.len());
                assert(r.pool.backends[left[k] as int].name == start.backends[left[k] as int].name);
            }
            assert(r.pool.members(left) =~= start.members(left));
        },
        _ => {
            law_turn_is_taken_at_the_cursor(r.pool, now, key, tried);
        },
    }
}

/// The pool has taken `n` turns since the start, if it takes turns at all, and has moved
/// running weights only under the weighted strategy.
spec fn same_turns<U>(
    start: PoolView<U>,
    pool: PoolView<U>,
    key: Option<Seq<char>>,
    n: nat,
) -> bool {
    &&& takes_turns(start, key) && start.rr_cursor + n <= usize::MAX ==> pool.rr_cursor
        == start.rr_cursor + n
    &&& !takes_turns(start, key) ==> pool.rr_cursor == start.rr_cursor
    &&& !(start.strategy is Weighted) ==> forall|i: int|
        0 <= i < start.backends.len() ==> (#[trigger] pool.backends[i]).current_weight
            == start.backends[i].current_weight
}

proof fn lemma_same_turns<U: Upstream>(
    start: PoolView<U>,
    r: Round<U>,
    now: u64,
    key: Option<Seq<char>>,
    idx: usize,
    x: Exchange<U>,
)
    requires
        r.pool.wf(),
        only_tried_changed(start, r.pool, r.tried()),
        r.choice(now, key) == Some(idx),
        same_turns(start, r.pool, key, r.attempts.len()),
    ensures
        same_turns(
            start,
            r.after_call(now, key, idx, x).pool,
            key,
            r.after_call(now, key, idx, x).attempts.len(),
        ),
{
    reveal(only_tried_changed);
    let next = r.after_call(now, key, idx, x);
    let mid = r.pool.after_pick(now, key, r.tried());
    crate::selection::law_selection_is_available(r.pool, now, key, r.tried());
    lemma_choice_goes_by_strategy(start, r, now, key, idx);
    law_selection_only_takes_turns(r.pool, now, key, r.tried());
    if !(start.strategy is Weighted) {
        assert forall|i: int| 0 <= i < start.backends.len() implies (
        #[trigger] next.pool.backends[i]).current_weight == start.backends[i].current_weight by {
            assert(r.pool.backends[i].current_weight == start.backends[i].current_weight);
            assert(mid.backends[i] == r.pool.backends[i]);
        }
    }
}

proof fn lemma_course_goes_on<U: Upstream>(
    start: PoolView<U>,
    r: Round<U>,
    done: Seq<Exchange<U>>,
    now: u64,
    key: Option<Seq<char>>,
    req: RequestView,
    idx: usize,
    x: Exchange<U>,
)
    requires
        r.pool.wf(),
        only_tried_changed(start, r.pool, r.tried()),
        on_course(start, r.pool, r.attempts, done, now, key, req),
        r.choice(now, key) == Some(idx),
        r.pool.backends[idx as int].upstream.answers(req, x.reply, &x.post),
        takes_turns(start, key) && start.rr_cursor + r.attempts.len() <= usize::MAX
            ==> r.pool.rr_cursor == start.rr_cursor + r.attempts.len(),
    ensures
        ({
            let next = r.after_call(now, key, idx, x);
            on_course(start, next.pool, next.attempts, done.push(x), now, key, req)
        }),
{
    reveal(on_course);
    reveal(only_tried_changed);
    let next = r.after_call(now, key, idx, x);
    let mid = r.pool.after_pick(now, key, r.tried());
    let n = r.attempts.len() as int;
    let more = done.push(x);
    lemma_call_keeps_pool_well_formed(r, now, key, idx, x);
    lemma_choice_goes_by_strategy(start, r, now, key, idx);
    law_selection_only_takes_turns(r.pool, now, key, r.tried());
    let b = start.backends[idx as int];
    assert(r.pool.backends[idx as int] == (BackendView {
        current_weight: r.pool.backends[idx as int].current_weight,
        ..b
    }));
    assert(mid.backends[idx as int] == (BackendView {
        current_weight: mid.backends[idx as int].current_weight,
        ..r.pool.backends[idx as int]
    }));
    assert forall|k: int| 0 <= k < next.attempts.len() implies goes_by_strategy(
        start,
        now,
        key,
        next.attempts,
        k,
    ) && notes_answer(start, req, #[trigger] next.attempts[k], more[k]) && took_outcome(
        start,
        next.pool,
        next.attempts[k],
        more[k],
        now,
    ) by {
        assert(tried_before(next.attempts, k) =~= tried_before(r.attempts, k)) by {
            assert forall|j: int| 0 <= j < k implies next.attempts[j] == r.attempts[j] by {}
        }
        if k < n {
            let a = r.attempts[k];
            assert(next.attempts[k] == a && more[k] == done[k]);
            assert(goes_by_strategy(start, now, key, r.attempts, k));
            assert(took_outcome(start, r.pool, a, done[k], now));
            assert(r.tried()[k] == a.backend);
            assert(a.backend != idx);
            lemma_tried_is_in_range(start, now, key, r.attempts, k);
            assert(mid.backends[a.backend as int] == (BackendView {
                current_weight: mid.backends[a.backend as int].current_weight,
                ..r.pool.backends[a.backend as int]
            }));
            assert(next.pool.backends[a.backend as int] == mid.backends[a.backend as int]);
        } else {
            assert(tried_before(r.attempts, n) =~= r.tried());
            assert(next.attempts[k] == r.noted(idx, x.reply));
            assert(more[k] == x);
            assert(next.pool.backends[idx as int] == with_outcome(
                mid.backends[idx as int],
                x,
                now,
                start,
            ));
        }
    }
}

proof fn lemma_tried_is_in_range<U>(
    start: PoolView<U>,
    now: u64,
    key: Option<Seq<char>>,
    attempts: Seq<AttemptView>,
    k: int,
)
    requires
        goes_by_strategy(start, now, key, attempts, k),
        start.backends.len() <= usize::MAX,
    ensures
        attempts[k].backend < start.backends.len(),
{
    let left = start.candidates(now, tried_before(attempts, k));
    crate::pool::lemma_candidates(
        start,
        now,
        tried_before(attempts, k),
        start.backends.len() as int,
    );
    let j = choose|j: int| 0 <= j < left.len() && left[j] == attempts[k].backend;
    assert(left[j] < start.backends.len());
}

/// What is known of a request that has ended.
proof fn lemma_course<U: Upstream>(
    start: PoolView<U>,
    r: Round<U>,
    done: Seq<Exchange<U>>,
    now: u64,
    key: Option<Seq<char>>,
    req: RequestView,
    trace: Seq<Exchange<U>>,
)
    requires
        r.pool.wf(),
        only_tried_changed(start, r.pool, r.tried()),
        on_course(start, r.pool, r.attempts, done, now, key, req),
        r.attempts.len() <= r.budget.cfg.max_retries_per_request,
        same_turns(start, r.pool, key, r.attempts.len()),
        r.settled(now, key, req, trace) is Some,
    ensures
        ({
            let (last, response) = r.settled(now, key, req, trace)->0;
            let asked = last.budget.granted + last.budget.denied - r.budget.granted
                - r.budget.denied;
            let limit = r.budget.cfg.max_retries_per_request;
            &&& on_course(start, last.pool, last.attempts, done + trace, now, key, req)
            &&& same_turns(start, last.pool, key, last.attempts.len())
            &&& response is Err ==> last.attempts.len() > limit || last.budget.tokens
                < r.budget.cfg.retry_cost_milli || nobody_left(start, now, last.tried())
            &&& response is Ok ==> asked == last.attempts.len() - 1 - r.attempts.len()
                && last.budget.denied == r.budget.denied
            &&& response is Err ==> asked == (if last.attempts.len() <= limit {
                last.attempts.len() - r.attempts.len()
            } else {
                limit - r.attempts.len()
            })
            &&& last.budget.denied == r.budget.denied || (last.budget.denied == r.budget.denied + 1
                && last.budget.tokens < r.budget.cfg.retry_cost_milli)
        }),
    decreases trace.len(),
{
    let (last, response) = r.settled(now, key, req, trace)->0;
    match r.choice(now, key) {
        None => {
            lemma_nobody_left(start, r, now, key);
            lemma_no_choice_changes_nothing(r, now, key);
            assert(done + trace =~= done);
        },
        Some(idx) => {
            let x = trace[0];
            let next = r.after_call(now, key, idx, x);
            lemma_course_goes_on(start, r, done, now, key, req, idx, x);
            lemma_call_keeps_pool_well_formed(r, now, key, idx, x);
            assert(start.backends.len() == r.pool.backends.len()) by {
                reveal(only_tried_changed);
            }
            lemma_only_tried_changed(start, r, now, key, idx, x);
            lemma_same_turns(start, r, now, key, idx, x);
            if x.reply.outcome is Err && next.attempts.len()
                <= r.budget.cfg.max_retries_per_request && r.budget.tokens
                >= r.budget.cfg.retry_cost_milli {
                let again = next.after_retry();
                assert(again.tried() == next.tried());
                lemma_course(start, again, done.push(x), now, key, req, trace.skip(1));
                assert(done.push(x) + trace.skip(1) =~= done + trace);
            } else {
                assert(trace.len() == 1);
                assert(done.push(x) =~= done + trace);
            }
        },
    }
}

proof fn lemma_nobody_left<U: Upstream>(
    start: PoolView<U>,
    r: Round<U>,
    now: u64,
    key: Option<Seq<char>>,
)
    requires
        r.pool.wf(),
        only_tried_changed(start, r.pool, r.tried()),
        r.choice(now, key) is None,
    ensures
        nobody_left(start, now, r.tried()),
{
    reveal(only_tried_changed);
    law_selection_fails_only_without_capacity(r.pool, now, key, r.tried());
    assert forall|i: int|
        0 <= i < start.backends.len() && !r.tried().contains(i as usize) && (
        #[trigger] start.backends[i]).is_available(now) implies start.strategy is Weighted
        && start.backends[i].weight == 0 by {
        let a = r.pool.backends[i];
        assert(a == (BackendView { current_weight: a.current_weight, ..start.backends[i] }));
        assert(r.pool.is_candidate(now, r.tried(), i));
    }
}

proof fn lemma_no_choice_changes_nothing<U: Upstream>(
    r: Round<U>,
    now: u64,
    key: Option<Seq<char>>,
)
    requires
        r.pool.wf(),
        r.choice(now, key) is None,
    ensures
        r.after_choice(now, key) == r,
{
    if r.pool.strategy is Weighted {
        law_highest_standing_is_chosen(r.pool, now, key, r.tried());
    } else if r.pool.strategy is ConsistentHash && key is Some {
        law_key_goes_to_its_owner_on_the_ring(r.pool, now, key->0, r.tried());
    }
}

/// What is known of a request that was handled on the pool of its service.
proof fn lemma_handled_course<C, U: Upstream>(
    p: ProxyView<C, U>,
    req: RequestView,
    now: u64,
    trace: Seq<Exchange<U>>,
    post: ProxyView<C, U>,
    result: ResultView,
    service: Seq<char>,
)
    requires
        p.handled(req, now, trace, post, result),
        service_for(p.routes, req) == Some(service),
        p.pools.contains_key(service),
        p.wf(),
    ensures
        ({
            let start = p.pools[service].polled(now);
            let asked = post.budget.granted + post.budget.denied - p.budget.granted
                - p.budget.denied;
            let limit = p.budget.cfg.max_retries_per_request;
            let cost = p.budget.cfg.retry_cost_milli;
            let made = result.attempts.len();
            let last = Round {
                pool: post.pools[service],
                budget: post.budget,
                attempts: result.attempts,
            };
            &&& start.wf()
            &&& on_course(
                start,
                post.pools[service],
                result.attempts,
                trace,
                now,
                p.sticky_key(req),
                req,
            )
            &&& same_turns(start, post.pools[service], p.sticky_key(req), made)
            &&& result.response is Err ==> made > limit || post.budget.tokens < cost || nobody_left(
                start,
                now,
                last.tried(),
            )
            &&& result.response is Ok ==> asked == made - 1 && post.budget.denied == p.budget.denied
            &&& result.response is Err ==> asked == (if made <= limit {
                made as int
            } else {
                limit as int
            })
            &&& post.budget.denied == p.budget.denied || (post.budget.denied == p.budget.denied + 1
                && post.budget.tokens < cost)
            &&& post.budget.cfg == p.budget.cfg
            &&& post.budget.tokens + post.budget.granted * cost
                == p.budget.after_request().tokens + p.budget.granted * cost
        }),
{
    let start = p.started(service, now);
    let key = p.sticky_key(req);
    crate::selection::law_polling_keeps_pool_well_formed(p.pools[service], now);
    lemma_request_ends_well(start, now, key, req, trace);
    lemma_only_turns_changed(start.pool, now, key, start.tried(), start.tried());
    assert(on_course(start.pool, start.pool, start.attempts, Seq::empty(), now, key, req)) by {
        reveal(on_course);
    }
    lemma_course(start.pool, start, Seq::empty(), now, key, req, trace);
    assert(Seq::<Exchange<U>>::empty() + trace =~= trace);
}

/// A request fails only when there is no way on: as many retries were made as a request
/// may have, or the budget holds less than the cost of one, or every backend that was
/// not tried could not be called when the request came in, or has no weight under the
/// weighted strategy. So while retries are left, the budget pays and another backend is
/// there, a failed attempt is followed by another, whatever the strategy.
pub proof fn law_request_fails_only_without_a_way_on<C, U: Upstream>(
    p: ProxyView<C, U>,
    req: RequestView,
    now: u64,
    trace: Seq<Exchange<U>>,
    post: ProxyView<C, U>,
    result: ResultView,
    service: Seq<char>,
)
    requires
        p.handled(req, now, trace, post, result),
        service_for(p.routes, req) == Some(service),
        p.pools.contains_key(service),
        p.wf(),
        !result.is_success(),
    ensures
        ({
            let pool = p.pools[service].polled(now);
            ||| result.attempts.len() == p.budget.cfg.max_retries_per_request + 1
            ||| result.attempts.len() > 0 && post.budget.tokens < p.budget.cfg.retry_cost_milli
            ||| forall|i: int|
                0 <= i < pool.backends.len() && !was_tried(result.attempts, i) && (
                #[trigger] pool.backends[i]).is_available(now) ==> pool.strategy is Weighted
                    && pool.backends[i].weight == 0
        }),
{
    lemma_handled_course(p, req, now, trace, post, result, service);
    law_success_is_a_good_last_attempt(p, req, now, trace, post, result);
    let pool = p.pools[service].polled(now);
    let last = Round { pool: post.pools[service], budget: post.budget, attempts: result.attempts };
    if result.attempts.len() == 0 {
        law_first_attempt_is_pool_choice(p, req, now, trace, post, result, service);
        law_selection_fails_only_without_capacity(pool, now, p.sticky_key(req), Seq::empty());
        assert forall|i: int|
            0 <= i < pool.backends.len() && (#[trigger] pool.backends[i]).is_available(
                now,
            ) implies pool.strategy is Weighted && pool.backends[i].weight == 0 by {
            assert(pool.is_candidate(now, Seq::empty(), i));
        }
    } else if nobody_left(pool, now, last.tried()) {
        assert forall|i: int|
            0 <= i < pool.backends.len() && !was_tried(result.attempts, i) && (
            #[trigger] pool.backends[i]).is_available(now) implies pool.strategy is Weighted
            && pool.backends[i].weight == 0 by {
            if last.tried().contains(i as usize) {
                let k = choose|k: int| 0 <= k < last.tried().len() && last.tried()[k] == i as usize;
                assert(result.attempts[k].backend == i);
            }
        }
    }
}

/// Every attempt goes where the strategy of the pool sends it, out of the backends that
/// could be called when the request came in and were not tried before.
pub proof fn law_attempts_go_by_strategy<C, U: Upstream>(
    p: ProxyView<C, U>,
    req: RequestView,
    now: u64,
    trace: Seq<Exchange<U>>,
    post: ProxyView<C, U>,
    result: ResultView,
    service: Seq<char>,
    k: int,
)
    requires
        p.handled(req, now, trace, post, result),
        service_for(p.routes, req) == Some(service),
        p.pools.contains_key(service),
        p.wf(),
        0 <= k < result.attempts.len(),
    ensures
        goes_by_strategy(
            p.pools[service].polled(now),
            now,
            p.sticky_key(req),
            result.attempts,
            k,
        ),
{
    lemma_handled_course(p, req, now, trace, post, result, service);
    reveal(on_course);
    assert(goes_by_strategy(
        p.pools[service].polled(now),
        now,
        p.sticky_key(req),
        result.attempts,
        k,
    ) && notes_answer(p.pools[service].polled(now), req, result.attempts[k], trace[k]));
}

/// Every attempt sends the request as it came in to its backend, writes down what comes
/// back, and hands the outcome to the backend: a good answer as a success with its
/// latency, any other as a failure, in both cases at the time of the request.
pub proof fn law_attempts_hand_outcomes_on<C, U: Upstream>(
    p: ProxyView<C, U>,
    req: RequestView,
    now: u64,
    trace: Seq<Exchange<U>>,
    post: ProxyView<C, U>,
    result: ResultView,
    service: Seq<char>,
    k: int,
)
    requires
        p.handled(req, now, trace, post, result),
        service_for(p.routes, req) == Some(service),
        p.pools.contains_key(service),
        p.wf(),
        0 <= k < result.attempts.len(),
    ensures
        result.attempts.len() == trace.len(),
        notes_answer(p.pools[service].polled(now), req, result.attempts[k], trace[k]),
        took_outcome(
            p.pools[service].polled(now),
            post.pools[service],
            result.attempts[k],
            trace[k],
            now,
        ),
{
    lemma_handled_course(p, req, now, trace, post, result, service);
    reveal(on_course);
    assert(goes_by_strategy(
        p.pools[service].polled(now),
        now,
        p.sticky_key(req),
        result.attempts,
        k,
    ) && notes_answer(p.pools[service].polled(now), req, result.attempts[k], trace[k]));
}

/// The budget is asked for a retry after each failed attempt that may have one, and
/// never else. A request that succeeds was granted one retry less than it made attempts
/// and denied none. One that fails asked after each of its attempts but one beyond the
/// limit. The budget denies at most the last, and then holds less than the cost of one.
/// Each retry that was granted cost the bucket its price, and the request put its
/// deposit in.
pub proof fn law_budget_is_asked_after_each_failure<C, U: Upstream>(
    p: ProxyView<C, U>,
    req: RequestView,
    now: u64,
    trace: Seq<Exchange<U>>,
    post: ProxyView<C, U>,
    result: ResultView,
    service: Seq<char>,
)
    requires
        p.handled(req, now, trace, post, result),
        service_for(p.routes, req) == Some(service),
        p.pools.contains_key(service),
        p.wf(),
    ensures
        ({
            let granted = post.budget.granted - p.budget.granted;
            let denied = post.budget.denied - p.budget.denied;
            let made = result.attempts.len();
            let limit = p.budget.cfg.max_retries_per_request;
            let cost = p.budget.cfg.retry_cost_milli;
            let filled = p.budget.tokens + p.budget.cfg.deposit_milli;
            &&& result.is_success() ==> granted == made - 1 && denied == 0
            &&& !result.is_success() && made <= limit ==> granted + denied == made
            &&& !result.is_success() && made > limit ==> granted + denied == limit
            &&& denied == 0 || (denied == 1 && post.budget.tokens < cost)
            &&& post.total_retries == p.total_retries + granted
            &&& post.budget.tokens == (if filled <= p.budget.cfg.max_milli {
                filled
            } else {
                p.budget.cfg.max_milli as int
            }) - granted * cost
        }),
{
    lemma_handled_course(p, req, now, trace, post, result, service);
    let cost = p.budget.cfg.retry_cost_milli as int;
    let before = p.budget.granted as int;
    let after = post.budget.granted as int;
    assert((after - before) * cost == after * cost - before * cost) by (nonlinear_arith);
}

/// A request changes the pool of its service, the budget and the counters, and nothing
/// else: routes, clock, the name of the sticky header, the configuration and all other
/// pools stay. One that reaches no pool only puts its deposit in and is counted.
pub proof fn law_request_changes_nothing_else<C, U: Upstream>(
    p: ProxyView<C, U>,
    req: RequestView,
    now: u64,
    trace: Seq<Exchange<U>>,
    post: ProxyView<C, U>,
    result: ResultView,
)
    requires
        p.handled(req, now, trace, post, result),
        p.wf(),
    ensures
        post.clock == p.clock,
        post.routes == p.routes,
        post.sticky_header == p.sticky_header,
        post.budget.cfg == p.budget.cfg,
        post.total_requests == p.total_requests + 1,
        ({
            let filled = p.budget.tokens + p.budget.cfg.deposit_milli;
            match service_for(p.routes, req) {
                Some(service) if p.pools.contains_key(service) => {
                    &&& post.pools == p.pools.insert(service, post.pools[service])
                    &&& post.total_failovers == p.total_failovers + (if result.attempts.len() > 1 {
                        result.attempts.len() - 1
                    } else {
                        0
                    })
                },
                _ => {
                    &&& post.pools == p.pools
                    &&& post.total_retries == p.total_retries
                    &&& post.total_failovers == p.total_failovers
                    &&& post.budget.granted == p.budget.granted
                    &&& post.budget.denied == p.budget.denied
                    &&& post.budget.tokens == (if filled <= p.budget.cfg.max_milli {
                        filled
                    } else {
                        p.budget.cfg.max_milli as int
                    })
                },
            }
        }),
{
    if let Some(service) = service_for(p.routes, req) {
        if p.pools.contains_key(service) {
            lemma_handled_course(p, req, now, trace, post, result, service);
        }
    }
}

/// The header at place `i` is the first of its name.
pub open spec fn is_first_named(req: RequestView, name: Seq<char>, i: int) -> bool {
    &&& 0 <= i < req.headers.len()
    &&& is_named(req.headers[i], name)
    &&& forall|j: int| 0 <= j < i ==> !is_named(#[trigger] req.headers[j], name)
}

/// The session key of a request is the value of its first sticky header, and where it has
/// none, that of its first `Host` header. A request with neither has no key.
pub proof fn law_session_header_comes_before_host<C, U>(p: ProxyView<C, U>, req: RequestView)
    ensures
        match p.sticky_key(req) {
            Some(key) => exists|i: int|
                {
                    &&& (#[trigger] req.headers[i]).1 == key
                    &&& is_first_named(req, p.sticky_header, i) || (is_first_named(req, "Host"@, i)
                        && forall|j: int|
                        0 <= j < req.headers.len() ==> !is_named(
                            #[trigger] req.headers[j],
                            p.sticky_header,
                        ))
                },
            None => forall|j: int|
                0 <= j < req.headers.len() ==> !is_named(
                    #[trigger] req.headers[j],
                    p.sticky_header,
                ) && !is_named(req.headers[j], "Host"@),
        },
        forall|i: int| #[trigger]
            is_first_named(req, p.sticky_header, i) ==> p.sticky_key(req) == Some(
                req.headers[i].1,
            ),
{
    law_first_header_of_the_name_is_found(req.headers, p.sticky_header);
    law_first_header_of_the_name_is_found(req.headers, "Host"@);
    assert forall|i: int| #[trigger] is_first_named(req, p.sticky_header, i) implies p.sticky_key(
        req,
    ) == Some(req.headers[i].1) by {
        if req.header(p.sticky_header) is None {
            assert(!is_named(req.headers[i], p.sticky_header));
        } else {
            let value = req.header(p.sticky_header)->0;
            let k = choose|k: int|
                {
                    &&& 0 <= k < req.headers.len()
                    &&& (#[trigger] req.headers[k]).1 == value
                    &&& is_named(req.headers[k], p.sticky_header)
                    &&& forall|j: int|
                        0 <= j < k ==> !is_named(#[trigger] req.headers[j], p.sticky_header)
                };
            if k < i {
                assert(!is_named(req.headers[k], p.sticky_header));
            } else if i < k {
                assert(!is_named(req.headers[i], p.sticky_header));
            }
        }
    }
    if p.sticky_key(req) is Some {
        let name = if req.header(p.sticky_header) is Some {
            p.sticky_header
        } else {
            "Host"@
        };
        let value = p.sticky_key(req)->0;
        let k = choose|k: int|
            {
                &&& 0 <= k < req.headers.len()
                &&& (#[trigger] req.headers[k]).1 == value
                &&& is_named(req.headers[k], name)
                &&& forall|j: int| 0 <= j < k ==> !is_named(#[trigger] req.headers[j], name)
            };
        assert(is_first_named(req, name, k));
        assert(req.headers[k].1 == value);
    }
}

/// On a pool with consistent hash, a request with a sticky header is first sent to the
/// owner of its value on the ring of those that can be called, whatever its host. Only
/// one without goes to the owner of its host.
pub proof fn law_session_goes_to_its_owner<C, U: Upstream>(
    p: ProxyView<C, U>,
    req: RequestView,
    now: u64,
    trace: Seq<Exchange<U>>,
    post: ProxyView<C, U>,
    result: ResultView,
    service: Seq<char>,
    i: int,
)
    requires
        p.handled(req, now, trace, post, result),
        service_for(p.routes, req) == Some(service),
        p.pools.contains_key(service),
        p.wf(),
        p.pools[service].strategy is ConsistentHash,
        is_first_named(req, p.sticky_header, i) || (is_first_named(req, "Host"@, i) && forall|
            j: int,
        |
            0 <= j < req.headers.len() ==> !is_named(#[trigger] req.headers[j], p.sticky_header)),
    ensures
        ({
            let pool = p.pools[service].polled(now);
            let c = pool.candidates(now, Seq::empty());
            let members = Seq::new(c.len(), |k: int| (c[k], pool.backends[c[k] as int].name));
            result.selected == (if c.len() == 0 {
                None
            } else {
                owner_of(ring_of(members, 160), req.headers[i].1)
            })
        }),
{
    let pool = p.pools[service].polled(now);
    law_session_header_comes_before_host(p, req);
    law_first_attempt_is_pool_choice(p, req, now, trace, post, result, service);
    let value = req.headers[i].1;
    if !is_first_named(req, p.sticky_header, i) {
        assert(is_named(req.headers[i], "Host"@));
        assert(p.sticky_key(req) is Some);
        let key = p.sticky_key(req)->0;
        let k = choose|k: int|
            {
                &&& (#[trigger] req.headers[k]).1 == key
                &&& is_first_named(req, p.sticky_header, k) || (is_first_named(req, "Host"@, k)
                    && forall|j: int|
                    0 <= j < req.headers.len() ==> !is_named(
                        #[trigger] req.headers[j],
                        p.sticky_header,
                    ))
            };
        assert(!is_named(req.headers[i], p.sticky_header));
        if is_first_named(req, p.sticky_header, k) {
            assert(!is_named(req.headers[k], p.sticky_header));
        }
        if k < i {
            assert(!is_named(req.headers[k], "Host"@));
        } else if i < k {
            assert(!is_named(req.headers[i], "Host"@));
        }
    }
    assert(p.sticky_key(req) == Some(value));
    law_key_goes_to_its_owner_on_the_ring(pool, now, value, Seq::empty());
}

/// A new proxy has the routes it was given, no pools, a full budget and nothing counted,
/// and pins sessions by `X-Session-Id`.
pub proof fn law_new_proxy_is_untouched<C, U>(
    clock: C,
    routes: Seq<crate::router::RouteView>,
    retry: crate::retry::RetryConfig,
    service: Seq<char>,
)
    ensures
        ({
            let p = ProxyView::<C, U>::fresh(clock, routes, retry);
            &&& p.clock == clock && p.routes == routes && !p.pools.contains_key(service)
            &&& p.budget.cfg == retry && p.budget.tokens == retry.max_milli
            &&& p.budget.granted == 0 && p.budget.denied == 0
            &&& p.total_requests == 0 && p.total_retries == 0 && p.total_failovers == 0
            &&& p.sticky_header == "X-Session-Id"@
        }),
{
}

/// A health check of the proxy checks every pool on its own, and changes nothing else.
pub proof fn law_check_reaches_every_pool<C, U: Upstream>(
    p: ProxyView<C, U>,
    now: u64,
    post: ProxyView<C, U>,
    service: Seq<char>,
)
    requires
        p.checked(now, post),
    ensures
        post == (ProxyView { pools: post.pools, ..p }),
        post.pools.contains_key(service) <==> p.pools.contains_key(service),
        p.pools.contains_key(service) ==> p.pools[service].checked(now, post.pools[service]),
{
    assert(post.pools.dom().contains(service) == p.pools.dom().contains(service));
}

/// The words for an error: the number of attempts is written out.
pub proof fn law_errors_have_their_words(n: u32, status: u16)
    ensures
        ProxyError::NoRoute.code() == 404,
        ProxyError::NoHealthyUpstream.code() == 503,
        ProxyError::AllAttemptsFailed(n).code() == 502,
        ProxyError::NoRoute.text() == "no route matched"@,
        ProxyError::NoHealthyUpstream.text() == "no healthy upstream"@,
        ProxyError::AllAttemptsFailed(n).text() == "all "@ + decimal(n as nat)
            + " attempts failed"@,
        UpstreamError::Timeout.text() == "timeout"@,
        UpstreamError::Connection.text() == "connection refused"@,
        UpstreamError::ServerError(status).text() == "server error "@ + decimal(status as nat),
{
}

/// A request takes one turn per attempt where turns are taken, and none elsewhere. Running
/// weights move under the weighted strategy only.
pub proof fn law_request_takes_a_turn_per_attempt<C, U: Upstream>(
    p: ProxyView<C, U>,
    req: RequestView,
    now: u64,
    trace: Seq<Exchange<U>>,
    post: ProxyView<C, U>,
    result: ResultView,
    service: Seq<char>,
    i: int,
)
    requires
        p.handled(req, now, trace, post, result),
        service_for(p.routes, req) == Some(service),
        p.pools.contains_key(service),
        p.wf(),
        0 <= i < p.pools[service].backends.len(),
    ensures
        ({
            let before = p.pools[service];
            let after = post.pools[service];
            let turns = before.strategy is RoundRobin || (before.strategy is ConsistentHash
                && p.sticky_key(req) is None);
            &&& turns && before.rr_cursor + result.attempts.len() <= usize::MAX ==> after.rr_cursor
                == before.rr_cursor + result.attempts.len()
            &&& !turns ==> after.rr_cursor == before.rr_cursor
            &&& !(before.strategy is Weighted) ==> after.backends[i].current_weight
                == before.backends[i].current_weight
        }),
{
    lemma_handled_course(p, req, now, trace, post, result, service);
    let start = p.pools[service].polled(now);
    assert(start.backends[i].current_weight == p.pools[service].backends[i].current_weight);
    assert(same_turns(start, post.pools[service], p.sticky_key(req), result.attempts.len()));
}

} // verus!
