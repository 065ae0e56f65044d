//! Scripted upstreams make everything repeatable: from equal beginnings the same
//! requests at the same times give the same results and the same state.
//!
//! Two upstreams count as equal here when they have the same script left and
//! were asked equally often, however they store it.

use vstd::prelude::*;

use crate::backend::BackendView;
use crate::http::RequestView;
use crate::pool::lemma_idlest;
use crate::pool::lemma_leader;
use crate::pool::measured_count;
use crate::pool::measured_sum;
use crate::pool::PoolView;
use crate::proxy::ProxyView;
use crate::proxy::ResultView;
use crate::round::Exchange;
use crate::round::Round;
use crate::router::service_for;
use crate::selection::lemma_idlest_exists;
use crate::upstream::MockUpstream;

verus! {

pub open spec fn same_backend(a: BackendView<MockUpstream>, b: BackendView<MockUpstream>) -> bool {
    &&& b == (BackendView { upstream: b.upstream, ..a })
    &&& a.upstream@ == b.upstream@
}

pub open spec fn same_pool(p: PoolView<MockUpstream>, q: PoolView<MockUpstream>) -> bool {
    &&& q == (PoolView { backends: q.backends, ..p })
    &&& q.backends.len() == p.backends.len()
    &&& forall|i: int|
        0 <= i < p.backends.len() ==> same_backend(p.backends[i], #[trigger] q.backends[i])
}

pub open spec fn same_proxy<C>(
    p: ProxyView<C, MockUpstream>,
    q: ProxyView<C, MockUpstream>,
) -> bool {
    &&& q == (ProxyView { pools: q.pools, ..p })
    &&& q.pools.dom() == p.pools.dom()
    &&& forall|name: Seq<char>| #[trigger]
        p.pools.contains_key(name) ==> same_pool(p.pools[name], q.pools[name])
}

proof fn lemma_same_candidates(
    p: PoolView<MockUpstream>,
    q: PoolView<MockUpstream>,
    now: u64,
    exclude: Seq<usize>,
    n: int,
)
    requires
        same_pool(p, q),
        0 <= n <= p.backends.len(),
    ensures
        q.candidates_among(now, exclude, n) == p.candidates_among(now, exclude, n),
    decreases n,
{
    if n > 0 {
        lemma_same_candidates(p, q, now, exclude, n - 1);
        assert(same_backend(p.backends[n - 1], q.backends[n - 1]));
    }
}

proof fn lemma_same_leader(
    p: PoolView<MockUpstream>,
    q: PoolView<MockUpstream>,
    c: Seq<usize>,
)
    requires
        same_pool(p, q),
        p.backends.len() <= usize::MAX,
    ensures
        q.current_weights() == p.current_weights(),
        q.scores(c) == p.scores(c),
        q.leader(c) == p.leader(c),
{
    assert forall|i: int| 0 <= i < p.backends.len() implies q.current_weights()[i]
        == p.current_weights()[i] && q.scores(c)[i] == p.scores(c)[i] by {
        assert(same_backend(p.backends[i], q.backends[i]));
    }
    assert(q.current_weights() =~= p.current_weights());
    assert(q.scores(c) =~= p.scores(c));
    if exists|b: int| p.leads(c, b) {
        let b = choose|b: int| p.leads(c, b);
        assert(q.leads(c, b));
        lemma_leader(p, c, b);
        lemma_leader(q, c, b);
    } else {
        assert forall|b: int| !q.leads(c, b) by {
            assert(!p.leads(c, b));
        }
    }
}

proof fn lemma_same_choice(
    p: PoolView<MockUpstream>,
    q: PoolView<MockUpstream>,
    now: u64,
    key: Option<Seq<char>>,
    exclude: Seq<usize>,
)
    requires
        same_pool(p, q),
        p.wf(),
    ensures
        q.pick(now, key, exclude) == p.pick(now, key, exclude),
        same_pool(p.after_pick(now, key, exclude), q.after_pick(now, key, exclude)),
{
    let c = p.candidates(now, exclude);
    lemma_same_candidates(p, q, now, exclude, p.backends.len() as int);
    crate::pool::lemma_candidates(p, now, exclude, p.backends.len() as int);
    lemma_same_leader(p, q, c);
    if c.len() > 0 {
        let b = p.idlest(c);
        lemma_idlest_exists(p, c);
        assert forall|j: usize| #[trigger] c.contains(j) implies same_backend(
            p.backends[j as int],
            q.backends[j as int],
        ) by {
            let k = choose|k: int| 0 <= k < c.len() && c[k] == j;
            assert(c[k] < p.backends.len());
        }
        assert(q.is_idlest(c, b));
        lemma_idlest(q, c, b);
        assert forall|k: int| 0 <= k < c.len() implies q.members(c)[k] == p.members(c)[k] by {
            assert(c.contains(c[k]));
            assert(same_backend(p.backends[c[k] as int], q.backends[c[k] as int]));
        }
        assert(q.members(c) =~= p.members(c));
    }
    let p2 = p.after_pick(now, key, exclude);
    let q2 = q.after_pick(now, key, exclude);
    assert forall|i: int| 0 <= i < p.backends.len() implies same_backend(
        p2.backends[i],
        #[trigger] q2.backends[i],
    ) by {
        assert(same_backend(p.backends[i], q.backends[i]));
    }
}

proof fn lemma_same_measures(
    a: Seq<BackendView<MockUpstream>>,
    b: Seq<BackendView<MockUpstream>>,
    min_samples: u32,
)
    requires
        a.len() == b.len(),
        forall|i: int| 0 <= i < a.len() ==> same_backend(a[i], #[trigger] b[i]),
    ensures
        measured_sum(a, min_samples) == measured_sum(b, min_samples),
        measured_count(a, min_samples) == measured_count(b, min_samples),
    decreases a.len(),
{
    if a.len() > 0 {
        assert(same_backend(a[a.len() - 1], b[a.len() - 1]));
        assert forall|i: int| 0 <= i < a.drop_last().len() implies same_backend(
            a.drop_last()[i],
            #[trigger] b.drop_last()[i],
        ) by {
            assert(same_backend(a[i], b[i]));
        }
        lemma_same_measures(a.drop_last(), b.drop_last(), min_samples);
    }
}

/// Polling equal pools leaves them equal.
pub proof fn law_polling_repeats(p: PoolView<MockUpstream>, q: PoolView<MockUpstream>, now: u64)
    requires
        same_pool(p, q),
    ensures
        same_pool(p.polled(now), q.polled(now)),
{
    if let Some(cfg) = p.ewma {
        lemma_same_measures(p.backends, q.backends, cfg.min_samples);
    }
    assert(p.line() == q.line());
    let p2 = p.polled(now);
    let q2 = q.polled(now);
    assert forall|i: int| 0 <= i < p.backends.len() implies same_backend(
        p2.backends[i],
        #[trigger] q2.backends[i],
    ) by {
        assert(same_backend(p.backends[i], q.backends[i]));
    }
}

/// Probing equal pools at the same time finds the same and leaves them equal:
/// the same script ejects and reinstates at the same times.
pub proof fn law_probing_repeats(
    p: PoolView<MockUpstream>,
    q: PoolView<MockUpstream>,
    now: u64,
    p2: PoolView<MockUpstream>,
    q2: PoolView<MockUpstream>,
)
    requires
        same_pool(p, q),
        p.checked(now, p2),
        q.checked(now, q2),
    ensures
        same_pool(p2, q2),
{
    assert forall|i: int| 0 <= i < p2.backends.len() implies same_backend(
        p2.backends[i],
        #[trigger] q2.backends[i],
    ) by {
        assert(same_backend(p.backends[i], q.backends[i]));
        assert(p.backends[i].checked(now, p.health, p2.backends[i]));
        assert(q.backends[i].checked(now, q.health, q2.backends[i]));
    }
}

spec fn same_round(r: Round<MockUpstream>, s: Round<MockUpstream>) -> bool {
    &&& same_pool(r.pool, s.pool)
    &&& r.budget == s.budget
    &&& r.attempts == s.attempts
}

proof fn lemma_same_call(
    r: Round<MockUpstream>,
    s: Round<MockUpstream>,
    now: u64,
    key: Option<Seq<char>>,
    req: RequestView,
    idx: usize,
    x: Exchange<MockUpstream>,
    y: Exchange<MockUpstream>,
)
    requires
        same_round(r, s),
        r.pool.wf(),
        r.choice(now, key) == Some(idx),
        idx < r.pool.backends.len(),
        crate::upstream::Upstream::answers(
            &r.pool.backends[idx as int].upstream,
            req,
            x.reply,
            &x.post,
        ),
        crate::upstream::Upstream::answers(
            &s.pool.backends[idx as int].upstream,
            req,
            y.reply,
            &y.post,
        ),
    ensures
        x.reply == y.reply,
        same_round(r.after_call(now, key, idx, x), s.after_call(now, key, idx, y)),
{
    lemma_same_choice(r.pool, s.pool, now, key, r.tried());
    let p = r.pool.after_pick(now, key, r.tried());
    let q = s.pool.after_pick(now, key, s.tried());
    let r2 = r.after_call(now, key, idx, x);
    let s2 = s.after_call(now, key, idx, y);
    assert(same_backend(r.pool.backends[idx as int], s.pool.backends[idx as int]));
    assert(same_backend(p.backends[idx as int], q.backends[idx as int]));
    assert forall|i: int| 0 <= i < p.backends.len() implies same_backend(
        r2.pool.backends[i],
        #[trigger] s2.pool.backends[i],
    ) by {
        assert(same_backend(p.backends[i], q.backends[i]));
    }
    assert(r2.attempts =~= s2.attempts);
}

proof fn lemma_same_end(
    r: Round<MockUpstream>,
    s: Round<MockUpstream>,
    now: u64,
    key: Option<Seq<char>>,
    req: RequestView,
    t: Seq<Exchange<MockUpstream>>,
    u: Seq<Exchange<MockUpstream>>,
)
    requires
        same_round(r, s),
        r.pool.wf(),
        r.settled(now, key, req, t) is Some,
        s.settled(now, key, req, u) is Some,
    ensures
        ({
            let (r_last, r_response) = r.settled(now, key, req, t)->0;
            let (s_last, s_response) = s.settled(now, key, req, u)->0;
            same_round(r_last, s_last) && r_response == s_response
        }),
    decreases t.len(),
{
    lemma_same_choice(r.pool, s.pool, now, key, r.tried());
    if let Some(idx) = r.choice(now, key) {
        crate::round::lemma_call_keeps_pool_well_formed(r, now, key, idx, t[0]);
        lemma_same_call(r, s, now, key, req, idx, t[0], u[0]);
        let next = r.after_call(now, key, idx, t[0]);
        let also = s.after_call(now, key, idx, u[0]);
        if t[0].reply.outcome is Err && next.may_ask() && next.budget.grants() {
            lemma_same_end(
                next.after_retry(),
                also.after_retry(),
                now,
                key,
                req,
                t.skip(1),
                u.skip(1),
            );
        }
    }
}

/// The same request at the same time to equal proxies gets the same result and
/// leaves them equal, so the same script plays out the same way every time.
pub proof fn law_handling_repeats<C>(
    p: ProxyView<C, MockUpstream>,
    q: ProxyView<C, MockUpstream>,
    req: RequestView,
    now: u64,
    t: Seq<Exchange<MockUpstream>>,
    u: Seq<Exchange<MockUpstream>>,
    p2: ProxyView<C, MockUpstream>,
    q2: ProxyView<C, MockUpstream>,
    p_result: ResultView,
    q_result: ResultView,
)
    requires
        same_proxy(p, q),
        forall|name: Seq<char>| #[trigger]
            p.pools.contains_key(name) ==> p.pools[name].wf(),
        p.handled(req, now, t, p2, p_result),
        q.handled(req, now, u, q2, q_result),
    ensures
        p_result == q_result,
        same_proxy(p2, q2),
{
    if let Some(service) = service_for(p.routes, req) {
        assert(q.pools.contains_key(service) == p.pools.contains_key(service)) by {
            assert(q.pools.dom().contains(service) == p.pools.dom().contains(service));
        }
        if p.pools.contains_key(service) {
            let r = p.started(service, now);
            let s = q.started(service, now);
            law_polling_repeats(p.pools[service], q.pools[service], now);
            crate::selection::law_polling_keeps_pool_well_formed(p.pools[service], now);
            assert(p.sticky_key(req) == q.sticky_key(req));
            lemma_same_end(r, s, now, p.sticky_key(req), req, t, u);
            assert(q2.pools.dom() =~= p2.pools.dom());
            assert forall|name: Seq<char>| #[trigger] p2.pools.contains_key(name) implies same_pool(
                p2.pools[name],
                q2.pools[name],
            ) by {
                if name != service {
                    assert(p.pools.contains_key(name));
                }
            }
        }
    }
}

} // verus!
