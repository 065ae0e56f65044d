//! The proxy. It routes a request to a service pool, selects a healthy upstream
//! by the pool strategy, sends it, feeds the outcome back into health and circuit
//! state, and on failure retries against a different upstream within a retry
//! budget. Every timing decision flows through the injected clock.

use vstd::prelude::*;
use vstd::string::*;

use crate::backend::BackendView;
use crate::breaker::BreakerState;
use crate::clock::Clock;
use crate::http::Request;
use crate::http::RequestView;
use crate::http::Response;
use crate::http::ResponseView;
use crate::pool::key_text;
use crate::pool::Pool;
use crate::pool::PoolView;
use crate::retry::sensible;
use crate::retry::BudgetView;
use crate::retry::RetryBudget;
use crate::retry::RetryConfig;
use crate::round::attempt_list;
use crate::round::attempts_spread;
use crate::round::each_call_counted;
use crate::round::failovers_in;
use crate::round::first_tried;
use crate::round::follows;
use crate::round::forward;
use crate::round::lemma_request_ends_well;
use crate::round::only_tried_changed;
use crate::round::outcome_matches;
use crate::round::Exchange;
use crate::round::Round;
use crate::router::service_for;
use crate::router::RouteView;
use crate::router::Router;
use crate::text::append_decimal;
use crate::text::decimal;
use crate::text::in_order;
use crate::text::is_in_order;
use crate::text::same;
use crate::text::IntoText;
use crate::upstream::Upstream;

verus! {

#[derive(Clone, Copy, Debug, PartialEq, Eq, Structural)]
pub enum ProxyError {
    /// No route matched the request.
    NoRoute,
    /// A route matched but no upstream was healthy and callable.
    NoHealthyUpstream,
    /// Every attempt failed, carrying the count of attempts made.
    AllAttemptsFailed(u32),
}

impl ProxyError {
    pub open spec fn code(self) -> u16 {
        match self {
            ProxyError::NoRoute => 404,
            ProxyError::NoHealthyUpstream => 503,
            ProxyError::AllAttemptsFailed(_) => 502,
        }
    }

    pub open spec fn text(self) -> Seq<char> {
        match self {
            ProxyError::NoRoute => "no route matched"@,
            ProxyError::NoHealthyUpstream => "no healthy upstream"@,
            ProxyError::AllAttemptsFailed(n) => "all "@ + decimal(n as nat) + " attempts failed"@,
        }
    }

    pub fn status(&self) -> (status: u16)
        ensures
            status == self.code(),
    {
        match self {
            ProxyError::NoRoute => 404,
            ProxyError::NoHealthyUpstream => 503,
            ProxyError::AllAttemptsFailed(_) => 502,
        }
    }

    /// The error in words.
    pub fn message(&self) -> (text: String)
        ensures
            text@ == self.text(),
    {
        match self {
            ProxyError::NoRoute => "no route matched".to_owned(),
            ProxyError::NoHealthyUpstream => "no healthy upstream".to_owned(),
            ProxyError::AllAttemptsFailed(n) => {
                let mut text: String = "all ".to_owned();
                append_decimal(&mut text, *n);
                text.append(" attempts failed");
                text
            },
        }
    }
}

#[derive(Debug)]
pub struct Attempt {
    pub backend: usize,
    pub backend_name: String,
    pub ok: bool,
    pub detail: String,
    pub latency_ms: u64,
    pub is_retry: bool,
}

/// An attempt apart from how its texts are stored.
#[verifier::ext_equal]
pub struct AttemptView {
    pub backend: usize,
    pub backend_name: Seq<char>,
    pub ok: bool,
    pub detail: Seq<char>,
    pub latency_ms: u64,
    pub is_retry: bool,
}

impl View for Attempt {
    type V = AttemptView;

    open spec fn view(&self) -> AttemptView {
        AttemptView {
            backend: self.backend,
            backend_name: self.backend_name@,
            ok: self.ok,
            detail: self.detail@,
            latency_ms: self.latency_ms,
            is_retry: self.is_retry,
        }
    }
}

impl Clone for Attempt {
    fn clone(&self) -> (copy: Self)
        ensures
            copy@ == self@,
    {
        Attempt {
            backend: self.backend,
            backend_name: self.backend_name.clone(),
            ok: self.ok,
            detail: self.detail.clone(),
            latency_ms: self.latency_ms,
            is_retry: self.is_retry,
        }
    }
}

#[derive(Debug)]
pub struct HandleResult {
    pub service: Option<String>,
    pub selected: Option<usize>,
    pub response: Result<Response, ProxyError>,
    pub attempts: Vec<Attempt>,
}

/// A result apart from how it is stored.
#[verifier::ext_equal]
pub struct ResultView {
    pub service: Option<Seq<char>>,
    pub selected: Option<usize>,
    pub response: Result<ResponseView, ProxyError>,
    pub attempts: Seq<AttemptView>,
}

impl View for HandleResult {
    type V = ResultView;

    open spec fn view(&self) -> ResultView {
        ResultView {
            service: match self.service {
                Some(service) => Some(service@),
                None => None,
            },
            selected: self.selected,
            response: match self.response {
                Ok(resp) => Ok(resp@),
                Err(e) => Err(e),
            },
            attempts: attempt_list(self.attempts@),
        }
    }
}

impl ResultView {
    /// What the client is told: the status of the response, or that of the error.
    pub open spec fn status(self) -> u16 {
        match self.response {
            Ok(resp) => resp.status,
            Err(e) => e.code(),
        }
    }

    pub open spec fn is_success(self) -> bool {
        self.response is Ok
    }
}

impl HandleResult {
    pub fn status(&self) -> (status: u16)
        ensures
            status == self@.status(),
    {
        match &self.response {
            Ok(r) => r.status,
            Err(e) => e.status(),
        }
    }

    pub fn is_success(&self) -> (success: bool)
        ensures
            success == self@.is_success(),
    {
        self.response.is_ok()
    }
}

/// What a proxy is, apart from how it is stored.
#[verifier::reject_recursive_types(U)]
pub struct ProxyView<C, U> {
    pub clock: C,
    pub routes: Seq<RouteView>,
    pub pools: Map<Seq<char>, PoolView<U>>,
    pub budget: BudgetView,
    pub sticky_header: Seq<char>,
    pub total_requests: nat,
    pub total_retries: nat,
    pub total_failovers: nat,
}

impl<C, U> ProxyView<C, U> {
    /// A proxy that has no pools yet and has handled nothing.
    pub open spec fn fresh(clock: C, routes: Seq<RouteView>, retry: RetryConfig) -> ProxyView<
        C,
        U,
    > {
        ProxyView {
            clock,
            routes,
            pools: Map::empty(),
            budget: BudgetView::full(retry),
            sticky_header: "X-Session-Id"@,
            total_requests: 0,
            total_retries: 0,
            total_failovers: 0,
        }
    }

    /// What every operation keeps: the accounts balance, and every pool is well
    /// formed.
    pub open spec fn wf(self) -> bool {
        &&& self.accounts_balance()
        &&& forall|service: Seq<char>| #[trigger]
            self.pools.contains_key(service) ==> self.pools[service].wf()
    }

    /// Each retry was paid for by the budget, each failover followed a retry, and
    /// what the budget paid out is covered by the full bucket it started with and
    /// one deposit per request.
    pub open spec fn accounts_balance(self) -> bool {
        &&& self.total_retries == self.budget.granted
        &&& self.total_failovers <= self.total_retries
        &&& self.budget.tokens + self.budget.granted * self.budget.cfg.retry_cost_milli
            <= self.budget.cfg.max_milli + self.total_requests * self.budget.cfg.deposit_milli
        &&& sensible(self.budget.cfg) ==> 0 <= self.budget.tokens <= self.budget.cfg.max_milli
    }

    /// The key that pins a request: the sticky header, or else the host.
    pub open spec fn sticky_key(self, req: RequestView) -> Option<Seq<char>> {
        match req.header(self.sticky_header) {
            Some(value) => Some(value),
            None => req.host(),
        }
    }

    /// The proxy once a request was counted.
    pub open spec fn counted(self) -> ProxyView<C, U> {
        ProxyView {
            total_requests: self.total_requests + 1,
            budget: self.budget.after_request(),
            ..self
        }
    }

    /// The request as it starts out on a pool that was just polled.
    pub open spec fn started(self, service: Seq<char>, now: u64) -> Round<U> {
        Round {
            pool: self.pools[service].polled(now),
            budget: self.budget.after_request(),
            attempts: Seq::empty(),
        }
    }

    /// The proxy after a request ended on the pool of a service.
    pub open spec fn settled(self, service: Seq<char>, last: Round<U>) -> ProxyView<C, U> {
        ProxyView {
            pools: self.pools.insert(service, last.pool),
            budget: last.budget,
            total_requests: self.total_requests + 1,
            total_retries: (self.total_retries + last.budget.granted - self.budget.granted) as nat,
            total_failovers: self.total_failovers + failovers_in(last.attempts),
            ..self
        }
    }
}

impl<C, U: Upstream> ProxyView<C, U> {
    /// Handling `req` at `now` may leave the proxy as `post` with this result,
    /// when the upstreams answer with the exchanges in `trace`.
    pub open spec fn handled(
        self,
        req: RequestView,
        now: u64,
        trace: Seq<Exchange<U>>,
        post: ProxyView<C, U>,
        result: ResultView,
    ) -> bool {
        match service_for(self.routes, req) {
            Some(service) if self.pools.contains_key(service) => {
                match self.started(service, now).settled(now, self.sticky_key(req), req, trace) {
                    Some((last, response)) => {
                        &&& post == self.settled(service, last)
                        &&& result == (ResultView {
                            service: Some(service),
                            selected: first_tried(last.attempts),
                            response,
                            attempts: last.attempts,
                        })
                    },
                    None => false,
                }
            },
            service => {
                &&& trace.len() == 0
                &&& post == self.counted()
                &&& result == (ResultView {
                    service,
                    selected: None,
                    response: Err(ProxyError::NoRoute),
                    attempts: Seq::empty(),
                })
            },
        }
    }

    /// The counters, the budget and the pool have room for this request.
    pub open spec fn can_handle(self, req: RequestView, now: u64) -> bool {
        let retries = self.budget.cfg.max_retries_per_request as nat;
        &&& self.total_requests < u64::MAX
        &&& self.total_retries + retries <= u64::MAX
        &&& self.total_failovers + retries <= u64::MAX
        &&& self.budget.has_room(retries)
        &&& match service_for(self.routes, req) {
            Some(service) if self.pools.contains_key(service) => {
                let pool = self.pools[service];
                &&& pool.can_poll(now)
                &&& pool.polled(now).can_serve(now)
                &&& retries < u32::MAX || pool.backends.len() <= u32::MAX
            },
            _ => true,
        }
    }

    /// Checking at `now` may leave the proxy as `post`: each pool is checked on
    /// its own.
    pub open spec fn checked(self, now: u64, post: ProxyView<C, U>) -> bool {
        &&& post == (ProxyView { pools: post.pools, ..self })
        &&& post.pools.dom() == self.pools.dom()
        &&& forall|name: Seq<char>| #[trigger]
            self.pools.contains_key(name) ==> self.pools[name].checked(now, post.pools[name])
    }
}

/// Routes requests to the pools of their services, over a clock of type `C` and
/// upstreams of type `U`.
pub struct Proxy<C, U> {
    clock: C,
    router: Router,
    pools: Vec<(String, Pool<U>)>,
    budget: RetryBudget,
    sticky_header: String,
    total_requests: u64,
    total_retries: u64,
    total_failovers: u64,
}

spec fn has_name<U>(pools: Seq<(String, Pool<U>)>, name: Seq<char>, i: int) -> bool {
    0 <= i < pools.len() && pools[i].0@ == name
}

spec fn pool_map<U>(pools: Seq<(String, Pool<U>)>) -> Map<Seq<char>, PoolView<U>> {
    Map::new(
        |name: Seq<char>| exists|i: int| has_name(pools, name, i),
        |name: Seq<char>| pools[choose|i: int| has_name(pools, name, i)].1@,
    )
}

/// One of the first `n` pools has the name.
spec fn comes_first<U>(pools: Seq<(String, Pool<U>)>, n: int, name: Seq<char>) -> bool {
    exists|j: int| 0 <= j < n && #[trigger] has_name(pools, name, j)
}

/// No two pools have the same name.
spec fn names_differ<U>(pools: Seq<(String, Pool<U>)>) -> bool {
    forall|i: int, j: int| 0 <= i < j < pools.len() ==> pools[i].0@ != pools[j].0@
}

proof fn lemma_pool_at<U>(pools: Seq<(String, Pool<U>)>, i: int)
    requires
        names_differ(pools),
        0 <= i < pools.len(),
    ensures
        pool_map(pools).contains_key(pools[i].0@),
        pool_map(pools)[pools[i].0@] == pools[i].1@,
{
    let name = pools[i].0@;
    assert(has_name(pools, name, i));
    let c = choose|c: int| has_name(pools, name, c);
    assert(has_name(pools, name, c));
    assert(c == i);
}

proof fn lemma_pools_checked<U: Upstream>(
    before: Seq<(String, Pool<U>)>,
    after: Seq<(String, Pool<U>)>,
    now: u64,
)
    requires
        names_differ(before),
        after.len() == before.len(),
        forall|j: int| 0 <= j < before.len() ==> (#[trigger] after[j]).0@ == before[j].0@,
        forall|j: int|
            0 <= j < before.len() ==> before[j].1@.checked(now, (#[trigger] after[j]).1@),
    ensures
        names_differ(after),
        pool_map(after).dom() == pool_map(before).dom(),
        forall|name: Seq<char>| #[trigger]
            pool_map(before).contains_key(name) ==> pool_map(before)[name].checked(
                now,
                pool_map(after)[name],
            ),
{
    assert forall|a: int, b: int| 0 <= a < b < after.len() implies after[a].0@ != after[b].0@ by {
        assert(before[a].0@ != before[b].0@);
    }
    assert forall|name: Seq<char>| pool_map(after).dom().contains(name) == #[trigger] pool_map(
        before,
    ).dom().contains(name) by {
        if pool_map(after).contains_key(name) {
            let j = choose|j: int| has_name(after, name, j);
            assert(has_name(before, name, j));
        }
        if pool_map(before).contains_key(name) {
            let j = choose|j: int| has_name(before, name, j);
            assert(has_name(after, name, j));
        }
    }
    assert(pool_map(after).dom() =~= pool_map(before).dom());
    assert forall|name: Seq<char>| #[trigger] pool_map(before).contains_key(name) implies pool_map(
        before,
    )[name].checked(now, pool_map(after)[name]) by {
        let j = choose|j: int| has_name(before, name, j);
        assert(has_name(before, name, j));
        lemma_pool_at(before, j);
        lemma_pool_at(after, j);
    }
}

proof fn lemma_pool_replaced<U>(
    before: Seq<(String, Pool<U>)>,
    after: Seq<(String, Pool<U>)>,
    i: int,
)
    requires
        names_differ(before),
        0 <= i < before.len(),
        after.len() == before.len(),
        forall|j: int| 0 <= j < before.len() ==> (#[trigger] after[j]).0@ == before[j].0@,
        forall|j: int| 0 <= j < before.len() && j != i ==> (#[trigger] after[j]).1@ == before[j].1@,
    ensures
        names_differ(after),
        pool_map(after) == pool_map(before).insert(before[i].0@, after[i].1@),
{
    let grown = pool_map(before).insert(before[i].0@, after[i].1@);
    assert forall|a: int, b: int| 0 <= a < b < after.len() implies after[a].0@ != after[b].0@ by {
        assert(before[a].0@ != before[b].0@);
    }
    assert forall|name: Seq<char>| pool_map(after).contains_key(name) == #[trigger]
        grown.contains_key(name) by {
        if pool_map(after).contains_key(name) {
            let j = choose|j: int| has_name(after, name, j);
            assert(has_name(before, name, j));
        }
        if pool_map(before).contains_key(name) {
            let j = choose|j: int| has_name(before, name, j);
            assert(has_name(after, name, j));
        }
        assert(has_name(after, before[i].0@, i));
    }
    assert forall|name: Seq<char>| #[trigger] pool_map(after).contains_key(name) implies pool_map(
        after,
    )[name] == grown[name] by {
        let j = choose|j: int| has_name(after, name, j);
        assert(has_name(after, name, j));
        lemma_pool_at(after, j);
        lemma_pool_at(before, j);
        if j != i {
            assert(before[j].0@ != before[i].0@) by {
                if j < i {
                    assert(before[j].0@ != before[i].0@);
                } else {
                    assert(before[i].0@ != before[j].0@);
                }
            }
        }
    }
    assert(pool_map(after) =~= grown);
}

impl<C, U> View for Proxy<C, U> {
    type V = ProxyView<C, U>;

    closed spec fn view(&self) -> ProxyView<C, U> {
        ProxyView {
            clock: self.clock,
            routes: self.router@,
            pools: pool_map(self.pools@),
            budget: self.budget@,
            sticky_header: self.sticky_header@,
            total_requests: self.total_requests as nat,
            total_retries: self.total_retries as nat,
            total_failovers: self.total_failovers as nat,
        }
    }
}

impl<C, U> Proxy<C, U> {
    /// Every pool is well formed and stands under a name of its own.
    pub closed spec fn pools_wf(self) -> bool {
        &&& names_differ(self.pools@)
        &&& forall|i: int| 0 <= i < self.pools@.len() ==> (#[trigger] self.pools@[i]).1.wf()
    }

    /// What every operation keeps.
    pub open spec fn wf(self) -> bool {
        self.pools_wf() && self@.wf()
    }

    pub fn new(clock: C, router: Router, retry: RetryConfig) -> (proxy: Self)
        ensures
            proxy@ == ProxyView::<C, U>::fresh(clock, router@, retry),
            proxy.wf(),
    {
        let proxy: Proxy<C, U> = Self {
            clock,
            router,
            pools: Vec::new(),
            budget: RetryBudget::new(retry),
            sticky_header: "X-Session-Id".to_owned(),
            total_requests: 0,
            total_retries: 0,
            total_failovers: 0,
        };
        proof {
            assert(proxy@.pools =~= Map::empty());
            assert(0 * retry.retry_cost_milli == 0 && 0 * retry.deposit_milli == 0)
                by (nonlinear_arith);
        }
        proxy
    }

    pub fn set_sticky_header<H: IntoText>(&mut self, header: H)
        ensures
            final(self)@ == (ProxyView { sticky_header: header.text(), ..old(self)@ }),
            old(self).wf() ==> final(self).wf(),
    {
        self.sticky_header = header.into_text();
    }

    /// Where the pool of that name stands.
    fn find_pool(&self, name: &str) -> (at: Option<usize>)
        ensures
            match at {
                Some(i) => has_name(self.pools@, name@, i as int),
                None => !self@.pools.contains_key(name@),
            },
    {
        let mut i: usize = 0;
        while i < self.pools.len()
            invariant
                i <= self.pools@.len(),
                forall|j: int| 0 <= j < i ==> !#[trigger] has_name(self.pools@, name@, j),
            decreases self.pools@.len() - i,
        {
            if same(self.pools[i].0.as_str(), name) {
                return Some(i);
            }
            assert(!has_name(self.pools@, name@, i as int));
            i += 1;
        }
        None
    }

    /// Put a pool under its own name, in place of one that had the name before.
    pub fn add_pool(&mut self, pool: Pool<U>)
        requires
            old(self).wf(),
            pool.wf(),
        ensures
            final(self)@ == (ProxyView {
                pools: old(self)@.pools.insert(pool@.name, pool@),
                ..old(self)@
            }),
            final(self).wf(),
    {
        let name: String = pool.name().to_owned();
        let ghost before = self.pools@;
        match self.find_pool(name.as_str()) {
            Some(i) => {
                self.pools.set(i, (name, pool));
                proof {
                    lemma_pool_replaced(before, self.pools@, i as int);
                }
            },
            None => {
                self.pools.push((name, pool));
                proof {
                    assert(self.pools@.drop_last() =~= before);
                    lemma_pool_joined(before, self.pools@);
                }
            },
        }
    }

    pub fn pool(&self, name: &str) -> (pool: Option<&Pool<U>>)
        requires
            self.wf(),
        ensures
            pool is Some <==> self@.pools.contains_key(name@),
            pool matches Some(p) ==> p@ == self@.pools[name@] && p.wf(),
    {
        match self.find_pool(name) {
            Some(i) => {
                proof {
                    lemma_pool_at(self.pools@, i as int);
                }
                Some(&self.pools[i].1)
            },
            None => None,
        }
    }

    /// The pool of that name, to change it in place. It stays under that name.
    pub fn pool_mut(&mut self, name: &str) -> (pool: Option<&mut Pool<U>>)
        requires
            old(self).wf(),
        ensures
            pool is Some <==> old(self)@.pools.contains_key(name@),
            match pool {
                Some(p) => {
                    &&& p@ == old(self)@.pools[name@]
                    &&& p.wf()
                    &&& final(self)@ == (ProxyView {
                        pools: old(self)@.pools.insert(name@, final(p)@),
                        ..old(self)@
                    })
                    &&& final(p).wf() ==> final(self).wf()
                },
                None => *final(self) == *old(self),
            },
    {
        match self.find_pool(name) {
            Some(i) => {
                proof {
                    lemma_pool_at(self.pools@, i as int);
                    assert forall|after: Seq<(String, Pool<U>)>, p: Pool<U>|
                        after == self.pools@.update(i as int, (self.pools@[i as int].0, p)) implies
                        names_differ(after) && #[trigger] pool_map(after) == pool_map(
                            self.pools@,
                        ).insert(self.pools@[i as int].0@, #[trigger] p.view()) by {
                        lemma_pool_replaced(self.pools@, after, i as int);
                    }
                }
                Some(&mut self.pools[i].1)
            },
            None => None,
        }
    }
}

proof fn lemma_pool_joined<U>(before: Seq<(String, Pool<U>)>, after: Seq<(String, Pool<U>)>)
    requires
        names_differ(before),
        after.len() == before.len() + 1,
        after.drop_last() == before,
        !pool_map(before).contains_key(after.last().0@),
    ensures
        names_differ(after),
        pool_map(after) == pool_map(before).insert(after.last().0@, after.last().1@),
{
    let n = before.len() as int;
    let name = after.last().0@;
    let grown = pool_map(before).insert(name, after.last().1@);
    assert forall|j: int| 0 <= j < n implies #[trigger] after[j] == before[j] by {
        assert(after.drop_last()[j] == after[j]);
    }
    assert forall|a: int, b: int| 0 <= a < b < after.len() implies after[a].0@ != after[b].0@ by {
        if b == n {
            if after[a].0@ == name {
                assert(has_name(before, name, a));
            }
        } else {
            assert(before[a].0@ != before[b].0@);
        }
    }
    assert forall|k: Seq<char>| pool_map(after).contains_key(k) == #[trigger] grown.contains_key(
        k,
    ) by {
        if pool_map(after).contains_key(k) {
            let j = choose|j: int| has_name(after, k, j);
            if j < n {
                assert(has_name(before, k, j));
            }
        }
        if pool_map(before).contains_key(k) {
            let j = choose|j: int| has_name(before, k, j);
            assert(has_name(after, k, j));
        }
        assert(has_name(after, name, n));
    }
    assert forall|k: Seq<char>| #[trigger] pool_map(after).contains_key(k) implies pool_map(
        after,
    )[k] == grown[k] by {
        let j = choose|j: int| has_name(after, k, j);
        assert(has_name(after, k, j));
        lemma_pool_at(after, j);
        if j < n {
            lemma_pool_at(before, j);
        }
    }
    assert(pool_map(after) =~= grown);
}

/// The names are in order, and no name comes twice.
pub open spec fn sorted_names(names: Seq<String>) -> bool {
    forall|i: int, j: int|
        0 <= i < j < names.len() ==> in_order(names[i]@, names[j]@) && names[i]@ != names[j]@
}

/// `name` is one of the names.
pub open spec fn is_listed(names: Seq<String>, name: Seq<char>) -> bool {
    exists|i: int| 0 <= i < names.len() && (#[trigger] names[i])@ == name
}

/// Where a new name belongs among names in order.
fn place_for(names: &Vec<String>, name: &str) -> (at: usize)
    requires
        sorted_names(names@),
    ensures
        at <= names@.len(),
        forall|i: int| 0 <= i < at ==> in_order((#[trigger] names@[i])@, name@),
        forall|i: int| at <= i < names@.len() ==> in_order(name@, (#[trigger] names@[i])@),
{
    let mut at: usize = 0;
    while at < names.len() && is_in_order(names[at].as_str(), name)
        invariant
            at <= names@.len(),
            forall|i: int| 0 <= i < at ==> in_order((#[trigger] names@[i])@, name@),
        decreases names@.len() - at,
    {
        at += 1;
    }
    proof {
        assert forall|i: int| at <= i < names@.len() implies in_order(
            name@,
            (#[trigger] names@[i])@,
        ) by {
            let here = names@[at as int]@;
            crate::text::lemma_in_order_total(here, name@);
            if i > at {
                assert(in_order(names@[at as int]@, names@[i]@));
                crate::text::lemma_in_order_transitive(name@, here, names@[i]@);
            }
        }
    }
    at
}

impl<C, U> Proxy<C, U> {
    /// The names of all services, in order.
    pub fn service_names(&self) -> (names: Vec<String>)
        requires
            self.wf(),
        ensures
            sorted_names(names@),
            forall|name: Seq<char>| #[trigger]
                is_listed(names@, name) <==> self@.pools.contains_key(name),
    {
        let mut names: Vec<String> = Vec::new();
        let mut k: usize = 0;
        while k < self.pools.len()
            invariant
                self.wf(),
                k <= self.pools@.len(),
                sorted_names(names@),
                forall|i: int|
                    0 <= i < names@.len() ==> comes_first(
                        self.pools@,
                        k as int,
                        (#[trigger] names@[i])@,
                    ),
                forall|j: int|
                    0 <= j < k ==> is_listed(names@, (#[trigger] self.pools@[j]).0@),
            decreases self.pools@.len() - k,
        {
            let name: &String = &self.pools[k].0;
            let ghost before = names@;
            let at: usize = place_for(&names, name.as_str());
            names.insert(at, name.clone());
            proof {
                lemma_name_inserted(self.pools@, before, names@, at as int, k as int);
            }
            k += 1;
        }
        proof {
            assert forall|name: Seq<char>| #[trigger]
                is_listed(names@, name) <==> self@.pools.contains_key(name) by {
                if is_listed(names@, name) {
                    let i = choose|i: int| 0 <= i < names@.len() && (#[trigger] names@[i])@ == name;
                    let j = choose|j: int|
                        0 <= j < k && #[trigger] has_name(self.pools@, names@[i]@, j);
                    assert(has_name(self.pools@, name, j));
                }
                if self@.pools.contains_key(name) {
                    let j = choose|j: int| has_name(self.pools@, name, j);
                    assert(is_listed(names@, self.pools@[j].0@));
                }
            }
        }
        names
    }

    pub fn clock(&self) -> (clock: &C)
        ensures
            *clock == self@.clock,
    {
        &self.clock
    }

    /// The clock, to drive it by hand.
    pub fn clock_mut(&mut self) -> (clock: &mut C)
        ensures
            *clock == old(self)@.clock,
            final(self)@ == (ProxyView { clock: *final(clock), ..old(self)@ }),
            old(self).wf() ==> final(self).wf(),
    {
        &mut self.clock
    }

    pub fn total_requests(&self) -> (n: u64)
        ensures
            n == self@.total_requests,
    {
        self.total_requests
    }

    pub fn total_retries(&self) -> (n: u64)
        ensures
            n == self@.total_retries,
    {
        self.total_retries
    }

    pub fn total_failovers(&self) -> (n: u64)
        ensures
            n == self@.total_failovers,
    {
        self.total_failovers
    }

    pub fn budget(&self) -> (budget: &RetryBudget)
        ensures
            budget@ == self@.budget,
    {
        &self.budget
    }

    fn sticky_key(&self, req: &Request) -> (key: Option<String>)
        ensures
            match key {
                Some(k) => self@.sticky_key(req@) == Some(k@),
                None => self@.sticky_key(req@) is None,
            },
    {
        match req.header(self.sticky_header.as_str()) {
            Some(value) => Some(value.to_owned()),
            None => match req.host() {
                Some(host) => Some(host.to_owned()),
                None => None,
            },
        }
    }
}

proof fn lemma_name_inserted<U>(
    pools: Seq<(String, Pool<U>)>,
    before: Seq<String>,
    after: Seq<String>,
    at: int,
    k: int,
)
    requires
        names_differ(pools),
        0 <= k < pools.len(),
        0 <= at <= before.len(),
        after.len() == before.len() + 1,
        after[at]@ == pools[k].0@,
        forall|i: int| 0 <= i < at ==> after[i] == before[i],
        forall|i: int| at < i < after.len() ==> after[i] == before[i - 1],
        sorted_names(before),
        forall|i: int| 0 <= i < at ==> in_order((#[trigger] before[i])@, pools[k].0@),
        forall|i: int| at <= i < before.len() ==> in_order(pools[k].0@, (#[trigger] before[i])@),
        forall|i: int|
            0 <= i < before.len() ==> comes_first(pools, k, (#[trigger] before[i])@),
        forall|j: int| 0 <= j < k ==> is_listed(before, (#[trigger] pools[j]).0@),
    ensures
        sorted_names(after),
        forall|i: int|
            0 <= i < after.len() ==> comes_first(pools, k + 1, (#[trigger] after[i])@),
        forall|j: int| 0 <= j < k + 1 ==> is_listed(after, (#[trigger] pools[j]).0@),
{
    let name = pools[k].0@;
    assert forall|i: int| 0 <= i < before.len() implies (#[trigger] before[i])@ != name by {
        let j = choose|j: int| 0 <= j < k && #[trigger] has_name(pools, before[i]@, j);
        assert(pools[j].0@ != pools[k].0@);
    }
    assert forall|i: int, j: int| 0 <= i < j < after.len() implies in_order(after[i]@, after[j]@)
        && after[i]@ != after[j]@ by {
        let a = if i < at {
            i
        } else {
            i - 1
        };
        let b = if j < at {
            j
        } else {
            j - 1
        };
        if i != at {
            assert(after[i] == before[a]);
        }
        if j != at {
            assert(after[j] == before[b]);
        }
    }
    assert forall|i: int| 0 <= i < after.len() implies comes_first(
        pools,
        k + 1,
        (#[trigger] after[i])@,
    ) by {
        if i == at {
            assert(has_name(pools, after[i]@, k));
        } else {
            let a = if i < at {
                i
            } else {
                i - 1
            };
            assert(after[i] == before[a]);
            let j = choose|j: int| 0 <= j < k && #[trigger] has_name(pools, before[a]@, j);
            assert(has_name(pools, after[i]@, j));
        }
    }
    assert forall|j: int| 0 <= j < k + 1 implies is_listed(after, (#[trigger] pools[j]).0@) by {
        if j == k {
            assert(after[at]@ == pools[j].0@);
        } else {
            let i = choose|i: int| 0 <= i < before.len() && (#[trigger] before[i])@ == pools[j].0@;
            if i < at {
                assert(after[i]@ == pools[j].0@);
            } else {
                assert(after[i + 1] == before[i]);
                assert(after[i + 1]@ == pools[j].0@);
            }
        }
    }
}

/// Everything there is to say about how a request can end.
proof fn lemma_handled<C, U: Upstream>(
    p: ProxyView<C, U>,
    req: RequestView,
    now: u64,
    trace: Seq<Exchange<U>>,
    post: ProxyView<C, U>,
    result: ResultView,
    service: Seq<char>,
)
    requires
        p.handled(req, now, trace, post, result),
        service_for(p.routes, req) == Some(service),
        p.pools.contains_key(service),
        p.pools[service].wf(),
    ensures
        ({
            let start = p.started(service, now);
            let last = Round {
                pool: post.pools[service],
                budget: post.budget,
                attempts: result.attempts,
            };
            &&& follows(start, last)
            &&& each_call_counted(start.pool, last.pool, last.tried())
            &&& attempts_spread(start.pool, now, result.attempts)
            &&& result.attempts.len() == trace.len()
            &&& result.attempts.len() <= p.budget.cfg.max_retries_per_request + 1
            &&& result.attempts.len() <= p.pools[service].backends.len()
            &&& outcome_matches(result.attempts, result.response)
            &&& first_tried(result.attempts) == start.choice(now, p.sticky_key(req))
            &&& result.response matches Ok(resp) ==> trace.last().reply.outcome matches Ok(reply)
                && reply == resp
        }),
{
    crate::selection::law_polling_keeps_pool_well_formed(p.pools[service], now);
    lemma_request_ends_well(p.started(service, now), now, p.sticky_key(req), req, trace);
}

/// What an unrouted request is answered.
pub open spec fn no_route() -> Result<ResponseView, ProxyError> {
    Err(ProxyError::NoRoute)
}

/// A request that no route matches, or whose service has no pool, is answered
/// with `NoRoute` and touches no pool. Nothing else is answered so.
pub proof fn law_unrouted_request_is_refused<C, U: Upstream>(
    p: ProxyView<C, U>,
    req: RequestView,
    now: u64,
    trace: Seq<Exchange<U>>,
    post: ProxyView<C, U>,
    result: ResultView,
)
    requires
        p.handled(req, now, trace, post, result),
        p.wf(),
    ensures
        result.response == no_route() <==> match service_for(p.routes, req) {
            Some(service) => !p.pools.contains_key(service),
            None => true,
        },
        result.response == no_route() ==> {
            &&& post.pools == p.pools
            &&& post.total_retries == p.total_retries
            &&& result.attempts.len() == 0
        },
        result.service == service_for(p.routes, req),
{
    match service_for(p.routes, req) {
        Some(service) => {
            if p.pools.contains_key(service) {
                lemma_handled(p, req, now, trace, post, result, service);
            }
        },
        None => {},
    }
}

/// A request is attempted at most once more than it may be retried. Every
/// attempt goes to a backend of its own that was available when the request
/// came in, and every attempt but the first is a retry.
pub proof fn law_attempts_go_to_available_backends<C, U: Upstream>(
    p: ProxyView<C, U>,
    req: RequestView,
    now: u64,
    trace: Seq<Exchange<U>>,
    post: ProxyView<C, U>,
    result: ResultView,
    service: Seq<char>,
    k: int,
)
    requires
        p.handled(req, now, trace, post, result),
        service_for(p.routes, req) == Some(service),
        p.pools.contains_key(service),
        p.wf(),
        0 <= k < result.attempts.len(),
    ensures
        ({
            let pool = p.pools[service].polled(now);
            let a = result.attempts[k];
            &&& result.attempts.len() <= p.budget.cfg.max_retries_per_request + 1
            &&& a.backend < pool.backends.len()
            &&& pool.backends[a.backend as int].is_available(now)
            &&& pool.backends[a.backend as int].breaker.state() != BreakerState::Open
            &&& a.backend_name == pool.backends[a.backend as int].name
            &&& a.is_retry <==> k > 0
            &&& forall|j: int| 0 <= j < k ==> (#[trigger] result.attempts[j]).backend != a.backend
            &&& result.selected == Some(result.attempts[0].backend)
        }),
{
    lemma_handled(p, req, now, trace, post, result, service);
    let pool = p.pools[service].polled(now);
    let a = result.attempts[k];
    assert(pool.backends[a.backend as int].is_available(now));
    let b = p.pools[service].backends[a.backend as int];
    assert(pool.backends[a.backend as int].breaker == b.breaker.polled(now));
}

/// The response is what the attempts say: that of the last one when it was good,
/// the number of attempts when all failed, and `NoHealthyUpstream` exactly when
/// there was nobody to try.
pub proof fn law_response_matches_attempts<C, U: Upstream>(
    p: ProxyView<C, U>,
    req: RequestView,
    now: u64,
    trace: Seq<Exchange<U>>,
    post: ProxyView<C, U>,
    result: ResultView,
    service: Seq<char>,
)
    requires
        p.handled(req, now, trace, post, result),
        service_for(p.routes, req) == Some(service),
        p.pools.contains_key(service),
        p.wf(),
    ensures
        outcome_matches(result.attempts, result.response),
        result.attempts.len() == trace.len(),
        result.response == Err::<ResponseView, ProxyError>(ProxyError::NoHealthyUpstream)
            <==> p.pools[service].polled(now).pick(now, p.sticky_key(req), Seq::empty()) is None,
{
    lemma_handled(p, req, now, trace, post, result, service);
    let start = p.started(service, now);
    assert(start.tried() =~= Seq::empty());
}

/// One of the attempts went to backend `i`.
pub open spec fn was_tried(attempts: Seq<AttemptView>, i: int) -> bool {
    exists|k: int| 0 <= k < attempts.len() && (#[trigger] attempts[k]).backend == i
}

/// A request leaves every in flight count and every verdict of the health checks as
/// it found them. A backend that it tried has recorded one more outcome, and every
/// other backend is at most given a turn. Other pools are left alone.
pub proof fn law_request_leaves_others_alone<C, U: Upstream>(
    p: ProxyView<C, U>,
    req: RequestView,
    now: u64,
    trace: Seq<Exchange<U>>,
    post: ProxyView<C, U>,
    result: ResultView,
    service: Seq<char>,
    i: int,
)
    requires
        p.handled(req, now, trace, post, result),
        service_for(p.routes, req) == Some(service),
        p.pools.contains_key(service),
        p.wf(),
        0 <= i < p.pools[service].backends.len(),
    ensures
        ({
            let before = p.pools[service].backends[i];
            let after = post.pools[service].backends[i];
            &&& after.in_flight == before.in_flight
            &&& after.healthy == before.healthy
            &&& after.name == before.name
            &&& after.weight == before.weight
            &&& after.served == before.served + (if was_tried(result.attempts, i) {
                1nat
            } else {
                0nat
            })
            &&& !was_tried(result.attempts, i) ==> after == (BackendView {
                current_weight: after.current_weight,
                ..p.pools[service].polled(now).backends[i]
            })
        }),
        forall|other: Seq<char>| #[trigger]
            p.pools.contains_key(other) && other != service ==> post.pools[other]
                == p.pools[other],
{
    lemma_handled(p, req, now, trace, post, result, service);
    reveal(only_tried_changed);
    reveal(each_call_counted);
    let polled = p.pools[service].polled(now);
    let last = Round { pool: post.pools[service], budget: post.budget, attempts: result.attempts };
    assert(polled.backends[i] == p.pools[service].backends[i].polled(
        now,
        p.pools[service].ewma,
        p.pools[service].line(),
    ));
    assert(post.pools[service].backends[i].in_flight == polled.backends[i].in_flight);
    assert(last.tried().contains(i as usize) == was_tried(result.attempts, i)) by {
        if last.tried().contains(i as usize) {
            let k = choose|k: int| 0 <= k < last.tried().len() && last.tried()[k] == i as usize;
            assert(result.attempts[k].backend == i);
        }
        if was_tried(result.attempts, i) {
            let k = choose|k: int|
                0 <= k < result.attempts.len() && (#[trigger] result.attempts[k]).backend == i;
            assert(last.tried()[k] == i as usize);
        }
    }
}

/// A request is first sent to the backend that the strategy of its pool chooses for
/// its session key, out of all that are available once the pool was polled.
pub proof fn law_first_attempt_is_pool_choice<C, U: Upstream>(
    p: ProxyView<C, U>,
    req: RequestView,
    now: u64,
    trace: Seq<Exchange<U>>,
    post: ProxyView<C, U>,
    result: ResultView,
    service: Seq<char>,
)
    requires
        p.handled(req, now, trace, post, result),
        service_for(p.routes, req) == Some(service),
        p.pools.contains_key(service),
        p.wf(),
    ensures
        result.selected == p.pools[service].polled(now).pick(
            now,
            p.sticky_key(req),
            Seq::empty(),
        ),
        result.selected == first_tried(result.attempts),
{
    lemma_handled(p, req, now, trace, post, result, service);
    assert(p.started(service, now).tried() =~= Seq::empty());
}

/// Requests with the same session key are first sent to the same backend, whatever
/// happened in between, as long as the same backends are available under the same
/// names.
pub proof fn law_sticky_requests_stay_together<C, U: Upstream>(
    p: ProxyView<C, U>,
    req: RequestView,
    now: u64,
    trace: Seq<Exchange<U>>,
    post: ProxyView<C, U>,
    result: ResultView,
    q: ProxyView<C, U>,
    again: RequestView,
    later: u64,
    next_trace: Seq<Exchange<U>>,
    next_post: ProxyView<C, U>,
    next_result: ResultView,
    service: Seq<char>,
)
    requires
        p.handled(req, now, trace, post, result),
        q.handled(again, later, next_trace, next_post, next_result),
        p.wf(),
        q.wf(),
        service_for(p.routes, req) == Some(service),
        service_for(q.routes, again) == Some(service),
        p.pools.contains_key(service),
        q.pools.contains_key(service),
        p.pools[service].strategy is ConsistentHash,
        q.pools[service].strategy is ConsistentHash,
        p.sticky_key(req) is Some,
        q.sticky_key(again) == p.sticky_key(req),
        ({
            let a = p.pools[service].polled(now);
            let b = q.pools[service].polled(later);
            let c = a.candidates(now, Seq::empty());
            &&& b.candidates(later, Seq::empty()) == c
            &&& b.members(c) == a.members(c)
        }),
    ensures
        next_result.selected == result.selected,
        result.selected is Some <==> p.pools[service].polled(now).candidates(
            now,
            Seq::empty(),
        ).len() > 0,
{
    let a = p.pools[service].polled(now);
    let b = q.pools[service].polled(later);
    let key = p.sticky_key(req)->0;
    law_first_attempt_is_pool_choice(p, req, now, trace, post, result, service);
    law_first_attempt_is_pool_choice(
        q,
        again,
        later,
        next_trace,
        next_post,
        next_result,
        service,
    );
    crate::selection::law_sticky_key_stays(a, b, now, later, key, Seq::empty(), Seq::empty());
    let c = a.candidates(now, Seq::empty());
    if c.len() > 0 {
        crate::hashring::law_every_key_has_an_owner(a.members(c), crate::pool::VNODES, key);
    }
}

/// A request succeeds exactly when its last attempt was good. Every attempt before
/// the last one failed, all went to different backends, all but the first are
/// retries, and there are no more of them than may be retried and one.
pub proof fn law_success_is_a_good_last_attempt<C, U: Upstream>(
    p: ProxyView<C, U>,
    req: RequestView,
    now: u64,
    trace: Seq<Exchange<U>>,
    post: ProxyView<C, U>,
    result: ResultView,
)
    requires
        p.handled(req, now, trace, post, result),
        p.wf(),
    ensures
        result.is_success() <==> result.attempts.len() > 0 && result.attempts.last().ok,
        forall|k: int|
            0 <= k < result.attempts.len() - 1 ==> !(#[trigger] result.attempts[k]).ok,
        forall|k: int|
            0 <= k < result.attempts.len() ==> ((#[trigger] result.attempts[k]).is_retry <==> k
                > 0),
        forall|j: int, k: int|
            0 <= j < k < result.attempts.len() ==> (#[trigger] result.attempts[j]).backend != (
            #[trigger] result.attempts[k]).backend,
        result.attempts.len() <= p.budget.cfg.max_retries_per_request + 1,
        result.selected == first_tried(result.attempts),
{
    match service_for(p.routes, req) {
        Some(service) => {
            if p.pools.contains_key(service) {
                lemma_handled(p, req, now, trace, post, result, service);
            }
        },
        None => {},
    }
}

/// The status tells how a request ended. It is 404 for a request without a pool,
/// 503 where nobody could be tried and 502 where every attempt failed, of which the
/// error carries the number. Else it is the status of the response that the last
/// attempt brought.
pub proof fn law_status_tells_outcome<C, U: Upstream>(
    p: ProxyView<C, U>,
    req: RequestView,
    now: u64,
    trace: Seq<Exchange<U>>,
    post: ProxyView<C, U>,
    result: ResultView,
)
    requires
        p.handled(req, now, trace, post, result),
        p.wf(),
        p.budget.cfg.max_retries_per_request < u32::MAX || forall|service: Seq<char>| #[trigger]
            p.pools.contains_key(service) ==> p.pools[service].backends.len() <= u32::MAX,
    ensures
        match service_for(p.routes, req) {
            Some(service) if p.pools.contains_key(service) => {
                &&& result.attempts.len() == 0 <==> p.pools[service].polled(now).pick(
                    now,
                    p.sticky_key(req),
                    Seq::empty(),
                ) is None
                &&& if result.attempts.len() == 0 {
                    &&& result.response == Err::<ResponseView, ProxyError>(
                        ProxyError::NoHealthyUpstream,
                    )
                    &&& result.status() == 503
                } else if forall|k: int|
                    0 <= k < result.attempts.len() ==> !(#[trigger] result.attempts[k]).ok {
                    &&& result.response == Err::<ResponseView, ProxyError>(
                        ProxyError::AllAttemptsFailed(result.attempts.len() as u32),
                    )
                    &&& result.attempts.len() <= u32::MAX
                    &&& result.status() == 502
                } else {
                    &&& result.response is Ok
                    &&& trace.last().reply.outcome is Ok
                    &&& result.response->Ok_0 == trace.last().reply.outcome->Ok_0
                    &&& result.status() == trace.last().reply.outcome->Ok_0.status
                }
            },
            _ => {
                &&& result.response == no_route()
                &&& result.attempts.len() == 0
                &&& result.status() == 404
            },
        },
{
    match service_for(p.routes, req) {
        Some(service) => {
            if p.pools.contains_key(service) {
                lemma_handled(p, req, now, trace, post, result, service);
                assert(p.started(service, now).tried() =~= Seq::empty());
            }
        },
        None => {},
    }
}

/// Handling a request keeps the accounts in balance: every retry was paid for,
/// and what was paid out is covered. Every pool stays well formed.
pub proof fn law_accounts_stay_balanced<C, U: Upstream>(
    p: ProxyView<C, U>,
    req: RequestView,
    now: u64,
    trace: Seq<Exchange<U>>,
    post: ProxyView<C, U>,
    result: ResultView,
)
    requires
        p.handled(req, now, trace, post, result),
        p.wf(),
    ensures
        post.wf(),
        post.budget.cfg == p.budget.cfg,
        post.total_requests == p.total_requests + 1,
{
    let n = p.total_requests as int;
    let deposit = p.budget.cfg.deposit_milli as int;
    assert((n + 1) * deposit == n * deposit + deposit) by (nonlinear_arith);
    match service_for(p.routes, req) {
        Some(service) => {
            if p.pools.contains_key(service) {
                lemma_handled(p, req, now, trace, post, result, service);
            }
        },
        None => {},
    }
}

/// Retries never exceed what the token bucket can pay for: the full bucket it
/// started with and one deposit per request, at the cost of a retry each.
pub proof fn law_retries_are_bounded<C, U>(p: ProxyView<C, U>)
    requires
        p.accounts_balance(),
        sensible(p.budget.cfg),
    ensures
        p.total_retries <= (p.budget.cfg.max_milli + p.total_requests * p.budget.cfg.deposit_milli)
            / p.budget.cfg.retry_cost_milli as int,
        p.total_failovers <= p.total_retries,
{
    crate::retry::lemma_bound_from_cover(
        p.total_retries as int,
        p.budget.cfg.retry_cost_milli as int,
        p.budget.cfg.max_milli + p.total_requests * p.budget.cfg.deposit_milli,
    );
}

/// One request that a proxy handled: the proxy before and after, and all that
/// passed.
#[verifier::reject_recursive_types(U)]
pub struct Handling<C, U> {
    pub pre: ProxyView<C, U>,
    pub req: RequestView,
    pub now: u64,
    pub trace: Seq<Exchange<U>>,
    pub post: ProxyView<C, U>,
    pub result: ResultView,
}

impl<C, U> ProxyView<C, U> {
    /// The proxies have counted the same and have the same budget. Their pools,
    /// routes and clocks may differ.
    pub open spec fn same_accounts(self, other: ProxyView<C, U>) -> bool {
        &&& self.budget == other.budget
        &&& self.total_requests == other.total_requests
        &&& self.total_retries == other.total_retries
        &&& self.total_failovers == other.total_failovers
    }
}

/// The proxy as the last of the requests left it.
pub open spec fn after_all<C, U>(
    first: ProxyView<C, U>,
    handled: Seq<Handling<C, U>>,
) -> ProxyView<C, U> {
    if handled.len() == 0 {
        first
    } else {
        handled.last().post
    }
}

/// The requests were handled one after the other by a proxy that was `first` when
/// it was new. Between two requests anything may have happened to it that does not
/// touch its accounts.
pub open spec fn handled_in_turn<C, U: Upstream>(
    first: ProxyView<C, U>,
    handled: Seq<Handling<C, U>>,
) -> bool
    decreases handled.len(),
{
    handled.len() > 0 ==> {
        let h = handled.last();
        &&& handled_in_turn(first, handled.drop_last())
        &&& after_all(first, handled.drop_last()).same_accounts(h.pre)
        &&& h.pre.wf()
        &&& h.pre.handled(h.req, h.now, h.trace, h.post, h.result)
    }
}

/// How many of the attempts are retries.
pub open spec fn retries_among(attempts: Seq<AttemptView>) -> nat
    decreases attempts.len(),
{
    if attempts.len() == 0 {
        0
    } else {
        retries_among(attempts.drop_last()) + (if attempts.last().is_retry {
            1nat
        } else {
            0nat
        })
    }
}

/// How many of the attempts of all requests are retries.
pub open spec fn all_retries<C, U>(handled: Seq<Handling<C, U>>) -> nat
    decreases handled.len(),
{
    if handled.len() == 0 {
        0
    } else {
        all_retries(handled.drop_last()) + retries_among(handled.last().result.attempts)
    }
}

proof fn lemma_retries_among(attempts: Seq<AttemptView>)
    requires
        forall|k: int|
            0 <= k < attempts.len() ==> ((#[trigger] attempts[k]).is_retry <==> k > 0),
    ensures
        retries_among(attempts) == failovers_in(attempts),
    decreases attempts.len(),
{
    if attempts.len() > 0 {
        let front = attempts.drop_last();
        assert forall|k: int| 0 <= k < front.len() implies ((#[trigger] front[k]).is_retry <==> k
            > 0) by {
            assert(front[k] == attempts[k]);
        }
        lemma_retries_among(front);
        assert(attempts.last() == attempts[attempts.len() - 1]);
    }
}

/// Over the whole life of a proxy, whatever happens between its requests, it counts
/// each request once and each retry that was paid for once. The failovers it counts
/// are the attempts marked as retries, and they are no more than the retries. The
/// retries are no more than the token bucket can pay for.
pub proof fn law_counters_add_up<C, U: Upstream>(
    clock: C,
    routes: Seq<RouteView>,
    retry: RetryConfig,
    handled: Seq<Handling<C, U>>,
)
    requires
        handled_in_turn(ProxyView::fresh(clock, routes, retry), handled),
    ensures
        ({
            let last = after_all(ProxyView::<C, U>::fresh(clock, routes, retry), handled);
            &&& last.wf()
            &&& last.budget.cfg == retry
            &&& last.total_requests == handled.len()
            &&& last.total_retries == last.budget.granted
            &&& last.total_failovers == all_retries(handled)
            &&& last.total_failovers <= last.total_retries
            &&& last.total_retries * retry.retry_cost_milli + last.budget.tokens <= retry.max_milli
                + handled.len() * retry.deposit_milli
            &&& sensible(retry) ==> last.total_retries * retry.retry_cost_milli <= retry.max_milli
                + handled.len() * retry.deposit_milli
            &&& sensible(retry) ==> last.total_retries <= (retry.max_milli + handled.len()
                * retry.deposit_milli) / retry.retry_cost_milli as int
        }),
    decreases handled.len(),
{
    let first = ProxyView::<C, U>::fresh(clock, routes, retry);
    let last = after_all(first, handled);
    if handled.len() == 0 {
        assert(0 * retry.retry_cost_milli == 0 && 0 * retry.deposit_milli == 0)
            by (nonlinear_arith);
    } else {
        let h = handled.last();
        law_counters_add_up(clock, routes, retry, handled.drop_last());
        law_accounts_stay_balanced(h.pre, h.req, h.now, h.trace, h.post, h.result);
        law_success_is_a_good_last_attempt(h.pre, h.req, h.now, h.trace, h.post, h.result);
        lemma_retries_among(h.result.attempts);
    }
    if sensible(retry) {
        law_retries_are_bounded(last);
    }
}

impl<C: Clock, U> Proxy<C, U> {
    pub fn now(&self) -> (now: u64)
        ensures
            self@.clock.reads(now),
    {
        self.clock.now_millis()
    }
}

impl<C: Clock, U: Upstream> Proxy<C, U> {
    /// Run active health probes across every pool at the current time.
    pub fn run_health_checks(&mut self)
        requires
            old(self).wf(),
            forall|now: u64, name: Seq<char>|
                #![trigger old(self)@.clock.reads(now), old(self)@.pools.contains_key(name)]
                old(self)@.clock.reads(now) && old(self)@.pools.contains_key(name) ==> old(
                    self,
                )@.pools[name].can_check(now),
        ensures
            exists|now: u64| #[trigger]
                old(self)@.clock.reads(now) && old(self)@.checked(now, final(self)@),
            final(self).wf(),
    {
        let now: u64 = self.clock.now_millis();
        let ghost before = self.pools@;
        let ghost p = self@;
        let mut i: usize = 0;
        while i < self.pools.len()
            invariant
                i <= self.pools@.len(),
                p == old(self)@,
                p.pools == pool_map(before),
                names_differ(before),
                self@ == (ProxyView { pools: self@.pools, ..p }),
                self.pools@.len() == before.len(),
                forall|name: Seq<char>| #[trigger]
                    p.pools.contains_key(name) ==> p.pools[name].can_check(now),
                forall|j: int| 0 <= j < before.len() ==> (#[trigger] self.pools@[j]).1.wf(),
                forall|j: int|
                    0 <= j < before.len() ==> (#[trigger] self.pools@[j]).0@ == before[j].0@,
                forall|j: int|
                    0 <= j < i ==> before[j].1@.checked(now, (#[trigger] self.pools@[j]).1@),
                forall|j: int|
                    i <= j < before.len() ==> (#[trigger] self.pools@[j]).1@ == before[j].1@,
            decreases self.pools@.len() - i,
        {
            proof {
                lemma_pool_at(before, i as int);
                assert(self.pools@[i as int].1@ == before[i as int].1@);
            }
            self.pools[i].1.run_health_checks(now);
            i += 1;
        }
        proof {
            lemma_pools_checked(before, self.pools@, now);
            assert(p.checked(now, self@));
        }
    }

    /// Handle one request end to end: route, select, send, retry and failover.
    pub fn handle(&mut self, req: &Request) -> (result: HandleResult)
        requires
            old(self).wf(),
            forall|now: u64| #[trigger]
                old(self)@.clock.reads(now) ==> old(self)@.can_handle(req@, now),
        ensures
            exists|now: u64, trace: Seq<Exchange<U>>|
                old(self)@.clock.reads(now) && #[trigger] old(self)@.handled(
                    req@,
                    now,
                    trace,
                    final(self)@,
                    result@,
                ),
            final(self).wf(),
    {
        let now: u64 = self.clock.now_millis();
        let ghost p = self@;
        let ghost before = self.pools@;
        assert(old(self)@.clock.reads(now));
        assert(p.can_handle(req@, now));
        self.total_requests = self.total_requests + 1;
        self.budget.on_request();
        let service: String = match self.router.route(req) {
            Some(s) => s.to_owned(),
            None => {
                let result: HandleResult = HandleResult {
                    service: None,
                    selected: None,
                    response: Err(ProxyError::NoRoute),
                    attempts: Vec::new(),
                };
                proof {
                    assert(result@.attempts =~= Seq::empty());
                    assert(p.handled(req@, now, Seq::empty(), self@, result@));
                    law_accounts_stay_balanced(p, req@, now, Seq::empty(), self@, result@);
                }
                return result;
            },
        };
        let key: Option<String> = self.sticky_key(req);
        let at: usize = match self.find_pool(service.as_str()) {
            Some(at) => at,
            None => {
                let result: HandleResult = HandleResult {
                    service: Some(service),
                    selected: None,
                    response: Err(ProxyError::NoRoute),
                    attempts: Vec::new(),
                };
                proof {
                    assert(result@.attempts =~= Seq::empty());
                    assert(p.handled(req@, now, Seq::empty(), self@, result@));
                    law_accounts_stay_balanced(p, req@, now, Seq::empty(), self@, result@);
                }
                return result;
            },
        };
        proof {
            lemma_pool_at(before, at as int);
        }
        let sticky: Option<&str> = match &key {
            Some(k) => Some(k.as_str()),
            None => None,
        };
        assert(key_text(sticky) == p.sticky_key(req@));
        self.pools[at].1.poll(now);
        let (outcome, Ghost(trace)) = forward(
            &mut self.pools[at].1,
            &mut self.budget,
            now,
            sticky,
            req,
        );
        self.total_retries = self.total_retries + outcome.retries;
        self.total_failovers = self.total_failovers + outcome.failovers;
        let result: HandleResult = HandleResult {
            service: Some(service),
            selected: outcome.selected,
            response: outcome.response,
            attempts: outcome.attempts,
        };
        proof {
            lemma_pool_replaced(before, self.pools@, at as int);
            assert(p.handled(req@, now, trace, self@, result@));
            law_accounts_stay_balanced(p, req@, now, trace, self@, result@);
        }
        result
    }
}

/// Service names are listed in order, each once, and a name is listed exactly when it
/// stands somewhere in the list.
pub proof fn law_names_are_listed_in_order(names: Seq<String>, i: int, j: int, name: Seq<char>)
    requires
        0 <= i < j < names.len(),
    ensures
        sorted_names(names) ==> in_order(names[i]@, names[j]@) && names[i]@ != names[j]@,
        is_listed(names, names[i]@),
        is_listed(names, name) ==> exists|k: int|
            0 <= k < names.len() && (#[trigger] names[k])@ == name,
{
}

} // verus!
