//! A retry budget. Retries improve success rates but a naive per request retry
//! count amplifies load during an incident. The budget is a token bucket: each
//! new request deposits a small fraction of a token, each retry costs a whole
//! token. Retries are only permitted while tokens remain, capping the retry rate
//! near the deposit ratio. Integer milli tokens keep it fully deterministic.

use vstd::prelude::*;

verus! {

#[derive(Clone, Copy, Debug)]
pub struct RetryConfig {
    /// Maximum retries attempted for a single request, budget permitting.
    pub max_retries_per_request: u32,
    /// Tokens deposited per new request, in milli tokens. 200 means 0.2.
    pub deposit_milli: i64,
    /// Cost of one retry, in milli tokens.
    pub retry_cost_milli: i64,
    /// Cap on the bucket, in milli tokens.
    pub max_milli: i64,
}

impl Default for RetryConfig {
    fn default() -> (cfg: Self)
        ensures
            cfg == (RetryConfig {
                max_retries_per_request: 2,
                deposit_milli: 200,
                retry_cost_milli: 1_000,
                max_milli: 10_000,
            }),
    {
        Self {
            max_retries_per_request: 2,
            deposit_milli: 200,
            retry_cost_milli: 1_000,
            max_milli: 10_000,
        }
    }
}

/// What a budget is: its configuration, the tokens in the bucket and what it
/// has answered so far.
pub struct BudgetView {
    pub cfg: RetryConfig,
    pub tokens: int,
    pub granted: nat,
    pub denied: nat,
}

/// What can happen to a budget.
pub enum BudgetEvent {
    Request,
    Retry,
}

impl BudgetView {
    pub open spec fn full(cfg: RetryConfig) -> BudgetView {
        BudgetView { cfg, tokens: cfg.max_milli as int, granted: 0, denied: 0 }
    }

    /// A new request deposits its share, up to the cap.
    pub open spec fn after_request(self) -> BudgetView {
        let tokens = self.tokens + self.cfg.deposit_milli;
        BudgetView {
            tokens: if tokens <= self.cfg.max_milli {
                tokens
            } else {
                self.cfg.max_milli as int
            },
            ..self
        }
    }

    pub open spec fn grants(self) -> bool {
        self.tokens >= self.cfg.retry_cost_milli
    }

    /// A retry is paid for when the bucket holds its cost, else refused.
    pub open spec fn after_retry(self) -> BudgetView {
        if self.grants() {
            BudgetView {
                tokens: self.tokens - self.cfg.retry_cost_milli,
                granted: self.granted + 1,
                ..self
            }
        } else {
            BudgetView { denied: self.denied + 1, ..self }
        }
    }

    pub open spec fn after(self, events: Seq<BudgetEvent>) -> BudgetView
        decreases events.len(),
    {
        if events.len() == 0 {
            self
        } else {
            let before = self.after(events.drop_last());
            match events.last() {
                BudgetEvent::Request => before.after_request(),
                BudgetEvent::Retry => before.after_retry(),
            }
        }
    }

    /// The tokens and counters have room for `n` more retries, of which at most
    /// the last is refused.
    pub open spec fn can_spend(self, n: nat) -> bool {
        &&& self.tokens <= i64::MAX
        &&& self.tokens - n * self.cfg.retry_cost_milli <= i64::MAX
        &&& self.granted + n <= u64::MAX
        &&& self.denied < u64::MAX
    }

    /// The tokens and counters have room for one request with up to `n` retries.
    pub open spec fn has_room(self, n: nat) -> bool {
        &&& i64::MIN <= self.tokens + self.cfg.deposit_milli <= i64::MAX
        &&& self.after_request().can_spend(n)
    }
}

/// How many of the events are new requests.
pub open spec fn requests_in(events: Seq<BudgetEvent>) -> nat
    decreases events.len(),
{
    if events.len() == 0 {
        0
    } else {
        requests_in(events.drop_last()) + (if events.last() is Request {
            1nat
        } else {
            0nat
        })
    }
}

/// How many of the events ask for a retry.
pub open spec fn retries_in(events: Seq<BudgetEvent>) -> nat
    decreases events.len(),
{
    if events.len() == 0 {
        0
    } else {
        retries_in(events.drop_last()) + (if events.last() is Retry {
            1nat
        } else {
            0nat
        })
    }
}

#[derive(Debug)]
pub struct RetryBudget {
    cfg: RetryConfig,
    tokens_milli: i64,
    granted: u64,
    denied: u64,
}

impl Clone for RetryBudget {
    fn clone(&self) -> (copy: Self)
        ensures
            copy@ == self@,
    {
        RetryBudget {
            cfg: self.cfg,
            tokens_milli: self.tokens_milli,
            granted: self.granted,
            denied: self.denied,
        }
    }
}

impl View for RetryBudget {
    type V = BudgetView;

    closed spec fn view(&self) -> BudgetView {
        BudgetView {
            cfg: self.cfg,
            tokens: self.tokens_milli as int,
            granted: self.granted as nat,
            denied: self.denied as nat,
        }
    }
}

impl RetryBudget {
    /// The bucket starts full so an isolated failing request can still fail
    /// over. It then throttles the sustained retry rate toward the deposit
    /// ratio, allowing a burst but not unbounded amplification.
    pub fn new(cfg: RetryConfig) -> (budget: Self)
        ensures
            budget@ == BudgetView::full(cfg),
    {
        Self { cfg, tokens_milli: cfg.max_milli, granted: 0, denied: 0 }
    }

    pub fn max_retries_per_request(&self) -> (retries: u32)
        ensures
            retries == self@.cfg.max_retries_per_request,
    {
        self.cfg.max_retries_per_request
    }

    /// Record that a new top level request arrived, depositing tokens.
    pub fn on_request(&mut self)
        requires
            i64::MIN <= old(self)@.tokens + old(self)@.cfg.deposit_milli <= i64::MAX,
        ensures
            final(self)@ == old(self)@.after_request(),
    {
        let tokens: i64 = self.tokens_milli + self.cfg.deposit_milli;
        self.tokens_milli = if tokens <= self.cfg.max_milli {
            tokens
        } else {
            self.cfg.max_milli
        };
    }

    /// Try to spend a token for one retry. Returns true when the retry is allowed.
    pub fn try_retry(&mut self) -> (allowed: bool)
        requires
            old(self)@.grants() ==> old(self)@.tokens - old(self)@.cfg.retry_cost_milli
                <= i64::MAX && old(self)@.granted < u64::MAX,
            !old(self)@.grants() ==> old(self)@.denied < u64::MAX,
        ensures
            allowed == old(self)@.grants(),
            final(self)@ == old(self)@.after_retry(),
    {
        if self.tokens_milli >= self.cfg.retry_cost_milli {
            self.tokens_milli = self.tokens_milli - self.cfg.retry_cost_milli;
            self.granted = self.granted + 1;
            true
        } else {
            self.denied = self.denied + 1;
            false
        }
    }

    pub fn granted(&self) -> (granted: u64)
        ensures
            granted == self@.granted,
    {
        self.granted
    }

    pub fn denied(&self) -> (denied: u64)
        ensures
            denied == self@.denied,
    {
        self.denied
    }

    /// The tokens left in the bucket, in milli tokens.
    pub fn tokens_milli(&self) -> (tokens: i64)
        ensures
            tokens == self@.tokens,
    {
        self.tokens_milli
    }
}

/// A budget whose tokens never go below zero and never above the cap: deposits
/// and costs are not negative.
pub open spec fn sensible(cfg: RetryConfig) -> bool {
    cfg.deposit_milli >= 0 && cfg.retry_cost_milli > 0 && cfg.max_milli >= 0
}

/// Whatever happens to a fresh budget, what it has paid out is covered by the
/// full bucket it started with and by the deposits since.
pub proof fn law_spending_is_covered(cfg: RetryConfig, events: Seq<BudgetEvent>)
    ensures
        ({
            let b = BudgetView::full(cfg).after(events);
            &&& b.cfg == cfg
            &&& b.tokens + b.granted * cfg.retry_cost_milli <= cfg.max_milli + requests_in(events)
                * cfg.deposit_milli
        }),
    decreases events.len(),
{
    let b = BudgetView::full(cfg).after(events);
    if events.len() > 0 {
        law_spending_is_covered(cfg, events.drop_last());
        let prev = BudgetView::full(cfg).after(events.drop_last());
        let n = requests_in(events.drop_last());
        let cost = cfg.retry_cost_milli as int;
        let deposit = cfg.deposit_milli as int;
        assert((prev.granted + 1) * cost == prev.granted * cost + cost) by (nonlinear_arith);
        assert((n + 1) * deposit == n * deposit + deposit) by (nonlinear_arith);
    } else {
        assert(b.granted * cfg.retry_cost_milli == 0) by (nonlinear_arith)
            requires
                b.granted == 0,
        ;
        assert(requests_in(events) * cfg.deposit_milli == 0) by (nonlinear_arith)
            requires
                requests_in(events) == 0,
        ;
    }
}

/// Whatever happens to a fresh budget, every retry it was asked for was either
/// granted or denied, and requests are neither.
pub proof fn law_every_retry_is_answered(cfg: RetryConfig, events: Seq<BudgetEvent>)
    ensures
        ({
            let b = BudgetView::full(cfg).after(events);
            &&& b.granted + b.denied == retries_in(events)
            &&& requests_in(events) + retries_in(events) == events.len()
        }),
    decreases events.len(),
{
    if events.len() > 0 {
        law_every_retry_is_answered(cfg, events.drop_last());
    }
}

/// Granted retries never exceed the token arithmetic bound
/// `(max_milli + requests * deposit) / cost`, and the bucket stays between empty
/// and full.
pub proof fn law_granted_retries_are_bounded(cfg: RetryConfig, events: Seq<BudgetEvent>)
    requires
        sensible(cfg),
    ensures
        ({
            let b = BudgetView::full(cfg).after(events);
            &&& 0 <= b.tokens <= cfg.max_milli
            &&& b.granted <= (cfg.max_milli + requests_in(events) * cfg.deposit_milli)
                / cfg.retry_cost_milli as int
        }),
{
    law_spending_is_covered(cfg, events);
    lemma_tokens_stay_in_bucket(cfg, events);
    let b = BudgetView::full(cfg).after(events);
    lemma_bound_from_cover(
        b.granted as int,
        cfg.retry_cost_milli as int,
        cfg.max_milli + requests_in(events) * cfg.deposit_milli,
    );
}

/// What has been bought `n` times at a positive cost out of `means` was bought
/// at most `means / cost` times.
pub proof fn lemma_bound_from_cover(n: int, cost: int, means: int)
    requires
        cost > 0,
        n * cost <= means,
    ensures
        n <= means / cost,
{
    vstd::arithmetic::div_mod::lemma_div_is_ordered(n * cost, means, cost);
    vstd::arithmetic::div_mod::lemma_div_multiples_vanish(n, cost);
    assert(n * cost == cost * n) by (nonlinear_arith);
}

proof fn lemma_tokens_stay_in_bucket(cfg: RetryConfig, events: Seq<BudgetEvent>)
    requires
        sensible(cfg),
    ensures
        0 <= BudgetView::full(cfg).after(events).tokens <= cfg.max_milli,
        BudgetView::full(cfg).after(events).cfg == cfg,
    decreases events.len(),
{
    if events.len() > 0 {
        lemma_tokens_stay_in_bucket(cfg, events.drop_last());
    }
}

/// An empty bucket refuses every retry until requests have deposited the cost
/// of one.
pub proof fn law_no_retry_once_drained(b: BudgetView)
    requires
        !b.grants(),
    ensures
        b.after_retry().tokens == b.tokens,
        !b.after_retry().grants(),
        b.after_retry().granted == b.granted,
        b.after_retry().denied == b.denied + 1,
{
}

/// A request puts its deposit into the bucket, of which nothing is kept above the cap,
/// and a retry takes its cost out, or is denied exactly when the bucket holds less. A new
/// bucket is full. Nothing else changes.
pub proof fn law_bucket_moves_by_deposit_and_cost(b: BudgetView, cfg: RetryConfig)
    ensures
        ({
            let full = BudgetView::full(cfg);
            &&& full.cfg == cfg && full.tokens == cfg.max_milli
            &&& full.granted == 0 && full.denied == 0
        }),
        ({
            let a = b.after_request();
            &&& a.cfg == b.cfg && a.granted == b.granted && a.denied == b.denied
            &&& a.tokens <= b.cfg.max_milli
            &&& a.tokens <= b.tokens + b.cfg.deposit_milli
            &&& a.tokens == b.cfg.max_milli || a.tokens == b.tokens + b.cfg.deposit_milli
        }),
        ({
            let a = b.after_retry();
            &&& a.cfg == b.cfg
            &&& b.grants() <==> b.tokens - b.cfg.retry_cost_milli >= 0
            &&& b.grants() ==> a.tokens == b.tokens - b.cfg.retry_cost_milli && a.granted
                == b.granted + 1 && a.denied == b.denied
            &&& !b.grants() ==> a.tokens == b.tokens && a.granted == b.granted && a.denied
                == b.denied + 1
        }),
{
}

/// Requests alone fill the bucket by their deposits up to the cap.
pub proof fn law_deposits_add_up(b: BudgetView, events: Seq<BudgetEvent>)
    requires
        forall|k: int| 0 <= k < events.len() ==> #[trigger] events[k] is Request,
        b.cfg.deposit_milli >= 0,
        b.tokens <= b.cfg.max_milli,
    ensures
        ({
            let a = b.after(events);
            let sum = b.tokens + events.len() * b.cfg.deposit_milli;
            &&& a.cfg == b.cfg && a.granted == b.granted && a.denied == b.denied
            &&& a.tokens == (if sum <= b.cfg.max_milli {
                sum
            } else {
                b.cfg.max_milli as int
            })
        }),
    decreases events.len(),
{
    let deposit = b.cfg.deposit_milli as int;
    if events.len() > 0 {
        let front = events.drop_last();
        assert forall|k: int| 0 <= k < front.len() implies #[trigger] front[k] is Request by {
            assert(front[k] == events[k]);
        }
        law_deposits_add_up(b, front);
        let n = front.len() as int;
        assert((n + 1) * deposit == n * deposit + deposit) by (nonlinear_arith);
        assert(events[events.len() - 1] is Request);
    } else {
        assert(0 * deposit == 0) by (nonlinear_arith);
    }
}

/// Retries alone are granted until the bucket holds less than the cost of one, and
/// denied from then on: what was granted is as much as the tokens could buy.
pub proof fn law_tokens_buy_retries(b: BudgetView, events: Seq<BudgetEvent>)
    requires
        forall|k: int| 0 <= k < events.len() ==> #[trigger] events[k] is Retry,
        b.cfg.retry_cost_milli > 0,
    ensures
        ({
            let a = b.after(events);
            let bought = a.granted - b.granted;
            &&& a.cfg == b.cfg
            &&& 0 <= bought <= events.len()
            &&& a.denied == b.denied + events.len() - bought
            &&& a.tokens == b.tokens - bought * b.cfg.retry_cost_milli
            &&& bought > 0 ==> a.tokens >= 0
            &&& bought < events.len() ==> a.tokens < b.cfg.retry_cost_milli
        }),
    decreases events.len(),
{
    let cost = b.cfg.retry_cost_milli as int;
    if events.len() > 0 {
        let front = events.drop_last();
        assert forall|k: int| 0 <= k < front.len() implies #[trigger] front[k] is Retry by {
            assert(front[k] == events[k]);
        }
        law_tokens_buy_retries(b, front);
        let n = b.after(front).granted - b.granted;
        assert((n + 1) * cost == n * cost + cost) by (nonlinear_arith);
        assert(events[events.len() - 1] is Retry);
    } else {
        assert(0 * cost == 0) by (nonlinear_arith);
    }
}

} // verus!
