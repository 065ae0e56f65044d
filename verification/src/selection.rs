//! What holds of every selection, whatever happened to the pool before it, and
//! of runs of selections.

use vstd::prelude::*;

use crate::backend::BackendView;
use crate::breaker::BreakerState;
use crate::hashring::law_every_key_has_an_owner;
use crate::hashring::law_join_moves_keys_only_to_newcomer;
use crate::hashring::law_removal_moves_only_its_own_keys;
use crate::hashring::owner_of;
use crate::hashring::ring_of;
use crate::pool::lemma_candidates;
use crate::pool::lemma_idlest;
use crate::pool::lemma_leader;
use crate::pool::lemma_scores;
use crate::pool::PoolView;
use crate::pool::Strategy;
use crate::pool::VNODES;
use crate::wrr::after_pick;
use crate::wrr::times_picked;
use crate::wrr::total;

verus! {

impl<U> PoolView<U> {
    /// The pool after `n` selections in a row with the same arguments.
    pub open spec fn after_picks(
        self,
        now: u64,
        key: Option<Seq<char>>,
        exclude: Seq<usize>,
        n: nat,
    ) -> PoolView<U>
        decreases n,
    {
        if n == 0 {
            self
        } else {
            self.after_picks(now, key, exclude, (n - 1) as nat).after_pick(now, key, exclude)
        }
    }

    /// What selection number `k` of such a row chooses, counted from zero.
    pub open spec fn nth_pick(
        self,
        now: u64,
        key: Option<Seq<char>>,
        exclude: Seq<usize>,
        k: nat,
    ) -> Option<usize> {
        self.after_picks(now, key, exclude, k).pick(now, key, exclude)
    }

    /// The first `n` choices of such a row.
    pub open spec fn picks(
        self,
        now: u64,
        key: Option<Seq<char>>,
        exclude: Seq<usize>,
        n: nat,
    ) -> Seq<int> {
        Seq::new(n, |k: int| self.nth_pick(now, key, exclude, k as nat)->0 as int)
    }

    /// The two pools differ in nothing but the turn and the running weights.
    pub open spec fn same_but_for_turns(self, other: PoolView<U>) -> bool {
        &&& other == (PoolView {
            backends: other.backends,
            rr_cursor: other.rr_cursor,
            ..self
        })
        &&& other.backends.len() == self.backends.len()
        &&& forall|i: int|
            0 <= i < self.backends.len() ==> #[trigger] other.backends[i] == (BackendView {
                current_weight: other.backends[i].current_weight,
                ..self.backends[i]
            })
    }
}

proof fn lemma_same_candidates<U>(
    p: PoolView<U>,
    q: PoolView<U>,
    now: u64,
    exclude: Seq<usize>,
    n: int,
)
    requires
        0 <= n <= p.backends.len(),
        p.backends.len() == q.backends.len(),
        forall|i: int|
            0 <= i < p.backends.len() ==> p.backends[i].is_available(now) == (
            #[trigger] q.backends[i]).is_available(now),
    ensures
        p.candidates_among(now, exclude, n) == q.candidates_among(now, exclude, n),
    decreases n,
{
    if n > 0 {
        lemma_same_candidates(p, q, now, exclude, n - 1);
        assert(p.backends[n - 1].is_available(now) == q.backends[n - 1].is_available(now));
    }
}

/// Pools that differ only in turns offer the same candidates with the same
/// effective weights and names.
proof fn lemma_turns_do_not_matter<U>(
    p: PoolView<U>,
    q: PoolView<U>,
    now: u64,
    exclude: Seq<usize>,
)
    requires
        p.same_but_for_turns(q),
    ensures
        q.candidates(now, exclude) == p.candidates(now, exclude),
        forall|c: Seq<usize>| #[trigger] q.scores(c) == p.scores(c),
{
    assert forall|i: int| 0 <= i < p.backends.len() implies p.backends[i].is_available(now) == (
    #[trigger] q.backends[i]).is_available(now) by {}
    lemma_same_candidates(p, q, now, exclude, p.backends.len() as int);
    assert forall|c: Seq<usize>| #[trigger] q.scores(c) == p.scores(c) by {
        assert forall|i: int| 0 <= i < p.backends.len() implies q.scores(c)[i]
            == p.scores(c)[i] by {
            assert(q.backends[i].weight == p.backends[i].weight);
        }
        assert(q.scores(c) =~= p.scores(c));
    }
}

/// A selection moves the turn or the running weights and nothing else.
pub proof fn law_selection_only_takes_turns<U>(
    p: PoolView<U>,
    now: u64,
    key: Option<Seq<char>>,
    exclude: Seq<usize>,
)
    ensures
        p.same_but_for_turns(p.after_pick(now, key, exclude)),
{
    let q = p.after_pick(now, key, exclude);
    assert forall|i: int| 0 <= i < p.backends.len() implies #[trigger] q.backends[i] == (
    BackendView { current_weight: q.backends[i].current_weight, ..p.backends[i] }) by {}
}

proof fn lemma_run_only_takes_turns<U>(
    p: PoolView<U>,
    now: u64,
    key: Option<Seq<char>>,
    exclude: Seq<usize>,
    n: nat,
)
    ensures
        p.same_but_for_turns(p.after_picks(now, key, exclude, n)),
    decreases n,
{
    if n > 0 {
        lemma_run_only_takes_turns(p, now, key, exclude, (n - 1) as nat);
        let mid = p.after_picks(now, key, exclude, (n - 1) as nat);
        law_selection_only_takes_turns(mid, now, key, exclude);
        let q = p.after_picks(now, key, exclude, n);
        assert forall|i: int| 0 <= i < p.backends.len() implies #[trigger] q.backends[i] == (
        BackendView { current_weight: q.backends[i].current_weight, ..p.backends[i] }) by {
            assert(mid.backends[i] == (BackendView {
                current_weight: mid.backends[i].current_weight,
                ..p.backends[i]
            }));
        }
    }
}

/// `b` stands first and highest among the first `n` backends that take part.
spec fn leads_among<U>(p: PoolView<U>, candidates: Seq<usize>, b: int, n: int) -> bool {
    let w = p.current_weights();
    let scores = p.scores(candidates);
    &&& 0 <= b < n
    &&& scores[b] > 0
    &&& forall|i: int|
        0 <= i < n && #[trigger] scores[i] > 0 ==> {
            &&& w[i] + scores[i] <= w[b] + scores[b]
            &&& i < b ==> w[i] + scores[i] < w[b] + scores[b]
        }
}

proof fn lemma_some_leader<U>(p: PoolView<U>, candidates: Seq<usize>, n: int, i: int) -> (b: int)
    requires
        0 <= i < n <= p.backends.len(),
        p.scores(candidates)[i] > 0,
    ensures
        leads_among(p, candidates, b, n),
    decreases n,
{
    let w = p.current_weights();
    let scores = p.scores(candidates);
    let last = n - 1;
    if exists|j: int| 0 <= j < last && #[trigger] scores[j] > 0 {
        let j = choose|j: int| 0 <= j < last && #[trigger] scores[j] > 0;
        let b = lemma_some_leader(p, candidates, last, j);
        if scores[last] > 0 && w[last] + scores[last] > w[b] + scores[b] {
            last
        } else {
            b
        }
    } else {
        last
    }
}

/// Some backend leads as soon as one candidate has a weight.
proof fn lemma_leader_exists<U>(p: PoolView<U>, candidates: Seq<usize>, i: int)
    requires
        p.wf(),
        0 <= i < p.backends.len(),
        p.scores(candidates)[i] > 0,
    ensures
        p.leader(candidates) is Some,
        p.leads(candidates, p.leader(candidates)->0 as int),
{
    let b = lemma_some_leader(p, candidates, p.backends.len() as int, i);
    assert(p.leads(candidates, b));
    lemma_leader(p, candidates, b);
}

proof fn lemma_some_idlest<U>(p: PoolView<U>, candidates: Seq<usize>, n: int) -> (b: usize)
    requires
        0 < n <= candidates.len(),
    ensures
        candidates.take(n).contains(b),
        p.is_idlest(candidates.take(n), b),
    decreases n,
{
    let front = candidates.take(n);
    let x = candidates[n - 1];
    assert(front[n - 1] == x);
    if n == 1 {
        x
    } else {
        let less = candidates.take(n - 1);
        let b = lemma_some_idlest(p, candidates, n - 1);
        assert(front =~= less.push(x));
        let k = choose|k: int| 0 <= k < less.len() && less[k] == b;
        assert(front[k] == b);
        let xs = p.backends[x as int].in_flight;
        let bs = p.backends[b as int].in_flight;
        let best = if xs < bs || (xs == bs && x < b) {
            x
        } else {
            b
        };
        assert forall|j: usize| #[trigger] front.contains(j) implies {
            &&& p.backends[best as int].in_flight <= p.backends[j as int].in_flight
            &&& j < best ==> p.backends[best as int].in_flight < p.backends[j as int].in_flight
        } by {
            if j != x {
                let m = choose|m: int| 0 <= m < front.len() && front[m] == j;
                assert(less[m] == j);
                assert(less.contains(j));
            }
        }
        best
    }
}

pub proof fn lemma_idlest_exists<U>(p: PoolView<U>, candidates: Seq<usize>)
    requires
        candidates.len() > 0,
    ensures
        p.is_idlest(candidates, p.idlest(candidates)),
{
    let b = lemma_some_idlest(p, candidates, candidates.len() as int);
    assert(candidates.take(candidates.len() as int) =~= candidates);
    lemma_idlest(p, candidates, b);
}

/// The one rule behind everything else: a selection never returns a backend that
/// is unhealthy, ejected, refused by its breaker, or excluded. Once the pool was
/// polled, that includes every open circuit.
pub proof fn law_selection_is_available<U>(
    p: PoolView<U>,
    now: u64,
    key: Option<Seq<char>>,
    exclude: Seq<usize>,
)
    requires
        p.wf(),
        p.pick(now, key, exclude) is Some,
    ensures
        ({
            let i = p.pick(now, key, exclude)->0;
            let b = p.backends[i as int];
            &&& i < p.backends.len()
            &&& !exclude.contains(i)
            &&& b.healthy
            &&& !b.is_ejected(now)
            &&& b.breaker.admits(now, b.in_flight)
            &&& b.is_available(now)
            &&& b.breaker.polled(now) == b.breaker ==> b.breaker.state() != BreakerState::Open
            &&& p.candidates(now, exclude).contains(i)
        }),
{
    let c = p.candidates(now, exclude);
    lemma_candidates(p, now, exclude, p.backends.len() as int);
    let i = p.pick(now, key, exclude)->0;
    assert(c.contains(i)) by {
        match (p.strategy, key) {
            (Strategy::Weighted, _) => {
                let b = choose|b: int| p.leads(c, b);
                assert(p.leads(c, b));
                lemma_scores(p, c);
                assert(p.scores(c)[b] > 0);
            },
            (Strategy::LeastConnections, _) => {
                lemma_idlest_exists(p, c);
            },
            (Strategy::ConsistentHash, Some(key)) => {
                law_every_key_has_an_owner(p.members(c), VNODES, key);
                let k = choose|k: int|
                    0 <= k < c.len() && Some(i) == Some((#[trigger] p.members(c)[k]).0);
                assert(c[k] == i);
            },
            _ => {
                let k = p.rr_cursor as int % c.len() as int;
                assert(0 <= k < c.len());
                assert(c[k] == i);
            },
        }
    }
    let k = choose|k: int| 0 <= k < c.len() && c[k] == i;
    assert(p.is_candidate(now, exclude, c[k] as int));
}

/// After polling, a selection finds a backend that is not excluded, healthy, not
/// ejected and on a circuit that is closed or half open with a trial slot free, and
/// that has a weight if the strategy is weighted. It finds none exactly when there
/// is no such backend.
pub proof fn law_polled_selection_is_sound_and_complete<U>(
    p: PoolView<U>,
    now: u64,
    key: Option<Seq<char>>,
    exclude: Seq<usize>,
)
    requires
        p.wf(),
    ensures
        ({
            let q = p.polled(now);
            match q.pick(now, key, exclude) {
                Some(i) => {
                    let b = q.backends[i as int];
                    &&& i < q.backends.len()
                    &&& !exclude.contains(i)
                    &&& b.is_available(now)
                    &&& b.healthy
                    &&& !b.is_ejected(now)
                    &&& b.breaker.admits(now, b.in_flight)
                    &&& b.breaker.state() != BreakerState::Open
                    &&& q.strategy is Weighted ==> b.weight > 0
                },
                None => forall|i: int|
                    0 <= i < q.backends.len() && #[trigger] q.is_candidate(now, exclude, i)
                        ==> q.strategy is Weighted && q.backends[i].weight == 0,
            }
        }),
{
    let q = p.polled(now);
    law_polling_keeps_pool_well_formed(p, now);
    law_selection_fails_only_without_capacity(q, now, key, exclude);
    if q.pick(now, key, exclude) is Some {
        let i = q.pick(now, key, exclude)->0;
        law_selection_is_available(q, now, key, exclude);
        assert(q.backends[i as int].breaker == p.backends[i as int].breaker.polled(now));
        if q.strategy is Weighted {
            let c = q.candidates(now, exclude);
            let b = choose|b: int| q.leads(c, b);
            assert(q.leads(c, b));
            lemma_scores(q, c);
            assert(q.scores(c)[b] > 0);
        }
    }
}

/// A selection fails exactly when nothing is available, or when the strategy is
/// weighted and everything available has weight zero.
pub proof fn law_selection_fails_only_without_capacity<U>(
    p: PoolView<U>,
    now: u64,
    key: Option<Seq<char>>,
    exclude: Seq<usize>,
)
    requires
        p.wf(),
    ensures
        p.pick(now, key, exclude) is None <==> forall|i: int|
            0 <= i < p.backends.len() && #[trigger] p.is_candidate(now, exclude, i) ==> p.strategy
                is Weighted && p.backends[i].weight == 0,
{
    let c = p.candidates(now, exclude);
    lemma_candidates(p, now, exclude, p.backends.len() as int);
    lemma_scores(p, c);
    if p.pick(now, key, exclude) is None {
        assert forall|i: int| 0 <= i < p.backends.len() && #[trigger] p.is_candidate(
            now,
            exclude,
            i,
        ) implies p.strategy is Weighted && p.backends[i].weight == 0 by {
            assert(c.contains(i as usize));
            match (p.strategy, key) {
                (Strategy::Weighted, _) => {
                    if p.backends[i].weight > 0 {
                        assert(p.scores(c)[i] > 0);
                        lemma_leader_exists(p, c, i);
                    }
                },
                (Strategy::ConsistentHash, Some(key)) => {
                    law_every_key_has_an_owner(p.members(c), VNODES, key);
                },
                _ => {},
            }
        }
    } else {
        law_selection_is_available(p, now, key, exclude);
        let i = p.pick(now, key, exclude)->0 as int;
        assert(p.is_candidate(now, exclude, i));
        if p.strategy is Weighted {
            let b = choose|b: int| p.leads(c, b);
            assert(p.leads(c, b));
            assert(p.scores(c)[b] > 0);
        }
    }
}

/// A weight of zero gets no traffic under the weighted strategy and gathers no
/// running weight.
pub proof fn law_zero_weight_gets_no_traffic<U>(
    p: PoolView<U>,
    now: u64,
    key: Option<Seq<char>>,
    exclude: Seq<usize>,
    i: int,
)
    requires
        p.wf(),
        p.strategy is Weighted,
        0 <= i < p.backends.len(),
        p.backends[i].weight == 0,
    ensures
        p.pick(now, key, exclude) != Some(i as usize),
        p.after_pick(now, key, exclude).backends[i] == p.backends[i],
{
    let c = p.candidates(now, exclude);
    lemma_scores(p, c);
    assert(p.scores(c)[i] == 0);
    if p.leader(c) is Some {
        let b = choose|b: int| p.leads(c, b);
        assert(p.leads(c, b));
        assert(p.scores(c)[b] > 0);
    }
}

/// Least connections takes the candidate with the fewest requests in flight,
/// the first of them when there are several.
pub proof fn law_least_connections_prefers_idle<U>(
    p: PoolView<U>,
    now: u64,
    key: Option<Seq<char>>,
    exclude: Seq<usize>,
    j: int,
)
    requires
        p.wf(),
        p.strategy is LeastConnections,
        0 <= j < p.backends.len(),
        p.is_candidate(now, exclude, j),
    ensures
        ({
            let b = p.pick(now, key, exclude)->0;
            &&& p.pick(now, key, exclude) is Some
            &&& p.backends[b as int].in_flight <= p.backends[j].in_flight
            &&& j < b ==> p.backends[b as int].in_flight < p.backends[j].in_flight
        }),
{
    let c = p.candidates(now, exclude);
    lemma_candidates(p, now, exclude, p.backends.len() as int);
    assert(c.contains(j as usize));
    lemma_idlest_exists(p, c);
}

/// However the candidates change between selections, no running weight ever gets
/// as far from zero as the highest effective weight times the number of backends.
pub proof fn law_running_weights_stay_bounded<U>(p: PoolView<U>, i: int)
    requires
        p.wf(),
        0 <= i < p.backends.len(),
    ensures
        -(p.backends.len() * p.top_score()) <= p.backends[i].current_weight - p.top_score(),
        p.backends[i].current_weight + p.top_score() <= p.backends.len() * p.top_score(),
        total(p.current_weights()) == 0,
{
    lemma_scores(p, Seq::empty());
    crate::wrr::lemma_balance_bounds(p.current_weights(), p.top_score(), i);
}

/// A selection keeps the pool well formed, however the turns fall.
pub proof fn law_selection_keeps_pool_well_formed<U>(
    p: PoolView<U>,
    now: u64,
    key: Option<Seq<char>>,
    exclude: Seq<usize>,
)
    requires
        p.wf(),
    ensures
        p.after_pick(now, key, exclude).wf(),
{
    let q = p.after_pick(now, key, exclude);
    let c = p.candidates(now, exclude);
    law_selection_only_takes_turns(p, now, key, exclude);
    assert forall|i: int| 0 <= i < q.backends.len() implies 1 <= (
    #[trigger] q.backends[i]).ramp_percent <= 100 by {
        assert(q.backends[i].ramp_percent == p.backends[i].ramp_percent);
    }
    lemma_same_top(p, q);
    if p.strategy is Weighted && c.len() > 0 && p.leader(c) is Some {
        let b = choose|b: int| p.leads(c, b);
        assert(p.leads(c, b));
        lemma_scores(p, c);
        lemma_leader(p, c, b);
        crate::wrr::lemma_pick_keeps_balance(p.current_weights(), p.scores(c), b, p.top_score());
        assert(q.current_weights() =~= after_pick(p.current_weights(), p.scores(c), b));
    } else {
        assert(q.current_weights() =~= p.current_weights());
    }
}

/// Polling keeps the pool well formed: weights stay as they are, and every node
/// stays at some percent.
pub proof fn law_polling_keeps_pool_well_formed<U>(p: PoolView<U>, now: u64)
    requires
        p.wf(),
    ensures
        p.polled(now).wf(),
{
    let q = p.polled(now);
    assert forall|i: int| 0 <= i < q.backends.len() implies 1 <= (
    #[trigger] q.backends[i]).ramp_percent <= 100 && q.backends[i].weight == p.backends[i].weight
        && q.backends[i].current_weight == p.backends[i].current_weight by {
        assert(1 <= p.backends[i].ramp_percent <= 100);
        assert(q.backends[i] == p.backends[i].polled(now, p.ewma, p.line()));
    }
    lemma_same_top(p, q);
    assert(q.current_weights() =~= p.current_weights());
}

/// What happens to one backend keeps the pool well formed, as long as its
/// weights stay as they are and it stays at some percent.
pub proof fn lemma_backend_keeps_pool_well_formed<U>(p: PoolView<U>, idx: int, b: BackendView<U>)
    requires
        p.wf(),
        0 <= idx < p.backends.len(),
        b.weight == p.backends[idx].weight,
        b.current_weight == p.backends[idx].current_weight,
        1 <= b.ramp_percent <= 100,
    ensures
        p.with_backend(idx, b).wf(),
{
    let q = p.with_backend(idx, b);
    lemma_same_top(p, q);
    assert(q.current_weights() =~= p.current_weights());
}

/// Selections in a row under a strategy that takes turns.
pub open spec fn takes_turns<U>(p: PoolView<U>, key: Option<Seq<char>>) -> bool {
    p.strategy is RoundRobin || (p.strategy is ConsistentHash && key is None)
}

/// Round robin goes through the candidates in the order of their indices and
/// starts over behind the last: selection number `k` takes the candidate `k` places
/// on from the cursor, which counts selections.
pub proof fn law_round_robin_takes_turns_in_order<U>(
    p: PoolView<U>,
    now: u64,
    key: Option<Seq<char>>,
    exclude: Seq<usize>,
    k: nat,
)
    requires
        takes_turns(p, key),
        p.candidates(now, exclude).len() > 0,
        p.rr_cursor + k <= usize::MAX,
    ensures
        p.after_picks(now, key, exclude, k).rr_cursor == p.rr_cursor + k,
        p.nth_pick(now, key, exclude, k) == Some(
            p.candidates(now, exclude)[(p.rr_cursor + k) % p.candidates(now, exclude).len() as int],
        ),
    decreases k,
{
    lemma_run_only_takes_turns(p, now, key, exclude, k);
    lemma_turns_do_not_matter(p, p.after_picks(now, key, exclude, k), now, exclude);
    if k > 0 {
        let before = (k - 1) as nat;
        law_round_robin_takes_turns_in_order(p, now, key, exclude, before);
        lemma_run_only_takes_turns(p, now, key, exclude, before);
        lemma_turns_do_not_matter(p, p.after_picks(now, key, exclude, before), now, exclude);
    }
}

proof fn lemma_distinct_turns(c: int, j: int, k: int, m: int)
    requires
        m > 0,
        0 <= j < k < j + m,
    ensures
        (c + j) % m != (c + k) % m,
{
    if (c + j) % m == (c + k) % m {
        vstd::arithmetic::div_mod::lemma_fundamental_div_mod(c + j, m);
        vstd::arithmetic::div_mod::lemma_fundamental_div_mod(c + k, m);
        let a = (c + j) / m;
        let b = (c + k) / m;
        assert(k - j == m * b - m * a);
        assert(m * b - m * a == m * (b - a)) by (nonlinear_arith);
        assert(m * (b - a) <= 0 || m * (b - a) >= m) by (nonlinear_arith)
            requires
                m > 0,
        ;
    }
}

proof fn lemma_every_turn_comes(c: int, t: int, m: int) -> (k: int)
    requires
        0 <= t < m,
    ensures
        0 <= k < m,
        (c + k) % m == t,
{
    let r = c % m;
    let q = c / m;
    vstd::arithmetic::div_mod::lemma_fundamental_div_mod(c, m);
    if t >= r {
        vstd::arithmetic::div_mod::lemma_fundamental_div_mod_converse(c + (t - r), m, q, t);
        t - r
    } else {
        assert(m * (q + 1) == m * q + m) by (nonlinear_arith);
        vstd::arithmetic::div_mod::lemma_fundamental_div_mod_converse(c + (t - r + m), m, q + 1, t);
        t - r + m
    }
}

/// Round robin visits every available backend exactly once per cycle: any window
/// as long as there are candidates holds each of them once. The cursor counts
/// up to the top of its range without breaking the cycle.
pub proof fn law_round_robin_visits_all<U>(
    p: PoolView<U>,
    now: u64,
    key: Option<Seq<char>>,
    exclude: Seq<usize>,
    start: nat,
)
    requires
        p.wf(),
        takes_turns(p, key),
        p.candidates(now, exclude).len() > 0,
        p.rr_cursor + start + p.candidates(now, exclude).len() <= usize::MAX + 1,
    ensures
        forall|x: usize| #[trigger]
            p.candidates(now, exclude).contains(x) ==> exists|k: nat|
                start <= k < start + p.candidates(now, exclude).len() && #[trigger] p.nth_pick(
                    now,
                    key,
                    exclude,
                    k,
                ) == Some(x),
        forall|j: nat, k: nat|
            start <= j < k < start + p.candidates(now, exclude).len() ==> #[trigger] p.nth_pick(
                now,
                key,
                exclude,
                j,
            ) != #[trigger] p.nth_pick(now, key, exclude, k),
{
    let c = p.candidates(now, exclude);
    let m = c.len() as int;
    let cursor = p.rr_cursor as int;
    lemma_candidates(p, now, exclude, p.backends.len() as int);
    assert forall|x: usize| #[trigger] c.contains(x) implies exists|k: nat|
        start <= k < start + m && #[trigger] p.nth_pick(now, key, exclude, k) == Some(x) by {
        let t = choose|t: int| 0 <= t < c.len() && c[t] == x;
        let k = lemma_every_turn_comes(cursor + start, t, m);
        let at = (start + k) as nat;
        assert(cursor + start + k == cursor + at);
        law_round_robin_takes_turns_in_order(p, now, key, exclude, at);
        assert(p.nth_pick(now, key, exclude, at) == Some(x));
    }
    assert forall|j: nat, k: nat| start <= j < k < start + m implies #[trigger] p.nth_pick(
        now,
        key,
        exclude,
        j,
    ) != #[trigger] p.nth_pick(now, key, exclude, k) by {
        law_round_robin_takes_turns_in_order(p, now, key, exclude, j);
        law_round_robin_takes_turns_in_order(p, now, key, exclude, k);
        lemma_distinct_turns(cursor, j as int, k as int, m);
        let a = (cursor + j) % m;
        let b = (cursor + k) % m;
        assert(0 <= a < m && 0 <= b < m);
        if a < b {
            assert(c[a] < c[b]);
        } else {
            assert(c[b] < c[a]);
        }
    }
}

proof fn lemma_weighted_run<U>(
    p: PoolView<U>,
    now: u64,
    key: Option<Seq<char>>,
    exclude: Seq<usize>,
    n: nat,
)
    requires
        p.wf(),
        p.strategy is Weighted,
        total(p.scores(p.candidates(now, exclude))) > 0,
    ensures
        p.after_picks(now, key, exclude, n).wf(),
        p.after_picks(now, key, exclude, n).current_weights() == crate::wrr::after_picks(
            p.current_weights(),
            p.scores(p.candidates(now, exclude)),
            p.picks(now, key, exclude, n),
        ),
        crate::wrr::is_run(
            p.current_weights(),
            p.scores(p.candidates(now, exclude)),
            p.picks(now, key, exclude, n),
        ),
        p.nth_pick(now, key, exclude, n) is Some,
        p.after_picks(now, key, exclude, n).rr_cursor == p.rr_cursor,
    decreases n,
{
    let c = p.candidates(now, exclude);
    let scores = p.scores(c);
    let q = p.after_picks(now, key, exclude, n);
    lemma_run_only_takes_turns(p, now, key, exclude, n);
    lemma_turns_do_not_matter(p, q, now, exclude);
    lemma_scores(p, c);
    let i = lemma_some_positive(scores);
    if n > 0 {
        let before = (n - 1) as nat;
        let r = p.after_picks(now, key, exclude, before);
        lemma_weighted_run(p, now, key, exclude, before);
        lemma_run_only_takes_turns(p, now, key, exclude, before);
        lemma_turns_do_not_matter(p, r, now, exclude);
        lemma_leader_exists(r, c, i);
        let b = r.leader(c)->0 as int;
        let picks = p.picks(now, key, exclude, n);
        assert(picks.drop_last() =~= p.picks(now, key, exclude, before));
        assert(c.len() > 0) by {
            if c.len() == 0 {
                assert(scores[i] == 0);
            }
        }
        assert(p.nth_pick(now, key, exclude, before) == r.leader(c));
        assert(picks.last() == b);
        assert(q.current_weights() =~= after_pick(r.current_weights(), scores, b));
        lemma_same_top(r, q);
        lemma_scores(r, c);
        crate::wrr::lemma_pick_keeps_balance(r.current_weights(), scores, b, r.top_score());
    }
    assert(c.len() > 0) by {
        if c.len() == 0 {
            assert(scores[i] == 0);
        }
    }
    lemma_leader_exists(q, c, i);
}

proof fn lemma_some_positive(scores: Seq<int>) -> (i: int)
    requires
        total(scores) > 0,
    ensures
        0 <= i < scores.len(),
        scores[i] > 0,
{
    if forall|i: int| 0 <= i < scores.len() ==> #[trigger] scores[i] <= 0 {
        let zeros = Seq::new(scores.len(), |i: int| 0int);
        crate::wrr::lemma_total_is_monotonic(scores, zeros);
        crate::wrr::lemma_zero_total(zeros);
    }
    choose|i: int| 0 <= i < scores.len() && #[trigger] scores[i] > 0
}

proof fn lemma_same_top<U>(p: PoolView<U>, q: PoolView<U>)
    requires
        p.backends.len() == q.backends.len(),
        forall|i: int|
            0 <= i < p.backends.len() ==> p.backends[i].weight == (#[trigger] q.backends[i]).weight,
    ensures
        p.top_score() == q.top_score(),
{
    crate::pool::lemma_heaviest_is_weight(q.backends, p.backends);
}

/// Some share is positive, so some effective weight is.
proof fn lemma_total_is_positive<U>(
    p: PoolView<U>,
    now: u64,
    exclude: Seq<usize>,
    shares: Seq<int>,
    g: int,
)
    requires
        p.wf(),
        shares.len() == p.backends.len(),
        g > 0,
        forall|i: int|
            0 <= i < shares.len() ==> 0 <= #[trigger] shares[i] && p.scores(
                p.candidates(now, exclude),
            )[i] == g * shares[i],
        total(shares) > 0,
    ensures
        total(p.scores(p.candidates(now, exclude))) > 0,
{
    let c = p.candidates(now, exclude);
    let scores = p.scores(c);
    lemma_scores(p, c);
    let i = lemma_some_positive(shares);
    assert(total(scores) > 0) by {
        assert(scores[i] > 0) by {
            let s = shares[i];
            assert(g * s > 0) by (nonlinear_arith)
                requires
                    g > 0,
                    s > 0,
            ;
        }
        let one = Seq::new(
            scores.len(),
            |j: int|
                if j == i {
                    scores[i]
                } else {
                    0
                },
        );
        let none = Seq::new(scores.len(), |j: int| 0int);
        crate::wrr::lemma_zero_total(none);
        crate::wrr::lemma_update_total(none, i, scores[i]);
        assert(none.update(i, scores[i]) =~= one);
        crate::wrr::lemma_total_is_monotonic(one, scores);
    }
}

proof fn lemma_first_period_is_exact<U>(
    p: PoolView<U>,
    now: u64,
    key: Option<Seq<char>>,
    exclude: Seq<usize>,
    shares: Seq<int>,
    g: int,
    n: nat,
)
    requires
        p.wf(),
        p.strategy is Weighted,
        shares.len() == p.backends.len(),
        g > 0,
        forall|i: int|
            0 <= i < shares.len() ==> 0 <= #[trigger] shares[i] && p.scores(
                p.candidates(now, exclude),
            )[i] == g * shares[i],
        forall|i: int|
            0 <= i < shares.len() && #[trigger] shares[i] > 0 ==> p.backends[i].current_weight == 0,
        n == total(shares),
        n > 0,
    ensures
        forall|i: int|
            0 <= i < shares.len() ==> times_picked(p.picks(now, key, exclude, n), i)
                == #[trigger] shares[i],
        forall|k: nat| k < n ==> #[trigger] p.nth_pick(now, key, exclude, k) is Some,
        p.after_picks(now, key, exclude, n) == p,
{
    let c = p.candidates(now, exclude);
    let scores = p.scores(c);
    let w = p.current_weights();
    lemma_scores(p, c);
    assert forall|i: int| 0 <= i < scores.len() && #[trigger] scores[i] > 0 implies w[i] == 0 by {
        let s = shares[i];
        assert(s > 0) by (nonlinear_arith)
            requires
                g * s > 0,
                g > 0,
                s >= 0,
        ;
    }
    lemma_total_is_positive(p, now, exclude, shares, g);
    lemma_weighted_run(p, now, key, exclude, n);
    let picks = p.picks(now, key, exclude, n);
    crate::wrr::law_period_is_exact(w, scores, shares, g, picks);
    let q = p.after_picks(now, key, exclude, n);
    lemma_run_only_takes_turns(p, now, key, exclude, n);
    assert forall|j: int| 0 <= j < p.backends.len() implies q.backends[j] == p.backends[j] by {
        assert(q.current_weights()[j] == w[j]);
        assert(q.backends[j] == (BackendView {
            current_weight: q.backends[j].current_weight,
            ..p.backends[j]
        }));
    }
    assert(q.backends =~= p.backends);
    assert forall|k: nat| k < n implies #[trigger] p.nth_pick(now, key, exclude, k) is Some by {
        lemma_weighted_run(p, now, key, exclude, k);
    }
}

/// Selections in a row can be cut anywhere.
proof fn lemma_picks_split<U>(
    p: PoolView<U>,
    now: u64,
    key: Option<Seq<char>>,
    exclude: Seq<usize>,
    m: nat,
    n: nat,
)
    ensures
        ({
            let q = p.after_picks(now, key, exclude, m);
            &&& p.after_picks(now, key, exclude, m + n) == q.after_picks(now, key, exclude, n)
            &&& p.picks(now, key, exclude, m + n) == p.picks(now, key, exclude, m) + q.picks(
                now,
                key,
                exclude,
                n,
            )
        }),
    decreases n,
{
    let q = p.after_picks(now, key, exclude, m);
    if n > 0 {
        let less = (n - 1) as nat;
        lemma_picks_split(p, now, key, exclude, m, less);
        assert((m + n - 1) as nat == m + less);
        let all = p.picks(now, key, exclude, m + n);
        assert(all =~= p.picks(now, key, exclude, m + less).push(
            p.nth_pick(now, key, exclude, m + less)->0 as int,
        ));
        assert(q.picks(now, key, exclude, n) =~= q.picks(now, key, exclude, less).push(
            q.nth_pick(now, key, exclude, less)->0 as int,
        ));
        assert(all =~= p.picks(now, key, exclude, m) + q.picks(now, key, exclude, n));
    } else {
        assert(p.picks(now, key, exclude, m) + q.picks(now, key, exclude, 0) =~= p.picks(
            now,
            key,
            exclude,
            m,
        ));
    }
}

proof fn lemma_times_picked_split(a: Seq<int>, b: Seq<int>, i: int)
    ensures
        times_picked(a + b, i) == times_picked(a, i) + times_picked(b, i),
    decreases b.len(),
{
    if b.len() == 0 {
        assert(a + b =~= a);
    } else {
        assert((a + b).drop_last() =~= a + b.drop_last());
        assert((a + b).last() == b.last());
        lemma_times_picked_split(a, b.drop_last(), i);
    }
}

/// The weighted strategy gives every backend exactly its share over one full
/// period, wherever in a run of selections the period is taken to begin, and
/// then starts over. The effective weights are `g` times the shares, and a period
/// has as many picks as all shares together. With every candidate at full weight
/// the shares are the configured weights and `g` is 100; weights with a common
/// divisor make the period that much shorter. The run begins with running weights
/// of zero, as they are in a new pool.
pub proof fn law_weighted_period_is_exact<U>(
    p: PoolView<U>,
    now: u64,
    key: Option<Seq<char>>,
    exclude: Seq<usize>,
    shares: Seq<int>,
    g: int,
    n: nat,
    start: nat,
)
    requires
        p.wf(),
        p.strategy is Weighted,
        shares.len() == p.backends.len(),
        g > 0,
        forall|i: int|
            0 <= i < shares.len() ==> 0 <= #[trigger] shares[i] && p.scores(
                p.candidates(now, exclude),
            )[i] == g * shares[i],
        forall|i: int|
            0 <= i < shares.len() && #[trigger] shares[i] > 0 ==> p.backends[i].current_weight == 0,
        n == total(shares),
        n > 0,
    ensures
        ({
            let q = p.after_picks(now, key, exclude, start);
            &&& forall|i: int|
                0 <= i < shares.len() ==> times_picked(q.picks(now, key, exclude, n), i)
                    == #[trigger] shares[i]
            &&& forall|k: nat| k < n ==> #[trigger] q.nth_pick(now, key, exclude, k) is Some
            &&& q.after_picks(now, key, exclude, n) == q
        }),
{
    let q = p.after_picks(now, key, exclude, start);
    lemma_first_period_is_exact(p, now, key, exclude, shares, g, n);
    lemma_picks_split(p, now, key, exclude, n, start);
    lemma_picks_split(p, now, key, exclude, start, n);
    assert(n + start == start + n);
    assert forall|i: int| 0 <= i < shares.len() implies times_picked(
        q.picks(now, key, exclude, n),
        i,
    ) == #[trigger] shares[i] by {
        lemma_times_picked_split(
            p.picks(now, key, exclude, n),
            p.picks(now, key, exclude, start),
            i,
        );
        lemma_times_picked_split(
            p.picks(now, key, exclude, start),
            q.picks(now, key, exclude, n),
            i,
        );
    }
    assert forall|k: nat| k < n implies #[trigger] q.nth_pick(now, key, exclude, k) is Some by {
        lemma_picks_split(p, now, key, exclude, start, k);
        lemma_total_is_positive(p, now, exclude, shares, g);
        lemma_weighted_run(p, now, key, exclude, start + k);
    }
}

/// The shares of backends that stand at full weight: their configured weights, for
/// those that can be chosen.
pub open spec fn full_shares<U>(p: PoolView<U>, candidates: Seq<usize>) -> Seq<int> {
    Seq::new(
        p.backends.len(),
        |i: int|
            if candidates.contains(i as usize) {
                p.backends[i].weight as int
            } else {
                0
            },
    )
}

/// With every candidate at full weight and none ahead or behind, any block of as
/// many weighted selections as all weights of candidates together chooses each
/// candidate exactly as often as its weight says, and nobody else.
pub proof fn law_weighted_blocks_follow_weights<U>(
    p: PoolView<U>,
    now: u64,
    key: Option<Seq<char>>,
    exclude: Seq<usize>,
    start: nat,
)
    requires
        p.wf(),
        p.strategy is Weighted,
        forall|i: int|
            0 <= i < p.backends.len() && #[trigger] p.is_candidate(now, exclude, i)
                ==> p.backends[i].ramp_percent == 100 && p.backends[i].current_weight == 0,
    ensures
        ({
            let shares = full_shares(p, p.candidates(now, exclude));
            let block = total(shares) as nat;
            let q = p.after_picks(now, key, exclude, start);
            total(shares) > 0 ==> {
                &&& forall|i: int|
                    0 <= i < shares.len() ==> times_picked(q.picks(now, key, exclude, block), i)
                        == #[trigger] shares[i]
                &&& forall|k: nat| k < block ==> #[trigger] q.nth_pick(now, key, exclude, k) is Some
                &&& q.after_picks(now, key, exclude, block) == q
            }
        }),
{
    let c = p.candidates(now, exclude);
    let shares = full_shares(p, c);
    lemma_candidates(p, now, exclude, p.backends.len() as int);
    assert forall|i: int| 0 <= i < shares.len() implies 0 <= #[trigger] shares[i] && p.scores(c)[i]
        == 100 * shares[i] && (shares[i] > 0 ==> p.backends[i].current_weight == 0) by {
        if c.contains(i as usize) {
            let k = choose|k: int| 0 <= k < c.len() && c[k] == i as usize;
            assert(p.is_candidate(now, exclude, c[k] as int));
        }
    }
    if total(shares) > 0 {
        law_weighted_period_is_exact(
            p,
            now,
            key,
            exclude,
            shares,
            100,
            total(shares) as nat,
            start,
        );
    }
}

/// Whatever the running weights are when a row of weighted selections begins, each
/// backend is chosen in proportion to its effective weight, up to a bound that does
/// not grow with the row.
pub proof fn law_weighted_choice_is_proportional<U>(
    p: PoolView<U>,
    now: u64,
    key: Option<Seq<char>>,
    exclude: Seq<usize>,
    n: nat,
    i: int,
)
    requires
        p.wf(),
        p.strategy is Weighted,
        total(p.scores(p.candidates(now, exclude))) > 0,
        0 <= i < p.backends.len(),
    ensures
        ({
            let scores = p.scores(p.candidates(now, exclude));
            let ahead = times_picked(p.picks(now, key, exclude, n), i) * total(scores) - n
                * scores[i];
            let slack = 2 * (p.backends.len() * p.top_score());
            -slack <= ahead <= slack
        }),
        forall|k: nat| k < n ==> #[trigger] p.nth_pick(now, key, exclude, k) is Some,
{
    let scores = p.scores(p.candidates(now, exclude));
    let picks = p.picks(now, key, exclude, n);
    let q = p.after_picks(now, key, exclude, n);
    lemma_scores(p, p.candidates(now, exclude));
    lemma_weighted_run(p, now, key, exclude, n);
    crate::wrr::lemma_standing(p.current_weights(), scores, picks);
    assert(q.current_weights()[i] == crate::wrr::after_picks(
        p.current_weights(),
        scores,
        picks,
    )[i]);
    lemma_run_only_takes_turns(p, now, key, exclude, n);
    lemma_same_top(p, q);
    law_running_weights_stay_bounded(p, i);
    law_running_weights_stay_bounded(q, i);
    assert forall|k: nat| k < n implies #[trigger] p.nth_pick(now, key, exclude, k) is Some by {
        lemma_weighted_run(p, now, key, exclude, k);
    }
}

/// Selections that bring the pool back to where it was repeat themselves from
/// there on.
pub proof fn law_period_repeats<U>(
    p: PoolView<U>,
    now: u64,
    key: Option<Seq<char>>,
    exclude: Seq<usize>,
    n: nat,
    k: nat,
)
    requires
        p.after_picks(now, key, exclude, n) == p,
    ensures
        p.after_picks(now, key, exclude, n + k) == p.after_picks(now, key, exclude, k),
        p.nth_pick(now, key, exclude, n + k) == p.nth_pick(now, key, exclude, k),
    decreases k,
{
    if k > 0 {
        law_period_repeats(p, now, key, exclude, n, (k - 1) as nat);
        assert((n + k - 1) as nat == n + (k - 1) as nat);
    }
}

/// A session key stays where it is as long as the candidates and their names
/// do, whatever else happens to the pool, and looking it up changes nothing.
pub proof fn law_sticky_key_stays<U>(
    p: PoolView<U>,
    q: PoolView<U>,
    now: u64,
    later: u64,
    key: Seq<char>,
    exclude: Seq<usize>,
    other: Seq<usize>,
)
    requires
        p.strategy is ConsistentHash,
        q.strategy is ConsistentHash,
        p.candidates(now, exclude) == q.candidates(later, other),
        p.members(p.candidates(now, exclude)) == q.members(q.candidates(later, other)),
    ensures
        p.pick(now, Some(key), exclude) == q.pick(later, Some(key), other),
        p.after_pick(now, Some(key), exclude) == p,
{
}

/// A session key gets the same backend however often it is looked up, and the
/// lookups leave the pool as it is.
pub proof fn law_sticky_key_repeats<U>(
    p: PoolView<U>,
    now: u64,
    key: Seq<char>,
    exclude: Seq<usize>,
    n: nat,
)
    requires
        p.wf(),
        p.strategy is ConsistentHash,
        p.candidates(now, exclude).len() > 0,
    ensures
        p.after_picks(now, Some(key), exclude, n) == p,
        p.nth_pick(now, Some(key), exclude, n) == p.keeper(p.candidates(now, exclude), key),
        p.nth_pick(now, Some(key), exclude, n) is Some,
    decreases n,
{
    law_every_key_has_an_owner(p.members(p.candidates(now, exclude)), VNODES, key);
    if n > 0 {
        law_sticky_key_repeats(p, now, key, exclude, (n - 1) as nat);
    }
}

/// When a candidate drops out, only the session keys it held move.
pub proof fn law_sticky_keys_survive_a_loss<U>(
    p: PoolView<U>,
    q: PoolView<U>,
    now: u64,
    later: u64,
    key: Seq<char>,
    exclude: Seq<usize>,
    other: Seq<usize>,
    k: int,
)
    requires
        p.strategy is ConsistentHash,
        q.strategy is ConsistentHash,
        0 <= k < p.candidates(now, exclude).len(),
        q.candidates(later, other) == p.candidates(now, exclude).remove(k),
        q.members(q.candidates(later, other)) == p.members(q.candidates(later, other)),
        p.candidates(now, exclude).len() > 1,
        p.pick(now, Some(key), exclude) != Some(p.candidates(now, exclude)[k]),
    ensures
        q.pick(later, Some(key), other) == p.pick(now, Some(key), exclude),
{
    let c = p.candidates(now, exclude);
    let d = q.candidates(later, other);
    assert(p.members(d) =~= p.members(c).remove(k));
    law_removal_moves_only_its_own_keys(p.members(c), VNODES, k, key);
}

/// When a candidate comes in, the session keys that move all move onto it.
pub proof fn law_sticky_keys_move_only_to_newcomer<U>(
    p: PoolView<U>,
    q: PoolView<U>,
    now: u64,
    later: u64,
    key: Seq<char>,
    exclude: Seq<usize>,
    other: Seq<usize>,
    k: int,
    newcomer: usize,
)
    requires
        p.strategy is ConsistentHash,
        q.strategy is ConsistentHash,
        0 <= k <= p.candidates(now, exclude).len(),
        q.candidates(later, other) == p.candidates(now, exclude).insert(k, newcomer),
        p.members(p.candidates(now, exclude)) == q.members(p.candidates(now, exclude)),
        p.candidates(now, exclude).len() > 0,
        q.pick(later, Some(key), other) != p.pick(now, Some(key), exclude),
    ensures
        q.pick(later, Some(key), other) == Some(newcomer),
{
    let c = p.candidates(now, exclude);
    let d = q.candidates(later, other);
    let member = (newcomer, q.backends[newcomer as int].name);
    assert(q.members(d) =~= q.members(c).insert(k, member));
    law_join_moves_keys_only_to_newcomer(q.members(c), VNODES, k, member, key);
}

/// A backend that joins the pool takes session keys over from others and moves none
/// between them: each key stays where it was or goes to the newcomer. The backends
/// that were there keep their places.
pub proof fn law_joining_backend_takes_only_its_own_keys<U>(
    p: PoolView<U>,
    joined: BackendView<U>,
    now: u64,
    key: Seq<char>,
    exclude: Seq<usize>,
)
    requires
        p.strategy is ConsistentHash,
        p.backends.len() < usize::MAX,
    ensures
        ({
            let q = PoolView { backends: p.backends.push(joined), ..p };
            let n = p.backends.len() as usize;
            &&& q.pick(now, Some(key), exclude) == p.pick(now, Some(key), exclude) || q.pick(
                now,
                Some(key),
                exclude,
            ) == Some(n)
            &&& q.pick(now, Some(key), exclude) == Some(n) ==> joined.is_available(now)
                && !exclude.contains(n)
            &&& forall|i: int|
                0 <= i < p.backends.len() ==> #[trigger] q.backends[i] == p.backends[i]
        }),
{
    let q = PoolView { backends: p.backends.push(joined), ..p };
    let n = p.backends.len() as int;
    let c = p.candidates(now, exclude);
    let d = q.candidates(now, exclude);
    lemma_joined_candidates(p, q, now, exclude, n);
    lemma_candidates(p, now, exclude, n);
    assert forall|k: int| 0 <= k < c.len() implies #[trigger] p.members(c)[k] == q.members(
        c,
    )[k] by {
        assert(c[k] < n);
    }
    assert(p.members(c) =~= q.members(c));
    if d.len() > 0 {
        law_every_key_has_an_owner(q.members(d), VNODES, key);
    }
    if q.is_candidate(now, exclude, n) {
        assert(d =~= c.insert(c.len() as int, n as usize));
        if c.len() > 0 {
            if q.pick(now, Some(key), exclude) != p.pick(now, Some(key), exclude) {
                law_sticky_keys_move_only_to_newcomer(
                    p,
                    q,
                    now,
                    now,
                    key,
                    exclude,
                    exclude,
                    c.len() as int,
                    n as usize,
                );
            }
        } else {
            let k = choose|k: int|
                0 <= k < d.len() && q.keeper(d, key) == Some((#[trigger] q.members(d)[k]).0);
            assert(d[k] == n as usize);
        }
    } else {
        assert(d == c);
        if q.pick(now, Some(key), exclude) == Some(n as usize) {
            let k = choose|k: int|
                0 <= k < d.len() && q.keeper(d, key) == Some((#[trigger] q.members(d)[k]).0);
            assert(c[k] < n);
        }
    }
}

proof fn lemma_joined_candidates<U>(
    p: PoolView<U>,
    q: PoolView<U>,
    now: u64,
    exclude: Seq<usize>,
    n: int,
)
    requires
        0 <= n <= p.backends.len(),
        forall|i: int| 0 <= i < n ==> #[trigger] q.backends[i] == p.backends[i],
    ensures
        q.candidates_among(now, exclude, n) == p.candidates_among(now, exclude, n),
    decreases n,
{
    if n > 0 {
        lemma_joined_candidates(p, q, now, exclude, n - 1);
        assert(q.backends[n - 1] == p.backends[n - 1]);
    }
}

/// The candidates are the backends that are not excluded and can be called, each once
/// and by index.
pub proof fn law_candidates_can_be_called<U>(p: PoolView<U>, now: u64, exclude: Seq<usize>)
    requires
        p.backends.len() <= usize::MAX,
    ensures
        forall|i: usize| #[trigger]
            p.candidates(now, exclude).contains(i) <==> i < p.backends.len() && !exclude.contains(i)
                && p.backends[i as int].is_available(now),
        forall|j: int, k: int|
            0 <= j < k < p.candidates(now, exclude).len() ==> p.candidates(now, exclude)[j]
                < p.candidates(now, exclude)[k],
{
    let c = p.candidates(now, exclude);
    lemma_candidates(p, now, exclude, p.backends.len() as int);
    assert forall|i: usize| #[trigger] c.contains(i) <==> i < p.backends.len()
        && !exclude.contains(i) && p.backends[i as int].is_available(now) by {
        if c.contains(i) {
            let k = choose|k: int| 0 <= k < c.len() && c[k] == i;
            assert(p.is_candidate(now, exclude, c[k] as int));
        }
        if i < p.backends.len() && !exclude.contains(i) && p.backends[i as int].is_available(now) {
            assert(p.is_candidate(now, exclude, i as int));
        }
    }
}

/// Round robin chooses the candidate at the cursor, counted around the candidates, and
/// moves the cursor on by one. So does consistent hash without a key.
pub proof fn law_turn_is_taken_at_the_cursor<U>(
    p: PoolView<U>,
    now: u64,
    key: Option<Seq<char>>,
    exclude: Seq<usize>,
)
    requires
        takes_turns(p, key),
    ensures
        ({
            let c = p.candidates(now, exclude);
            if c.len() == 0 {
                &&& p.pick(now, key, exclude) is None
                &&& p.after_pick(now, key, exclude) == p
            } else {
                &&& p.pick(now, key, exclude) == Some(c[p.rr_cursor as int % c.len() as int])
                &&& p.after_pick(now, key, exclude) == (PoolView {
                    rr_cursor: if p.rr_cursor < usize::MAX {
                        (p.rr_cursor + 1) as usize
                    } else {
                        0
                    },
                    ..p
                })
            }
        }),
{
}

/// Least connections chooses the first of the candidates with the fewest requests under
/// way, and changes nothing.
pub proof fn law_fewest_under_way_is_chosen<U>(
    p: PoolView<U>,
    now: u64,
    key: Option<Seq<char>>,
    exclude: Seq<usize>,
)
    requires
        p.strategy is LeastConnections,
    ensures
        p.after_pick(now, key, exclude) == p,
        match p.pick(now, key, exclude) {
            Some(b) => {
                let c = p.candidates(now, exclude);
                &&& c.contains(b)
                &&& forall|j: usize| #[trigger]
                    c.contains(j) ==> {
                        let here = p.backends[b as int].in_flight;
                        let there = p.backends[j as int].in_flight;
                        here < there || (here == there && b <= j)
                    }
            },
            None => p.candidates(now, exclude).len() == 0,
        },
{
    let c = p.candidates(now, exclude);
    if c.len() > 0 {
        lemma_idlest_exists(p, c);
        let b = p.idlest(c);
        assert forall|j: usize| #[trigger] c.contains(j) implies {
            let here = p.backends[b as int].in_flight;
            let there = p.backends[j as int].in_flight;
            here < there || (here == there && b <= j)
        } by {}
    }
}

/// With a key, consistent hash chooses the candidate that owns the key on the ring of
/// the candidates, with 160 virtual nodes for each under its name, and changes nothing.
pub proof fn law_key_goes_to_its_owner_on_the_ring<U>(
    p: PoolView<U>,
    now: u64,
    key: Seq<char>,
    exclude: Seq<usize>,
)
    requires
        p.strategy is ConsistentHash,
    ensures
        p.after_pick(now, Some(key), exclude) == p,
        ({
            let c = p.candidates(now, exclude);
            let members = Seq::new(
                c.len(),
                |k: int| (c[k], p.backends[c[k] as int].name),
            );
            if c.len() == 0 {
                p.pick(now, Some(key), exclude) is None
            } else {
                &&& p.pick(now, Some(key), exclude) == owner_of(ring_of(members, 160), key)
                &&& p.pick(now, Some(key), exclude) is Some
            }
        }),
{
    let c = p.candidates(now, exclude);
    let members = Seq::new(c.len(), |k: int| (c[k], p.backends[c[k] as int].name));
    assert(members =~= p.members(c));
    if c.len() > 0 {
        law_every_key_has_an_owner(members, 160, key);
    }
}

/// The weighted strategy raises every candidate by its weight times the percent of its
/// ramp, chooses the first of those with a weight that then stand highest, and lowers it
/// by what all were raised by together. Where no candidate has a weight it chooses
/// nobody and changes nothing.
pub proof fn law_highest_standing_is_chosen<U>(
    p: PoolView<U>,
    now: u64,
    key: Option<Seq<char>>,
    exclude: Seq<usize>,
)
    requires
        p.wf(),
        p.strategy is Weighted,
    ensures
        ({
            let c = p.candidates(now, exclude);
            let q = p.after_pick(now, key, exclude);
            let raise = |i: int|
                if c.contains(i as usize) {
                    p.backends[i].weight * p.backends[i].ramp_percent
                } else {
                    0
                };
            let all = total(Seq::new(p.backends.len(), raise));
            match p.pick(now, key, exclude) {
                Some(b) => {
                    &&& c.contains(b)
                    &&& p.backends[b as int].weight > 0
                    &&& forall|j: usize| #[trigger]
                        c.contains(j) && p.backends[j as int].weight > 0 ==> {
                            let here = p.backends[b as int].current_weight + raise(b as int);
                            let there = p.backends[j as int].current_weight + raise(j as int);
                            there < here || (there == here && b <= j)
                        }
                    &&& q == (PoolView { backends: q.backends, ..p })
                    &&& q.backends.len() == p.backends.len()
                    &&& forall|i: int|
                        0 <= i < p.backends.len() ==> #[trigger] q.backends[i] == (BackendView {
                            current_weight: p.backends[i].current_weight + raise(i) - (if i == b {
                                all
                            } else {
                                0
                            }),
                            ..p.backends[i]
                        })
                },
                None => {
                    &&& forall|j: usize| #[trigger]
                        c.contains(j) ==> p.backends[j as int].weight == 0
                    &&& q == p
                },
            }
        }),
{
    let c = p.candidates(now, exclude);
    let q = p.after_pick(now, key, exclude);
    let raise = |i: int|
        if c.contains(i as usize) {
            p.backends[i].weight * p.backends[i].ramp_percent
        } else {
            0
        };
    law_candidates_can_be_called(p, now, exclude);
    lemma_scores(p, c);
    assert(p.scores(c) =~= Seq::new(p.backends.len(), raise));
    match p.pick(now, key, exclude) {
        Some(b) => {
            let x = choose|x: int| p.leads(c, x);
            assert(p.leads(c, x));
            lemma_leader(p, c, x);
            assert(b == x);
            assert(p.scores(c)[x] > 0);
            assert forall|j: usize| #[trigger]
                c.contains(j) && p.backends[j as int].weight > 0 implies {
                let here = p.backends[b as int].current_weight + raise(b as int);
                let there = p.backends[j as int].current_weight + raise(j as int);
                there < here || (there == here && b <= j)
            } by {
                assert(p.scores(c)[j as int] > 0);
                assert(p.current_weights()[j as int] == p.backends[j as int].current_weight);
            }
        },
        None => {
            assert forall|j: usize| #[trigger] c.contains(j) implies p.backends[j as int].weight
                == 0 by {
                if p.backends[j as int].weight > 0 {
                    assert(p.scores(c)[j as int] > 0);
                    lemma_leader_exists(p, c, j as int);
                    let k = choose|k: int| 0 <= k < c.len() && c[k] == j;
                    assert(c.len() > 0);
                }
            }
        },
    }
}

} // verus!
