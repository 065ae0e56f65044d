//! An upstream pool for one service. Owns the backends, their runtime health and
//! circuit state, the load balancing strategy, and selection. Selection never
//! returns a backend that is unhealthy, ejected, or on an open circuit.

use vstd::prelude::*;
use vstd::string::*;

use crate::clock::Clock;
use crate::ewma::saturated;
use crate::ewma::DistributionRow;
use crate::ewma::EwmaConfig;
use crate::hashring::law_every_key_has_an_owner;
use crate::hashring::member_list;
use crate::hashring::owner_of;
use crate::hashring::ring_of;
use crate::hashring::ConsistentHashRing;
use crate::http::Request;
use crate::text::same;
use crate::text::to_lower;
use crate::text::lowered;
use crate::text::IntoText;
use crate::upstream::Upstream;
use crate::upstream::UpstreamReply;
use crate::wrr::after_pick;
use crate::wrr::balanced;
use crate::wrr::may_pick;
use crate::wrr::sum_at;
use crate::wrr::total;

pub use crate::backend::Backend;
pub use crate::backend::BackendView;
pub use crate::backend::HealthConfig;

verus! {

#[derive(Clone, Copy, Debug, PartialEq, Eq, Structural)]
pub enum Strategy {
    RoundRobin,
    Weighted,
    LeastConnections,
    ConsistentHash,
}

/// The strategy that a lower case name stands for.
pub open spec fn strategy_named(name: Seq<char>) -> Option<Strategy> {
    if name == "round-robin"@ || name == "roundrobin"@ || name == "rr"@ {
        Some(Strategy::RoundRobin)
    } else if name == "weighted"@ || name == "wrr"@ {
        Some(Strategy::Weighted)
    } else if name == "least-conn"@ || name == "least-connections"@ || name == "leastconn"@ || name
        == "lc"@ {
        Some(Strategy::LeastConnections)
    } else if name == "consistent-hash"@ || name == "sticky"@ || name == "hash"@ {
        Some(Strategy::ConsistentHash)
    } else {
        None
    }
}

impl Strategy {
    /// The strategy's own name.
    pub open spec fn name(self) -> Seq<char> {
        match self {
            Strategy::RoundRobin => "round-robin"@,
            Strategy::Weighted => "weighted"@,
            Strategy::LeastConnections => "least-conn"@,
            Strategy::ConsistentHash => "consistent-hash"@,
        }
    }

    /// The strategy that a name stands for, whatever the case of its letters.
    pub fn parse(s: &str) -> (strategy: Option<Strategy>)
        ensures
            strategy == strategy_named(lowered(s@)),
    {
        let name: String = to_lower(s);
        let n: &str = name.as_str();
        if same(n, "round-robin") || same(n, "roundrobin") || same(n, "rr") {
            Some(Strategy::RoundRobin)
        } else if same(n, "weighted") || same(n, "wrr") {
            Some(Strategy::Weighted)
        } else if same(n, "least-conn") || same(n, "least-connections") || same(n, "leastconn")
            || same(n, "lc") {
            Some(Strategy::LeastConnections)
        } else if same(n, "consistent-hash") || same(n, "sticky") || same(n, "hash") {
            Some(Strategy::ConsistentHash)
        } else {
            None
        }
    }

    pub fn as_str(&self) -> (name: &'static str)
        ensures
            name@ == self.name(),
    {
        match self {
            Strategy::RoundRobin => "round-robin",
            Strategy::Weighted => "weighted",
            Strategy::LeastConnections => "least-conn",
            Strategy::ConsistentHash => "consistent-hash",
        }
    }
}

/// Every strategy is found again under its own name.
pub proof fn law_strategy_name_round_trips(strategy: Strategy)
    ensures
        strategy_named(lowered(strategy.name())) == Some(strategy),
{
    reveal_strlit("round-robin");
    reveal_strlit("roundrobin");
    reveal_strlit("rr");
    reveal_strlit("weighted");
    reveal_strlit("wrr");
    reveal_strlit("least-conn");
    reveal_strlit("least-connections");
    reveal_strlit("leastconn");
    reveal_strlit("lc");
    reveal_strlit("consistent-hash");
    let name = strategy.name();
    assert(lowered(name) =~= name);
    match strategy {
        Strategy::RoundRobin => {},
        Strategy::Weighted => {
            assert(name.len() == 8);
        },
        Strategy::LeastConnections => {
            assert(name[0] == 'l');
            assert("roundrobin"@[0] == 'r');
        },
        Strategy::ConsistentHash => {
            assert(name.len() == 15);
        },
    }
}

/// Virtual nodes of each backend on the ring for sticky sessions.
pub const VNODES: u32 = 160;

/// What a pool is, apart from how it is stored.
pub struct PoolView<U> {
    pub name: Seq<char>,
    pub backends: Seq<BackendView<U>>,
    pub strategy: Strategy,
    pub health: HealthConfig,
    pub rr_cursor: usize,
    pub ewma: Option<EwmaConfig>,
}

/// The heaviest configured weight.
pub open spec fn heaviest<U>(backends: Seq<BackendView<U>>) -> int
    decreases backends.len(),
{
    if backends.len() == 0 {
        0
    } else if backends.last().weight >= heaviest(backends.drop_last()) {
        backends.last().weight as int
    } else {
        heaviest(backends.drop_last())
    }
}

/// The sum of the latency averages over nodes with enough samples.
pub open spec fn measured_sum<U>(backends: Seq<BackendView<U>>, min_samples: u32) -> nat
    decreases backends.len(),
{
    if backends.len() == 0 {
        0
    } else {
        let b = backends.last();
        measured_sum(backends.drop_last(), min_samples) + (if b.ewma_samples >= min_samples {
            match b.ewma_milli {
                Some(ewma) => ewma as nat,
                None => 0,
            }
        } else {
            0
        })
    }
}

/// How many nodes have enough samples.
pub open spec fn measured_count<U>(backends: Seq<BackendView<U>>, min_samples: u32) -> nat
    decreases backends.len(),
{
    if backends.len() == 0 {
        0
    } else {
        measured_count(backends.drop_last(), min_samples) + (if backends.last().ewma_samples
            >= min_samples {
            1nat
        } else {
            0nat
        })
    }
}

/// The outcomes recorded by all backends.
pub open spec fn served_by<U>(backends: Seq<BackendView<U>>) -> nat
    decreases backends.len(),
{
    if backends.len() == 0 {
        0
    } else {
        served_by(backends.drop_last()) + backends.last().served
    }
}

impl<U> PoolView<U> {
    pub open spec fn empty(name: Seq<char>, strategy: Strategy, health: HealthConfig) -> PoolView<
        U,
    > {
        PoolView { name, backends: Seq::empty(), strategy, health, rr_cursor: 0, ewma: None }
    }

    pub open spec fn current_weights(self) -> Seq<int> {
        self.backends.map_values(|b: BackendView<U>| b.current_weight)
    }

    /// No effective weight is above this.
    pub open spec fn top_score(self) -> int {
        100 * heaviest(self.backends)
    }

    /// What every operation keeps: each node stands at some percent of its
    /// weight, and the running weights of the weighted strategy are balanced.
    pub open spec fn wf(self) -> bool {
        &&& self.backends.len() <= usize::MAX
        &&& forall|i: int|
            0 <= i < self.backends.len() ==> 1 <= (#[trigger] self.backends[i]).ramp_percent <= 100
        &&& balanced(self.current_weights(), self.top_score())
    }

    /// The pool with one backend replaced.
    pub open spec fn with_backend(self, idx: int, b: BackendView<U>) -> PoolView<U> {
        PoolView { backends: self.backends.update(idx, b), ..self }
    }

    /// Mean latency average over nodes with enough samples, in milli
    /// milliseconds. Zero when there is no such node.
    pub open spec fn mean_milli(self) -> nat {
        match self.ewma {
            Some(cfg) => {
                let n = measured_count(self.backends, cfg.min_samples);
                if n == 0 {
                    0
                } else {
                    measured_sum(self.backends, cfg.min_samples) / n
                }
            },
            None => 0,
        }
    }

    /// The line above which a node counts as slow.
    pub open spec fn line(self) -> u64 {
        match self.ewma {
            Some(cfg) => cfg.line(self.mean_milli() as int) as u64,
            None => 0,
        }
    }

    /// The pool once it has been told the time.
    pub open spec fn polled(self, now: u64) -> PoolView<U> {
        PoolView {
            backends: self.backends.map_values(
                |b: BackendView<U>| b.polled(now, self.ewma, self.line()),
            ),
            ..self
        }
    }

    /// The counters have room for what polling at `now` may count.
    pub open spec fn can_poll(self, now: u64) -> bool {
        forall|i: int|
            0 <= i < self.backends.len() && (#[trigger] self.backends[i]).poll_ejects(
                now,
                self.ewma,
                self.line(),
            ) ==> self.backends[i].ewma_ejections < u64::MAX
    }

    /// Backend `i` may be chosen.
    pub open spec fn is_candidate(self, now: u64, exclude: Seq<usize>, i: int) -> bool {
        !exclude.contains(i as usize) && self.backends[i].is_available(now)
    }

    /// The backends among the first `n` that may be chosen.
    pub open spec fn candidates_among(self, now: u64, exclude: Seq<usize>, n: int) -> Seq<usize>
        decreases n,
    {
        if n <= 0 {
            Seq::empty()
        } else if self.is_candidate(now, exclude, n - 1) {
            self.candidates_among(now, exclude, n - 1).push((n - 1) as usize)
        } else {
            self.candidates_among(now, exclude, n - 1)
        }
    }

    /// The backends that may be chosen, in order.
    pub open spec fn candidates(self, now: u64, exclude: Seq<usize>) -> Seq<usize> {
        self.candidates_among(now, exclude, self.backends.len() as int)
    }

    /// The candidate whose turn it is.
    pub open spec fn turn(self, candidates: Seq<usize>) -> usize {
        candidates[self.rr_cursor as int % candidates.len() as int]
    }

    /// The effective weights of the candidates, zero for everyone else.
    pub open spec fn scores(self, candidates: Seq<usize>) -> Seq<int> {
        Seq::new(
            self.backends.len(),
            |i: int|
                if candidates.contains(i as usize) {
                    self.backends[i].score()
                } else {
                    0
                },
        )
    }

    /// `b` is the first of the candidates that stand highest once each was
    /// raised by its effective weight. A weight of zero takes no part.
    pub open spec fn leads(self, candidates: Seq<usize>, b: int) -> bool {
        let w = self.current_weights();
        let scores = self.scores(candidates);
        &&& may_pick(w, scores, b)
        &&& forall|i: int|
            0 <= i < b && #[trigger] scores[i] > 0 ==> w[i] + scores[i] < w[b] + scores[b]
    }

    pub open spec fn leader(self, candidates: Seq<usize>) -> Option<usize> {
        if exists|b: int| self.leads(candidates, b) {
            Some((choose|b: int| self.leads(candidates, b)) as usize)
        } else {
            None
        }
    }

    /// `b` is the first of the candidates with the fewest requests in flight.
    pub open spec fn is_idlest(self, candidates: Seq<usize>, b: usize) -> bool {
        &&& candidates.contains(b)
        &&& forall|j: usize| #[trigger]
            candidates.contains(j) ==> {
                &&& self.backends[b as int].in_flight <= self.backends[j as int].in_flight
                &&& j < b ==> self.backends[b as int].in_flight < self.backends[j as int].in_flight
            }
    }

    pub open spec fn idlest(self, candidates: Seq<usize>) -> usize {
        choose|b: usize| self.is_idlest(candidates, b)
    }

    /// The candidates as members of the ring.
    pub open spec fn members(self, candidates: Seq<usize>) -> Seq<(usize, Seq<char>)> {
        candidates.map_values(|i: usize| (i, self.backends[i as int].name))
    }

    /// The candidate that owns a session key.
    pub open spec fn keeper(self, candidates: Seq<usize>, key: Seq<char>) -> Option<usize> {
        owner_of(ring_of(self.members(candidates), VNODES), key)
    }

    /// The backend that the strategy chooses for a request with this key, out
    /// of those that are available and not excluded.
    pub open spec fn pick(self, now: u64, key: Option<Seq<char>>, exclude: Seq<usize>) -> Option<
        usize,
    > {
        let candidates = self.candidates(now, exclude);
        if candidates.len() == 0 {
            None
        } else {
            match (self.strategy, key) {
                (Strategy::RoundRobin, _) => Some(self.turn(candidates)),
                (Strategy::Weighted, _) => self.leader(candidates),
                (Strategy::LeastConnections, _) => Some(self.idlest(candidates)),
                (Strategy::ConsistentHash, Some(key)) => self.keeper(candidates, key),
                (Strategy::ConsistentHash, None) => Some(self.turn(candidates)),
            }
        }
    }

    pub open spec fn with_weights(self, w: Seq<int>) -> PoolView<U> {
        PoolView {
            backends: Seq::new(
                self.backends.len(),
                |i: int| BackendView { current_weight: w[i], ..self.backends[i] },
            ),
            ..self
        }
    }

    /// The pool after a choice was made: the turn moves on, or the running
    /// weights do. Nothing else changes.
    pub open spec fn after_pick(
        self,
        now: u64,
        key: Option<Seq<char>>,
        exclude: Seq<usize>,
    ) -> PoolView<U> {
        let candidates = self.candidates(now, exclude);
        if candidates.len() == 0 {
            self
        } else {
            match (self.strategy, key) {
                (Strategy::RoundRobin, _) | (Strategy::ConsistentHash, None) => PoolView {
                    rr_cursor: if self.rr_cursor == usize::MAX {
                        0
                    } else {
                        (self.rr_cursor + 1) as usize
                    },
                    ..self
                },
                (Strategy::Weighted, _) => match self.leader(candidates) {
                    Some(b) => self.with_weights(
                        after_pick(self.current_weights(), self.scores(candidates), b as int),
                    ),
                    None => self,
                },
                _ => self,
            }
        }
    }

    /// The effective weight of everything that can be chosen.
    pub open spec fn available_score(self, now: u64) -> int {
        total(self.scores(self.candidates(now, Seq::empty())))
    }
}

/// The candidates are exactly the backends that may be chosen, each once and in
/// order.
pub proof fn lemma_candidates<U>(p: PoolView<U>, now: u64, exclude: Seq<usize>, n: int)
    requires
        0 <= n <= p.backends.len() <= usize::MAX,
    ensures
        forall|k: int|
            0 <= k < p.candidates_among(now, exclude, n).len() ==> {
                let i = #[trigger] p.candidates_among(now, exclude, n)[k];
                i < n && p.is_candidate(now, exclude, i as int)
            },
        forall|i: int|
            0 <= i < n && #[trigger] p.is_candidate(now, exclude, i) ==> p.candidates_among(
                now,
                exclude,
                n,
            ).contains(i as usize),
        forall|j: int, k: int|
            0 <= j < k < p.candidates_among(now, exclude, n).len() ==> p.candidates_among(
                now,
                exclude,
                n,
            )[j] < p.candidates_among(now, exclude, n)[k],
        p.candidates_among(now, exclude, n).len() <= n,
    decreases n,
{
    if n > 0 {
        lemma_candidates(p, now, exclude, n - 1);
        let before = p.candidates_among(now, exclude, n - 1);
        let c = p.candidates_among(now, exclude, n);
        assert forall|i: int| 0 <= i < n && #[trigger] p.is_candidate(now, exclude, i) implies
            c.contains(i as usize) by {
            if i == n - 1 {
                assert(c[c.len() - 1] == i as usize);
            } else {
                let k = choose|k: int| 0 <= k < before.len() && before[k] == i as usize;
                assert(c[k] == i as usize);
            }
        }
    }
}

proof fn lemma_heaviest<U>(backends: Seq<BackendView<U>>, i: int)
    requires
        0 <= i < backends.len(),
    ensures
        backends[i].weight <= heaviest(backends),
    decreases backends.len(),
{
    if i < backends.len() - 1 {
        lemma_heaviest(backends.drop_last(), i);
    }
}

pub proof fn lemma_heaviest_is_weight<U>(a: Seq<BackendView<U>>, b: Seq<BackendView<U>>)
    requires
        a.len() == b.len(),
        forall|i: int| 0 <= i < a.len() ==> (#[trigger] a[i]).weight == b[i].weight,
    ensures
        heaviest(a) == heaviest(b),
        0 <= heaviest(a),
    decreases a.len(),
{
    if a.len() > 0 {
        assert(a[a.len() - 1].weight == b[a.len() - 1].weight);
        assert forall|i: int| 0 <= i < a.len() - 1 implies (#[trigger] a.drop_last()[i]).weight
            == b.drop_last()[i].weight by {
            assert(a[i].weight == b[i].weight);
        }
        lemma_heaviest_is_weight(a.drop_last(), b.drop_last());
    }
}

/// Effective weights are never negative, never above the top, and positive
/// exactly for candidates that have a weight.
pub proof fn lemma_scores<U>(p: PoolView<U>, candidates: Seq<usize>)
    requires
        p.wf(),
    ensures
        p.scores(candidates).len() == p.current_weights().len() == p.backends.len(),
        0 <= p.top_score(),
        forall|i: int|
            0 <= i < p.backends.len() ==> 0 <= #[trigger] p.scores(candidates)[i] <= p.top_score(),
        forall|i: int|
            0 <= i < p.backends.len() ==> (#[trigger] p.scores(candidates)[i] > 0 <==> (
            candidates.contains(i as usize) && p.backends[i].weight > 0)),
{
    lemma_heaviest_is_weight(p.backends, p.backends);
    assert forall|i: int| 0 <= i < p.backends.len() implies 0 <= #[trigger] p.scores(candidates)[i]
        <= p.top_score() && (p.scores(candidates)[i] > 0 <==> (candidates.contains(i as usize)
        && p.backends[i].weight > 0)) by {
        let b = p.backends[i];
        lemma_heaviest(p.backends, i);
        assert(0 <= b.weight * b.ramp_percent <= 100 * b.weight && (b.weight > 0 <==> b.weight
            * b.ramp_percent > 0)) by (nonlinear_arith)
            requires
                0 <= b.weight,
                1 <= b.ramp_percent <= 100,
        ;
    }
}

/// The running weights and the sum of the scores fit where they are kept.
spec fn fits<U>(p: PoolView<U>, candidates: Seq<usize>) -> bool {
    let w = p.current_weights();
    let scores = p.scores(candidates);
    &&& 0 <= total(scores) <= i128::MAX
    &&& forall|i: int|
        0 <= i < w.len() ==> #[trigger] w[i] + scores[i] <= i128::MAX && w[i] + scores[i] - total(
            scores,
        ) >= i128::MIN
}

/// A score has 39 bits and an index 64, so nothing ever runs out of room.
proof fn lemma_fits<U>(p: PoolView<U>, candidates: Seq<usize>)
    requires
        p.wf(),
    ensures
        fits(p, candidates),
{
    let w = p.current_weights();
    let scores = p.scores(candidates);
    let n = w.len() as int;
    let top = p.top_score();
    lemma_scores(p, candidates);
    lemma_heaviest_fits(p.backends);
    crate::wrr::lemma_total_bounds(scores, top);
    assert(n * top <= 0x1_0000_0000_0000_0000 * 0x80_0000_0000) by (nonlinear_arith)
        requires
            0 <= n <= 0x1_0000_0000_0000_0000,
            0 <= top <= 0x80_0000_0000,
    ;
    assert forall|i: int| 0 <= i < w.len() implies #[trigger] w[i] + scores[i] <= i128::MAX && w[i]
        + scores[i] - total(scores) >= i128::MIN by {
        crate::wrr::lemma_balance_bounds(w, top, i);
    }
}

proof fn lemma_heaviest_fits<U>(backends: Seq<BackendView<U>>)
    ensures
        0 <= heaviest(backends) <= u32::MAX,
    decreases backends.len(),
{
    if backends.len() > 0 {
        lemma_heaviest_fits(backends.drop_last());
    }
}

/// Only one backend leads.
pub proof fn lemma_leader<U>(p: PoolView<U>, candidates: Seq<usize>, b: int)
    requires
        p.backends.len() <= usize::MAX,
        p.leads(candidates, b),
    ensures
        p.leader(candidates) == Some(b as usize),
{
    let c = choose|c: int| p.leads(candidates, c);
    assert(p.leads(candidates, c));
    let scores = p.scores(candidates);
    assert(scores[b] > 0 && scores[c] > 0);
    assert(b == c);
}

/// Only one backend is the idlest.
pub proof fn lemma_idlest<U>(p: PoolView<U>, candidates: Seq<usize>, b: usize)
    requires
        p.is_idlest(candidates, b),
    ensures
        p.idlest(candidates) == b,
{
    let c = p.idlest(candidates);
    assert(p.is_idlest(candidates, c));
    assert(candidates.contains(b) && candidates.contains(c));
}

pub struct Pool<U> {
    name: String,
    backends: Vec<Backend<U>>,
    strategy: Strategy,
    health: HealthConfig,
    rr_cursor: usize,
    ring: ConsistentHashRing,
    ring_signature: Vec<usize>,
    ewma: Option<EwmaConfig>,
}

impl<U> View for Pool<U> {
    type V = PoolView<U>;

    closed spec fn view(&self) -> PoolView<U> {
        PoolView {
            name: self.name@,
            backends: self.backends@.map_values(|b: Backend<U>| b@),
            strategy: self.strategy,
            health: self.health,
            rr_cursor: self.rr_cursor,
            ewma: self.ewma,
        }
    }
}

/// Whether `x` is in the list.
fn holds(list: &[usize], x: usize) -> (held: bool)
    ensures
        held == list@.contains(x),
{
    let mut i: usize = 0;
    while i < list.len()
        invariant
            i <= list@.len(),
            forall|k: int| 0 <= k < i ==> list@[k] != x,
        decreases list@.len() - i,
    {
        if list[i] == x {
            assert(list@[i as int] == x);
            return true;
        }
        i += 1;
    }
    false
}

/// Whether the lists are equal.
fn same_list(a: &Vec<usize>, b: &Vec<usize>) -> (equal: bool)
    ensures
        equal == (a@ == b@),
{
    if a.len() != b.len() {
        return false;
    }
    let mut i: usize = 0;
    while i < a.len()
        invariant
            i <= a@.len(),
            a@.len() == b@.len(),
            forall|k: int| 0 <= k < i ==> a@[k] == b@[k],
        decreases a@.len() - i,
    {
        if a[i] != b[i] {
            assert(a@[i as int] != b@[i as int]);
            return false;
        }
        i += 1;
    }
    assert(a@ =~= b@);
    true
}

impl<U> Pool<U> {
    /// What is kept of the ring is the ring of the backends it was built for.
    pub closed spec fn ring_is_current(self) -> bool {
        &&& self.ring@.vnodes == VNODES
        &&& self.ring_signature@.len() > 0 ==> {
            &&& forall|k: int|
                0 <= k < self.ring_signature@.len() ==> (#[trigger] self.ring_signature@[k])
                    < self.backends@.len()
            &&& self.ring@.points == ring_of(self@.members(self.ring_signature@), VNODES)
        }
    }

    /// What every operation keeps.
    pub open spec fn wf(self) -> bool {
        self@.wf() && self.ring_is_current()
    }

    pub fn new<N: IntoText>(name: N, strategy: Strategy, health: HealthConfig) -> (pool: Self)
        ensures
            pool@ == PoolView::<U>::empty(name.text(), strategy, health),
            pool.wf(),
    {
        let pool: Pool<U> = Self {
            name: name.into_text(),
            backends: Vec::new(),
            strategy,
            health,
            rr_cursor: 0,
            ring: ConsistentHashRing::new(VNODES),
            ring_signature: Vec::new(),
            ewma: None,
        };
        proof {
            assert(pool@.backends =~= Seq::empty());
            assert(pool@.current_weights() =~= Seq::empty());
            crate::wrr::lemma_no_nodes_balanced(pool@.top_score());
        }
        pool
    }

    pub fn name(&self) -> (name: &str)
        ensures
            name@ == self@.name,
    {
        self.name.as_str()
    }

    pub fn strategy(&self) -> (strategy: Strategy)
        ensures
            strategy == self@.strategy,
    {
        self.strategy
    }

    pub fn set_strategy(&mut self, s: Strategy)
        ensures
            final(self)@ == (PoolView { strategy: s, ..old(self)@ }),
            old(self).wf() ==> final(self).wf(),
    {
        self.strategy = s;
        proof {
            lemma_wf_kept(*old(self), *self);
        }
    }

    pub fn health_config(&self) -> (health: &HealthConfig)
        ensures
            *health == self@.health,
    {
        &self.health
    }

    pub fn len(&self) -> (len: usize)
        ensures
            len == self@.backends.len(),
    {
        self.backends.len()
    }

    pub fn is_empty(&self) -> (empty: bool)
        ensures
            empty == (self@.backends.len() == 0),
    {
        self.backends.len() == 0
    }

    pub fn backends(&self) -> (backends: &[Backend<U>])
        ensures
            backends@.map_values(|b: Backend<U>| b@) == self@.backends,
    {
        self.backends.as_slice()
    }

    pub fn backend(&self, idx: usize) -> (backend: &Backend<U>)
        requires
            idx < self@.backends.len(),
        ensures
            backend@ == self@.backends[idx as int],
    {
        &self.backends[idx]
    }

    /// Attach the EWMA latency outlier layer to this pool.
    pub fn enable_ewma(&mut self, cfg: EwmaConfig)
        ensures
            final(self)@ == (PoolView { ewma: Some(cfg), ..old(self)@ }),
            old(self).wf() ==> final(self).wf(),
    {
        self.ewma = Some(cfg);
        proof {
            lemma_wf_kept(*old(self), *self);
        }
    }

    pub fn ewma_config(&self) -> (cfg: Option<EwmaConfig>)
        ensures
            cfg == self@.ewma,
    {
        self.ewma
    }
}

/// An operation that touches neither names nor weights, running weights
/// included, and leaves every node at some percent, keeps the pool well formed.
proof fn lemma_wf_kept<U>(before: Pool<U>, after: Pool<U>)
    requires
        after.ring@ == before.ring@,
        after.ring_signature@ == before.ring_signature@,
        after@.backends.len() == before@.backends.len(),
        forall|i: int|
            0 <= i < before@.backends.len() ==> {
                let a = #[trigger] after@.backends[i];
                let b = before@.backends[i];
                &&& a.name == b.name
                &&& a.weight == b.weight
                &&& a.current_weight == b.current_weight
                &&& 1 <= b.ramp_percent <= 100 ==> 1 <= a.ramp_percent <= 100
            },
    ensures
        before.wf() ==> after.wf(),
{
    if before.wf() {
        assert(after@.current_weights() =~= before@.current_weights());
        lemma_heaviest_is_weight(after@.backends, before@.backends);
        lemma_ring_kept(before, after);
    }
}

/// What is kept of the ring stays good as long as the names do.
proof fn lemma_ring_kept<U>(before: Pool<U>, after: Pool<U>)
    requires
        before.ring_is_current(),
        after.ring@ == before.ring@,
        after.ring_signature@ == before.ring_signature@,
        after@.backends.len() == before@.backends.len(),
        forall|i: int|
            0 <= i < before@.backends.len() ==> (#[trigger] after@.backends[i]).name
                == before@.backends[i].name,
    ensures
        after.ring_is_current(),
{
    let sig = before.ring_signature@;
    if sig.len() > 0 {
        assert forall|k: int| 0 <= k < sig.len() implies #[trigger] after@.members(sig)[k]
            == before@.members(sig)[k] by {
            assert(sig[k] < before@.backends.len());
            assert(after@.backends[sig[k] as int].name == before@.backends[sig[k] as int].name);
        }
        assert(after@.members(sig) =~= before@.members(sig));
    }
}

impl<U> Pool<U> {
    /// Append a backend that has not been chosen yet.
    pub fn add_backend(&mut self, backend: Backend<U>)
        requires
            old(self).wf(),
            old(self)@.backends.len() < usize::MAX,
            backend@.current_weight == 0,
            1 <= backend@.ramp_percent <= 100,
        ensures
            final(self)@ == (PoolView {
                backends: old(self)@.backends.push(backend@),
                ..old(self)@
            }),
            final(self).wf(),
    {
        self.backends.push(backend);
        self.ring_signature.clear();
        proof {
            let before = old(self)@;
            let grown = before.backends.push(backend@);
            assert(self@.backends =~= grown);
            assert(grown.drop_last() =~= before.backends);
            assert(self@.current_weights() =~= before.current_weights().push(0));
            lemma_heaviest_is_weight(before.backends, before.backends);
            crate::wrr::lemma_join_keeps_balance(
                before.current_weights(),
                before.top_score(),
                self@.top_score(),
            );
        }
    }

    /// Promote circuit breakers on the clock, reinstate ejected outliers whose
    /// cooldown has elapsed, and when the EWMA layer is enabled, evaluate
    /// latency outliers and drive the reinstatement ramp. Must run before any
    /// selection so state is current.
    pub fn poll(&mut self, now: u64)
        requires
            old(self)@.can_poll(now),
        ensures
            final(self)@ == old(self)@.polled(now),
            old(self).wf() ==> final(self).wf(),
    {
        let ewma: Option<EwmaConfig> = self.ewma;
        let line: u64 = match ewma {
            Some(cfg) => cfg.threshold_milli(self.ewma_mean(&cfg)),
            None => 0,
        };
        let ghost before = *old(self);
        let mut i: usize = 0;
        while i < self.backends.len()
            invariant
                i <= self.backends@.len(),
                before@.can_poll(now),
                ewma == before@.ewma,
                line == before@.line(),
                self@ == (PoolView { backends: self@.backends, ..before@ }),
                self.ring@ == before.ring@,
                self.ring_signature@ == before.ring_signature@,
                self.backends@.len() == before@.backends.len(),
                forall|j: int|
                    0 <= j < i ==> (#[trigger] self.backends@[j])@ == before@.backends[j].polled(
                        now,
                        ewma,
                        line,
                    ),
                forall|j: int|
                    i <= j < before@.backends.len() ==> (#[trigger] self.backends@[j])@
                        == before@.backends[j],
            decreases self.backends@.len() - i,
        {
            assert(self.backends@[i as int]@ == before@.backends[i as int]);
            self.backends[i].poll(now, ewma, line);
            i += 1;
        }
        proof {
            assert(self@.backends =~= before@.polled(now).backends);
            lemma_wf_kept(before, *self);
        }
    }

    /// Mean EWMA over nodes with enough samples, in milli milliseconds.
    fn ewma_mean(&self, cfg: &EwmaConfig) -> (mean: u64)
        requires
            self@.ewma == Some(*cfg),
        ensures
            mean == self@.mean_milli(),
    {
        let ghost bs = self@.backends;
        let mut sum: u128 = 0;
        let mut n: u64 = 0;
        let mut i: usize = 0;
        while i < self.backends.len()
            invariant
                i <= self.backends@.len(),
                bs == self@.backends,
                sum == measured_sum(bs.take(i as int), cfg.min_samples),
                n == measured_count(bs.take(i as int), cfg.min_samples),
                n <= i,
                sum <= n * u64::MAX,
            decreases self.backends@.len() - i,
        {
            assert(bs.take(i + 1).drop_last() =~= bs.take(i as int));
            assert(bs.take(i + 1).last() == self.backends@[i as int]@);
            let b: &Backend<U> = &self.backends[i];
            if b.ewma_samples() >= cfg.min_samples {
                let ewma: u64 = match b.ewma_milli() {
                    Some(ewma) => ewma,
                    None => 0,
                };
                assert((n + 1) * u64::MAX == n * u64::MAX + u64::MAX) by (nonlinear_arith);
                assert(n * u64::MAX <= u64::MAX * u64::MAX) by (nonlinear_arith)
                    requires
                        n <= u64::MAX,
                ;
                sum = sum + ewma as u128;
                n = n + 1;
            }
            i += 1;
        }
        assert(bs.take(bs.len() as int) =~= bs);
        if n == 0 {
            0
        } else {
            assert(sum / n as u128 <= u64::MAX) by (nonlinear_arith)
                requires
                    sum <= n * u64::MAX,
                    n > 0,
            ;
            (sum / n as u128) as u64
        }
    }

    fn available_indices(&self, now: u64, exclude: &[usize]) -> (available: Vec<usize>)
        ensures
            available@ == self@.candidates(now, exclude@),
    {
        let mut available: Vec<usize> = Vec::new();
        let mut i: usize = 0;
        while i < self.backends.len()
            invariant
                i <= self.backends@.len(),
                available@ == self@.candidates_among(now, exclude@, i as int),
            decreases self.backends@.len() - i,
        {
            assert(self@.backends[i as int] == self.backends@[i as int]@);
            if !holds(exclude, i) && self.backends[i].is_available(now) {
                available.push(i);
            }
            i += 1;
        }
        available
    }

    pub fn begin(&mut self, idx: usize)
        requires
            idx < old(self)@.backends.len(),
            old(self)@.backends[idx as int].in_flight < u32::MAX,
        ensures
            final(self)@ == old(self)@.with_backend(
                idx as int,
                old(self)@.backends[idx as int].begun(),
            ),
            old(self).wf() ==> final(self).wf(),
    {
        self.backends[idx].begin();
        proof {
            assert(self@.backends =~= old(self)@.backends.update(
                idx as int,
                self.backends@[idx as int]@,
            ));
            lemma_wf_kept(*old(self), *self);
        }
    }

    /// An end without a begin changes nothing.
    pub fn end(&mut self, idx: usize)
        requires
            idx < old(self)@.backends.len(),
        ensures
            final(self)@ == old(self)@.with_backend(
                idx as int,
                old(self)@.backends[idx as int].ended(),
            ),
            old(self).wf() ==> final(self).wf(),
    {
        self.backends[idx].end();
        proof {
            assert(self@.backends =~= old(self)@.backends.update(
                idx as int,
                self.backends@[idx as int]@,
            ));
            lemma_wf_kept(*old(self), *self);
        }
    }

    /// Feed a successful outcome back into the backend health and circuit state.
    pub fn record_success(&mut self, idx: usize, now: u64)
        requires
            idx < old(self)@.backends.len(),
            old(self)@.backends[idx as int].served < u64::MAX,
        ensures
            final(self)@ == old(self)@.with_backend(
                idx as int,
                old(self)@.backends[idx as int].succeeded(now),
            ),
            old(self).wf() ==> final(self).wf(),
    {
        self.backends[idx].record_success(now);
        proof {
            assert(self@.backends =~= old(self)@.backends.update(
                idx as int,
                self.backends@[idx as int]@,
            ));
            lemma_wf_kept(*old(self), *self);
        }
    }

    /// Like `record_success` and additionally fold the request latency into the
    /// node's EWMA when the EWMA layer is enabled. Callers without a latency
    /// measurement can keep using `record_success`, which never touches the
    /// EWMA so it cannot skew the pool mean.
    pub fn record_success_latency(&mut self, idx: usize, now: u64, latency_ms: u64)
        requires
            idx < old(self)@.backends.len(),
            old(self)@.backends[idx as int].served < u64::MAX,
            old(self)@.ewma is Some ==> old(self)@.backends[idx as int].ewma_samples < u32::MAX,
        ensures
            final(self)@ == old(self)@.with_backend(
                idx as int,
                old(self)@.backends[idx as int].succeeded(now).sampled(
                    old(self)@.ewma,
                    latency_ms,
                ),
            ),
            old(self).wf() ==> final(self).wf(),
    {
        self.record_success(idx, now);
        let ghost mid = *self;
        assert(self.backends@.len() == mid@.backends.len());
        if let Some(cfg) = self.ewma {
            assert(self.backends@[idx as int]@ == mid@.backends[idx as int]);
            self.backends[idx].record_latency(&cfg, latency_ms);
        }
        proof {
            assert(self@.backends =~= mid@.backends.update(
                idx as int,
                self.backends@[idx as int]@,
            ));
            assert(self@.backends =~= old(self)@.backends.update(
                idx as int,
                self.backends@[idx as int]@,
            ));
            lemma_wf_kept(mid, *self);
        }
    }

    /// Feed a failed outcome back in. May trip the breaker or eject the backend
    /// as an outlier once the consecutive failure threshold is reached. A single
    /// continuous ejection counts exactly once: failures that land while the
    /// backend is already ejected neither re count nor extend the cooldown.
    pub fn record_failure(&mut self, idx: usize, now: u64)
        requires
            idx < old(self)@.backends.len(),
            old(self)@.backends[idx as int].can_fail(now, old(self)@.health),
        ensures
            final(self)@ == old(self)@.with_backend(
                idx as int,
                old(self)@.backends[idx as int].failed(now, old(self)@.health),
            ),
            old(self).wf() ==> final(self).wf(),
    {
        let health: HealthConfig = self.health;
        self.backends[idx].record_failure(now, &health);
        proof {
            assert(self@.backends =~= old(self)@.backends.update(
                idx as int,
                self.backends@[idx as int]@,
            ));
            lemma_wf_kept(*old(self), *self);
        }
    }
}

impl<U> Pool<U> {
    /// Choose a backend for this request, honoring the strategy and skipping any
    /// index in `exclude` (used by failover). Returns None when nothing is
    /// available, or when the strategy is weighted and everything available has
    /// weight zero. `poll(now)` must have been called first.
    pub fn select(&mut self, now: u64, key: Option<&str>, exclude: &[usize]) -> (chosen: Option<
        usize,
    >)
        requires
            old(self).wf(),
        ensures
            chosen == old(self)@.pick(now, key_text(key), exclude@),
            final(self)@ == old(self)@.after_pick(now, key_text(key), exclude@),
            final(self).wf(),
    {
        let available: Vec<usize> = self.available_indices(now, exclude);
        proof {
            lemma_candidates(self@, now, exclude@, self@.backends.len() as int);
        }
        if available.len() == 0 {
            return None;
        }
        match self.strategy {
            Strategy::RoundRobin => Some(self.select_round_robin(&available)),
            Strategy::Weighted => self.select_weighted(&available),
            Strategy::LeastConnections => Some(self.select_least_conn(&available)),
            Strategy::ConsistentHash => Some(self.select_hash(&available, key)),
        }
    }

    fn select_round_robin(&mut self, available: &Vec<usize>) -> (pick: usize)
        requires
            old(self).wf(),
            available@.len() > 0,
        ensures
            pick == old(self)@.turn(available@),
            final(self)@ == (PoolView {
                rr_cursor: if old(self)@.rr_cursor == usize::MAX {
                    0
                } else {
                    (old(self)@.rr_cursor + 1) as usize
                },
                ..old(self)@
            }),
            final(self).wf(),
    {
        let pick: usize = available[self.rr_cursor % available.len()];
        self.rr_cursor = self.rr_cursor.wrapping_add(1);
        proof {
            lemma_wf_kept(*old(self), *self);
        }
        pick
    }

    fn select_weighted(&mut self, available: &Vec<usize>) -> (pick: Option<usize>)
        requires
            old(self).wf(),
            forall|k: int|
                0 <= k < available@.len() ==> (#[trigger] available@[k])
                    < old(self)@.backends.len(),
            forall|j: int, k: int|
                0 <= j < k < available@.len() ==> available@[j] < available@[k],
        ensures
            pick == old(self)@.leader(available@),
            final(self)@ == (match old(self)@.leader(available@) {
                Some(b) => old(self)@.with_weights(
                    after_pick(
                        old(self)@.current_weights(),
                        old(self)@.scores(available@),
                        b as int,
                    ),
                ),
                None => old(self)@,
            }),
            final(self).wf(),
    {
        // Zero weight nodes receive no traffic. If every available node has
        // weight zero the pool has no capacity under this strategy. Nodes on a
        // reinstatement ramp carry a fraction of their weight, which the
        // smooth WRR arithmetic reproduces exactly.
        let ghost before = *old(self);
        let ghost p = before@;
        let ghost w = p.current_weights();
        let ghost scores = p.scores(available@);
        let mut best: Option<usize> = None;
        let mut sum: i128 = 0;
        let mut k: usize = 0;
        proof {
            lemma_scores(p, available@);
            lemma_fits(p, available@);
            let none = p.scores(available@.take(0));
            crate::wrr::lemma_zero_total(none);
            assert forall|i: int| 0 <= i < p.backends.len() implies (#[trigger] self.backends@[i])@
                == raised(p, none, i) by {}
        }
        while k < available.len()
            invariant
                k <= available@.len(),
                p == before@,
                p.wf(),
                w == p.current_weights(),
                scores == p.scores(available@),
                fits(p, available@),
                forall|k: int|
                    0 <= k < available@.len() ==> (#[trigger] available@[k]) < p.backends.len(),
                forall|j: int, k: int|
                    0 <= j < k < available@.len() ==> available@[j] < available@[k],
                self@ == (PoolView { backends: self@.backends, ..p }),
                self.ring@ == before.ring@,
                self.ring_signature@ == before.ring_signature@,
                self.backends@.len() == p.backends.len(),
                forall|i: int|
                    0 <= i < p.backends.len() ==> (#[trigger] self.backends@[i])@ == raised(
                        p,
                        p.scores(available@.take(k as int)),
                        i,
                    ),
                sum == total(p.scores(available@.take(k as int))),
                best matches Some(b) ==> leads_so_far(p, available@, k as int, b),
                best is None ==> forall|j: int|
                    0 <= j < k ==> scores[#[trigger] available@[j] as int] == 0,
            decreases available@.len() - k,
        {
            let i: usize = available[k];
            let ghost part = p.scores(available@.take(k as int));
            let ghost next = p.scores(available@.take(k + 1));
            proof {
                lemma_scores(p, available@);
                lemma_one_more(p, available@, k as int);
                crate::wrr::lemma_update_total(part, i as int, scores[i as int]);
                crate::wrr::lemma_total_is_monotonic(next, scores);
                assert(self.backends@[i as int]@ == raised(p, part, i as int));
                assert(w[i as int] + scores[i as int] <= i128::MAX);
            }
            if self.backends[i].weight() != 0 {
                let score: i128 = self.backends[i].score() as i128;
                sum = sum + score;
                self.backends[i].add_weight(score);
                assert(self.backends@[i as int]@ == raised(p, next, i as int));
                match best {
                    None => {
                        best = Some(i);
                    },
                    Some(b) => {
                        assert(self.backends@[b as int]@ == raised(p, next, b as int));
                        if self.backends[i].current_weight() > self.backends[b].current_weight() {
                            best = Some(i);
                        }
                    },
                }
            }
            k += 1;
        }
        assert(available@.take(available@.len() as int) =~= available@);
        if let Some(b) = best {
            proof {
                lemma_scores(p, available@);
                crate::wrr::lemma_total_bounds(scores, p.top_score());
                assert(p.leads(available@, b as int));
                lemma_leader(p, available@, b as int);
                assert(self.backends@[b as int]@ == raised(p, scores, b as int));
                crate::wrr::lemma_pick_keeps_balance(w, scores, b as int, p.top_score());
            }
            self.backends[b].add_weight(-sum);
            proof {
                let moved = p.with_weights(after_pick(w, scores, b as int));
                assert(self@.backends =~= moved.backends);
                assert(self@.current_weights() =~= after_pick(w, scores, b as int));
                lemma_heaviest_is_weight(self@.backends, p.backends);
                lemma_ring_kept(before, *self);
            }
        } else {
            proof {
                lemma_scores(p, available@);
                assert forall|i: int| 0 <= i < p.backends.len() implies #[trigger] scores[i]
                    == 0 by {
                    if scores[i] > 0 {
                        let j = choose|j: int| 0 <= j < available@.len() && available@[j] == i;
                        assert(scores[available@[j] as int] == 0);
                    }
                }
                assert(self@.backends =~= p.backends);
                lemma_wf_kept(before, *self);
            }
        }
        best
    }

    fn select_least_conn(&self, available: &Vec<usize>) -> (best: usize)
        requires
            available@.len() > 0,
            forall|k: int|
                0 <= k < available@.len() ==> (#[trigger] available@[k]) < self@.backends.len(),
            forall|j: int, k: int|
                0 <= j < k < available@.len() ==> available@[j] < available@[k],
        ensures
            best == self@.idlest(available@),
    {
        let ghost bs = self@.backends;
        let mut best: usize = available[0];
        let mut k: usize = 1;
        assert(available@.contains(available@[0]));
        while k < available.len()
            invariant
                1 <= k <= available@.len(),
                bs == self@.backends,
                available@.contains(best),
                best < bs.len(),
                best <= available@[k - 1],
                forall|k: int|
                    0 <= k < available@.len() ==> (#[trigger] available@[k]) < bs.len(),
                forall|j: int, k: int|
                    0 <= j < k < available@.len() ==> available@[j] < available@[k],
                forall|j: int|
                    0 <= j < k ==> {
                        let i = #[trigger] available@[j];
                        &&& bs[best as int].in_flight <= bs[i as int].in_flight
                        &&& i < best ==> bs[best as int].in_flight < bs[i as int].in_flight
                    },
            decreases available@.len() - k,
        {
            let i: usize = available[k];
            assert(bs[i as int] == self.backends@[i as int]@);
            assert(bs[best as int] == self.backends@[best as int]@);
            if self.backends[i].in_flight() < self.backends[best].in_flight() {
                best = i;
                assert(available@[k as int] == i);
            }
            k += 1;
        }
        proof {
            assert(self@.is_idlest(available@, best));
            lemma_idlest(self@, available@, best);
        }
        best
    }

    fn select_hash(&mut self, available: &Vec<usize>, key: Option<&str>) -> (pick: usize)
        requires
            old(self).wf(),
            available@.len() > 0,
            forall|k: int|
                0 <= k < available@.len() ==> (#[trigger] available@[k])
                    < old(self)@.backends.len(),
        ensures
            key is Some ==> Some(pick) == old(self)@.keeper(available@, key->0@) && final(self)@
                == old(self)@,
            key is None ==> pick == old(self)@.turn(available@) && final(self)@ == (PoolView {
                rr_cursor: if old(self)@.rr_cursor == usize::MAX {
                    0
                } else {
                    (old(self)@.rr_cursor + 1) as usize
                },
                ..old(self)@
            }),
            final(self).wf(),
    {
        let Some(key) = key else {
            return self.select_round_robin(available);
        };
        let ghost before = self@;
        if !same_list(&self.ring_signature, available) || self.ring.is_empty() {
            let mut members: Vec<(usize, &str)> = Vec::new();
            let mut k: usize = 0;
            while k < available.len()
                invariant
                    k <= available@.len(),
                    before == self@,
                    forall|k: int|
                        0 <= k < available@.len() ==> (#[trigger] available@[k])
                            < before.backends.len(),
                    member_list(members@) =~= before.members(available@.take(k as int)),
                decreases available@.len() - k,
            {
                let i: usize = available[k];
                assert(before.backends[i as int] == self.backends@[i as int]@);
                let ghost list = member_list(members@);
                members.push((i, self.backends[i].name()));
                assert(member_list(members@) =~= list.push((i, before.backends[i as int].name)));
                assert(available@.take(k + 1) =~= available@.take(k as int).push(i));
                k += 1;
            }
            assert(available@.take(available@.len() as int) =~= available@);
            self.ring.rebuild(members.as_slice());
            self.ring_signature = vstd::slice::slice_to_vec(available.as_slice());
        }
        assert(self@ == before);
        proof {
            law_every_key_has_an_owner(before.members(available@), VNODES, key@);
        }
        match self.ring.lookup(key) {
            Some(owner) => owner,
            None => available[0],
        }
    }
}

/// A session key as the sequence of its characters.
pub open spec fn key_text(key: Option<&str>) -> Option<Seq<char>> {
    match key {
        Some(key) => Some(key@),
        None => None,
    }
}

/// Backend `i` with its running weight raised by its score.
spec fn raised<U>(p: PoolView<U>, scores: Seq<int>, i: int) -> BackendView<U> {
    BackendView { current_weight: p.backends[i].current_weight + scores[i], ..p.backends[i] }
}

/// `b` leads among the first `k` candidates.
spec fn leads_so_far<U>(p: PoolView<U>, candidates: Seq<usize>, k: int, b: usize) -> bool {
    let w = p.current_weights();
    let scores = p.scores(candidates);
    &&& b < p.backends.len()
    &&& scores[b as int] > 0
    &&& candidates.take(k).contains(b)
    &&& forall|j: int|
        0 <= j < k ==> {
            let i = (#[trigger] candidates[j]) as int;
            scores[i] > 0 ==> {
                &&& w[i] + scores[i] <= w[b as int] + scores[b as int]
                &&& i < b ==> w[i] + scores[i] < w[b as int] + scores[b as int]
            }
        }
}

/// The candidate behind the first `k` brings its own score and nothing else.
proof fn lemma_one_more<U>(p: PoolView<U>, candidates: Seq<usize>, k: int)
    requires
        p.wf(),
        0 <= k < candidates.len(),
        forall|k: int|
            0 <= k < candidates.len() ==> (#[trigger] candidates[k]) < p.backends.len(),
        forall|j: int, k: int| 0 <= j < k < candidates.len() ==> candidates[j] < candidates[k],
    ensures
        ({
            let i = candidates[k] as int;
            let part = p.scores(candidates.take(k));
            let next = p.scores(candidates.take(k + 1));
            let scores = p.scores(candidates);
            &&& part[i] == 0
            &&& next == part.update(i, scores[i])
            &&& forall|i: int| 0 <= i < p.backends.len() ==> next[i] <= #[trigger] scores[i]
            &&& candidates.take(k + 1).contains(candidates[k])
            &&& forall|b: usize| #[trigger]
                candidates.take(k).contains(b) ==> candidates.take(k + 1).contains(b) && b < i
        }),
{
    let i = candidates[k];
    let front = candidates.take(k);
    let more = candidates.take(k + 1);
    let part = p.scores(front);
    let next = p.scores(more);
    let scores = p.scores(candidates);
    lemma_scores(p, candidates);
    assert(more =~= front.push(i));
    assert(candidates[k] == i);
    assert(more[k] == i);
    assert forall|b: usize| #[trigger] front.contains(b) implies more.contains(b) && b < i by {
        let j = choose|j: int| 0 <= j < front.len() && front[j] == b;
        assert(more[j] == b);
        assert(candidates[j] < candidates[k]);
    }
    assert forall|x: int| 0 <= x < p.backends.len() implies next[x] == part.update(
        i as int,
        scores[i as int],
    )[x] && next[x] <= #[trigger] scores[x] by {
        if more.contains(x as usize) {
            let j = choose|j: int| 0 <= j < more.len() && more[j] == x as usize;
            assert(candidates[j] == x as usize);
            if j < k {
                assert(front[j] == x as usize);
            }
        }
        if x == i {
            assert(!front.contains(i));
        }
    }
    assert(next =~= part.update(i as int, scores[i as int]));
}

impl<U> PoolView<U> {
    /// `row` reports on backend `i`: what it received versus its share of the
    /// currently available effective weight, plus latency and ramp state.
    pub open spec fn reports(self, now: u64, i: int, row: DistributionRow) -> bool {
        let b = self.backends[i];
        &&& row.name@ == b.name
        &&& row.served == b.served
        &&& row.total_served == served_by(self.backends)
        &&& row.score == (if b.is_available(now) {
            b.score()
        } else {
            0
        })
        &&& row.total_score == self.available_score(now)
        &&& row.weight == b.weight
        &&& row.ewma_milli == b.ewma_milli
        &&& row.ejected == b.is_ejected(now)
        &&& row.ramp_percent == b.ramp_percent
        &&& row.ewma_ejections == b.ewma_ejections
    }
}

proof fn lemma_served_is_monotonic<U>(backends: Seq<BackendView<U>>, n: int)
    requires
        0 <= n <= backends.len(),
    ensures
        served_by(backends.take(n)) <= served_by(backends),
    decreases backends.len() - n,
{
    if n < backends.len() {
        lemma_served_is_monotonic(backends, n + 1);
        assert(backends.take(n + 1).drop_last() =~= backends.take(n));
    } else {
        assert(backends.take(n) =~= backends);
    }
}

impl<U> Pool<U> {
    /// The outcomes recorded by all backends.
    fn total_served(&self) -> (sum: u64)
        requires
            served_by(self@.backends) <= u64::MAX,
        ensures
            sum == served_by(self@.backends),
    {
        let ghost bs = self@.backends;
        let mut sum: u64 = 0;
        let mut i: usize = 0;
        while i < self.backends.len()
            invariant
                i <= self.backends@.len(),
                bs == self@.backends,
                served_by(bs) <= u64::MAX,
                sum == served_by(bs.take(i as int)),
            decreases self.backends@.len() - i,
        {
            proof {
                assert(bs.take(i + 1).drop_last() =~= bs.take(i as int));
                assert(bs.take(i + 1).last() == self.backends@[i as int]@);
                lemma_served_is_monotonic(bs, i + 1);
            }
            sum = sum + self.backends[i].served();
            i += 1;
        }
        assert(bs.take(bs.len() as int) =~= bs);
        sum
    }

    /// The effective weight of the given backends together.
    fn total_score(&self, available: &Vec<usize>) -> (sum: i128)
        requires
            self@.wf(),
            forall|k: int|
                0 <= k < available@.len() ==> (#[trigger] available@[k]) < self@.backends.len(),
            forall|j: int, k: int|
                0 <= j < k < available@.len() ==> available@[j] < available@[k],
        ensures
            sum == total(self@.scores(available@)),
    {
        let ghost p = self@;
        let ghost scores = p.scores(available@);
        let mut sum: i128 = 0;
        let mut k: usize = 0;
        proof {
            lemma_fits(p, available@);
            crate::wrr::lemma_zero_total(p.scores(available@.take(0)));
        }
        while k < available.len()
            invariant
                k <= available@.len(),
                p == self@,
                p.wf(),
                scores == p.scores(available@),
                forall|k: int|
                    0 <= k < available@.len() ==> (#[trigger] available@[k]) < p.backends.len(),
                forall|j: int, k: int|
                    0 <= j < k < available@.len() ==> available@[j] < available@[k],
                fits(p, available@),
                sum == total(p.scores(available@.take(k as int))),
                0 <= sum,
            decreases available@.len() - k,
        {
            let i: usize = available[k];
            proof {
                let part = p.scores(available@.take(k as int));
                let next = p.scores(available@.take(k + 1));
                lemma_scores(p, available@);
                lemma_one_more(p, available@, k as int);
                crate::wrr::lemma_update_total(part, i as int, scores[i as int]);
                crate::wrr::lemma_total_is_monotonic(next, scores);
                assert(p.backends[i as int] == self.backends@[i as int]@);
            }
            sum = sum + self.backends[i].score() as i128;
            k += 1;
        }
        assert(available@.take(available@.len() as int) =~= available@);
        sum
    }

    /// Distribution report: what each node actually received versus its share
    /// of the currently available effective weight, plus EWMA and ramp state.
    pub fn distribution(&self, now: u64) -> (rows: Vec<DistributionRow>)
        requires
            self.wf(),
            served_by(self@.backends) <= u64::MAX,
        ensures
            rows@.len() == self@.backends.len(),
            forall|i: int|
                0 <= i < rows@.len() ==> self@.reports(now, i, #[trigger] rows@[i]),
    {
        let total_served: u64 = self.total_served();
        let nobody: Vec<usize> = Vec::new();
        let available: Vec<usize> = self.available_indices(now, nobody.as_slice());
        proof {
            assert(nobody@ =~= Seq::<usize>::empty());
            lemma_candidates(self@, now, Seq::empty(), self@.backends.len() as int);
        }
        let total_score: i128 = self.total_score(&available);
        let mut rows: Vec<DistributionRow> = Vec::new();
        let mut i: usize = 0;
        while i < self.backends.len()
            invariant
                i <= self.backends@.len(),
                self.wf(),
                total_served == served_by(self@.backends),
                total_score == self@.available_score(now),
                rows@.len() == i,
                forall|j: int| 0 <= j < i ==> self@.reports(now, j, #[trigger] rows@[j]),
            decreases self.backends@.len() - i,
        {
            assert(self@.backends[i as int] == self.backends@[i as int]@);
            let b: &Backend<U> = &self.backends[i];
            let is_available: bool = b.is_available(now);
            rows.push(
                DistributionRow {
                    name: b.name().to_owned(),
                    served: b.served(),
                    total_served,
                    score: if is_available {
                        b.score()
                    } else {
                        0
                    },
                    total_score,
                    weight: b.weight(),
                    ewma_milli: b.ewma_milli(),
                    ejected: b.is_ejected(now),
                    ramp_percent: b.ramp_percent(),
                    ewma_ejections: b.ewma_ejections(),
                },
            );
            i += 1;
        }
        rows
    }

    /// Convenience for building a pool over an injected clock.
    pub fn poll_with(&mut self, clock: &dyn Clock)
        requires
            forall|now: u64| #[trigger] clock.reads(now) ==> old(self)@.can_poll(now),
        ensures
            exists|now: u64| #[trigger] clock.reads(now) && final(self)@ == old(self)@.polled(now),
            old(self).wf() ==> final(self).wf(),
    {
        let now: u64 = clock.now_millis();
        self.poll(now);
    }
}

impl<U: Upstream> PoolView<U> {
    /// Checking the pool at `now` may leave it as `post`: each backend is
    /// checked on its own, and nothing else changes.
    pub open spec fn checked(self, now: u64, post: PoolView<U>) -> bool {
        &&& post == (PoolView { backends: post.backends, ..self })
        &&& post.backends.len() == self.backends.len()
        &&& forall|i: int|
            0 <= i < self.backends.len() ==> (#[trigger] self.backends[i]).checked(
                now,
                self.health,
                post.backends[i],
            )
    }

    /// Every backend that is due can be probed.
    pub open spec fn can_check(self, now: u64) -> bool {
        forall|i: int|
            0 <= i < self.backends.len() && (#[trigger] self.backends[i]).probe_due(
                now,
                self.health,
            ) ==> self.backends[i].can_be_probed()
    }
}

impl<U: Upstream> Pool<U> {
    /// Send a request to a chosen backend. Does not touch `in_flight`, breaker, or
    /// health. The proxy owns that lifecycle via `begin`, `record_*`, and `end`.
    pub fn dispatch(&mut self, idx: usize, req: &Request) -> (reply: UpstreamReply)
        requires
            idx < old(self)@.backends.len(),
            old(self)@.backends[idx as int].upstream.ready(),
        ensures
            old(self)@.backends[idx as int].answers(
                req@,
                reply@,
                final(self)@.backends[idx as int],
            ),
            final(self)@ == old(self)@.with_backend(
                idx as int,
                final(self)@.backends[idx as int],
            ),
            old(self).wf() ==> final(self).wf(),
    {
        let reply: UpstreamReply = self.backends[idx].send(req);
        proof {
            assert(self@.backends =~= old(self)@.backends.update(
                idx as int,
                self.backends@[idx as int]@,
            ));
            lemma_wf_kept(*old(self), *self);
        }
        reply
    }

    /// Run active health probes for any backend whose probe interval has elapsed.
    pub fn run_health_checks(&mut self, now: u64)
        requires
            old(self)@.can_check(now),
        ensures
            old(self)@.checked(now, final(self)@),
            old(self).wf() ==> final(self).wf(),
    {
        let health: HealthConfig = self.health;
        let ghost before = *old(self);
        let mut i: usize = 0;
        while i < self.backends.len()
            invariant
                i <= self.backends@.len(),
                before@.can_check(now),
                health == before@.health,
                self@ == (PoolView { backends: self@.backends, ..before@ }),
                self.ring@ == before.ring@,
                self.ring_signature@ == before.ring_signature@,
                self.backends@.len() == before@.backends.len(),
                forall|j: int|
                    0 <= j < i ==> before@.backends[j].checked(
                        now,
                        health,
                        (#[trigger] self.backends@[j])@,
                    ),
                forall|j: int|
                    i <= j < before@.backends.len() ==> (#[trigger] self.backends@[j])@
                        == before@.backends[j],
            decreases self.backends@.len() - i,
        {
            assert(self.backends@[i as int]@ == before@.backends[i as int]);
            self.backends[i].check(now, &health);
            i += 1;
        }
        proof {
            assert forall|i: int| 0 <= i < before@.backends.len() implies (
            #[trigger] before@.backends[i]).checked(now, health, self@.backends[i]) by {
                assert(self.backends@[i]@ == self@.backends[i]);
            }
            assert forall|i: int| 0 <= i < before@.backends.len() implies ({
                let a = #[trigger] self@.backends[i];
                let b = before@.backends[i];
                &&& a.name == b.name
                &&& a.weight == b.weight
                &&& a.current_weight == b.current_weight
                &&& 1 <= b.ramp_percent <= 100 ==> 1 <= a.ramp_percent <= 100
            }) by {
                assert(before@.backends[i].checked(now, health, self@.backends[i]));
            }
            lemma_wf_kept(before, *self);
        }
    }
}

/// The rows of a report add up: what the nodes served to what was served at all, and
/// their effective weights to that of everything available.
pub proof fn law_report_adds_up<U>(p: PoolView<U>, now: u64, rows: Seq<DistributionRow>, k: int)
    requires
        p.wf(),
        rows.len() == p.backends.len(),
        forall|i: int| 0 <= i < rows.len() ==> p.reports(now, i, #[trigger] rows[i]),
        0 <= k < rows.len(),
    ensures
        total(Seq::new(rows.len(), |i: int| rows[i].served as int)) == rows[k].total_served,
        total(Seq::new(rows.len(), |i: int| rows[i].score as int)) == rows[k].total_score,
{
    let c = p.candidates(now, Seq::empty());
    lemma_candidates(p, now, Seq::empty(), p.backends.len() as int);
    assert(p.reports(now, k, rows[k]));
    let served = Seq::new(rows.len(), |i: int| rows[i].served as int);
    lemma_served_total(p.backends, served, p.backends.len() as int);
    assert(p.backends.take(p.backends.len() as int) =~= p.backends);
    let scores = Seq::new(rows.len(), |i: int| rows[i].score as int);
    assert forall|i: int| 0 <= i < rows.len() implies scores[i] == p.scores(c)[i] by {
        assert(p.reports(now, i, rows[i]));
        if p.backends[i].is_available(now) {
            assert(p.is_candidate(now, Seq::empty(), i));
        } else if c.contains(i as usize) {
            let j = choose|j: int| 0 <= j < c.len() && c[j] == i as usize;
            assert(p.is_candidate(now, Seq::empty(), c[j] as int));
        }
    }
    assert(scores =~= p.scores(c));
}

proof fn lemma_served_total<U>(backends: Seq<BackendView<U>>, served: Seq<int>, n: int)
    requires
        0 <= n <= backends.len() == served.len(),
        forall|i: int| 0 <= i < served.len() ==> #[trigger] served[i] == backends[i].served,
    ensures
        sum_at(served, Set::full(), n) == served_by(backends.take(n)),
    decreases n,
{
    if n > 0 {
        lemma_served_total(backends, served, n - 1);
        assert(backends.take(n).drop_last() =~= backends.take(n - 1));
        assert(served[n - 1] == backends[n - 1].served);
    }
}

/// Without a latency layer the latency of a success is passed over: the pool is as
/// after any success. With one, the latency is folded into the average of its backend
/// and counted as a sample there, and everything else is as after any success.
pub proof fn law_latency_comes_on_top_of_success<U>(
    p: PoolView<U>,
    idx: int,
    now: u64,
    latency_ms: u64,
)
    requires
        0 <= idx < p.backends.len(),
    ensures
        ({
            let b = p.backends[idx].succeeded(now);
            let q = p.with_backend(idx, b);
            let sampled = p.with_backend(idx, b.sampled(p.ewma, latency_ms));
            &&& p.ewma is None ==> sampled == q
            &&& p.ewma matches Some(cfg) ==> sampled == q.with_backend(
                idx,
                BackendView {
                    ewma_milli: Some(cfg.folded(p.backends[idx].ewma_milli, latency_ms) as u64),
                    ewma_samples: p.backends[idx].ewma_samples + 1,
                    ..q.backends[idx]
                },
            )
        }),
{
    let b = p.backends[idx].succeeded(now);
    let q = p.with_backend(idx, b);
    assert(q.backends.update(idx, b.sampled(p.ewma, latency_ms)) =~= p.backends.update(
        idx,
        b.sampled(p.ewma, latency_ms),
    ));
}

/// A poll ejects a node for latency only when its average, over enough samples,
/// is above the configured multiple of the pool mean. The mean leaves out nodes
/// with too few samples.
pub proof fn law_latency_ejection_is_relative_to_mean<U>(
    p: PoolView<U>,
    now: u64,
    cfg: EwmaConfig,
    i: int,
)
    requires
        p.ewma == Some(cfg),
        0 <= i < p.backends.len(),
        p.polled(now).backends[i].ewma_ejections != p.backends[i].ewma_ejections,
    ensures
        ({
            let b = p.backends[i];
            &&& b.ewma_samples >= cfg.min_samples
            &&& b.ewma_milli is Some
            &&& b.ewma_milli->0 > saturated(p.mean_milli() * cfg.factor_milli) / 1_000
            &&& p.polled(now).backends[i].ewma_ejections == b.ewma_ejections + 1
        }),
{
    let b = p.backends[i];
    assert(p.polled(now).backends[i] == b.polled(now, p.ewma, p.line()));
    if !b.is_slow(cfg, p.line()) {
        crate::backend::law_node_within_tolerance_stays(b, now, cfg, p.line());
    }
}

/// A node with too few samples does not move the mean.
pub proof fn law_fresh_node_does_not_move_mean<U>(
    p: PoolView<U>,
    cfg: EwmaConfig,
    b: BackendView<U>,
)
    requires
        p.ewma == Some(cfg),
        b.ewma_samples < cfg.min_samples,
    ensures
        (PoolView { backends: p.backends.push(b), ..p }).mean_milli() == p.mean_milli(),
{
    assert(p.backends.push(b).drop_last() =~= p.backends);
}

/// The latency average of a node if it has enough samples, else nothing.
pub open spec fn measured<U>(b: BackendView<U>, min_samples: u32) -> int {
    if b.ewma_samples >= min_samples && b.ewma_milli is Some {
        b.ewma_milli->0 as int
    } else {
        0
    }
}

/// The mean is that of the averages of the nodes with enough samples, rounded down. It
/// is zero where there is no such node or no latency layer.
pub proof fn law_mean_is_over_measured_nodes<U>(p: PoolView<U>)
    ensures
        p.ewma is None ==> p.mean_milli() == 0 && p.line() == 0,
        p.ewma matches Some(cfg) ==> {
            let sum = total(
                Seq::new(p.backends.len(), |i: int| measured(p.backends[i], cfg.min_samples)),
            );
            let count = total(
                Seq::new(
                    p.backends.len(),
                    |i: int|
                        if p.backends[i].ewma_samples >= cfg.min_samples {
                            1int
                        } else {
                            0int
                        },
                ),
            );
            &&& count == 0 ==> p.mean_milli() == 0
            &&& count > 0 ==> p.mean_milli() * count <= sum < (p.mean_milli() + 1) * count
            &&& p.line() == cfg.line(p.mean_milli() as int) as u64
        },
{
    if let Some(cfg) = p.ewma {
        let values = Seq::new(
            p.backends.len(),
            |i: int| measured(p.backends[i], cfg.min_samples),
        );
        let ones = Seq::new(
            p.backends.len(),
            |i: int|
                if p.backends[i].ewma_samples >= cfg.min_samples {
                    1int
                } else {
                    0int
                },
        );
        let n = p.backends.len() as int;
        lemma_measured_total(p.backends, values, ones, cfg.min_samples, n);
        assert(p.backends.take(n) =~= p.backends);
        let sum = total(values);
        let count = total(ones);
        if count > 0 {
            let mean = p.mean_milli() as int;
            vstd::arithmetic::div_mod::lemma_fundamental_div_mod(sum, count);
            assert(mean == sum / count);
            assert(mean * count <= sum < (mean + 1) * count) by (nonlinear_arith)
                requires
                    sum == count * mean + sum % count,
                    0 <= sum % count < count,
            ;
        }
    }
}

proof fn lemma_measured_total<U>(
    backends: Seq<BackendView<U>>,
    values: Seq<int>,
    ones: Seq<int>,
    min_samples: u32,
    n: int,
)
    requires
        0 <= n <= backends.len() == values.len() == ones.len(),
        forall|i: int|
            0 <= i < values.len() ==> #[trigger] values[i] == measured(backends[i], min_samples),
        forall|i: int|
            0 <= i < ones.len() ==> #[trigger] ones[i] == (if backends[i].ewma_samples
                >= min_samples {
                1int
            } else {
                0int
            }),
    ensures
        sum_at(values, Set::full(), n) == measured_sum(backends.take(n), min_samples),
        sum_at(ones, Set::full(), n) == measured_count(backends.take(n), min_samples),
    decreases n,
{
    if n > 0 {
        lemma_measured_total(backends, values, ones, min_samples, n - 1);
        assert(backends.take(n).drop_last() =~= backends.take(n - 1));
        assert(values[n - 1] == measured(backends[n - 1], min_samples));
        assert(ones[n - 1] == (if backends[n - 1].ewma_samples >= min_samples {
            1int
        } else {
            0int
        }));
    }
}

/// Polling a pool polls each backend with the one line of the pool, and changes nothing
/// else.
pub proof fn law_poll_reaches_every_backend<U>(p: PoolView<U>, now: u64, i: int)
    requires
        0 <= i < p.backends.len(),
    ensures
        p.polled(now) == (PoolView { backends: p.polled(now).backends, ..p }),
        p.polled(now).backends.len() == p.backends.len(),
        p.polled(now).backends[i] == p.backends[i].polled(now, p.ewma, p.line()),
{
}

/// Checking a pool checks each backend on its own, and changes nothing else.
pub proof fn law_check_reaches_every_backend<U: Upstream>(
    p: PoolView<U>,
    now: u64,
    post: PoolView<U>,
    i: int,
)
    requires
        p.checked(now, post),
        0 <= i < p.backends.len(),
    ensures
        post == (PoolView { backends: post.backends, ..p }),
        post.backends.len() == p.backends.len(),
        p.backends[i].checked(now, p.health, post.backends[i]),
{
    assert(p.backends[i].checked(now, p.health, post.backends[i]));
}

/// A new pool has no backends, starts its turns at the first, and has no latency layer.
pub proof fn law_new_pool_is_empty<U>(name: Seq<char>, strategy: Strategy, health: HealthConfig)
    ensures
        ({
            let p = PoolView::<U>::empty(name, strategy, health);
            &&& p.name == name && p.strategy == strategy && p.health == health
            &&& p.backends.len() == 0 && p.rr_cursor == 0 && p.ewma is None
        }),
{
}

/// A row of the report shows its backend as it is. The score is the weight times the
/// percent of the ramp while the backend can be called, and zero otherwise. Ejected is a
/// backend whose ejection reaches beyond now, and nobody else.
pub proof fn law_report_shows_backend<U>(p: PoolView<U>, now: u64, i: int, row: DistributionRow)
    requires
        p.reports(now, i, row),
    ensures
        ({
            let b = p.backends[i];
            &&& row.name@ == b.name && row.weight == b.weight && row.served == b.served
            &&& row.ewma_milli == b.ewma_milli && row.ramp_percent == b.ramp_percent
            &&& row.ewma_ejections == b.ewma_ejections
            &&& row.ejected <==> (b.ejected_until matches Some(until) && now < until)
            &&& row.score == (if b.is_available(now) {
                b.weight * b.ramp_percent
            } else {
                0
            })
        }),
{
}

/// Every name a strategy goes by, in small letters, and no other.
pub proof fn law_strategies_have_their_names(name: Seq<char>)
    ensures
        strategy_named(name) == Some(Strategy::RoundRobin) <==> name == "round-robin"@ || name
            == "roundrobin"@ || name == "rr"@,
        strategy_named(name) == Some(Strategy::Weighted) <==> name == "weighted"@ || name
            == "wrr"@,
        strategy_named(name) == Some(Strategy::LeastConnections) <==> name == "least-conn"@ || name
            == "least-connections"@ || name == "leastconn"@ || name == "lc"@,
        strategy_named(name) == Some(Strategy::ConsistentHash) <==> name == "consistent-hash"@
            || name == "sticky"@ || name == "hash"@,
        Strategy::RoundRobin.name() == "round-robin"@,
        Strategy::Weighted.name() == "weighted"@,
        Strategy::LeastConnections.name() == "least-conn"@,
        Strategy::ConsistentHash.name() == "consistent-hash"@,
{
    reveal_strlit("round-robin");
    reveal_strlit("roundrobin");
    reveal_strlit("rr");
    reveal_strlit("weighted");
    reveal_strlit("wrr");
    reveal_strlit("least-conn");
    reveal_strlit("least-connections");
    reveal_strlit("leastconn");
    reveal_strlit("lc");
    reveal_strlit("consistent-hash");
    reveal_strlit("sticky");
    reveal_strlit("hash");
    assert("rr"@.len() == 2 && "rr"@[0] == 'r' && "lc"@.len() == 2 && "lc"@[0] == 'l');
    assert("wrr"@.len() == 3 && "hash"@.len() == 4 && "sticky"@.len() == 6);
    assert("weighted"@.len() == 8 && "leastconn"@.len() == 9);
    assert("roundrobin"@.len() == 10 && "roundrobin"@[0] == 'r');
    assert("least-conn"@.len() == 10 && "least-conn"@[0] == 'l');
    assert("round-robin"@.len() == 11);
    assert("consistent-hash"@.len() == 15 && "least-connections"@.len() == 17);
}

/// Replacing a backend leaves everything else about the pool as it is.
pub proof fn law_one_backend_is_replaced<U>(p: PoolView<U>, idx: int, b: BackendView<U>, i: int)
    requires
        0 <= idx < p.backends.len(),
        0 <= i < p.backends.len(),
    ensures
        ({
            let q = p.with_backend(idx, b);
            &&& q == (PoolView { backends: q.backends, ..p })
            &&& q.backends.len() == p.backends.len()
            &&& q.backends[i] == (if i == idx {
                b
            } else {
                p.backends[i]
            })
        }),
{
}

/// A session key is taken as it is given.
pub proof fn law_key_is_taken_as_it_is(key: &str)
    ensures
        key_text(Some(key)) == Some(key@),
        key_text(None) is None,
{
}

} // verus!
