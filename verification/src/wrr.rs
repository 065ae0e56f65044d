//! The arithmetic of smooth weighted round robin, apart from what the weights
//! belong to.
//!
//! Every node carries a running weight. A pick raises the running weight of each
//! node that takes part by its score, and lowers that of the chosen one, which
//! must be the highest, by the sum of all scores.

use vstd::prelude::*;

verus! {

/// The sum of the numbers at the places in `at`, among the first `n`.
pub open spec fn sum_at(w: Seq<int>, at: Set<int>, n: int) -> int
    decreases n,
{
    if n <= 0 {
        0
    } else {
        sum_at(w, at, n - 1) + (if at.contains(n - 1) {
            w[n - 1]
        } else {
            0
        })
    }
}

/// How many of the first `n` places are in `at`.
pub open spec fn count_at(at: Set<int>, n: int) -> int
    decreases n,
{
    if n <= 0 {
        0
    } else {
        count_at(at, n - 1) + (if at.contains(n - 1) {
            1int
        } else {
            0int
        })
    }
}

/// The sum of all numbers.
pub open spec fn total(w: Seq<int>) -> int {
    sum_at(w, Set::full(), w.len() as int)
}

/// The running weights after a pick of `b` among nodes with the given scores. A
/// node that does not take part has score zero.
pub open spec fn after_pick(w: Seq<int>, scores: Seq<int>, b: int) -> Seq<int> {
    Seq::new(
        w.len(),
        |i: int|
            w[i] + scores[i] - (if i == b {
                total(scores)
            } else {
                0
            }),
    )
}

/// `b` may be picked: it takes part, and no node that takes part stands higher.
pub open spec fn may_pick(w: Seq<int>, scores: Seq<int>, b: int) -> bool {
    &&& 0 <= b < w.len()
    &&& scores[b] > 0
    &&& forall|i: int|
        0 <= i < w.len() && (#[trigger] scores[i]) > 0 ==> w[i] + scores[i] <= w[b] + scores[b]
}

/// How much `k` out of `n` nodes with scores up to `m` can be owed together.
pub open spec fn owed(n: int, m: int, k: int) -> int {
    m * (k * (n - k))
}

/// Nothing is lost or made: the running weights cancel out. And no group of
/// nodes is owed more than a bound that depends on its size alone.
pub open spec fn balanced(w: Seq<int>, m: int) -> bool {
    &&& total(w) == 0
    &&& forall|at: Set<int>| #[trigger]
        sum_at(w, at, w.len() as int) <= owed(
            w.len() as int,
            m,
            count_at(at, w.len() as int),
        )
}

proof fn lemma_count_bounds(at: Set<int>, n: int)
    requires
        0 <= n,
    ensures
        0 <= count_at(at, n) <= n,
    decreases n,
{
    if n > 0 {
        lemma_count_bounds(at, n - 1);
    }
}

proof fn lemma_insert(w: Seq<int>, at: Set<int>, n: int, b: int)
    requires
        0 <= n,
        !at.contains(b),
    ensures
        sum_at(w, at.insert(b), n) == sum_at(w, at, n) + (if 0 <= b < n {
            w[b]
        } else {
            0
        }),
        count_at(at.insert(b), n) == count_at(at, n) + (if 0 <= b < n {
            1int
        } else {
            0int
        }),
    decreases n,
{
    if n > 0 {
        lemma_insert(w, at, n - 1, b);
    }
}

proof fn lemma_remove(w: Seq<int>, at: Set<int>, n: int, j: int)
    requires
        0 <= n,
        at.contains(j),
    ensures
        sum_at(w, at.remove(j), n) == sum_at(w, at, n) - (if 0 <= j < n {
            w[j]
        } else {
            0
        }),
        count_at(at.remove(j), n) == count_at(at, n) - (if 0 <= j < n {
            1int
        } else {
            0int
        }),
    decreases n,
{
    if n > 0 {
        lemma_remove(w, at, n - 1, j);
    }
}

/// A part of numbers that are not negative is at most the whole, and at most
/// the bound of each times how many there are.
proof fn lemma_part_of_scores(scores: Seq<int>, at: Set<int>, n: int, m: int)
    requires
        0 <= n <= scores.len(),
        forall|i: int| 0 <= i < scores.len() ==> 0 <= #[trigger] scores[i] <= m,
    ensures
        0 <= sum_at(scores, at, n) <= sum_at(scores, Set::full(), n),
        sum_at(scores, at, n) <= count_at(at, n) * m,
    decreases n,
{
    if n > 0 {
        lemma_part_of_scores(scores, at, n - 1, m);
        let c = count_at(at, n - 1);
        assert((c + 1) * m == c * m + m) by (nonlinear_arith);
    }
}

/// What a pick does to the sum over a group.
proof fn lemma_sum_after_pick(w: Seq<int>, scores: Seq<int>, b: int, at: Set<int>, n: int)
    requires
        0 <= n <= w.len(),
        w.len() == scores.len(),
    ensures
        sum_at(after_pick(w, scores, b), at, n) == sum_at(w, at, n) + sum_at(scores, at, n) - (
        if at.contains(b) && 0 <= b < n {
            total(scores)
        } else {
            0
        }),
    decreases n,
{
    if n > 0 {
        lemma_sum_after_pick(w, scores, b, at, n - 1);
    }
}

proof fn lemma_no_scores(scores: Seq<int>, at: Set<int>, n: int)
    requires
        0 <= n <= scores.len(),
        forall|i: int| 0 <= i < n && at.contains(i) ==> #[trigger] scores[i] == 0,
    ensures
        sum_at(scores, at, n) == 0,
    decreases n,
{
    if n > 0 {
        lemma_no_scores(scores, at, n - 1);
    }
}

/// Among the nodes of a group that take part, none stands higher than the pick.
proof fn lemma_parties_stand_lower(w: Seq<int>, scores: Seq<int>, b: int, at: Set<int>, n: int)
    requires
        0 <= n <= w.len(),
        w.len() == scores.len(),
        may_pick(w, scores, b),
    ensures
        ({
            let in_play = at.intersect(parties(scores));
            sum_at(w, in_play, n) + sum_at(scores, in_play, n) <= count_at(in_play, n) * (w[b]
                + scores[b])
        }),
    decreases n,
{
    let in_play = at.intersect(parties(scores));
    let top = w[b] + scores[b];
    if n > 0 {
        lemma_parties_stand_lower(w, scores, b, at, n - 1);
        let c = count_at(in_play, n - 1);
        assert((c + 1) * top == c * top + top) by (nonlinear_arith);
        if in_play.contains(n - 1) {
            assert(scores[n - 1] > 0);
        }
    } else {
        assert(0 * top == 0) by (nonlinear_arith);
    }
}

/// A group is the nodes in it that take part and those that do not.
proof fn lemma_group_splits(w: Seq<int>, at: Set<int>, part: Set<int>, n: int)
    requires
        0 <= n,
    ensures
        sum_at(w, at, n) == sum_at(w, at.intersect(part), n) + sum_at(w, at.difference(part), n),
        count_at(at, n) == count_at(at.intersect(part), n) + count_at(at.difference(part), n),
    decreases n,
{
    if n > 0 {
        lemma_group_splits(w, at, part, n - 1);
    }
}

/// Only nodes that take part have scores.
proof fn lemma_scores_are_in_play(scores: Seq<int>, at: Set<int>, n: int)
    requires
        0 <= n <= scores.len(),
        forall|i: int| 0 <= i < scores.len() ==> 0 <= #[trigger] scores[i],
    ensures
        sum_at(scores, at, n) == sum_at(scores, at.intersect(parties(scores)), n),
    decreases n,
{
    if n > 0 {
        lemma_scores_are_in_play(scores, at, n - 1);
    }
}

/// The arithmetic of one step: a group of `k` among `n`, of which `p` take part
/// with scores up to `m`, is owed no more after the pick than it may be.
proof fn lemma_owed_step(
    n: int,
    m: int,
    k: int,
    p: int,
    group: int,
    in_play: int,
    added: int,
    picked: int,
    score: int,
)
    requires
        p >= 1,
        group - in_play <= owed(n, m, k - p),
        group + picked <= owed(n, m, k + 1),
        in_play + added <= p * (picked + score),
        added <= p * m,
        score <= m,
    ensures
        group + added <= owed(n, m, k),
{
    let whole = k * (n - k);
    let less = (k - p) * (n - (k - p));
    let more = (k + 1) * (n - (k + 1));
    assert(p * more + less == (p + 1) * whole - p * (p + 1)) by (nonlinear_arith)
        requires
            whole == k * (n - k),
            less == (k - p) * (n - (k - p)),
            more == (k + 1) * (n - (k + 1)),
    ;
    assert(p * (group + picked) <= p * (m * more)) by (nonlinear_arith)
        requires
            p >= 1,
            group + picked <= m * more,
    ;
    assert(p * (m * more) + m * less == m * (p * more + less)) by (nonlinear_arith);
    assert(m * ((p + 1) * whole - p * (p + 1)) == (p + 1) * (m * whole) - p * m - p * (p * m))
        by (nonlinear_arith);
    assert(p * (group + picked) == p * group + p * picked) by (nonlinear_arith);
    assert(p * (picked + score) == p * picked + p * score) by (nonlinear_arith);
    assert(p * score <= p * m) by (nonlinear_arith)
        requires
            p >= 1,
            score <= m,
    ;
    assert(p * added <= p * (p * m)) by (nonlinear_arith)
        requires
            p >= 1,
            added <= p * m,
    ;
    assert((p + 1) * (group + added) == p * group + group + p * added + added) by (nonlinear_arith);
    let after = group + added;
    let bound = m * whole;
    assert((p + 1) * after <= (p + 1) * bound);
    assert(after <= bound) by (nonlinear_arith)
        requires
            p >= 1,
            (p + 1) * after <= (p + 1) * bound,
    ;
}

/// A pick keeps the running weights balanced.
pub proof fn lemma_pick_keeps_balance(w: Seq<int>, scores: Seq<int>, b: int, m: int)
    requires
        w.len() == scores.len(),
        0 <= m,
        forall|i: int| 0 <= i < scores.len() ==> 0 <= #[trigger] scores[i] <= m,
        may_pick(w, scores, b),
        balanced(w, m),
    ensures
        balanced(after_pick(w, scores, b), m),
{
    let n = w.len() as int;
    let next = after_pick(w, scores, b);
    lemma_sum_after_pick(w, scores, b, Set::full(), n);
    assert forall|at: Set<int>| #[trigger] sum_at(next, at, n) <= owed(n, m, count_at(at, n)) by {
        lemma_sum_after_pick(w, scores, b, at, n);
        lemma_part_of_scores(scores, at, n, m);
        let k = count_at(at, n);
        assert(sum_at(w, at, n) <= owed(n, m, k));
        if !at.contains(b) {
            let part = parties(scores);
            let in_play = at.intersect(part);
            let rest = at.difference(part);
            let more = at.insert(b);
            let p = count_at(in_play, n);
            lemma_group_splits(w, at, part, n);
            lemma_scores_are_in_play(scores, at, n);
            lemma_part_of_scores(scores, in_play, n, m);
            lemma_count_bounds(in_play, n);
            if p > 0 {
                lemma_parties_stand_lower(w, scores, b, at, n);
                lemma_insert(w, at, n, b);
                assert(sum_at(w, rest, n) <= owed(n, m, k - p));
                assert(sum_at(w, more, n) <= owed(n, m, k + 1));
                lemma_owed_step(
                    n,
                    m,
                    k,
                    p,
                    sum_at(w, at, n),
                    sum_at(w, in_play, n),
                    sum_at(scores, at, n),
                    w[b],
                    scores[b],
                );
            } else {
                assert(0 * m == 0);
            }
        }
    }
}

/// Balanced running weights stay less than `n * m` away from zero, even after
/// the scores were added, as long as no score is above `m`.
pub proof fn lemma_balance_bounds(w: Seq<int>, m: int, i: int)
    requires
        0 <= m,
        0 <= i < w.len(),
        balanced(w, m),
    ensures
        w[i] + m <= w.len() * m,
        -(w.len() * m) <= w[i] - m,
{
    let n = w.len() as int;
    let one = Set::<int>::empty().insert(i);
    let rest = Set::<int>::full().remove(i);
    lemma_insert(w, Set::empty(), n, i);
    lemma_remove(w, Set::full(), n, i);
    lemma_empty(w, n);
    lemma_full_count(n);
    assert(sum_at(w, one, n) <= owed(n, m, 1));
    assert(sum_at(w, rest, n) <= owed(n, m, n - 1));
    assert(owed(n, m, 1) == n * m - m) by {
        assert(m * (1 * (n - 1)) == n * m - m) by (nonlinear_arith);
    }
    assert(owed(n, m, n - 1) == n * m - m) by {
        assert(m * ((n - 1) * (n - (n - 1))) == n * m - m) by (nonlinear_arith);
    }
}

proof fn lemma_empty(w: Seq<int>, n: int)
    ensures
        sum_at(w, Set::empty(), n) == 0,
        count_at(Set::empty(), n) == 0,
    decreases n,
{
    if n > 0 {
        lemma_empty(w, n - 1);
    }
}

proof fn lemma_full_count(n: int)
    requires
        0 <= n,
    ensures
        count_at(Set::full(), n) == n,
    decreases n,
{
    if n > 0 {
        lemma_full_count(n - 1);
    }
}

/// No nodes at all are balanced.
pub proof fn lemma_no_nodes_balanced(m: int)
    ensures
        balanced(Seq::empty(), m),
{
    assert forall|at: Set<int>| #[trigger] sum_at(Seq::empty(), at, 0) <= owed(
        0,
        m,
        count_at(at, 0),
    ) by {
        assert(m * (0 * (0 - 0int)) == 0) by (nonlinear_arith);
    }
}

/// A node that joins with a running weight of zero keeps the balance, also
/// when scores may be higher from then on.
pub proof fn lemma_join_keeps_balance(w: Seq<int>, m: int, higher: int)
    requires
        0 <= m <= higher,
        balanced(w, m),
    ensures
        balanced(w.push(0), higher),
{
    let n = w.len() as int;
    let grown = w.push(0);
    lemma_same_front(w, grown, Set::full(), n);
    assert(total(grown) == 0);
    assert forall|at: Set<int>| #[trigger] sum_at(grown, at, n + 1) <= owed(
        n + 1,
        higher,
        count_at(at, n + 1),
    ) by {
        lemma_same_front(w, grown, at, n);
        lemma_count_bounds(at, n);
        let c = count_at(at, n);
        let d = count_at(at, n + 1);
        assert(sum_at(w, at, n) <= owed(n, m, c));
        assert(0 <= c * (n - c) && c * (n - c) <= d * (n + 1 - d)) by (nonlinear_arith)
            requires
                0 <= c <= n,
                d == c || d == c + 1,
        ;
        let p = c * (n - c);
        let q = d * (n + 1 - d);
        assert(m * p <= higher * q) by (nonlinear_arith)
            requires
                0 <= m <= higher,
                0 <= p <= q,
        ;
    }
}

proof fn lemma_same_front(a: Seq<int>, b: Seq<int>, at: Set<int>, n: int)
    requires
        n <= a.len(),
        n <= b.len(),
        forall|i: int| 0 <= i < n ==> a[i] == b[i],
    ensures
        sum_at(a, at, n) == sum_at(b, at, n),
    decreases n,
{
    if n > 0 {
        lemma_same_front(a, b, at, n - 1);
    }
}

/// Raising one number raises the sum by as much.
pub proof fn lemma_update_total(w: Seq<int>, i: int, v: int)
    requires
        0 <= i < w.len(),
    ensures
        total(w.update(i, v)) == total(w) - w[i] + v,
{
    lemma_update_sum(w, i, v, w.len() as int);
}

proof fn lemma_update_sum(w: Seq<int>, i: int, v: int, n: int)
    requires
        0 <= i < w.len(),
        0 <= n <= w.len(),
    ensures
        sum_at(w.update(i, v), Set::full(), n) == sum_at(w, Set::full(), n) + (if i < n {
            v - w[i]
        } else {
            0
        }),
    decreases n,
{
    if n > 0 {
        lemma_update_sum(w, i, v, n - 1);
    }
}

/// Smaller numbers have a smaller sum.
pub proof fn lemma_total_is_monotonic(a: Seq<int>, b: Seq<int>)
    requires
        a.len() == b.len(),
        forall|i: int| 0 <= i < a.len() ==> a[i] <= #[trigger] b[i],
    ensures
        total(a) <= total(b),
{
    lemma_sum_is_monotonic(a, b, a.len() as int);
}

/// Numbers from zero up to `m` sum up to at most `m` times how many they are.
pub proof fn lemma_total_bounds(scores: Seq<int>, m: int)
    requires
        forall|i: int| 0 <= i < scores.len() ==> 0 <= #[trigger] scores[i] <= m,
    ensures
        0 <= total(scores) <= scores.len() * m,
{
    lemma_part_of_scores(scores, Set::full(), scores.len() as int, m);
    lemma_full_count(scores.len() as int);
}

/// The sum of nothing but zeros.
pub proof fn lemma_zero_total(w: Seq<int>)
    requires
        forall|i: int| 0 <= i < w.len() ==> #[trigger] w[i] == 0,
    ensures
        total(w) == 0,
{
    lemma_no_scores(w, Set::full(), w.len() as int);
}

/// How often `i` was picked.
pub open spec fn times_picked(picks: Seq<int>, i: int) -> nat
    decreases picks.len(),
{
    if picks.len() == 0 {
        0
    } else {
        times_picked(picks.drop_last(), i) + (if picks.last() == i {
            1nat
        } else {
            0nat
        })
    }
}

/// The running weights after a run of picks with the same scores.
pub open spec fn after_picks(w: Seq<int>, scores: Seq<int>, picks: Seq<int>) -> Seq<int>
    decreases picks.len(),
{
    if picks.len() == 0 {
        w
    } else {
        after_pick(after_picks(w, scores, picks.drop_last()), scores, picks.last())
    }
}

/// Every pick of the run was allowed when it was made.
pub open spec fn is_run(w: Seq<int>, scores: Seq<int>, picks: Seq<int>) -> bool
    decreases picks.len(),
{
    picks.len() > 0 ==> is_run(w, scores, picks.drop_last()) && may_pick(
        after_picks(w, scores, picks.drop_last()),
        scores,
        picks.last(),
    )
}

/// Where every node stands after a run: raised once per pick, lowered once per
/// pick of its own.
pub proof fn lemma_standing(w: Seq<int>, scores: Seq<int>, picks: Seq<int>)
    requires
        w.len() == scores.len(),
        is_run(w, scores, picks),
    ensures
        after_picks(w, scores, picks).len() == w.len(),
        forall|i: int|
            0 <= i < w.len() ==> #[trigger] after_picks(w, scores, picks)[i] == w[i] + picks.len()
                * scores[i] - times_picked(picks, i) * total(scores),
    decreases picks.len(),
{
    let t = total(scores);
    if picks.len() == 0 {
        assert forall|i: int| 0 <= i < w.len() implies #[trigger] after_picks(w, scores, picks)[i]
            == w[i] + picks.len() * scores[i] - times_picked(picks, i) * t by {
            assert(0 * scores[i] == 0 && 0 * t == 0) by (nonlinear_arith);
        }
    } else {
        let front = picks.drop_last();
        lemma_standing(w, scores, front);
        assert forall|i: int| 0 <= i < w.len() implies #[trigger] after_picks(w, scores, picks)[i]
            == w[i] + picks.len() * scores[i] - times_picked(picks, i) * t by {
            let k = front.len() as int;
            let c = times_picked(front, i) as int;
            assert(after_picks(w, scores, front)[i] == w[i] + k * scores[i] - c * t);
            assert((k + 1) * scores[i] == k * scores[i] + scores[i]) by (nonlinear_arith);
            assert((c + 1) * t == c * t + t) by (nonlinear_arith);
        }
    }
}

/// The nodes that take part.
pub open spec fn parties(scores: Seq<int>) -> Set<int> {
    Set::new(|i: int| 0 <= i < scores.len() && scores[i] > 0)
}

proof fn lemma_parties_hold_all_scores(scores: Seq<int>, n: int)
    requires
        0 <= n <= scores.len(),
        forall|i: int| 0 <= i < scores.len() ==> 0 <= #[trigger] scores[i],
    ensures
        sum_at(scores, parties(scores), n) == sum_at(scores, Set::full(), n),
    decreases n,
{
    if n > 0 {
        lemma_parties_hold_all_scores(scores, n - 1);
    }
}

proof fn lemma_not_positive(w: Seq<int>, at: Set<int>, n: int)
    requires
        0 <= n <= w.len(),
        forall|i: int| 0 <= i < n && at.contains(i) ==> #[trigger] w[i] <= 0,
    ensures
        sum_at(w, at, n) <= 0,
    decreases n,
{
    if n > 0 {
        lemma_not_positive(w, at, n - 1);
    }
}

proof fn lemma_pointwise_sum(a: Seq<int>, b: Seq<int>, c: Seq<int>, at: Set<int>, n: int)
    requires
        0 <= n <= a.len(),
        a.len() == b.len() == c.len(),
        forall|i: int| 0 <= i < n ==> #[trigger] c[i] == a[i] + b[i],
    ensures
        sum_at(c, at, n) == sum_at(a, at, n) + sum_at(b, at, n),
    decreases n,
{
    if n > 0 {
        lemma_pointwise_sum(a, b, c, at, n - 1);
    }
}

/// When the nodes that take part start from zero, they keep cancelling out, and
/// none of them ever stands a full sum of scores below zero.
proof fn lemma_run_stays_above(w: Seq<int>, scores: Seq<int>, picks: Seq<int>)
    requires
        w.len() == scores.len(),
        forall|i: int| 0 <= i < scores.len() ==> 0 <= #[trigger] scores[i],
        forall|i: int| 0 <= i < scores.len() && #[trigger] scores[i] > 0 ==> w[i] == 0,
        total(scores) > 0,
        is_run(w, scores, picks),
    ensures
        sum_at(after_picks(w, scores, picks), parties(scores), w.len() as int) == 0,
        forall|i: int|
            0 <= i < w.len() && #[trigger] scores[i] > 0 ==> after_picks(w, scores, picks)[i]
                > -total(scores),
    decreases picks.len(),
{
    let n = w.len() as int;
    let p = parties(scores);
    let t = total(scores);
    if picks.len() == 0 {
        lemma_no_scores(w, p, n);
    } else {
        let front = picks.drop_last();
        let b = picks.last();
        let before = after_picks(w, scores, front);
        lemma_standing(w, scores, front);
        lemma_run_stays_above(w, scores, front);
        lemma_sum_after_pick(before, scores, b, p, n);
        lemma_parties_hold_all_scores(scores, n);
        let lifted = Seq::new(w.len(), |i: int| before[i] + scores[i]);
        lemma_pointwise_sum(before, scores, lifted, p, n);
        if before[b] + scores[b] <= 0 {
            assert forall|i: int| 0 <= i < n && p.contains(i) implies #[trigger] lifted[i] <= 0 by {
                assert(scores[i] > 0);
            }
            lemma_not_positive(lifted, p, n);
        }
    }
}

proof fn lemma_counts_sum(picks: Seq<int>, counts: Seq<int>)
    requires
        forall|i: int| 0 <= i < counts.len() ==> #[trigger] counts[i] == times_picked(picks, i),
        forall|k: int| 0 <= k < picks.len() ==> 0 <= #[trigger] picks[k] < counts.len(),
    ensures
        total(counts) == picks.len(),
    decreases picks.len(),
{
    if picks.len() == 0 {
        lemma_zero_total(counts);
    } else {
        let front = picks.drop_last();
        let b = picks.last();
        assert(b == picks[picks.len() - 1]);
        let before = Seq::new(counts.len(), |i: int| times_picked(front, i) as int);
        lemma_counts_sum(front, before);
        lemma_update_total(before, b, before[b] + 1);
        assert(counts =~= before.update(b, before[b] + 1));
    }
}

proof fn lemma_run_picks_parties(w: Seq<int>, scores: Seq<int>, picks: Seq<int>)
    requires
        w.len() == scores.len(),
        is_run(w, scores, picks),
    ensures
        forall|k: int|
            0 <= k < picks.len() ==> 0 <= #[trigger] picks[k] < w.len() && scores[picks[k]] > 0,
    decreases picks.len(),
{
    if picks.len() > 0 {
        let front = picks.drop_last();
        lemma_run_picks_parties(w, scores, front);
        lemma_standing(w, scores, front);
        assert forall|k: int| 0 <= k < picks.len() implies 0 <= #[trigger] picks[k] < w.len()
            && scores[picks[k]] > 0 by {
            if k < front.len() {
                assert(front[k] == picks[k]);
            }
        }
    }
}

/// After one full period every node has been picked exactly as often as its
/// share says, and every running weight is back where it was. The scores are
/// `g` times the shares, and a period has as many picks as all shares together.
pub proof fn law_period_is_exact(
    w: Seq<int>,
    scores: Seq<int>,
    shares: Seq<int>,
    g: int,
    picks: Seq<int>,
)
    requires
        w.len() == scores.len() == shares.len(),
        g > 0,
        forall|i: int|
            0 <= i < shares.len() ==> 0 <= #[trigger] shares[i] && scores[i] == g * shares[i],
        forall|i: int| 0 <= i < scores.len() && #[trigger] scores[i] > 0 ==> w[i] == 0,
        is_run(w, scores, picks),
        picks.len() == total(shares),
        picks.len() > 0,
    ensures
        forall|i: int|
            0 <= i < shares.len() ==> times_picked(picks, i) == #[trigger] shares[i],
        after_picks(w, scores, picks) == w,
{
    let n = w.len() as int;
    let u = total(shares);
    let t = total(scores);
    lemma_scaled_total(shares, scores, g, n);
    assert(t == g * u);
    assert(t > 0) by (nonlinear_arith)
        requires
            t == g * u,
            g > 0,
            u > 0,
    ;
    assert forall|i: int| 0 <= i < n implies 0 <= #[trigger] scores[i] by {
        let s = shares[i];
        assert(0 <= s && scores[i] == g * s);
        assert(g * s >= 0) by (nonlinear_arith)
            requires
                g > 0,
                s >= 0,
        ;
    }
    lemma_standing(w, scores, picks);
    lemma_run_stays_above(w, scores, picks);
    lemma_run_picks_parties(w, scores, picks);
    let counts = Seq::new(w.len(), |i: int| times_picked(picks, i) as int);
    lemma_counts_sum(picks, counts);
    assert forall|i: int| 0 <= i < n implies counts[i] <= #[trigger] shares[i] by {
        let s = shares[i];
        let c = counts[i];
        if scores[i] > 0 {
            assert(after_picks(w, scores, picks)[i] == u * (g * s) - c * (g * u));
            assert(c <= s) by (nonlinear_arith)
                requires
                    g > 0,
                    u > 0,
                    u * (g * s) - c * (g * u) > -(g * u),
            ;
        } else {
            lemma_never_picked(picks, i);
        }
    }
    lemma_equal_if_below_with_same_sum(counts, shares, n);
    assert forall|i: int| 0 <= i < n implies times_picked(picks, i) == #[trigger] shares[i] by {
        assert(counts[i] == shares[i]);
    }
    assert forall|i: int| 0 <= i < n implies #[trigger] after_picks(w, scores, picks)[i]
        == w[i] by {
        let s = shares[i];
        assert(times_picked(picks, i) == s);
        assert(u * (g * s) - s * (g * u) == 0) by (nonlinear_arith);
    }
    assert(after_picks(w, scores, picks) =~= w);
}

proof fn lemma_scaled_total(shares: Seq<int>, scores: Seq<int>, g: int, n: int)
    requires
        0 <= n <= shares.len(),
        shares.len() == scores.len(),
        forall|i: int| 0 <= i < shares.len() ==> scores[i] == g * #[trigger] shares[i],
    ensures
        sum_at(scores, Set::full(), n) == g * sum_at(shares, Set::full(), n),
    decreases n,
{
    if n > 0 {
        lemma_scaled_total(shares, scores, g, n - 1);
        let a = sum_at(shares, Set::full(), n - 1);
        let b = shares[n - 1];
        assert(g * (a + b) == g * a + g * b) by (nonlinear_arith);
    } else {
        assert(g * 0 == 0) by (nonlinear_arith);
    }
}

proof fn lemma_never_picked(picks: Seq<int>, i: int)
    requires
        forall|k: int| 0 <= k < picks.len() ==> #[trigger] picks[k] != i,
    ensures
        times_picked(picks, i) == 0,
    decreases picks.len(),
{
    if picks.len() > 0 {
        let front = picks.drop_last();
        assert forall|k: int| 0 <= k < front.len() implies #[trigger] front[k] != i by {
            assert(front[k] == picks[k]);
        }
        lemma_never_picked(front, i);
        assert(picks.last() == picks[picks.len() - 1]);
    }
}

proof fn lemma_equal_if_below_with_same_sum(a: Seq<int>, b: Seq<int>, n: int)
    requires
        0 <= n <= a.len(),
        a.len() == b.len(),
        forall|i: int| 0 <= i < n ==> a[i] <= #[trigger] b[i],
        sum_at(a, Set::full(), n) >= sum_at(b, Set::full(), n),
    ensures
        forall|i: int| 0 <= i < n ==> a[i] == #[trigger] b[i],
    decreases n,
{
    if n > 0 {
        lemma_sum_is_monotonic(a, b, n - 1);
        lemma_equal_if_below_with_same_sum(a, b, n - 1);
    }
}

proof fn lemma_sum_is_monotonic(a: Seq<int>, b: Seq<int>, n: int)
    requires
        0 <= n <= a.len(),
        a.len() == b.len(),
        forall|i: int| 0 <= i < n ==> a[i] <= #[trigger] b[i],
    ensures
        sum_at(a, Set::full(), n) <= sum_at(b, Set::full(), n),
    decreases n,
{
    if n > 0 {
        lemma_sum_is_monotonic(a, b, n - 1);
    }
}

/// The sum of no numbers is zero, and each number adds itself.
pub proof fn law_total_adds_each_number(w: Seq<int>, x: int)
    ensures
        total(Seq::empty()) == 0,
        total(w.push(x)) == total(w) + x,
{
    lemma_same_front(w, w.push(x), Set::full(), w.len() as int);
}

} // verus!
