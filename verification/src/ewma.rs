//! EWMA latency scoring. Each backend keeps an exponentially weighted moving
//! average of its request latency. A node whose EWMA rises above the pool mean
//! by a configured factor for a sustained window is ejected as a latency
//! outlier, then reinstated gradually: it comes back at a fraction of its
//! weight and ramps up only while it stays clean. Everything runs on integer
//! milli units.

use vstd::prelude::*;

verus! {

/// Configuration for the EWMA outlier layer. Disabled unless a config is
/// attached to the pool with `Pool::enable_ewma`.
#[derive(Clone, Copy, Debug)]
pub struct EwmaConfig {
    /// Smoothing factor in milli units. Each new sample moves the EWMA by
    /// alpha_milli / 1000 of the gap. 250 means one quarter per sample.
    pub alpha_milli: u64,
    /// Eject when a node EWMA exceeds the pool mean by this factor in milli
    /// units. 3000 means three times the pool mean.
    pub factor_milli: u64,
    /// The node EWMA must stay above the line for this long before ejection,
    /// so a single slow burst cannot eject a healthy node.
    pub window_ms: u64,
    /// Nodes below this sample count neither contribute to the pool mean nor
    /// get ejected.
    pub min_samples: u32,
    /// How long an EWMA ejection lasts before reinstatement begins.
    pub ejection_ms: u64,
    /// A reinstated node returns at this percent of its weight.
    pub reinstate_percent: u32,
    /// Each clean window of this length doubles the ramp percent until it is
    /// back to full weight.
    pub ramp_window_ms: u64,
}

impl Default for EwmaConfig {
    fn default() -> (cfg: Self)
        ensures
            cfg == (EwmaConfig {
                alpha_milli: 250,
                factor_milli: 3_000,
                window_ms: 2_000,
                min_samples: 8,
                ejection_ms: 1_500,
                reinstate_percent: 25,
                ramp_window_ms: 1_000,
            }),
    {
        Self {
            alpha_milli: 250,
            factor_milli: 3_000,
            window_ms: 2_000,
            min_samples: 8,
            ejection_ms: 1_500,
            reinstate_percent: 25,
            ramp_window_ms: 1_000,
        }
    }
}

/// The largest `u64` stands for everything beyond it.
pub open spec fn saturated(n: int) -> int {
    if n <= u64::MAX {
        n
    } else {
        u64::MAX as int
    }
}

fn saturating_product(a: u64, b: u64) -> (product: u64)
    ensures
        product == saturated(a * b),
{
    assert(0 <= a * b <= u64::MAX * u64::MAX) by (nonlinear_arith)
        requires
            0 <= a <= u64::MAX,
            0 <= b <= u64::MAX,
    ;
    let wide: u128 = a as u128 * b as u128;
    if wide <= u64::MAX as u128 {
        wide as u64
    } else {
        u64::MAX
    }
}

impl EwmaConfig {
    /// The share of the gap that one sample closes, at most all of it.
    pub open spec fn alpha(self) -> int {
        if self.alpha_milli <= 1_000 {
            self.alpha_milli as int
        } else {
            1_000
        }
    }

    pub open spec fn line(self, pool_mean_milli: int) -> int {
        saturated(pool_mean_milli * self.factor_milli) / 1_000
    }

    pub open spec fn folded(self, current: Option<u64>, latency_ms: u64) -> int {
        let sample = saturated(latency_ms * 1_000);
        match current {
            None => sample,
            Some(prev) => (self.alpha() * sample + (1_000 - self.alpha()) * prev) / 1_000,
        }
    }

    /// The ejection line for a pool mean given in milli milliseconds.
    pub fn threshold_milli(&self, pool_mean_milli: u64) -> (line: u64)
        ensures
            line == self.line(pool_mean_milli as int),
    {
        saturating_product(pool_mean_milli, self.factor_milli) / 1_000
    }

    /// Fold one latency sample (in milliseconds) into an EWMA held in milli
    /// units. `None` means no sample yet, so the first sample seeds it whole.
    pub fn fold(&self, current: Option<u64>, latency_ms: u64) -> (ewma: u64)
        ensures
            ewma == self.folded(current, latency_ms),
    {
        let sample_milli: u64 = saturating_product(latency_ms, 1_000);
        match current {
            None => sample_milli,
            Some(prev) => {
                let alpha: u64 = if self.alpha_milli <= 1_000 {
                    self.alpha_milli
                } else {
                    1_000
                };
                proof {
                    lemma_average_stays_between(
                        alpha as int,
                        sample_milli as int,
                        prev as int,
                        0,
                        u64::MAX as int,
                    );
                }
                let sum: u128 = alpha as u128 * sample_milli as u128 + (1_000 - alpha) as u128
                    * prev as u128;
                (sum / 1_000) as u64
            },
        }
    }
}

proof fn lemma_average_stays_between(alpha: int, a: int, b: int, low: int, high: int)
    requires
        0 <= alpha <= 1_000,
        low <= a <= high,
        low <= b <= high,
    ensures
        0 <= low ==> 0 <= alpha * a <= 1_000 * high,
        0 <= low ==> 0 <= (1_000 - alpha) * b <= 1_000 * high,
        1_000 * low <= alpha * a + (1_000 - alpha) * b <= 1_000 * high,
        low <= (alpha * a + (1_000 - alpha) * b) / 1_000 <= high,
{
    assert(alpha * low <= alpha * a <= alpha * high) by (nonlinear_arith)
        requires
            0 <= alpha,
            low <= a <= high,
    ;
    assert((1_000 - alpha) * low <= (1_000 - alpha) * b <= (1_000 - alpha) * high)
        by (nonlinear_arith)
        requires
            alpha <= 1_000,
            low <= b <= high,
    ;
    assert(alpha * low + (1_000 - alpha) * low == 1_000 * low) by (nonlinear_arith);
    assert(alpha * high + (1_000 - alpha) * high == 1_000 * high) by (nonlinear_arith);
    if 0 <= low {
        assert(0 <= alpha * low && 0 <= (1_000 - alpha) * low) by (nonlinear_arith)
            requires
                0 <= alpha <= 1_000,
                0 <= low,
        ;
        assert(alpha * high <= 1_000 * high && (1_000 - alpha) * high <= 1_000 * high)
            by (nonlinear_arith)
            requires
                0 <= alpha <= 1_000,
                0 <= high,
        ;
    }
}

/// Folding a sample moves the average towards it and never past it, so one
/// hostile sample can neither overflow nor wrap the average.
pub proof fn law_fold_stays_between(cfg: EwmaConfig, prev: u64, latency_ms: u64)
    ensures
        saturated(latency_ms * 1_000) <= prev ==> saturated(latency_ms * 1_000) <= cfg.folded(
            Some(prev),
            latency_ms,
        ) <= prev,
        prev <= saturated(latency_ms * 1_000) ==> prev <= cfg.folded(Some(prev), latency_ms)
            <= saturated(latency_ms * 1_000),
        0 <= cfg.folded(Some(prev), latency_ms) <= u64::MAX,
{
    let sample = saturated(latency_ms * 1_000);
    if sample <= prev {
        lemma_average_stays_between(cfg.alpha(), sample, prev as int, sample, prev as int);
    } else {
        lemma_average_stays_between(cfg.alpha(), sample, prev as int, prev as int, sample);
    }
}

/// A slower sample never yields a lower average.
pub proof fn law_fold_is_monotonic(cfg: EwmaConfig, current: Option<u64>, low_ms: u64, high_ms: u64)
    requires
        low_ms <= high_ms,
    ensures
        cfg.folded(current, low_ms) <= cfg.folded(current, high_ms),
{
    let a = saturated(low_ms * 1_000);
    let b = saturated(high_ms * 1_000);
    assert(cfg.alpha() * a <= cfg.alpha() * b) by (nonlinear_arith)
        requires
            0 <= cfg.alpha(),
            a <= b,
    ;
}

/// The ejection line saturates: a bigger mean never yields a smaller line.
pub proof fn law_line_is_monotonic(cfg: EwmaConfig, low: int, high: int)
    requires
        0 <= low <= high,
    ensures
        cfg.line(low) <= cfg.line(high),
{
    assert(low * cfg.factor_milli <= high * cfg.factor_milli) by (nonlinear_arith)
        requires
            low <= high,
            0 <= cfg.factor_milli,
    ;
}

/// The first sample is the average, in thousandths of a millisecond. Each later one
/// moves the average by as many thousandths of the gap as configured, at most all,
/// rounded down to a whole number.
pub proof fn law_sample_closes_its_share_of_the_gap(cfg: EwmaConfig, prev: u64, latency_ms: u64)
    ensures
        ({
            let sample = if latency_ms * 1_000 <= u64::MAX {
                latency_ms * 1_000
            } else {
                u64::MAX as int
            };
            let share = if cfg.alpha_milli < 1_000 {
                cfg.alpha_milli as int
            } else {
                1_000
            };
            let average = cfg.folded(Some(prev), latency_ms);
            &&& cfg.folded(None, latency_ms) == sample
            &&& 1_000 * average <= 1_000 * prev + share * (sample - prev) < 1_000 * average + 1_000
        }),
{
    let sample = saturated(latency_ms * 1_000);
    let share = cfg.alpha();
    assert(share * (sample - prev) == share * sample - share * prev) by (nonlinear_arith);
    assert((1_000 - share) * prev == 1_000 * prev - share * prev) by (nonlinear_arith);
}

/// The line is the mean times the factor in thousandths, rounded down, with the product
/// stopping at the top of its range.
pub proof fn law_line_is_a_multiple_of_the_mean(cfg: EwmaConfig, mean: int)
    requires
        0 <= mean,
    ensures
        mean * cfg.factor_milli <= u64::MAX ==> 1_000 * cfg.line(mean) <= mean * cfg.factor_milli
            < 1_000 * cfg.line(mean) + 1_000,
        mean * cfg.factor_milli > u64::MAX ==> cfg.line(mean) == u64::MAX / 1_000,
{
}

/// One row of the pool distribution report: what a node actually received
/// versus what its share of the healthy traffic says it should receive. A share
/// is given as its two whole numbers.
#[derive(Debug)]
pub struct DistributionRow {
    pub name: String,
    /// Recorded outcomes of this node.
    pub served: u64,
    /// Recorded outcomes of all nodes.
    pub total_served: u64,
    /// Effective weight of the node, zero while it is not available.
    pub score: i64,
    /// Effective weight of all currently available nodes.
    pub total_score: i128,
    /// Configured weight of the node.
    pub weight: u32,
    /// Current EWMA of request latency in milli milliseconds.
    pub ewma_milli: Option<u64>,
    /// The node is ejected, as an outlier by its failures or by its latency.
    pub ejected: bool,
    /// Current reinstatement ramp percent, 100 means full weight.
    pub ramp_percent: u32,
    pub ewma_ejections: u64,
}

impl Clone for DistributionRow {
    fn clone(&self) -> (copy: Self)
        ensures
            copy.name@ == self.name@,
            copy == (DistributionRow { name: copy.name, ..*self }),
    {
        DistributionRow {
            name: self.name.clone(),
            served: self.served,
            total_served: self.total_served,
            score: self.score,
            total_score: self.total_score,
            weight: self.weight,
            ewma_milli: self.ewma_milli,
            ejected: self.ejected,
            ramp_percent: self.ramp_percent,
            ewma_ejections: self.ewma_ejections,
        }
    }
}

} // verus!
