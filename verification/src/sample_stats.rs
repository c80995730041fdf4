//! Statistics of a set of sampled lengths: mean, deviation, ranks, histogram
//! and capability against a target.

use vstd::prelude::*;
use vstd::relations::sorted_by;
use vstd::arithmetic::div_mod::lemma_div_is_ordered;
use vstd::arithmetic::div_mod::lemma_div_multiples_vanish;
use vstd::arithmetic::div_mod::lemma_div_pos_is_pos;
use crate::fixed::SCALE;
use crate::fixed::LENGTH_MAX;
use crate::fixed::sqrt_floor;
use crate::fixed::int_sqrt;
use crate::fixed::div_floor;
use crate::fixed::lemma_sqrt_floor_at_most;
use crate::sorting::at_most;

verus! {

/// Largest magnitude of a sample total that the statistics can hold: a
/// thousand million units.
pub const TOTAL_MAX: i64 = 1_000_000_000_000_000;

/// Largest number of samples.
pub const SAMPLES_MAX: usize = 10_000_000;

/// Number of samples drawn where the input names none.
pub const SAMPLES_DEFAULT: usize = 10_000;

/// Number of histogram bins.
pub const BIN_COUNT: usize = 50;

/// A share of one hundred percent, in millionths of a millionth of a
/// percent.
pub const FULL_SHARE: i64 = 100_000_000_000_000;

/// Largest magnitude of a capability index: a million.
pub const CPK_MAX: i64 = 1_000_000_000_000;

/// Limits that the chain is held against.
#[derive(Clone, Copy, Debug)]
pub struct TargetSpec {
    pub nominal: i64,
    pub plus_tolerance: i64,
    pub minus_tolerance: i64,
}

impl TargetSpec {
    /// The limits are within what the arithmetic can hold.
    pub open spec fn in_range(&self) -> bool {
        &&& -LENGTH_MAX <= self.nominal <= LENGTH_MAX
        &&& -LENGTH_MAX <= self.plus_tolerance <= LENGTH_MAX
        &&& -LENGTH_MAX <= self.minus_tolerance <= LENGTH_MAX
    }

    /// Upper limit.
    pub open spec fn upper(&self) -> int {
        self.nominal + self.plus_tolerance
    }

    /// Whether the limits are within what the arithmetic can hold.
    pub fn check_range(&self) -> (ok: bool)
        ensures
            ok == self.in_range(),
    {
        -LENGTH_MAX <= self.nominal && self.nominal <= LENGTH_MAX && -LENGTH_MAX
            <= self.plus_tolerance && self.plus_tolerance <= LENGTH_MAX && -LENGTH_MAX
            <= self.minus_tolerance && self.minus_tolerance <= LENGTH_MAX
    }

    /// Lower limit.
    pub open spec fn lower(&self) -> int {
        self.nominal - self.minus_tolerance
    }
}

/// Values of the sorted samples at fixed ranks.
#[derive(Clone, Copy, Debug)]
pub struct PercentileResult {
    pub p0_1: i64,
    pub p1: i64,
    pub p5: i64,
    pub p50: i64,
    pub p95: i64,
    pub p99: i64,
    pub p99_9: i64,
}

/// One bin of the histogram.
#[derive(Clone, Copy, Debug)]
pub struct HistogramBin {
    pub min: i64,
    pub max: i64,
    pub count: usize,
    /// Share of the samples in the bin, in millionths of a millionth of a
    /// percent, floored.
    pub percentage: i64,
}

/// Statistics of a set of sample totals.
#[derive(Clone, Debug)]
pub struct MonteCarloResult {
    pub mean: i64,
    pub std_dev: i64,
    pub min: i64,
    pub max: i64,
    /// Capability index in millionths; one where no target is given.
    pub cpk: i64,
    pub percentiles: PercentileResult,
    pub histogram: Vec<HistogramBin>,
}

/// There are between one and `SAMPLES_MAX` samples, each within `TOTAL_MAX`.
pub open spec fn samples_in_range(samples: Seq<i64>) -> bool {
    &&& 0 < samples.len() <= SAMPLES_MAX
    &&& forall|i: int| 0 <= i < samples.len() ==> -TOTAL_MAX <= #[trigger] samples[i] <= TOTAL_MAX
}

/// Sum of the samples.
pub open spec fn seq_sum(s: Seq<i64>) -> int
    decreases s.len(),
{
    if s.len() == 0 {
        0
    } else {
        seq_sum(s.drop_last()) + s.last()
    }
}

/// Sum of the squared distances of the samples from `center`.
pub open spec fn sum_sq_dev(s: Seq<i64>, center: int) -> int
    decreases s.len(),
{
    if s.len() == 0 {
        0
    } else {
        sum_sq_dev(s.drop_last(), center) + (s.last() - center) * (s.last() - center)
    }
}

/// Mean of the samples, floored.
pub open spec fn sample_mean(s: Seq<i64>) -> int {
    seq_sum(s) / (s.len() as int)
}

/// Standard deviation of the samples about their floored mean, dividing by
/// their number, floored.
pub open spec fn sample_std_dev(s: Seq<i64>) -> int {
    sqrt_floor((sum_sq_dev(s, sample_mean(s)) / (s.len() as int)) as nat) as int
}

/// Rank of the sample that stands for the fraction `num / den`, held below
/// the number of samples.
pub open spec fn rank(n: int, num: int, den: int) -> int {
    let r = (n * num) / den;
    if r > n - 1 {
        n - 1
    } else {
        r
    }
}

/// Lower edge of bin `i` of fifty equal bins from `low` to `high`, rounded up
/// to a whole step; edge fifty is `high`.
pub open spec fn bin_edge(low: int, high: int, i: int) -> int {
    low + (i * (high - low) + (BIN_COUNT - 1)) / (BIN_COUNT as int)
}

/// Whether bin `i` holds the value `x`: from its lower edge up to, not
/// including, its upper edge; the last bin includes its upper edge.
pub open spec fn in_bin(low: int, high: int, i: int, x: int) -> bool {
    bin_edge(low, high, i) <= x && (if i == BIN_COUNT - 1 {
        x <= bin_edge(low, high, i + 1)
    } else {
        x < bin_edge(low, high, i + 1)
    })
}

/// Number of samples in bin `i`.
pub open spec fn bin_count(s: Seq<i64>, low: int, high: int, i: int) -> int
    decreases s.len(),
{
    if s.len() == 0 {
        0
    } else {
        bin_count(s.drop_last(), low, high, i) + (if in_bin(low, high, i, s.last() as int) {
            1int
        } else {
            0int
        })
    }
}

/// Capability on one side: the margin to the limit over three standard
/// deviations, in millionths, held within `CPK_MAX`; with no deviation the
/// sign of the margin decides.
pub open spec fn capability(margin: int, std_dev: int) -> int {
    if std_dev > 0 {
        let c = (margin * SCALE) / (3 * std_dev);
        if c > CPK_MAX {
            CPK_MAX as int
        } else if c < -CPK_MAX {
            -CPK_MAX
        } else {
            c
        }
    } else if margin < 0 {
        -CPK_MAX
    } else {
        CPK_MAX as int
    }
}

/// Capability index: the lesser of the two sides; one where no target is given.
pub open spec fn capability_index(mean: int, std_dev: int, target: Option<TargetSpec>) -> int {
    match target {
        Some(t) => {
            let cpu = capability(t.upper() - mean, std_dev);
            let cpl = capability(mean - t.lower(), std_dev);
            if cpu < cpl {
                cpu
            } else {
                cpl
            }
        },
        None => SCALE as int,
    }
}

/// The sum of samples within `TOTAL_MAX` is within as many times `TOTAL_MAX`.
pub proof fn lemma_seq_sum_bounds(s: Seq<i64>)
    requires
        forall|i: int| 0 <= i < s.len() ==> -TOTAL_MAX <= #[trigger] s[i] <= TOTAL_MAX,
    ensures
        -1_000_000_000_000_000 * s.len() <= seq_sum(s) <= 1_000_000_000_000_000 * s.len(),
    decreases s.len(),
{
    if s.len() > 0 {
        let front = s.drop_last();
        assert forall|i: int| 0 <= i < front.len() implies -TOTAL_MAX <= #[trigger] front[i]
            <= TOTAL_MAX by {
            assert(front[i] == s[i]);
        }
        lemma_seq_sum_bounds(front);
    }
}

/// Bounds on the sum of squared distances of samples within `TOTAL_MAX` from
/// a centre within `TOTAL_MAX`.
pub proof fn lemma_sum_sq_dev_bounds(s: Seq<i64>, center: int)
    requires
        forall|i: int| 0 <= i < s.len() ==> -TOTAL_MAX <= #[trigger] s[i] <= TOTAL_MAX,
        -TOTAL_MAX <= center <= TOTAL_MAX,
    ensures
        0 <= sum_sq_dev(s, center) <= 4_000_000_000_000_000_000_000_000_000_000 * s.len(),
    decreases s.len(),
{
    if s.len() > 0 {
        let front = s.drop_last();
        assert forall|i: int| 0 <= i < front.len() implies -TOTAL_MAX <= #[trigger] front[i]
            <= TOTAL_MAX by {
            assert(front[i] == s[i]);
        }
        lemma_sum_sq_dev_bounds(front, center);
        let d = s.last() - center;
        assert(0 <= d * d <= 4_000_000_000_000_000_000_000_000_000_000) by (nonlinear_arith)
            requires
                -2_000_000_000_000_000 <= d <= 2_000_000_000_000_000,
        ;
    }
}

/// The mean of samples within `TOTAL_MAX` is within `TOTAL_MAX`.
pub proof fn lemma_mean_bounds(s: Seq<i64>)
    requires
        s.len() > 0,
        forall|i: int| 0 <= i < s.len() ==> -TOTAL_MAX <= #[trigger] s[i] <= TOTAL_MAX,
    ensures
        -TOTAL_MAX <= sample_mean(s) <= TOTAL_MAX,
{
    lemma_seq_sum_bounds(s);
    let n = s.len() as int;
    lemma_div_is_ordered(seq_sum(s), 1_000_000_000_000_000 * n, n);
    lemma_div_is_ordered(-1_000_000_000_000_000 * n, seq_sum(s), n);
    lemma_div_multiples_vanish(1_000_000_000_000_000, n);
    lemma_div_multiples_vanish(-1_000_000_000_000_000, n);
    assert(1_000_000_000_000_000 * n == n * 1_000_000_000_000_000);
    assert(-1_000_000_000_000_000 * n == n * -1_000_000_000_000_000);
}

/// `r` holds the statistics of the sorted samples: the floored mean, the
/// floored deviation about it, the extremes, the capability against `target`,
/// the samples at seven ranks, and fifty bins with their edges, counts and
/// shares.
pub open spec fn summary_of(r: MonteCarloResult, samples: Seq<i64>, target: Option<TargetSpec>) -> bool {
    &&& r.mean == sample_mean(samples)
    &&& r.std_dev == sample_std_dev(samples)
    &&& r.min == samples[0]
    &&& r.max == samples[samples.len() - 1]
    &&& r.cpk == capability_index(r.mean as int, r.std_dev as int, target)
    &&& r.percentiles.p0_1 == samples[rank(samples.len() as int, 1, 1000)]
    &&& r.percentiles.p1 == samples[rank(samples.len() as int, 1, 100)]
    &&& r.percentiles.p5 == samples[rank(samples.len() as int, 5, 100)]
    &&& r.percentiles.p50 == samples[rank(samples.len() as int, 1, 2)]
    &&& r.percentiles.p95 == samples[rank(samples.len() as int, 95, 100)]
    &&& r.percentiles.p99 == samples[rank(samples.len() as int, 99, 100)]
    &&& r.percentiles.p99_9 == samples[rank(samples.len() as int, 999, 1000)]
    &&& r.histogram@.len() == BIN_COUNT
    &&& forall|i: int|
        0 <= i < BIN_COUNT ==> {
            let bin = #[trigger] r.histogram@[i];
            &&& bin.min == bin_edge(r.min as int, r.max as int, i)
            &&& bin.max == bin_edge(r.min as int, r.max as int, i + 1)
            &&& bin.count == bin_count(samples, r.min as int, r.max as int, i)
            &&& bin.percentage == (FULL_SHARE * bin.count) / (samples.len() as int)
        }
}

/// Rank of the sample that stands for the fraction `num / den`.
pub fn rank_of(n: usize, num: u64, den: u64) -> (r: usize)
    requires
        0 < n <= SAMPLES_MAX,
        num <= 1000,
        0 < den <= 1000,
    ensures
        r == rank(n as int, num as int, den as int),
        r < n,
{
    assert(n * num <= 10_000_000_000) by (nonlinear_arith)
        requires
            0 < n <= 10_000_000,
            num <= 1000,
    ;
    let scaled: u64 = (n as u64) * num;
    let r: u64 = scaled / den;
    if r > (n as u64) - 1 {
        n - 1
    } else {
        r as usize
    }
}

/// Lower edge of bin `i`.
pub fn edge_of(low: i64, high: i64, i: usize) -> (e: i64)
    requires
        -TOTAL_MAX <= low <= high <= TOTAL_MAX,
        i <= BIN_COUNT,
    ensures
        e == bin_edge(low as int, high as int, i as int),
        low <= e <= high,
{
    let width: u64 = (high - low) as u64;
    assert(0 <= i * width <= 50 * width) by (nonlinear_arith)
        requires
            0 <= i <= 50,
            0 <= width,
    ;
    let offset: u64 = ((i as u64) * width + 49) / 50;
    low + (offset as i64)
}

/// Number of samples in bin `i`.
pub fn count_in_bin(samples: &Vec<i64>, low: i64, high: i64, i: usize) -> (c: usize)
    requires
        -TOTAL_MAX <= low <= high <= TOTAL_MAX,
        i < BIN_COUNT,
    ensures
        c == bin_count(samples@, low as int, high as int, i as int),
        c <= samples.len(),
{
    let from = edge_of(low, high, i);
    let to = edge_of(low, high, i + 1);
    let last = i == BIN_COUNT - 1;
    let mut c: usize = 0;
    let mut k: usize = 0;
    while k < samples.len()
        invariant
            k <= samples.len(),
            c <= k,
            c == bin_count(samples@.take(k as int), low as int, high as int, i as int),
            from == bin_edge(low as int, high as int, i as int),
            to == bin_edge(low as int, high as int, i + 1),
            last == (i == BIN_COUNT - 1),
        decreases samples.len() - k,
    {
        let x = samples[k];
        proof {
            let after = samples@.take(k + 1);
            assert(after.drop_last() =~= samples@.take(k as int));
            assert(after.last() == x);
        }
        if from <= x && (if last {
            x <= to
        } else {
            x < to
        }) {
            c = c + 1;
        }
        k = k + 1;
    }
    proof {
        assert(samples@.take(samples.len() as int) =~= samples@);
    }
    c
}

/// Capability on one side.
pub fn capability_of(margin: i128, std_dev: i64) -> (c: i64)
    requires
        -4_000_000_000_000_000 <= margin <= 4_000_000_000_000_000,
        0 <= std_dev <= 2_000_000_000_000_000,
    ensures
        c == capability(margin as int, std_dev as int),
{
    if std_dev > 0 {
        let q: i128 = div_floor(margin * 1_000_000, 3 * (std_dev as i128));
        if q > CPK_MAX as i128 {
            CPK_MAX
        } else if q < -(CPK_MAX as i128) {
            -CPK_MAX
        } else {
            q as i64
        }
    } else if margin < 0 {
        -CPK_MAX
    } else {
        CPK_MAX
    }
}

/// Statistics of sorted sample totals: mean, deviation, extremes, capability
/// against `target`, the values at seven ranks and a histogram of fifty bins.
pub fn summarize(samples: &Vec<i64>, target: Option<TargetSpec>) -> (r: MonteCarloResult)
    requires
        samples_in_range(samples@),
        sorted_by(samples@, at_most()),
        target matches Some(t) ==> t.in_range(),
    ensures
        summary_of(r, samples@, target),
{
    let n: usize = samples.len();
    let mut sum: i128 = 0;
    let mut i: usize = 0;
    while i < n
        invariant
            i <= n,
            n == samples.len(),
            samples_in_range(samples@),
            sum == seq_sum(samples@.take(i as int)),
        decreases n - i,
    {
        proof {
            let before = samples@.take(i as int);
            let after = samples@.take(i + 1);
            assert(after.drop_last() =~= before);
            assert(after.last() == samples@[i as int]);
            assert forall|k: int| 0 <= k < after.len() implies -TOTAL_MAX <= #[trigger] after[k]
                <= TOTAL_MAX by {
                assert(after[k] == samples@[k]);
            }
            assert forall|k: int| 0 <= k < before.len() implies -TOTAL_MAX
                <= #[trigger] before[k] <= TOTAL_MAX by {
                assert(before[k] == samples@[k]);
            }
            lemma_seq_sum_bounds(before);
            lemma_seq_sum_bounds(after);
        }
        sum = sum + (samples[i] as i128);
        i = i + 1;
    }
    proof {
        assert(samples@.take(n as int) =~= samples@);
        lemma_mean_bounds(samples@);
    }
    let mean: i64 = div_floor(sum, n as i128) as i64;
    let mut squares: u128 = 0;
    let mut j: usize = 0;
    while j < n
        invariant
            j <= n,
            n == samples.len(),
            samples_in_range(samples@),
            -TOTAL_MAX <= mean <= TOTAL_MAX,
            squares == sum_sq_dev(samples@.take(j as int), mean as int),
        decreases n - j,
    {
        let d: i128 = (samples[j] as i128) - (mean as i128);
        proof {
            let before = samples@.take(j as int);
            let after = samples@.take(j + 1);
            assert(after.drop_last() =~= before);
            assert(after.last() == samples@[j as int]);
            assert forall|k: int| 0 <= k < after.len() implies -TOTAL_MAX <= #[trigger] after[k]
                <= TOTAL_MAX by {
                assert(after[k] == samples@[k]);
            }
            assert forall|k: int| 0 <= k < before.len() implies -TOTAL_MAX
                <= #[trigger] before[k] <= TOTAL_MAX by {
                assert(before[k] == samples@[k]);
            }
            lemma_sum_sq_dev_bounds(before, mean as int);
            lemma_sum_sq_dev_bounds(after, mean as int);
            assert(0 <= d * d <= 4_000_000_000_000_000_000_000_000_000_000) by (nonlinear_arith)
                requires
                    -2_000_000_000_000_000 <= d <= 2_000_000_000_000_000,
            ;
        }
        squares = squares + ((d * d) as u128);
        j = j + 1;
    }
    proof {
        assert(samples@.take(n as int) =~= samples@);
        lemma_sum_sq_dev_bounds(samples@, mean as int);
        let spread = sum_sq_dev(samples@, mean as int);
        lemma_div_is_ordered(spread, 4_000_000_000_000_000_000_000_000_000_000 * n, n as int);
        lemma_div_multiples_vanish(4_000_000_000_000_000_000_000_000_000_000, n as int);
        assert(4_000_000_000_000_000_000_000_000_000_000 * n == n
            * 4_000_000_000_000_000_000_000_000_000_000);
        lemma_div_pos_is_pos(spread, n as int);
        lemma_sqrt_floor_at_most((spread / (n as int)) as nat, 2_000_000_000_000_000);
    }
    let std_dev: i64 = int_sqrt(squares / (n as u128)) as i64;
    let low: i64 = samples[0];
    let high: i64 = samples[n - 1];
    assert(low <= high) by {
        if n > 1 {
            assert(at_most()(samples@[0], samples@[n - 1]));
        }
    }
    let cpk: i64 = match target {
        Some(t) => {
            let upper: i128 = (t.nominal as i128) + (t.plus_tolerance as i128);
            let lower: i128 = (t.nominal as i128) - (t.minus_tolerance as i128);
            let cpu = capability_of(upper - (mean as i128), std_dev);
            let cpl = capability_of((mean as i128) - lower, std_dev);
            if cpu < cpl {
                cpu
            } else {
                cpl
            }
        },
        None => SCALE,
    };
    let percentiles = PercentileResult {
        p0_1: samples[rank_of(n, 1, 1000)],
        p1: samples[rank_of(n, 1, 100)],
        p5: samples[rank_of(n, 5, 100)],
        p50: samples[rank_of(n, 1, 2)],
        p95: samples[rank_of(n, 95, 100)],
        p99: samples[rank_of(n, 99, 100)],
        p99_9: samples[rank_of(n, 999, 1000)],
    };
    let mut histogram: Vec<HistogramBin> = Vec::new();
    let mut b: usize = 0;
    while b < BIN_COUNT
        invariant
            b <= BIN_COUNT,
            n == samples.len(),
            0 < n <= SAMPLES_MAX,
            -TOTAL_MAX <= low <= high <= TOTAL_MAX,
            histogram@.len() == b,
            forall|i: int|
                0 <= i < b ==> {
                    let bin = #[trigger] histogram@[i];
                    &&& bin.min == bin_edge(low as int, high as int, i)
                    &&& bin.max == bin_edge(low as int, high as int, i + 1)
                    &&& bin.count == bin_count(samples@, low as int, high as int, i)
                    &&& bin.percentage == (FULL_SHARE * bin.count) / (n as int)
                },
        decreases BIN_COUNT - b,
    {
        let count = count_in_bin(samples, low, high, b);
        let share: u128 = (100_000_000_000_000 * (count as u128)) / (n as u128);
        proof {
            lemma_div_is_ordered(
                100_000_000_000_000 * count,
                100_000_000_000_000 * n,
                n as int,
            );
            lemma_div_multiples_vanish(100_000_000_000_000, n as int);
            assert(100_000_000_000_000 * n == n * 100_000_000_000_000);
        }
        histogram.push(
            HistogramBin {
                min: edge_of(low, high, b),
                max: edge_of(low, high, b + 1),
                count,
                percentage: share as i64,
            },
        );
        b = b + 1;
    }
    MonteCarloResult { mean, std_dev, min: low, max: high, cpk, percentiles, histogram }
}

/// Number of samples below `limit`.
pub open spec fn count_below(s: Seq<i64>, limit: int) -> int
    decreases s.len(),
{
    if s.len() == 0 {
        0
    } else {
        count_below(s.drop_last(), limit) + (if s.last() < limit {
            1int
        } else {
            0int
        })
    }
}

/// Sum of the counts of the bins.
pub open spec fn histogram_total(bins: Seq<HistogramBin>) -> int
    decreases bins.len(),
{
    if bins.len() == 0 {
        0
    } else {
        histogram_total(bins.drop_last()) + bins.last().count
    }
}

/// The edges of the bins ascend from the least to the greatest sample.
pub proof fn lemma_edges_ascend(low: int, high: int, i: int)
    requires
        low <= high,
        0 <= i < BIN_COUNT,
    ensures
        bin_edge(low, high, i) <= bin_edge(low, high, i + 1),
        bin_edge(low, high, 0) == low,
        bin_edge(low, high, BIN_COUNT as int) == high,
{
    let w = high - low;
    assert(i * w <= (i + 1) * w) by (nonlinear_arith)
        requires
            w >= 0,
    ;
    lemma_div_is_ordered(i * w + 49, (i + 1) * w + 49, 50);
    assert(0 * w == 0);
    assert(50 * w + 49 == 49 + w * 50);
}

proof fn lemma_inner_bin(s: Seq<i64>, low: int, high: int, i: int)
    requires
        low <= high,
        0 <= i < BIN_COUNT - 1,
    ensures
        bin_count(s, low, high, i) == count_below(s, bin_edge(low, high, i + 1)) - count_below(
            s,
            bin_edge(low, high, i),
        ),
    decreases s.len(),
{
    lemma_edges_ascend(low, high, i);
    if s.len() > 0 {
        lemma_inner_bin(s.drop_last(), low, high, i);
    }
}

proof fn lemma_last_bin(s: Seq<i64>, low: int, high: int)
    requires
        low <= high,
        forall|k: int| 0 <= k < s.len() ==> #[trigger] s[k] <= high,
    ensures
        bin_count(s, low, high, BIN_COUNT - 1) == s.len() - count_below(
            s,
            bin_edge(low, high, BIN_COUNT - 1),
        ),
    decreases s.len(),
{
    lemma_edges_ascend(low, high, BIN_COUNT - 1);
    if s.len() > 0 {
        let front = s.drop_last();
        assert forall|k: int| 0 <= k < front.len() implies #[trigger] front[k] <= high by {
            assert(front[k] == s[k]);
        }
        lemma_last_bin(front, low, high);
        assert(s.last() == s[s.len() - 1]);
    }
}

proof fn lemma_none_below(s: Seq<i64>, low: int)
    requires
        forall|k: int| 0 <= k < s.len() ==> low <= #[trigger] s[k],
    ensures
        count_below(s, low) == 0,
    decreases s.len(),
{
    if s.len() > 0 {
        let front = s.drop_last();
        assert forall|k: int| 0 <= k < front.len() implies low <= #[trigger] front[k] by {
            assert(front[k] == s[k]);
        }
        lemma_none_below(front, low);
        assert(s.last() == s[s.len() - 1]);
    }
}

proof fn lemma_histogram_prefix(bins: Seq<HistogramBin>, s: Seq<i64>, low: int, high: int, k: int)
    requires
        low <= high,
        0 <= k < BIN_COUNT,
        bins.len() == BIN_COUNT,
        forall|i: int| 0 <= i < BIN_COUNT ==> (#[trigger] bins[i]).count == bin_count(s, low, high, i),
        forall|j: int| 0 <= j < s.len() ==> low <= #[trigger] s[j],
    ensures
        histogram_total(bins.take(k)) == count_below(s, bin_edge(low, high, k)),
    decreases k,
{
    if k == 0 {
        lemma_edges_ascend(low, high, 0);
        lemma_none_below(s, low);
        assert(bins.take(0).len() == 0);
    } else {
        lemma_histogram_prefix(bins, s, low, high, k - 1);
        lemma_inner_bin(s, low, high, k - 1);
        assert(bins.take(k).drop_last() =~= bins.take(k - 1));
        assert(bins.take(k).last() == bins[k - 1]);
    }
}

/// The statistics of sorted samples are in order, from the least sample
/// through the seven ranks to the greatest, and the bins of the histogram
/// together hold every sample once.
pub proof fn lemma_summary_is_ordered(
    r: MonteCarloResult,
    samples: Seq<i64>,
    target: Option<TargetSpec>,
)
    requires
        samples.len() > 0,
        sorted_by(samples, at_most()),
        summary_of(r, samples, target),
    ensures
        r.min <= r.percentiles.p0_1 <= r.percentiles.p1 <= r.percentiles.p5 <= r.percentiles.p50,
        r.percentiles.p50 <= r.percentiles.p95 <= r.percentiles.p99 <= r.percentiles.p99_9
            <= r.max,
        histogram_total(r.histogram@) == samples.len(),
{
    let n = samples.len() as int;
    assert forall|i: int, j: int| 0 <= i <= j < n implies samples[i] <= samples[j] by {
        if i < j {
            assert(at_most()(samples[i], samples[j]));
        }
    }
    let low = r.min as int;
    let high = r.max as int;
    let bins = r.histogram@;
    assert forall|j: int| 0 <= j < n implies low <= #[trigger] samples[j] <= high by {
        assert(samples[0] <= samples[j]);
        assert(samples[j] <= samples[n - 1]);
    }
    lemma_histogram_prefix(bins, samples, low, high, BIN_COUNT - 1);
    lemma_last_bin(samples, low, high);
    assert(bins.drop_last() =~= bins.take(BIN_COUNT - 1));
    assert(bins.last() == bins[BIN_COUNT - 1]);
}

} // verus!
