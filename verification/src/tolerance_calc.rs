//! Tolerance stackup of a dimensional chain: worst case, root sum square,
//! sampled distribution and the share of each link.
//!
//! The lengths of the links are whole millionths of a unit (see `fixed`).
//! The figures of the worst case, of the root sum square and of the shares
//! are a million times finer: lengths are whole millionths of a millionth,
//! variances the squares of those, shares millionths of a millionth of a
//! percent, and so are the figures of the sampler that the host draws
//! from. The samples themselves and the statistics of the sampled
//! distribution are in millionths, floored.

use vstd::prelude::*;
use crate::fixed::SCALE;
use crate::fixed::LENGTH_MAX;
use crate::fixed::sqrt_floor;
use crate::fixed::int_sqrt;
use crate::fixed::lemma_sqrt_floor;
use crate::fixed::lemma_sqrt_floor_unique;
use crate::fixed::lemma_sqrt_floor_at_most;
use crate::fixed::pow10;
use crate::fixed::scaled_quotient;
use crate::fixed::lemma_pow10_positive;
pub use crate::sample_stats::HistogramBin;
pub use crate::sample_stats::MonteCarloResult;
pub use crate::sample_stats::PercentileResult;
pub use crate::sample_stats::TargetSpec;
use crate::sample_stats::TOTAL_MAX;
use crate::sample_stats::FULL_SHARE;
use crate::sample_stats::SAMPLES_MAX;
use crate::sample_stats::SAMPLES_DEFAULT;
use crate::sorting::ascending;
use crate::sorting::sort_ascending;
use crate::sample_stats::summary_of;
use crate::sample_stats::histogram_total;
use crate::sample_stats::lemma_summary_is_ordered;
use crate::sample_stats::summarize;
use vstd::arithmetic::div_mod::lemma_div_is_ordered;
use vstd::arithmetic::div_mod::lemma_div_multiples_vanish_quotient;
use vstd::arithmetic::div_mod::lemma_fundamental_div_mod;
use vstd::arithmetic::div_mod::lemma_div_is_ordered_by_denominator;
use vstd::arithmetic::div_mod::lemma_div_pos_is_pos;

verus! {

/// Steps of the figures of a stackup in one millionth.
pub const FINE: i128 = 1_000_000;

/// Smallest accepted sigma level: one millionth.
pub const SIGMA_MIN: i64 = 1;

/// Largest accepted sigma level: a million millions.
pub const SIGMA_MAX: i64 = 1_000_000_000_000_000_000;

/// Sigma level of a link that names none: 3.
pub const SIGMA_DEFAULT: i64 = 3_000_000;

/// Largest summed variance of a chain, in the squares of millionths of a
/// millionth: the square of three million units.
pub const VARIANCE_MAX: u128 = 9_000_000_000_000_000_000_000_000_000_000_000_000;

/// Which way a link runs along the chain.
#[derive(Clone, Copy, Debug, PartialEq, Eq, Structural)]
pub enum Direction {
    Positive,
    Negative,
}

/// How the deviation of a link is distributed.
#[derive(Clone, Copy, Debug, PartialEq, Eq, Structural)]
pub enum Distribution {
    Normal,
    Uniform,
}

impl Direction {
    /// `"negative"` names the negative direction; every other name the
    /// positive one.
    pub fn from_name(name: &str) -> (d: Direction)
        ensures
            d == (if name@ == "negative"@ {
                Direction::Negative
            } else {
                Direction::Positive
            }),
    {
        if name.to_owned() == "negative".to_owned() {
            Direction::Negative
        } else {
            Direction::Positive
        }
    }

    /// The name of the direction in lower case.
    pub fn name(&self) -> (s: String)
        ensures
            s@ == (match *self {
                Direction::Positive => "positive"@,
                Direction::Negative => "negative"@,
            }),
    {
        match self {
            Direction::Positive => "positive".to_owned(),
            Direction::Negative => "negative".to_owned(),
        }
    }
}

impl Distribution {
    /// `"uniform"` names the uniform distribution; every other name the
    /// normal one.
    pub fn from_name(name: &str) -> (d: Distribution)
        ensures
            d == (if name@ == "uniform"@ {
                Distribution::Uniform
            } else {
                Distribution::Normal
            }),
    {
        if name.to_owned() == "uniform".to_owned() {
            Distribution::Uniform
        } else {
            Distribution::Normal
        }
    }

    /// The name of the distribution in lower case.
    pub fn name(&self) -> (s: String)
        ensures
            s@ == (match *self {
                Distribution::Normal => "normal"@,
                Distribution::Uniform => "uniform"@,
            }),
    {
        match self {
            Distribution::Normal => "normal".to_owned(),
            Distribution::Uniform => "uniform".to_owned(),
        }
    }
}

/// One link of the chain.
#[derive(Clone, Copy, Debug)]
pub struct LinkInput {
    pub nominal: i64,
    pub plus_tolerance: i64,
    pub minus_tolerance: i64,
    pub direction: Direction,
    pub distribution: Distribution,
    /// Sigma level of the tolerance band, in millionths; `None` stands for 3.
    pub sigma: Option<i64>,
}

impl LinkInput {
    /// Upper tolerance in millionths, a negative one taken as zero.
    pub open spec fn plus(&self) -> int {
        if self.plus_tolerance < 0 {
            0
        } else {
            self.plus_tolerance as int
        }
    }

    /// Lower tolerance in millionths, a negative one taken as zero.
    pub open spec fn minus(&self) -> int {
        if self.minus_tolerance < 0 {
            0
        } else {
            self.minus_tolerance as int
        }
    }

    /// Sigma level of the tolerance band, three where the link names none.
    pub open spec fn sigma_level(&self) -> int {
        match self.sigma {
            Some(s) => s as int,
            None => SIGMA_DEFAULT as int,
        }
    }

    /// The magnitudes are within what the arithmetic can hold.
    pub open spec fn in_range(&self) -> bool {
        &&& -LENGTH_MAX <= self.nominal <= LENGTH_MAX
        &&& self.plus_tolerance <= LENGTH_MAX
        &&& self.minus_tolerance <= LENGTH_MAX
        &&& SIGMA_MIN <= self.sigma_level() <= SIGMA_MAX
    }

    /// Nominal length with the sign of the direction.
    pub open spec fn signed_nominal(&self) -> int {
        if self.direction == Direction::Negative {
            -(self.nominal * FINE)
        } else {
            self.nominal * FINE
        }
    }

    /// Least signed length that the link can take.
    pub open spec fn low(&self) -> int {
        if self.direction == Direction::Negative {
            -((self.nominal + self.plus()) * FINE)
        } else {
            (self.nominal - self.minus()) * FINE
        }
    }

    /// Greatest signed length that the link can take.
    pub open spec fn high(&self) -> int {
        if self.direction == Direction::Negative {
            -((self.nominal - self.minus()) * FINE)
        } else {
            (self.nominal + self.plus()) * FINE
        }
    }

    /// Width of the tolerance band.
    pub open spec fn band(&self) -> int {
        (self.plus() + self.minus()) * FINE
    }

    /// Variance of the link: the half band over the sigma level, squared, for
    /// a normal link; the band squared over twelve for a uniform one.
    pub open spec fn variance(&self) -> int {
        match self.distribution {
            Distribution::Normal => (self.band() * self.band() * pow10(12)) / (4 * (
            self.sigma_level() * self.sigma_level())),
            Distribution::Uniform => (self.band() * self.band()) / 12,
        }
    }

    /// Whether the magnitudes are within what the arithmetic can hold.
    pub fn check_range(&self) -> (ok: bool)
        ensures
            ok == self.in_range(),
    {
        let lvl: i64 = match self.sigma {
            Some(s) => s,
            None => SIGMA_DEFAULT,
        };
        -LENGTH_MAX <= self.nominal && self.nominal <= LENGTH_MAX && self.plus_tolerance
            <= LENGTH_MAX && self.minus_tolerance <= LENGTH_MAX && SIGMA_MIN <= lvl && lvl
            <= SIGMA_MAX
    }
}

/// Every link is in range.
pub open spec fn each_in_range(links: Seq<LinkInput>) -> bool {
    forall|i: int| 0 <= i < links.len() ==> (#[trigger] links[i]).in_range()
}

/// Every link is in range and the summed variance is at most `VARIANCE_MAX`.
pub open spec fn links_in_range(links: Seq<LinkInput>) -> bool {
    &&& each_in_range(links)
    &&& total_variance(links) <= VARIANCE_MAX
}

/// Sum of the signed nominal lengths of the links.
pub open spec fn total_nominal(links: Seq<LinkInput>) -> int
    decreases links.len(),
{
    if links.len() == 0 {
        0
    } else {
        total_nominal(links.drop_last()) + links.last().signed_nominal()
    }
}

/// Sum of the least signed lengths of the links.
pub open spec fn total_low(links: Seq<LinkInput>) -> int
    decreases links.len(),
{
    if links.len() == 0 {
        0
    } else {
        total_low(links.drop_last()) + links.last().low()
    }
}

/// Sum of the greatest signed lengths of the links.
pub open spec fn total_high(links: Seq<LinkInput>) -> int
    decreases links.len(),
{
    if links.len() == 0 {
        0
    } else {
        total_high(links.drop_last()) + links.last().high()
    }
}

/// Sum of the variances of the links.
pub open spec fn total_variance(links: Seq<LinkInput>) -> int
    decreases links.len(),
{
    if links.len() == 0 {
        0
    } else {
        total_variance(links.drop_last()) + links.last().variance()
    }
}

/// Worst-case analysis result, in millionths of a millionth.
#[derive(Clone, Copy, Debug)]
pub struct WorstCaseResult {
    pub min: i128,
    pub max: i128,
    pub tolerance: i128,
}

/// Bounds on one link that hold whenever it is in range.
pub proof fn lemma_link_bounds(link: LinkInput)
    requires
        link.in_range(),
    ensures
        0 <= link.plus() <= LENGTH_MAX,
        0 <= link.minus() <= LENGTH_MAX,
        -2_000_000_000_000_000_000 <= link.low() <= link.signed_nominal() <= link.high()
            <= 2_000_000_000_000_000_000,
        0 <= link.band() <= 2_000_000_000_000_000_000,
        link.high() - link.low() == link.band(),
        link.variance() >= 0,
{
    let b = link.band();
    let lvl = link.sigma_level();
    assert(b * b >= 0) by (nonlinear_arith);
    lemma_pow10_positive(12);
    assert(b * b * pow10(12) >= 0) by (nonlinear_arith)
        requires
            b * b >= 0,
            pow10(12) >= 1,
    ;
    assert(4 * (lvl * lvl) > 0) by (nonlinear_arith)
        requires
            lvl >= 1,
    ;
    lemma_div_pos_is_pos(b * b * pow10(12), 4 * (lvl * lvl));
    lemma_div_pos_is_pos(b * b, 12);
}

/// Bounds on the sums over links in range.
pub proof fn lemma_total_bounds(links: Seq<LinkInput>)
    requires
        each_in_range(links),
    ensures
        -2_000_000_000_000_000_000 * links.len() <= total_low(links),
        total_low(links) <= total_nominal(links) <= total_high(links),
        total_high(links) <= 2_000_000_000_000_000_000 * links.len(),
        total_variance(links) >= 0,
        forall|i: int| 0 <= i < links.len() ==> 0 <= (#[trigger] links[i]).variance()
            <= total_variance(links),
    decreases links.len(),
{
    if links.len() > 0 {
        let front = links.drop_last();
        assert forall|i: int| 0 <= i < front.len() implies (#[trigger] front[i]).in_range() by {
            assert(front[i] == links[i]);
        }
        lemma_total_bounds(front);
        lemma_link_bounds(links.last());
        assert forall|i: int| 0 <= i < links.len() implies 0 <= (#[trigger] links[i]).variance()
            <= total_variance(links) by {
            if i < front.len() {
                assert(front[i] == links[i]);
            }
        }
    }
}

/// The summed variance of the first links of a chain in range is no more
/// than that of the whole chain.
pub proof fn lemma_variance_grows(links: Seq<LinkInput>, k: int)
    requires
        each_in_range(links),
        0 <= k <= links.len(),
    ensures
        0 <= total_variance(links.take(k)) <= total_variance(links),
    decreases links.len() - k,
{
    assert forall|i: int| 0 <= i < links.take(k).len() implies (#[trigger] links.take(k)[i]).in_range() by {
        assert(links.take(k)[i] == links[i]);
    }
    lemma_total_bounds(links.take(k));
    if k < links.len() {
        lemma_variance_grows(links, k + 1);
        assert(links.take(k + 1).drop_last() =~= links.take(k));
        assert(links.take(k + 1).last() == links[k]);
        lemma_link_bounds(links[k]);
    } else {
        assert(links.take(k) =~= links);
    }
}

/// Sums the extreme lengths of every link.
pub fn calculate_worst_case(links: &Vec<LinkInput>) -> (r: WorstCaseResult)
    requires
        each_in_range(links@),
    ensures
        r.min == total_low(links@),
        r.max == total_high(links@),
        r.tolerance == (total_high(links@) - total_low(links@)) / 2,
{
    let mut total_min: i128 = 0;
    let mut total_max: i128 = 0;
    let mut i: usize = 0;
    while i < links.len()
        invariant
            i <= links.len(),
            each_in_range(links@),
            total_min == total_low(links@.take(i as int)),
            total_max == total_high(links@.take(i as int)),
        decreases links.len() - i,
    {
        let link = &links[i];
        let plus: i128 = if link.plus_tolerance < 0 {
            0
        } else {
            link.plus_tolerance as i128
        };
        let minus: i128 = if link.minus_tolerance < 0 {
            0
        } else {
            link.minus_tolerance as i128
        };
        proof {
            let before = links@.take(i as int);
            let after = links@.take(i + 1);
            assert(after.drop_last() =~= before);
            assert(after.last() == links@[i as int]);
            assert forall|k: int| 0 <= k < after.len() implies (#[trigger] after[k]).in_range() by {
                assert(after[k] == links@[k]);
            }
            assert forall|k: int| 0 <= k < before.len() implies (#[trigger] before[k]).in_range() by {
                assert(before[k] == links@[k]);
            }
            lemma_total_bounds(after);
            lemma_total_bounds(before);
            lemma_link_bounds(links@[i as int]);
        }
        let nominal: i128 = link.nominal as i128;
        match link.direction {
            Direction::Negative => {
                total_min = total_min - (nominal + plus) * FINE;
                total_max = total_max - (nominal - minus) * FINE;
            },
            Direction::Positive => {
                total_min = total_min + (nominal - minus) * FINE;
                total_max = total_max + (nominal + plus) * FINE;
            },
        }
        i = i + 1;
    }
    proof {
        assert(links@.take(links.len() as int) =~= links@);
        lemma_total_bounds(links@);
    }
    let width: u128 = (total_max - total_min) as u128;
    WorstCaseResult { min: total_min, max: total_max, tolerance: (width / 2) as i128 }
}

/// Root-sum-square analysis result, in millionths of a millionth.
#[derive(Clone, Copy, Debug)]
pub struct RssResult {
    pub min: i128,
    pub max: i128,
    /// Three times `sigma`.
    pub tolerance: i128,
    /// One standard deviation of the chain, floored.
    pub sigma: i128,
}

/// Share of one link in the chain.
#[derive(Clone, Copy, Debug)]
pub struct ContributionResult {
    pub index: usize,
    /// Signed nominal length, in millionths of a millionth.
    pub nominal_contribution: i128,
    /// Variance of the link, in the squares of millionths of a millionth.
    pub variance_contribution: u128,
    /// Share of the chain's variance, in millionths of a millionth of a
    /// percent.
    pub percent: i64,
}

/// Standard deviation of the chain: the floored root of the summed variances.
pub open spec fn rss_sigma(links: Seq<LinkInput>) -> int {
    sqrt_floor(total_variance(links) as nat) as int
}

/// Three standard deviations of the chain.
pub open spec fn rss_tolerance(links: Seq<LinkInput>) -> int {
    3 * rss_sigma(links)
}

/// Share of the first `k` links in the summed variance, floored; zero where
/// the chain has no variance.
pub open spec fn share_upto(links: Seq<LinkInput>, k: int) -> int {
    if total_variance(links) > 0 {
        (total_variance(links.take(k)) * pow10(14)) / total_variance(links)
    } else {
        0
    }
}

/// Share of link `i` in the summed variance: what it adds to the share of
/// the links before it. The shares of a chain with variance add up to
/// `FULL_SHARE`, and each is within one step of a hundred times the variance
/// of its link over the summed variance.
pub open spec fn percent_share(links: Seq<LinkInput>, i: int) -> int {
    share_upto(links, i + 1) - share_upto(links, i)
}

/// Variance of one link, where it is at most `VARIANCE_MAX`.
pub fn link_variance(link: &LinkInput) -> (v: Option<u128>)
    requires
        link.in_range(),
    ensures
        v == (if link.variance() <= VARIANCE_MAX {
            Some(link.variance() as u128)
        } else {
            None
        }),
{
    let plus: u128 = if link.plus_tolerance < 0 {
        0
    } else {
        link.plus_tolerance as u128
    };
    let minus: u128 = if link.minus_tolerance < 0 {
        0
    } else {
        link.minus_tolerance as u128
    };
    let band: u128 = (plus + minus) * 1_000_000;
    assert(band * band <= 4_000_000_000_000_000_000_000_000_000_000_000_000) by (nonlinear_arith)
        requires
            0 <= band <= 2_000_000_000_000_000_000,
    ;
    let sq: u128 = band * band;
    match link.distribution {
        Distribution::Normal => {
            let lvl: u128 = match link.sigma {
                Some(s) => s as u128,
                None => SIGMA_DEFAULT as u128,
            };
            assert(4 <= 4 * (lvl * lvl) <= 4_000_000_000_000_000_000_000_000_000_000_000_000)
                by (nonlinear_arith)
                requires
                    1 <= lvl <= 1_000_000_000_000_000_000,
            ;
            scaled_quotient(sq, 12, 4 * (lvl * lvl), VARIANCE_MAX)
        },
        Distribution::Uniform => {
            let v: u128 = sq / 12;
            proof {
                lemma_div_is_ordered(
                    sq as int,
                    4_000_000_000_000_000_000_000_000_000_000_000_000,
                    12,
                );
            }
            Some(v)
        },
    }
}

/// The variance of each link and their sum, where the chain is in range.
pub fn collect_variances(links: &Vec<LinkInput>) -> (r: Option<(Vec<u128>, u128)>)
    requires
        each_in_range(links@),
    ensures
        r is Some <==> total_variance(links@) <= VARIANCE_MAX,
        r matches Some(found) ==> {
            &&& found.0@.len() == links@.len()
            &&& forall|i: int|
                0 <= i < links@.len() ==> found.0@[i] == (#[trigger] links@[i]).variance()
            &&& found.1 == total_variance(links@)
        },
{
    let mut sum: u128 = 0;
    let mut variances: Vec<u128> = Vec::new();
    let mut i: usize = 0;
    while i < links.len()
        invariant
            i <= links.len(),
            each_in_range(links@),
            sum == total_variance(links@.take(i as int)),
            sum <= VARIANCE_MAX,
            variances@.len() == i,
            forall|k: int| 0 <= k < i ==> variances@[k] == (#[trigger] links@[k]).variance(),
        decreases links.len() - i,
    {
        proof {
            let after = links@.take(i + 1);
            assert(after.drop_last() =~= links@.take(i as int));
            assert(after.last() == links@[i as int]);
            lemma_variance_grows(links@, i + 1);
            lemma_link_bounds(links@[i as int]);
        }
        match link_variance(&links[i]) {
            Some(v) => {
                if v > VARIANCE_MAX - sum {
                    return None;
                }
                sum = sum + v;
                variances.push(v);
            },
            None => {
                return None;
            },
        }
        i = i + 1;
    }
    proof {
        assert(links@.take(links.len() as int) =~= links@);
    }
    Some((variances, sum))
}

/// Root-sum-square analysis of a chain with the given total nominal and
/// summed variance.
fn rss_from(nominal: i128, sum: u128) -> (r: RssResult)
    requires
        sum <= VARIANCE_MAX,
        -40_000_000_000_000_000_000_000_000_000_000_000_000 <= nominal
            <= 40_000_000_000_000_000_000_000_000_000_000_000_000,
    ensures
        r.sigma == sqrt_floor(sum as nat),
        r.tolerance == 3 * r.sigma,
        r.min == nominal - r.tolerance,
        r.max == nominal + r.tolerance,
{
    proof {
        lemma_sqrt_floor_at_most(sum as nat, 3_000_000_000_000_000_000);
    }
    let sigma: i128 = int_sqrt(sum) as i128;
    let tolerance: i128 = 3 * sigma;
    RssResult { min: nominal - tolerance, max: nominal + tolerance, tolerance, sigma }
}

/// Root-sum-square analysis of the chain, with the variance of each link.
pub fn calculate_rss(links: &Vec<LinkInput>) -> (r: (RssResult, Vec<u128>))
    requires
        links_in_range(links@),
    ensures
        r.0.sigma == rss_sigma(links@),
        r.0.tolerance == 3 * r.0.sigma,
        r.0.min == total_nominal(links@) - rss_tolerance(links@),
        r.0.max == total_nominal(links@) + rss_tolerance(links@),
        r.1@.len() == links@.len(),
        forall|i: int| 0 <= i < links@.len() ==> r.1@[i] == (#[trigger] links@[i]).variance(),
{
    let (variances, sum) = match collect_variances(links) {
        Some(found) => found,
        None => (Vec::new(), 0),
    };
    let nominal = sum_nominal(links);
    assert(links.len() <= usize::MAX);
    (rss_from(nominal, sum), variances)
}

/// Sum of the signed nominal lengths of the links.
pub fn sum_nominal(links: &Vec<LinkInput>) -> (total: i128)
    requires
        each_in_range(links@),
    ensures
        total == total_nominal(links@),
        -2_000_000_000_000_000_000 * links@.len() <= total <= 2_000_000_000_000_000_000
            * links@.len(),
{
    let mut total: i128 = 0;
    let mut i: usize = 0;
    while i < links.len()
        invariant
            i <= links.len(),
            each_in_range(links@),
            total == total_nominal(links@.take(i as int)),
        decreases links.len() - i,
    {
        proof {
            let before = links@.take(i as int);
            let after = links@.take(i + 1);
            assert(after.drop_last() =~= before);
            assert(after.last() == links@[i as int]);
            assert forall|k: int| 0 <= k < after.len() implies (#[trigger] after[k]).in_range() by {
                assert(after[k] == links@[k]);
            }
            assert forall|k: int| 0 <= k < before.len() implies (#[trigger] before[k]).in_range() by {
                assert(before[k] == links@[k]);
            }
            lemma_total_bounds(after);
            lemma_total_bounds(before);
            lemma_link_bounds(links@[i as int]);
        }
        let link = &links[i];
        match link.direction {
            Direction::Negative => {
                total = total - (link.nominal as i128) * FINE;
            },
            Direction::Positive => {
                total = total + (link.nominal as i128) * FINE;
            },
        }
        i = i + 1;
    }
    proof {
        assert(links@.take(links.len() as int) =~= links@);
        lemma_total_bounds(links@);
    }
    total
}

/// The share of each link in the summed variance.
pub fn calculate_contributions(links: &Vec<LinkInput>, variances: &Vec<u128>, sum: u128) -> (r:
    Vec<ContributionResult>)
    requires
        links_in_range(links@),
        variances@.len() == links@.len(),
        forall|i: int| 0 <= i < links@.len() ==> variances@[i] == (#[trigger] links@[i]).variance(),
        sum == total_variance(links@),
    ensures
        r@.len() == links@.len(),
        forall|i: int| 0 <= i < links@.len() ==> is_contribution(#[trigger] r@[i], links@, i),
{
    let mut r: Vec<ContributionResult> = Vec::new();
    let mut prefix: u128 = 0;
    let mut share: i64 = 0;
    let mut i: usize = 0;
    proof {
        assert(links@.take(0) =~= Seq::<LinkInput>::empty());
        if sum > 0 {
            assert((0 * pow10(14)) / (sum as int) == 0) by {
                assert(0 * pow10(14) == 0) by (nonlinear_arith);
                vstd::arithmetic::div_mod::lemma_div_basics_1(sum as int);
            }
        }
    }
    while i < links.len()
        invariant
            i <= links.len(),
            links_in_range(links@),
            variances@.len() == links@.len(),
            forall|k: int|
                0 <= k < links@.len() ==> variances@[k] == (#[trigger] links@[k]).variance(),
            sum == total_variance(links@),
            prefix == total_variance(links@.take(i as int)),
            prefix <= sum,
            share == share_upto(links@, i as int),
            0 <= share <= FULL_SHARE,
            r@.len() == i,
            forall|k: int| 0 <= k < i ==> is_contribution(#[trigger] r@[k], links@, k),
        decreases links.len() - i,
    {
        let link = &links[i];
        proof {
            let after = links@.take(i + 1);
            assert(after.drop_last() =~= links@.take(i as int));
            assert(after.last() == links@[i as int]);
            lemma_variance_grows(links@, i + 1);
            lemma_link_bounds(links@[i as int]);
            lemma_pow10_values();
        }
        let next_prefix: u128 = prefix + variances[i];
        let next_share: i64 = if sum > 0 {
            proof {
                lemma_div_is_ordered(
                    next_prefix * pow10(14),
                    sum * pow10(14),
                    sum as int,
                );
                vstd::arithmetic::div_mod::lemma_div_multiples_vanish(pow10(14), sum as int);
                assert(sum * pow10(14) == sum as int * pow10(14));
                assert(next_prefix * pow10(14) <= sum * pow10(14)) by (nonlinear_arith)
                    requires
                        next_prefix <= sum,
                        pow10(14) >= 0,
                ;
                assert(next_prefix * pow10(14) >= 0) by (nonlinear_arith)
                    requires
                        next_prefix >= 0,
                        pow10(14) >= 0,
                ;
                lemma_div_pos_is_pos(next_prefix * pow10(14), sum as int);
            }
            match scaled_quotient(next_prefix, 14, sum, 100_000_000_000_000) {
                Some(q) => q as i64,
                None => FULL_SHARE,
            }
        } else {
            0
        };
        proof {
            if sum > 0 {
                lemma_div_is_ordered(
                    prefix * pow10(14),
                    next_prefix * pow10(14),
                    sum as int,
                );
                assert(prefix * pow10(14) <= next_prefix * pow10(14)) by (nonlinear_arith)
                    requires
                        prefix <= next_prefix,
                        pow10(14) >= 0,
                ;
            }
        }
        let nominal: i128 = match link.direction {
            Direction::Negative => -((link.nominal as i128) * FINE),
            Direction::Positive => (link.nominal as i128) * FINE,
        };
        r.push(
            ContributionResult {
                index: i,
                nominal_contribution: nominal,
                variance_contribution: variances[i],
                percent: next_share - share,
            },
        );
        prefix = next_prefix;
        share = next_share;
        i = i + 1;
    }
    r
}

/// `c` is the contribution of link `i`: its place, its signed nominal length,
/// its variance and its share.
pub open spec fn is_contribution(c: ContributionResult, links: Seq<LinkInput>, i: int) -> bool {
    &&& c.index == i
    &&& c.nominal_contribution == links[i].signed_nominal()
    &&& c.variance_contribution == links[i].variance()
    &&& c.percent == percent_share(links, i)
}

/// Ten to the twelfth and to the fourteenth power.
pub proof fn lemma_pow10_values()
    ensures
        pow10(12) == 1_000_000_000_000,
        pow10(14) == 100_000_000_000_000,
{
    reveal_with_fuel(pow10, 15);
}

/// Standard deviation handed to the host where a normal link has none:
/// 0.001, in millionths of a millionth.
pub const FALLBACK_STD_DEV: i128 = 1_000_000_000;

/// What the host draws a link from, in millionths of a millionth.
#[derive(Clone, Copy, Debug, PartialEq, Eq, Structural)]
pub enum Sampler {
    Normal { mean: i128, std_dev: i128 },
    Uniform { low: i128, high: i128 },
}

/// The sampler of a link. A normal link is centred on the middle of its band,
/// with the half band over the sigma level as deviation, or `FALLBACK_STD_DEV`
/// where that is not positive; a uniform link spans its band.
pub open spec fn sampler_of(link: LinkInput) -> Sampler {
    match link.distribution {
        Distribution::Uniform => Sampler::Uniform {
            low: ((link.nominal - link.minus()) * FINE) as i128,
            high: ((link.nominal + link.plus()) * FINE) as i128,
        },
        Distribution::Normal => {
            let std_dev = (link.band() * SCALE) / (2 * link.sigma_level());
            Sampler::Normal {
                mean: (link.nominal * FINE + (link.plus() - link.minus()) * (FINE / 2)) as i128,
                std_dev: if std_dev <= 0 {
                    FALLBACK_STD_DEV
                } else {
                    std_dev as i128
                },
            }
        },
    }
}

/// The sampler of a link, for the host that draws the samples.
pub fn link_sampler(link: &LinkInput) -> (s: Sampler)
    requires
        link.in_range(),
    ensures
        s == sampler_of(*link),
{
    let plus: i128 = if link.plus_tolerance < 0 {
        0
    } else {
        link.plus_tolerance as i128
    };
    let minus: i128 = if link.minus_tolerance < 0 {
        0
    } else {
        link.minus_tolerance as i128
    };
    let nominal: i128 = link.nominal as i128;
    match link.distribution {
        Distribution::Uniform => Sampler::Uniform {
            low: (nominal - minus) * FINE,
            high: (nominal + plus) * FINE,
        },
        Distribution::Normal => {
            let lvl: u128 = match link.sigma {
                Some(s) => s as u128,
                None => SIGMA_DEFAULT as u128,
            };
            let band: u128 = ((plus + minus) * FINE) as u128;
            let std_dev: u128 = (band * 1_000_000) / (2 * lvl);
            proof {
                lemma_div_is_ordered_by_denominator((band * 1_000_000) as int, 2, (2 * lvl) as int);
            }
            Sampler::Normal {
                mean: nominal * FINE + (plus - minus) * (FINE / 2),
                std_dev: if std_dev == 0 {
                    FALLBACK_STD_DEV
                } else {
                    std_dev as i128
                },
            }
        },
    }
}

/// Sum of one row of draws, each with the sign of its link.
pub open spec fn sample_total(links: Seq<LinkInput>, row: Seq<i64>) -> int
    decreases links.len(),
{
    if links.len() == 0 {
        0
    } else {
        sample_total(links.drop_last(), row) + (if links.last().direction == Direction::Negative {
            -(row[links.len() - 1] as int)
        } else {
            row[links.len() - 1] as int
        })
    }
}

/// The draws hold between one and `SAMPLES_MAX` rows, each with one draw for
/// every link and a total within `TOTAL_MAX`.
pub open spec fn draws_usable(links: Seq<LinkInput>, draws: Seq<Vec<i64>>) -> bool {
    &&& 0 < draws.len() <= SAMPLES_MAX
    &&& forall|k: int|
        0 <= k < draws.len() ==> {
            &&& (#[trigger] draws[k])@.len() == links.len()
            &&& -TOTAL_MAX <= sample_total(links, draws[k]@) <= TOTAL_MAX
        }
}

/// The total of every row, in the order of the rows.
pub open spec fn sample_totals(links: Seq<LinkInput>, draws: Seq<Vec<i64>>) -> Seq<i64> {
    Seq::new(draws.len(), |k: int| sample_total(links, draws[k]@) as i64)
}

/// The totals of the rows in ascending order.
pub open spec fn sorted_totals(links: Seq<LinkInput>, draws: Seq<Vec<i64>>) -> Seq<i64> {
    ascending(sample_totals(links, draws))
}

/// The total of a row is bounded by the number of links.
pub proof fn lemma_sample_total_bounds(links: Seq<LinkInput>, row: Seq<i64>)
    requires
        row.len() >= links.len(),
    ensures
        -0x8000_0000_0000_0000 * links.len() <= sample_total(links, row) <= 0x8000_0000_0000_0000
            * links.len(),
    decreases links.len(),
{
    if links.len() > 0 {
        lemma_sample_total_bounds(links.drop_last(), row);
    }
}

/// Total of one row, where it has one draw for every link and the total is
/// within `TOTAL_MAX`.
pub fn row_total(links: &Vec<LinkInput>, row: &Vec<i64>) -> (r: Option<i64>)
    ensures
        r == (if row@.len() == links@.len() && -TOTAL_MAX <= sample_total(links@, row@)
            <= TOTAL_MAX {
            Some(sample_total(links@, row@) as i64)
        } else {
            None
        }),
{
    if row.len() != links.len() {
        return None;
    }
    let mut acc: i128 = 0;
    let mut i: usize = 0;
    while i < links.len()
        invariant
            i <= links.len(),
            row@.len() == links@.len(),
            acc == sample_total(links@.take(i as int), row@),
        decreases links.len() - i,
    {
        proof {
            let before = links@.take(i as int);
            let after = links@.take(i + 1);
            assert(after.drop_last() =~= before);
            assert(after.last() == links@[i as int]);
            lemma_sample_total_bounds(before, row@);
            lemma_sample_total_bounds(after, row@);
            assert(0x8000_0000_0000_0000 * after.len() <= 0x8000_0000_0000_0000
                * 0x1_0000_0000_0000_0000) by (nonlinear_arith)
                requires
                    after.len() <= 0x1_0000_0000_0000_0000,
            ;
        }
        match links[i].direction {
            Direction::Negative => {
                acc = acc - (row[i] as i128);
            },
            Direction::Positive => {
                acc = acc + (row[i] as i128);
            },
        }
        i = i + 1;
    }
    proof {
        assert(links@.take(links.len() as int) =~= links@);
    }
    if acc < -(TOTAL_MAX as i128) || acc > TOTAL_MAX as i128 {
        None
    } else {
        Some(acc as i64)
    }
}

/// The total of every row, where the draws are usable.
pub fn collect_totals(links: &Vec<LinkInput>, draws: &Vec<Vec<i64>>) -> (r: Option<Vec<i64>>)
    ensures
        r is Some <==> draws_usable(links@, draws@),
        r matches Some(totals) ==> totals@ == sample_totals(links@, draws@),
{
    if draws.len() == 0 || draws.len() > SAMPLES_MAX {
        return None;
    }
    let mut totals: Vec<i64> = Vec::new();
    let mut k: usize = 0;
    while k < draws.len()
        invariant
            k <= draws.len(),
            0 < draws.len() <= SAMPLES_MAX,
            totals@.len() == k,
            forall|j: int|
                0 <= j < k ==> {
                    &&& (#[trigger] draws@[j])@.len() == links@.len()
                    &&& -TOTAL_MAX <= sample_total(links@, draws@[j]@) <= TOTAL_MAX
                    &&& totals@[j] == sample_total(links@, draws@[j]@)
                },
        decreases draws.len() - k,
    {
        match row_total(links, &draws[k]) {
            Some(t) => {
                totals.push(t);
            },
            None => {
                assert(!draws_usable(links@, draws@)) by {
                    let bad = draws@[k as int];
                }
                return None;
            },
        }
        k = k + 1;
    }
    assert(totals@ =~= sample_totals(links@, draws@));
    Some(totals)
}

/// Statistics of the sample totals of a chain. The host draws one value per
/// link and sample from `link_sampler`; each row of `draws` is one sample.
pub fn run_monte_carlo(
    links: &Vec<LinkInput>,
    draws: &Vec<Vec<i64>>,
    target: Option<TargetSpec>,
) -> (r: Option<MonteCarloResult>)
    ensures
        r is Some <==> draws_usable(links@, draws@) && (target matches Some(t) ==> t.in_range()),
        r matches Some(m) ==> summary_of(m, sorted_totals(links@, draws@), target),
{
    match target {
        Some(t) => {
            if !t.check_range() {
                return None;
            }
        },
        None => {},
    }
    match collect_totals(links, draws) {
        None => None,
        Some(totals) => {
            let samples = sort_ascending(&totals);
            proof {
                assert forall|i: int| 0 <= i < samples@.len() implies -TOTAL_MAX
                    <= #[trigger] samples@[i] <= TOTAL_MAX by {
                    vstd::seq_lib::to_multiset_contains(samples@, samples@[i]);
                    vstd::seq_lib::to_multiset_contains(totals@, samples@[i]);
                    assert(samples@.contains(samples@[i]));
                    assert(totals@.contains(samples@[i]));
                }
            }
            Some(summarize(&samples, target))
        },
    }
}

/// A chain with what is to be computed of it.
#[derive(Clone, Debug)]
pub struct ToleranceInput {
    pub links: Vec<LinkInput>,
    /// Number of samples; `None` stands for `SAMPLES_DEFAULT`.
    pub monte_carlo_samples: Option<usize>,
    pub target_spec: Option<TargetSpec>,
}

impl ToleranceInput {
    /// Number of samples that the input asks for.
    pub open spec fn requested_samples(&self) -> int {
        match self.monte_carlo_samples {
            Some(n) => n as int,
            None => SAMPLES_DEFAULT as int,
        }
    }

    /// The chain and the target are within what the arithmetic can hold.
    pub open spec fn in_range(&self) -> bool {
        &&& links_in_range(self.links@)
        &&& self.target_spec matches Some(t) ==> t.in_range()
    }

    /// Number of samples that the host has to draw.
    pub fn sample_count(&self) -> (n: usize)
        ensures
            n == self.requested_samples(),
    {
        match self.monte_carlo_samples {
            Some(n) => n,
            None => SAMPLES_DEFAULT,
        }
    }

    /// Whether every link is within what the arithmetic can hold.
    pub fn check_links(&self) -> (ok: bool)
        ensures
            ok == each_in_range(self.links@),
    {
        let mut i: usize = 0;
        while i < self.links.len()
            invariant
                i <= self.links.len(),
                forall|k: int| 0 <= k < i ==> (#[trigger] self.links@[k]).in_range(),
            decreases self.links.len() - i,
        {
            if !self.links[i].check_range() {
                return false;
            }
            i = i + 1;
        }
        true
    }

    /// Whether the chain and the target are within what the arithmetic can hold.
    pub fn check_range(&self) -> (ok: bool)
        ensures
            ok == self.in_range(),
    {
        if !self.check_links() {
            return false;
        }
        if collect_variances(&self.links).is_none() {
            return false;
        }
        match self.target_spec {
            Some(t) => t.check_range(),
            None => true,
        }
    }
}

/// Result of a stackup.
#[derive(Clone, Debug)]
pub struct ToleranceCalcResult {
    pub success: bool,
    pub error: Option<String>,
    /// Sum of the signed nominal lengths, in millionths of a millionth.
    pub total_nominal: i128,
    pub worst_case: WorstCaseResult,
    pub rss: RssResult,
    pub monte_carlo: Option<MonteCarloResult>,
    pub contributions: Vec<ContributionResult>,
}

/// `r` reports the failure `message` with every number zero.
pub open spec fn is_failure(r: ToleranceCalcResult, message: Seq<char>) -> bool {
    &&& !r.success
    &&& r.error matches Some(e) && e@ == message
    &&& r.total_nominal == 0
    &&& r.worst_case.min == 0 && r.worst_case.max == 0 && r.worst_case.tolerance == 0
    &&& r.rss.min == 0 && r.rss.max == 0 && r.rss.tolerance == 0 && r.rss.sigma == 0
    &&& r.monte_carlo is None
    &&& r.contributions@.len() == 0
}

/// `r` holds the three analyses of the chain and the share of every link.
pub open spec fn is_stackup_of(
    r: ToleranceCalcResult,
    input: ToleranceInput,
    draws: Seq<Vec<i64>>,
) -> bool {
    let links = input.links@;
    &&& r.success
    &&& r.error is None
    &&& r.total_nominal == total_nominal(links)
    &&& r.worst_case.min == total_low(links)
    &&& r.worst_case.max == total_high(links)
    &&& r.worst_case.tolerance == (total_high(links) - total_low(links)) / 2
    &&& r.rss.sigma == rss_sigma(links)
    &&& r.rss.tolerance == 3 * r.rss.sigma
    &&& r.rss.min == total_nominal(links) - rss_tolerance(links)
    &&& r.rss.max == total_nominal(links) + rss_tolerance(links)
    &&& r.contributions@.len() == links.len()
    &&& forall|i: int|
        0 <= i < links.len() ==> is_contribution(#[trigger] r.contributions@[i], links, i)
    &&& r.monte_carlo is Some <==> draws.len() == input.requested_samples() && draws_usable(
        links,
        draws,
    )
    &&& r.monte_carlo matches Some(m) ==> summary_of(
        m,
        sorted_totals(links, draws),
        input.target_spec,
    )
}

fn failure(message: &str) -> (r: ToleranceCalcResult)
    ensures
        is_failure(r, message@),
{
    ToleranceCalcResult {
        success: false,
        error: Some(message.to_owned()),
        total_nominal: 0,
        worst_case: WorstCaseResult { min: 0, max: 0, tolerance: 0 },
        rss: RssResult { min: 0, max: 0, tolerance: 0, sigma: 0 },
        monte_carlo: None,
        contributions: Vec::new(),
    }
}

/// Worst case, root sum square, sampled distribution and the share of each
/// link, for a chain and the samples that the host drew for it.
///
/// An empty chain is refused. So is a chain or a target beyond the range of
/// the arithmetic: a nominal length or a tolerance beyond `LENGTH_MAX`, a
/// sigma level that is not positive or is beyond `SIGMA_MAX`, or a summed
/// variance beyond `VARIANCE_MAX`. The number of links is not bounded. The
/// sampled distribution is there where `draws` holds the number of samples
/// asked for and is usable.
pub fn calculate_tolerance_stackup(input: &ToleranceInput, draws: &Vec<Vec<i64>>) -> (r:
    ToleranceCalcResult)
    ensures
        input.links@.len() == 0 ==> is_failure(r, "No links provided"@),
        input.links@.len() > 0 && !input.in_range() ==> is_failure(r, "Value out of range"@),
        input.links@.len() > 0 && input.in_range() ==> is_stackup_of(r, *input, draws@),
{
    if input.links.len() == 0 {
        return failure("No links provided");
    }
    let target_fits = match input.target_spec {
        Some(t) => t.check_range(),
        None => true,
    };
    if !input.check_links() || !target_fits {
        return failure("Value out of range");
    }
    let links = &input.links;
    let (variances, sum) = match collect_variances(links) {
        Some(found) => found,
        None => {
            return failure("Value out of range");
        },
    };
    let worst_case = calculate_worst_case(links);
    let nominal = sum_nominal(links);
    assert(links.len() <= usize::MAX);
    let rss = rss_from(nominal, sum);
    let contributions = calculate_contributions(links, &variances, sum);
    let monte_carlo = if draws.len() == input.sample_count() {
        run_monte_carlo(links, draws, input.target_spec)
    } else {
        None
    };
    ToleranceCalcResult {
        success: true,
        error: None,
        total_nominal: nominal,
        worst_case,
        rss,
        monte_carlo,
        contributions,
    }
}

/// Sum of the tolerance bands of the links.
pub open spec fn total_band(links: Seq<LinkInput>) -> int
    decreases links.len(),
{
    if links.len() == 0 {
        0
    } else {
        total_band(links.drop_last()) + links.last().band()
    }
}

/// For every chain the worst case brackets the total nominal, and its
/// tolerance is exactly half the distance between the extremes and is not
/// negative.
pub proof fn lemma_worst_case_brackets_nominal(links: Seq<LinkInput>)
    ensures
        total_low(links) <= total_nominal(links) <= total_high(links),
        (total_high(links) - total_low(links)) / 2 >= 0,
        2 * ((total_high(links) - total_low(links)) / 2) == total_high(links) - total_low(links),
        total_high(links) - total_low(links) == total_band(links),
        total_band(links) % 2 == 0,
    decreases links.len(),
{
    if links.len() > 0 {
        lemma_worst_case_brackets_nominal(links.drop_last());
        let link = links.last();
        let w = link.plus() + link.minus();
        assert(link.band() == 2 * (w * 500_000)) by (nonlinear_arith)
            requires
                link.band() == w * FINE,
                FINE == 1_000_000,
        ;
        assert(link.high() - link.low() == link.band()) by (nonlinear_arith)
            requires
                link.band() == (link.plus() + link.minus()) * FINE,
                link.high() - link.low() == (link.nominal + link.plus()) * FINE - (link.nominal
                    - link.minus()) * FINE,
        ;
        assert(link.low() <= link.signed_nominal() <= link.high()) by (nonlinear_arith)
            requires
                link.plus() >= 0,
                link.minus() >= 0,
                FINE == 1_000_000,
                link.direction == Direction::Negative ==> link.low() == -((link.nominal
                    + link.plus()) * FINE) && link.high() == -((link.nominal - link.minus())
                    * FINE) && link.signed_nominal() == -(link.nominal * FINE),
                link.direction != Direction::Negative ==> link.low() == (link.nominal
                    - link.minus()) * FINE && link.high() == (link.nominal + link.plus()) * FINE
                    && link.signed_nominal() == link.nominal * FINE,
        ;
    }
}

/// For a chain of one normal link at sigma level three with equal upper and
/// lower tolerance, the root-sum-square tolerance is that tolerance: it is
/// three times the third of the tolerance, floored to a millionth of a
/// millionth, and so at most two such steps below it.
pub proof fn lemma_rss_of_single_symmetric_link(link: LinkInput)
    requires
        link.distribution == Distribution::Normal,
        link.sigma_level() == SIGMA_DEFAULT,
        link.plus() == link.minus(),
    ensures
        rss_sigma(seq![link]) == (link.plus() * FINE) / 3,
        rss_tolerance(seq![link]) == 3 * ((link.plus() * FINE) / 3),
        link.plus() * FINE - 2 <= rss_tolerance(seq![link]) <= link.plus() * FINE,
{
    let links = seq![link];
    let p = link.plus() * FINE;
    assert(p >= 0) by (nonlinear_arith)
        requires
            p == link.plus() * FINE,
            link.plus() >= 0,
            FINE == 1_000_000,
    ;
    assert(links.drop_last() =~= Seq::<LinkInput>::empty());
    assert(links.last() == link);
    assert(total_variance(links.drop_last()) == 0);
    assert(total_variance(links) == link.variance());
    let band = link.band();
    assert(band == 2 * p) by (nonlinear_arith)
        requires
            band == (link.plus() + link.minus()) * FINE,
            link.plus() == link.minus(),
            p == link.plus() * FINE,
    ;
    lemma_pow10_values();
    let num = band * band * pow10(12);
    let den = 4 * (SIGMA_DEFAULT * SIGMA_DEFAULT);
    assert(num == (4 * 1_000_000_000_000) * (p * p)) by (nonlinear_arith)
        requires
            band == 2 * p,
            num == band * band * 1_000_000_000_000,
    ;
    assert(den == (4 * 1_000_000_000_000) * 9) by (nonlinear_arith)
        requires
            den == 4 * (SIGMA_DEFAULT * SIGMA_DEFAULT),
            SIGMA_DEFAULT == 3_000_000,
    ;
    assert(p * p >= 0) by (nonlinear_arith);
    lemma_div_multiples_vanish_quotient(4 * 1_000_000_000_000int, p * p, 9);
    let v = (p * p) / 9;
    assert(link.variance() == v);
    lemma_fundamental_div_mod(p * p, 9);
    let k = p / 3;
    lemma_fundamental_div_mod(p, 3);
    assert(9 * (k * k) <= p * p) by (nonlinear_arith)
        requires
            0 <= 3 * k <= p,
    ;
    assert(p * p < 9 * ((k + 1) * (k + 1))) by (nonlinear_arith)
        requires
            0 <= p < 3 * (k + 1),
    ;
    assert(k * k <= v);
    assert(v < (k + 1) * (k + 1));
    lemma_sqrt_floor_unique(v as nat, k as nat);
}

/// Three standard deviations of the link do not exceed half its band:
/// thirty-six times its variance, which is not negative, is at most the
/// square of its band.
pub open spec fn is_tight(link: LinkInput) -> bool {
    0 <= 36 * link.variance() <= link.band() * link.band()
}

/// A normal link at sigma level three or more is tight.
pub proof fn lemma_normal_link_is_tight(link: LinkInput)
    requires
        link.distribution == Distribution::Normal,
        link.sigma_level() >= SIGMA_DEFAULT,
    ensures
        is_tight(link),
{
    let b = link.band();
    let lvl = link.sigma_level();
    let sq = b * b;
    lemma_pow10_values();
    let unit = 1_000_000_000_000int;
    let num = sq * pow10(12);
    let den = 4 * (lvl * lvl);
    assert(sq >= 0) by (nonlinear_arith)
        requires
            sq == b * b,
    ;
    assert(num >= 0) by (nonlinear_arith)
        requires
            sq >= 0,
            num == sq * 1_000_000_000_000,
    ;
    assert(den >= 36 * unit > 0) by (nonlinear_arith)
        requires
            lvl >= 3_000_000,
            den == 4 * (lvl * lvl),
            unit == 1_000_000_000_000,
    ;
    lemma_div_pos_is_pos(num, den);
    lemma_div_is_ordered_by_denominator(num, 36 * unit, den);
    assert(num == unit * sq) by (nonlinear_arith)
        requires
            num == sq * 1_000_000_000_000,
            unit == 1_000_000_000_000,
    ;
    assert(36 * unit == unit * 36);
    lemma_div_multiples_vanish_quotient(unit, sq, 36);
    lemma_fundamental_div_mod(sq, 36);
    assert(link.variance() == num / den);
}

/// For tight links, thirty-six times the summed variance is at most the
/// square of the summed bands.
pub proof fn lemma_band_squares(links: Seq<LinkInput>)
    requires
        forall|i: int| 0 <= i < links.len() ==> is_tight(#[trigger] links[i]),
    ensures
        0 <= 36 * total_variance(links) <= total_band(links) * total_band(links),
        0 <= total_band(links),
    decreases links.len(),
{
    if links.len() > 0 {
        let front = links.drop_last();
        let link = links.last();
        assert forall|i: int| 0 <= i < front.len() implies is_tight(#[trigger] front[i]) by {
            assert(front[i] == links[i]);
        }
        lemma_band_squares(front);
        assert(is_tight(links[links.len() - 1]));
        let b = link.band();
        assert(b >= 0) by (nonlinear_arith)
            requires
                b == (link.plus() + link.minus()) * FINE,
                link.plus() >= 0,
                link.minus() >= 0,
                FINE == 1_000_000,
        ;
        let tb = total_band(front);
        assert(tb * tb + b * b <= (tb + b) * (tb + b)) by (nonlinear_arith)
            requires
                tb >= 0,
                b >= 0,
        ;
    } else {
        assert(total_band(links) * total_band(links) == 0) by (nonlinear_arith)
            requires
                total_band(links) == 0,
        ;
    }
}

/// For a chain of tight links, and so for a chain of normal links at sigma
/// level three or more, the root-sum-square tolerance does not exceed the
/// worst-case tolerance.
pub proof fn lemma_rss_within_worst_case(links: Seq<LinkInput>)
    requires
        forall|i: int| 0 <= i < links.len() ==> is_tight(#[trigger] links[i]),
    ensures
        rss_tolerance(links) <= (total_high(links) - total_low(links)) / 2,
{
    lemma_band_squares(links);
    lemma_worst_case_brackets_nominal(links);
    let b = total_band(links);
    let v = total_variance(links);
    let t = rss_sigma(links);
    lemma_sqrt_floor(v as nat);
    if 6 * t > b {
        assert((6 * t) * (6 * t) > b * b) by (nonlinear_arith)
            requires
                6 * t >= b + 1,
                b >= 0,
        ;
        assert((6 * t) * (6 * t) == 36 * (t * t)) by (nonlinear_arith);
    }
}

/// The shares of a chain with variance add up to one hundred percent.
pub open spec fn share_sum(links: Seq<LinkInput>, k: int) -> int
    decreases k,
{
    if k <= 0 {
        0
    } else {
        share_sum(links, k - 1) + percent_share(links, k - 1)
    }
}

/// The shares of the links of a chain in range add up to `FULL_SHARE` where
/// the chain has variance, and each is not negative and within one step of
/// a hundred times the variance of its link over the summed variance.
pub proof fn lemma_shares_add_up(links: Seq<LinkInput>)
    requires
        each_in_range(links),
        total_variance(links) > 0,
    ensures
        share_sum(links, links.len() as int) == FULL_SHARE,
        forall|i: int|
            0 <= i < links.len() ==> {
                let exact = links[i].variance() * pow10(14);
                let share = #[trigger] percent_share(links, i);
                &&& share >= 0
                &&& (share - 1) * total_variance(links) < exact < (share + 1) * total_variance(
                    links,
                )
            },
{
    let v = total_variance(links);
    lemma_pow10_values();
    lemma_share_sum_telescopes(links, links.len() as int);
    assert(links.take(0) =~= Seq::<LinkInput>::empty());
    assert(links.take(links.len() as int) =~= links);
    assert((0 * pow10(14)) / v == 0) by {
        assert(0 * pow10(14) == 0) by (nonlinear_arith);
        vstd::arithmetic::div_mod::lemma_div_basics_1(v);
    }
    vstd::arithmetic::div_mod::lemma_div_multiples_vanish(pow10(14), v);
    assert(v * pow10(14) == v * (pow10(14)));
    assert forall|i: int| 0 <= i < links.len() implies {
        let exact = links[i].variance() * pow10(14);
        let share = #[trigger] percent_share(links, i);
        &&& share >= 0
        &&& (share - 1) * v < exact < (share + 1) * v
    } by {
        let before = total_variance(links.take(i));
        let after = total_variance(links.take(i + 1));
        assert(links.take(i + 1).drop_last() =~= links.take(i));
        assert(links.take(i + 1).last() == links[i]);
        lemma_variance_grows(links, i);
        lemma_link_bounds(links[i]);
        let a = before * pow10(14);
        let b = after * pow10(14);
        assert(b == a + links[i].variance() * pow10(14)) by (nonlinear_arith)
            requires
                after == before + links[i].variance(),
                a == before * pow10(14),
                b == after * pow10(14),
        ;
        assert(a >= 0 && b >= a) by (nonlinear_arith)
            requires
                before >= 0,
                links[i].variance() >= 0,
                pow10(14) >= 0,
                a == before * pow10(14),
                b == a + links[i].variance() * pow10(14),
        ;
        lemma_fundamental_div_mod(a, v);
        lemma_fundamental_div_mod(b, v);
        vstd::arithmetic::div_mod::lemma_mod_bound(a, v);
        vstd::arithmetic::div_mod::lemma_mod_bound(b, v);
        lemma_div_is_ordered(a, b, v);
        let qa = a / v;
        let qb = b / v;
        assert((qb - qa - 1) * v == v * qb - v * qa - v) by (nonlinear_arith);
        assert((qb - qa + 1) * v == v * qb - v * qa + v) by (nonlinear_arith);
    }
}

proof fn lemma_share_sum_telescopes(links: Seq<LinkInput>, k: int)
    requires
        0 <= k <= links.len(),
    ensures
        share_sum(links, k) == share_upto(links, k) - share_upto(links, 0),
    decreases k,
{
    if k > 0 {
        lemma_share_sum_telescopes(links, k - 1);
    }
}

/// The statistics of a sampled chain are in order, from the least total
/// through the seven ranks to the greatest, and the bins of the histogram
/// together hold every sample once.
pub proof fn lemma_monte_carlo_is_ordered(
    links: Seq<LinkInput>,
    draws: Seq<Vec<i64>>,
    target: Option<TargetSpec>,
    m: MonteCarloResult,
)
    requires
        draws.len() > 0,
        summary_of(m, sorted_totals(links, draws), target),
    ensures
        m.min <= m.percentiles.p0_1 <= m.percentiles.p1 <= m.percentiles.p5 <= m.percentiles.p50,
        m.percentiles.p50 <= m.percentiles.p95 <= m.percentiles.p99 <= m.percentiles.p99_9
            <= m.max,
        histogram_total(m.histogram@) == draws.len(),
{
    let totals = sample_totals(links, draws);
    crate::sorting::lemma_at_most_is_total();
    totals.lemma_sort_by_ensures(crate::sorting::at_most());
    vstd::seq_lib::to_multiset_len(totals);
    vstd::seq_lib::to_multiset_len(sorted_totals(links, draws));
    lemma_summary_is_ordered(m, sorted_totals(links, draws), target);
}

} // verus!
