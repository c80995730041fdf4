use rand::distributions::Distribution as Draw;
use rand::distributions::Uniform;
use rand::SeedableRng;
use rand_distr::Normal;
use stackup_core::sample_stats::MonteCarloResult;
use stackup_core::sample_stats::TargetSpec;
use stackup_core::tolerance_calc::calculate_rss;
use stackup_core::tolerance_calc::calculate_tolerance_stackup;
use stackup_core::tolerance_calc::calculate_worst_case;
use stackup_core::tolerance_calc::collect_totals;
use stackup_core::tolerance_calc::link_sampler;
use stackup_core::tolerance_calc::link_variance;
use stackup_core::tolerance_calc::row_total;
use stackup_core::tolerance_calc::run_monte_carlo;
use stackup_core::tolerance_calc::Direction;
use stackup_core::tolerance_calc::Distribution;
use stackup_core::tolerance_calc::LinkInput;
use stackup_core::tolerance_calc::Sampler;
use stackup_core::tolerance_calc::ToleranceInput;

fn fixed(x: f64) -> i64 {
    (x * 1e6).round() as i64
}

fn in_units(x: i64) -> f64 {
    x as f64 / 1e6
}

fn fine_in_units(x: i128) -> f64 {
    x as f64 / 1e12
}

fn link(nominal: f64, plus: f64, minus: f64, direction: &str, distribution: &str) -> LinkInput {
    LinkInput {
        nominal: fixed(nominal),
        plus_tolerance: fixed(plus),
        minus_tolerance: fixed(minus),
        direction: Direction::from_name(direction),
        distribution: Distribution::from_name(distribution),
        sigma: Some(fixed(3.0)),
    }
}

fn draw_rows(links: &Vec<LinkInput>, samples: usize, seed: u64) -> Vec<Vec<i64>> {
    let mut rng = rand::rngs::StdRng::seed_from_u64(seed);
    let mut rows = Vec::with_capacity(samples);
    for _ in 0..samples {
        let mut row = Vec::with_capacity(links.len());
        for l in links {
            let value = match link_sampler(l) {
                Sampler::Normal { mean, std_dev } => {
                    Normal::new(fine_in_units(mean), fine_in_units(std_dev))
                        .unwrap()
                        .sample(&mut rng)
                }
                Sampler::Uniform { low, high } => {
                    if low < high {
                        Uniform::new(fine_in_units(low), fine_in_units(high)).sample(&mut rng)
                    } else {
                        fine_in_units(low)
                    }
                }
            };
            row.push(fixed(value));
        }
        rows.push(row);
    }
    rows
}

fn histogram_total(result: &MonteCarloResult) -> usize {
    result.histogram.iter().map(|bin| bin.count).sum()
}

#[test]
fn test_worst_case_single_link() {
    let links = vec![link(10.0, 0.1, 0.1, "positive", "normal")];

    let result = calculate_worst_case(&links);
    assert!((fine_in_units(result.min) - 9.9).abs() < 1e-6);
    assert!((fine_in_units(result.max) - 10.1).abs() < 1e-6);
}

#[test]
fn test_worst_case_stack() {
    let links = vec![
        link(10.0, 0.1, 0.1, "positive", "normal"),
        link(5.0, 0.05, 0.05, "positive", "normal"),
    ];

    let result = calculate_worst_case(&links);
    assert!((fine_in_units(result.min) - 14.85).abs() < 1e-6);
    assert!((fine_in_units(result.max) - 15.15).abs() < 1e-6);
}

#[test]
fn test_monte_carlo() {
    let links = vec![link(10.0, 0.1, 0.1, "positive", "normal")];

    let draws = draw_rows(&links, 1000, 7);
    let result = run_monte_carlo(&links, &draws, None).unwrap();
    assert!((in_units(result.mean) - 10.0).abs() < 0.1);
}

#[test]
fn worst_case_is_exact() {
    let links = vec![
        link(10.0, 0.1, 0.1, "positive", "normal"),
        link(5.0, 0.05, 0.05, "positive", "normal"),
    ];
    let result = calculate_worst_case(&links);
    assert_eq!(result.min, 14_850_000_000_000);
    assert_eq!(result.max, 15_150_000_000_000);
    assert_eq!(result.tolerance, 150_000_000_000);
}

#[test]
fn worst_case_with_a_negative_uniform_link() {
    let links = vec![
        link(10.0, 0.1, 0.1, "positive", "normal"),
        link(3.0, 0.2, 0.1, "negative", "uniform"),
    ];
    let result = calculate_worst_case(&links);
    assert_eq!(result.min, 6_700_000_000_000);
    assert_eq!(result.max, 7_200_000_000_000);
    assert_eq!(result.tolerance, 250_000_000_000);
}

#[test]
fn worst_case_takes_negative_tolerances_as_zero() {
    let mut l = link(10.0, 0.1, 0.1, "positive", "normal");
    l.plus_tolerance = -5;
    l.minus_tolerance = -7;
    let result = calculate_worst_case(&vec![l]);
    assert_eq!(result.min, 10_000_000_000_000);
    assert_eq!(result.max, 10_000_000_000_000);
    assert_eq!(result.tolerance, 0);

    let odd = LinkInput { plus_tolerance: 1, minus_tolerance: 0, ..l };
    let result = calculate_worst_case(&vec![odd]);
    assert_eq!(result.max - result.min, 1_000_000);
    assert_eq!(result.tolerance, 500_000);
}

#[test]
fn worst_case_brackets_the_nominal() {
    let links = vec![
        link(10.0, 0.3, 0.1, "positive", "normal"),
        link(4.0, 0.0, 0.2, "negative", "uniform"),
        link(-2.5, 0.05, 0.0, "negative", "normal"),
    ];
    let input = ToleranceInput { links, monte_carlo_samples: Some(0), target_spec: None };
    let result = calculate_tolerance_stackup(&input, &Vec::new());
    assert!(result.success);
    assert_eq!(result.total_nominal, 8_500_000_000_000);
    assert!(result.worst_case.min <= result.total_nominal);
    assert!(result.total_nominal <= result.worst_case.max);
    assert!(result.worst_case.tolerance >= 0);
    assert_eq!(
        2 * result.worst_case.tolerance,
        result.worst_case.max - result.worst_case.min
    );
}

#[test]
fn rss_of_two_normal_links() {
    let links = vec![
        link(10.0, 0.1, 0.1, "positive", "normal"),
        link(5.0, 0.05, 0.05, "positive", "normal"),
    ];
    let (rss, variances) = calculate_rss(&links);
    assert_eq!(
        variances,
        vec![1_111_111_111_111_111_111_111u128, 277_777_777_777_777_777_777u128]
    );
    assert_eq!(rss.sigma, 37_267_799_624);
    assert_eq!(rss.tolerance, 3 * rss.sigma);
    assert_eq!(rss.tolerance, 111_803_398_872);
    assert_eq!(rss.min, 15_000_000_000_000 - 111_803_398_872);
    assert_eq!(rss.max, 15_000_000_000_000 + 111_803_398_872);
    assert!((fine_in_units(rss.tolerance) - 0.0125f64.sqrt()).abs() < 1e-10);
}

#[test]
fn rss_of_one_symmetric_link_is_its_tolerance() {
    let exact = vec![link(10.0, 0.3, 0.3, "positive", "normal")];
    assert_eq!(calculate_rss(&exact).0.tolerance, 300_000_000_000);
    let single = vec![link(10.0, 0.1, 0.1, "positive", "normal")];
    let rss = calculate_rss(&single).0;
    assert_eq!(rss.sigma, 33_333_333_333);
    assert_eq!(rss.tolerance, 99_999_999_999);
    assert!((fine_in_units(rss.tolerance) - 0.1).abs() < 1e-10);
    assert!((fine_in_units(rss.min) - 9.9).abs() < 1e-9);
    assert!((fine_in_units(rss.max) - 10.1).abs() < 1e-9);
    assert!((fine_in_units(rss.sigma) - 0.0333333333).abs() < 1e-9);
}

#[test]
fn rss_does_not_exceed_worst_case_for_normal_links() {
    let links = vec![
        link(10.0, 0.1, 0.2, "positive", "normal"),
        link(5.0, 0.05, 0.0, "negative", "normal"),
        link(7.0, 0.4, 0.4, "positive", "normal"),
    ];
    let worst = calculate_worst_case(&links);
    let (rss, _) = calculate_rss(&links);
    assert!(rss.tolerance <= worst.tolerance);
}

#[test]
fn rss_of_a_uniform_link_exceeds_its_worst_case() {
    let links = vec![link(3.0, 0.2, 0.1, "negative", "uniform")];
    let worst = calculate_worst_case(&links);
    let (rss, variances) = calculate_rss(&links);
    assert_eq!(variances, vec![7_500_000_000_000_000_000_000u128]);
    assert_eq!(worst.tolerance, 150_000_000_000);
    assert_eq!(rss.sigma, 86_602_540_378);
    assert_eq!(rss.tolerance, 259_807_621_134);
    assert!(rss.tolerance > worst.tolerance);
}

#[test]
fn variance_follows_the_sigma_level() {
    let mut l = link(1.0, 0.6, 0.6, "positive", "normal");
    l.sigma = Some(6_000_000);
    assert_eq!(link_variance(&l), Some(10_000_000_000_000_000_000_000u128));
    l.sigma = None;
    assert_eq!(link_variance(&l), Some(40_000_000_000_000_000_000_000u128));
    l.sigma = Some(1);
    l.plus_tolerance = 10_000_000;
    l.minus_tolerance = 10_000_000;
    assert_eq!(link_variance(&l), None);
    l.plus_tolerance = 1;
    l.minus_tolerance = 0;
    assert_eq!(link_variance(&l), Some(250_000_000_000_000_000_000_000u128));
}

#[test]
fn stackup_of_no_links_is_refused() {
    let input = ToleranceInput { links: Vec::new(), monte_carlo_samples: None, target_spec: None };
    let result = calculate_tolerance_stackup(&input, &Vec::new());
    assert!(!result.success);
    assert_eq!(result.error, Some("No links provided".to_string()));
    assert_eq!(result.total_nominal, 0);
    assert_eq!(result.worst_case.min, 0);
    assert_eq!(result.worst_case.max, 0);
    assert_eq!(result.rss.tolerance, 0);
    assert!(result.monte_carlo.is_none());
    assert!(result.contributions.is_empty());
}

#[test]
fn stackup_beyond_the_range_is_refused() {
    let mut l = link(10.0, 0.1, 0.1, "positive", "normal");
    l.nominal = 2_000_000_000_000;
    let input = ToleranceInput { links: vec![l], monte_carlo_samples: None, target_spec: None };
    let result = calculate_tolerance_stackup(&input, &Vec::new());
    assert!(!result.success);
    assert_eq!(result.error, Some("Value out of range".to_string()));

    let mut zero_sigma = link(10.0, 0.1, 0.1, "positive", "normal");
    zero_sigma.sigma = Some(0);
    let input =
        ToleranceInput { links: vec![zero_sigma], monte_carlo_samples: None, target_spec: None };
    assert!(!calculate_tolerance_stackup(&input, &Vec::new()).success);

    let mut flat = link(10.0, 1000.0, 1000.0, "positive", "normal");
    flat.sigma = Some(1);
    let input = ToleranceInput { links: vec![flat], monte_carlo_samples: None, target_spec: None };
    let result = calculate_tolerance_stackup(&input, &Vec::new());
    assert!(!result.success);
    assert_eq!(result.error, Some("Value out of range".to_string()));
}

#[test]
fn contributions_share_the_variance() {
    let links = vec![
        link(10.0, 0.1, 0.1, "positive", "normal"),
        link(5.0, 0.05, 0.05, "negative", "normal"),
    ];
    let input = ToleranceInput { links, monte_carlo_samples: Some(0), target_spec: None };
    let result = calculate_tolerance_stackup(&input, &Vec::new());
    assert!(result.success);
    assert_eq!(result.contributions.len(), 2);
    assert_eq!(result.contributions[0].index, 0);
    assert_eq!(result.contributions[0].nominal_contribution, 10_000_000_000_000);
    assert_eq!(result.contributions[0].variance_contribution, 1_111_111_111_111_111_111_111);
    assert_eq!(result.contributions[0].percent, 80_000_000_000_000);
    assert_eq!(result.contributions[1].index, 1);
    assert_eq!(result.contributions[1].nominal_contribution, -5_000_000_000_000);
    assert_eq!(result.contributions[1].variance_contribution, 277_777_777_777_777_777_777);
    assert_eq!(result.contributions[1].percent, 20_000_000_000_000);
    assert!(result.monte_carlo.is_none());
}

#[test]
fn contributions_of_a_chain_without_variance_are_zero() {
    let links = vec![link(10.0, 0.0, 0.0, "positive", "normal")];
    let input = ToleranceInput { links, monte_carlo_samples: Some(0), target_spec: None };
    let result = calculate_tolerance_stackup(&input, &Vec::new());
    assert_eq!(result.contributions[0].percent, 0);
    assert_eq!(result.rss.tolerance, 0);
}

#[test]
fn sampler_of_a_normal_link_is_centred_on_its_band() {
    let l = link(10.0, 0.3, 0.1, "positive", "normal");
    assert_eq!(
        link_sampler(&l),
        Sampler::Normal { mean: 10_100_000_000_000, std_dev: 66_666_666_666 }
    );
    let odd = LinkInput { plus_tolerance: 0, minus_tolerance: 3, ..l };
    assert_eq!(
        link_sampler(&odd),
        Sampler::Normal { mean: 9_999_998_500_000, std_dev: 500_000 }
    );
}

#[test]
fn sampler_without_deviation_falls_back() {
    let l = link(10.0, 0.0, 0.0, "positive", "normal");
    assert_eq!(
        link_sampler(&l),
        Sampler::Normal { mean: 10_000_000_000_000, std_dev: 1_000_000_000 }
    );
}

#[test]
fn sampler_of_a_uniform_link_spans_its_band() {
    let l = link(3.0, 0.2, 0.1, "negative", "uniform");
    assert_eq!(
        link_sampler(&l),
        Sampler::Uniform { low: 2_900_000_000_000, high: 3_200_000_000_000 }
    );
}

#[test]
fn names_of_directions_and_distributions() {
    assert_eq!(Direction::from_name("negative"), Direction::Negative);
    assert_eq!(Direction::from_name("positive"), Direction::Positive);
    assert_eq!(Direction::from_name("sideways"), Direction::Positive);
    assert_eq!(Distribution::from_name("uniform"), Distribution::Uniform);
    assert_eq!(Distribution::from_name("normal"), Distribution::Normal);
    assert_eq!(Distribution::from_name("triangular"), Distribution::Normal);
    assert_eq!(Direction::Negative.name(), "negative");
    assert_eq!(Direction::Positive.name(), "positive");
    assert_eq!(Distribution::Uniform.name(), "uniform");
    assert_eq!(Distribution::Normal.name(), "normal");
}

#[test]
fn row_total_signs_each_draw() {
    let links = vec![
        link(10.0, 0.1, 0.1, "positive", "normal"),
        link(3.0, 0.2, 0.1, "negative", "uniform"),
    ];
    assert_eq!(row_total(&links, &vec![10_050_000, 3_100_000]), Some(6_950_000));
    assert_eq!(row_total(&links, &vec![10_050_000]), None);
    assert_eq!(row_total(&links, &vec![2_000_000_000_000_000, 0]), None);
}

#[test]
fn totals_are_refused_without_rows() {
    let links = vec![link(10.0, 0.1, 0.1, "positive", "normal")];
    assert_eq!(collect_totals(&links, &Vec::new()), None);
    assert_eq!(collect_totals(&links, &vec![vec![1], vec![2, 3]]), None);
    assert_eq!(collect_totals(&links, &vec![vec![5], vec![-4]]), Some(vec![5, -4]));
    assert!(run_monte_carlo(&links, &Vec::new(), None).is_none());
}

#[test]
fn monte_carlo_sorts_the_totals() {
    let links = vec![link(10.0, 0.1, 0.1, "positive", "normal")];
    let draws: Vec<Vec<i64>> = vec![vec![50], vec![10], vec![40], vec![20], vec![30]];
    let result = run_monte_carlo(&links, &draws, None).unwrap();
    assert_eq!(result.min, 10);
    assert_eq!(result.max, 50);
    assert_eq!(result.percentiles.p0_1, 10);
    assert_eq!(result.percentiles.p50, 30);
    assert_eq!(result.percentiles.p95, 50);
    assert_eq!(result.percentiles.p99_9, 50);
    assert_eq!(result.mean, 30);
    assert_eq!(result.std_dev, 14);
    assert_eq!(result.cpk, 1_000_000);
}

#[test]
fn monte_carlo_ranks_follow_the_sample_count() {
    let links = vec![link(0.0, 0.1, 0.1, "positive", "normal")];
    let draws: Vec<Vec<i64>> = (0..1000).rev().map(|k| vec![k]).collect();
    let result = run_monte_carlo(&links, &draws, None).unwrap();
    assert_eq!(result.percentiles.p0_1, 1);
    assert_eq!(result.percentiles.p1, 10);
    assert_eq!(result.percentiles.p5, 50);
    assert_eq!(result.percentiles.p50, 500);
    assert_eq!(result.percentiles.p95, 950);
    assert_eq!(result.percentiles.p99, 990);
    assert_eq!(result.percentiles.p99_9, 999);
    assert_eq!(result.min, 0);
    assert_eq!(result.max, 999);
}

#[test]
fn histogram_has_fifty_bins_that_hold_every_sample() {
    let links = vec![link(0.0, 0.1, 0.1, "positive", "normal")];
    let draws: Vec<Vec<i64>> = (0..1000).map(|k| vec![(k * 37) % 1000]).collect();
    let result = run_monte_carlo(&links, &draws, None).unwrap();
    assert_eq!(result.histogram.len(), 50);
    assert_eq!(histogram_total(&result), 1000);
    assert_eq!(result.histogram[0].min, 0);
    assert_eq!(result.histogram[0].max, 20);
    assert_eq!(result.histogram[0].count, 20);
    assert_eq!(result.histogram[0].percentage, 2_000_000_000_000);
    let shares: i64 = result.histogram.iter().map(|bin| bin.percentage).sum();
    assert_eq!(shares, 100_000_000_000_000);
    assert_eq!(result.histogram[49].min, 980);
    assert_eq!(result.histogram[49].max, 999);
    assert_eq!(result.histogram[49].count, 20);
}

#[test]
fn histogram_of_equal_samples_fills_the_last_bin() {
    let links = vec![link(0.0, 0.1, 0.1, "positive", "normal")];
    let draws: Vec<Vec<i64>> = vec![vec![7], vec![7], vec![7]];
    let result = run_monte_carlo(&links, &draws, None).unwrap();
    assert_eq!(histogram_total(&result), 3);
    assert_eq!(result.histogram[49].count, 3);
    assert_eq!(result.histogram[0].count, 0);
    assert_eq!(result.std_dev, 0);
}

#[test]
fn monte_carlo_statistics_are_in_order() {
    let links = vec![
        link(10.0, 0.1, 0.1, "positive", "normal"),
        link(3.0, 0.2, 0.1, "negative", "uniform"),
    ];
    let draws = draw_rows(&links, 5000, 11);
    let result = run_monte_carlo(&links, &draws, None).unwrap();
    assert!(result.min <= result.percentiles.p0_1);
    assert!(result.percentiles.p0_1 <= result.percentiles.p1);
    assert!(result.percentiles.p1 <= result.percentiles.p5);
    assert!(result.percentiles.p5 <= result.percentiles.p50);
    assert!(result.percentiles.p50 <= result.percentiles.p95);
    assert!(result.percentiles.p95 <= result.percentiles.p99);
    assert!(result.percentiles.p99 <= result.percentiles.p99_9);
    assert!(result.percentiles.p99_9 <= result.max);
    assert_eq!(histogram_total(&result), 5000);
}

#[test]
fn capability_against_a_target() {
    let links = vec![link(0.0, 0.1, 0.1, "positive", "normal")];
    let draws: Vec<Vec<i64>> = vec![vec![90], vec![110], vec![90], vec![110]];
    let target = TargetSpec { nominal: 100, plus_tolerance: 60, minus_tolerance: 30 };
    let result = run_monte_carlo(&links, &draws, Some(target)).unwrap();
    assert_eq!(result.mean, 100);
    assert_eq!(result.std_dev, 10);
    assert_eq!(result.cpk, 1_000_000);
    let wide = TargetSpec { nominal: 100, plus_tolerance: 45, minus_tolerance: 45 };
    assert_eq!(run_monte_carlo(&links, &draws, Some(wide)).unwrap().cpk, 1_500_000);
}

#[test]
fn capability_without_deviation_goes_by_the_sign() {
    let links = vec![link(0.0, 0.1, 0.1, "positive", "normal")];
    let draws: Vec<Vec<i64>> = vec![vec![100], vec![100]];
    let inside = TargetSpec { nominal: 100, plus_tolerance: 5, minus_tolerance: 5 };
    assert_eq!(run_monte_carlo(&links, &draws, Some(inside)).unwrap().cpk, 1_000_000_000_000);
    let outside = TargetSpec { nominal: 200, plus_tolerance: 5, minus_tolerance: 5 };
    assert_eq!(run_monte_carlo(&links, &draws, Some(outside)).unwrap().cpk, -1_000_000_000_000);
}

#[test]
fn capability_beyond_the_range_is_refused() {
    let links = vec![link(0.0, 0.1, 0.1, "positive", "normal")];
    let draws: Vec<Vec<i64>> = vec![vec![100]];
    let target = TargetSpec { nominal: 2_000_000_000_000, plus_tolerance: 0, minus_tolerance: 0 };
    assert!(run_monte_carlo(&links, &draws, Some(target)).is_none());
}

#[test]
fn capability_of_two_normal_links() {
    let links = vec![
        link(10.0, 0.1, 0.1, "positive", "normal"),
        link(5.0, 0.05, 0.05, "positive", "normal"),
    ];
    let input = ToleranceInput {
        links: links.clone(),
        monte_carlo_samples: Some(20_000),
        target_spec: Some(TargetSpec {
            nominal: fixed(15.0),
            plus_tolerance: fixed(0.2),
            minus_tolerance: fixed(0.2),
        }),
    };
    assert_eq!(input.sample_count(), 20_000);
    let draws = draw_rows(&links, input.sample_count(), 3);
    let result = calculate_tolerance_stackup(&input, &draws);
    assert!(result.success);
    let monte_carlo = result.monte_carlo.unwrap();
    assert!((in_units(monte_carlo.std_dev) - 0.0373).abs() < 0.002);
    assert!((in_units(monte_carlo.cpk) - 1.79).abs() < 0.1);
    assert!((in_units(monte_carlo.mean) - 15.0).abs() < 0.01);
}

#[test]
fn stackup_asks_for_ten_thousand_samples_by_default() {
    let links = vec![link(10.0, 0.1, 0.1, "positive", "normal")];
    let input = ToleranceInput { links: links.clone(), monte_carlo_samples: None, target_spec: None };
    assert_eq!(input.sample_count(), 10_000);
    let too_few = draw_rows(&links, 100, 5);
    assert!(calculate_tolerance_stackup(&input, &too_few).monte_carlo.is_none());
    let draws = draw_rows(&links, 10_000, 5);
    let result = calculate_tolerance_stackup(&input, &draws);
    let monte_carlo = result.monte_carlo.unwrap();
    assert!((in_units(monte_carlo.mean) - 10.0).abs() < 0.01);
    assert_eq!(result.worst_case.min, 9_900_000_000_000);
    assert_eq!(result.worst_case.max, 10_100_000_000_000);
    assert_eq!(result.rss.tolerance, 99_999_999_999);
}

#[test]
fn shares_add_up_to_one_hundred() {
    let links = vec![
        link(10.0, 0.1, 0.1, "positive", "normal"),
        link(10.0, 0.1, 0.1, "positive", "normal"),
        link(10.0, 0.1, 0.1, "negative", "normal"),
    ];
    let input = ToleranceInput { links, monte_carlo_samples: Some(0), target_spec: None };
    let result = calculate_tolerance_stackup(&input, &Vec::new());
    let shares: Vec<i64> = result.contributions.iter().map(|c| c.percent).collect();
    assert_eq!(shares, vec![33_333_333_333_333, 33_333_333_333_333, 33_333_333_333_334]);
    assert_eq!(shares.iter().sum::<i64>(), 100_000_000_000_000);
    let total: u128 = result.contributions.iter().map(|c| c.variance_contribution).sum();
    let sigma = result.rss.sigma as u128;
    assert!(sigma * sigma <= total && total < (sigma + 1) * (sigma + 1));

    let mixed = vec![
        link(1.0, 0.7, 0.2, "positive", "uniform"),
        link(2.0, 0.013, 0.0, "negative", "normal"),
        link(3.0, 0.000001, 0.000001, "positive", "normal"),
        link(4.0, 0.0, 0.0, "positive", "normal"),
        link(5.0, 12.5, 3.25, "positive", "uniform"),
    ];
    let input = ToleranceInput { links: mixed, monte_carlo_samples: Some(0), target_spec: None };
    let result = calculate_tolerance_stackup(&input, &Vec::new());
    assert!(result.success);
    assert_eq!(result.contributions.iter().map(|c| c.percent).sum::<i64>(), 100_000_000_000_000);
    assert!(result.contributions.iter().all(|c| c.percent >= 0));
    assert_eq!(result.contributions[3].percent, 0);
}

#[test]
fn chain_of_many_links_is_in_range() {
    let links: Vec<LinkInput> =
        (0..2_000_000).map(|_| link(1000.0, 0.5, 0.5, "positive", "normal")).collect();
    let input = ToleranceInput { links, monte_carlo_samples: Some(0), target_spec: None };
    let result = calculate_tolerance_stackup(&input, &Vec::new());
    assert!(result.success);
    assert_eq!(result.total_nominal, 2_000_000_000_000_000_000_000);
    assert_eq!(result.worst_case.tolerance, 1_000_000_000_000_000_000);
    assert_eq!(result.rss.tolerance, 3 * result.rss.sigma);
    assert_eq!(result.rss.sigma, 235_702_260_395_515);
    assert_eq!(result.contributions.iter().map(|c| c.percent).sum::<i64>(), 100_000_000_000_000);
}

#[test]
fn sigma_levels_far_from_three_are_in_range() {
    let mut fine = link(10.0, 0.1, 0.1, "positive", "normal");
    fine.sigma = Some(1_000_000_000_000);
    assert_eq!(link_variance(&fine), Some(10_000_000_000u128));
    let mut coarse = link(10.0, 0.000001, 0.000001, "positive", "normal");
    coarse.sigma = Some(1);
    assert_eq!(link_variance(&coarse), Some(1_000_000_000_000_000_000_000_000u128));
    let input = ToleranceInput {
        links: vec![fine, coarse],
        monte_carlo_samples: Some(0),
        target_spec: None,
    };
    assert!(calculate_tolerance_stackup(&input, &Vec::new()).success);
}
