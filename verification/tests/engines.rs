use stats_ci::mean::{Arithmetic, Geometric, Harmonic, MeanCI};
use stats_ci::{proportion, quantile, Confidence, Fixed, Interval};

use statrs::distribution::ContinuousCDF;

use rand::seq::SliceRandom;
use rand::RngExt;
use stats_ci::error::CIError;
use Numbers::{One, Two, Three, Four, Five, Six, Seven, Eight, Nine, Ten, Eleven, Twelve, Thirteen, Fourteen, Fifteen};

fn fx(x: f64) -> Fixed {
    Fixed::from_raw((x * 1e9).round() as i64)
}

fn fx_int(n: i64) -> Fixed {
    Fixed::from_int(n)
}

fn val(x: Fixed) -> f64 {
    (x.raw() as f64) / 1e9
}

fn z_value_two_sided(confidence: f64) -> f64 {
    assert!(confidence > 0. && confidence < 1.);
    let n = statrs::distribution::Normal::new(0., 1.).unwrap();
    let alpha = 1. - confidence;
    n.inverse_cdf(1. - alpha / 2.)
}

fn z_value_one_sided(confidence: f64) -> f64 {
    assert!(confidence > 0. && confidence < 1.);
    let n = statrs::distribution::Normal::new(0., 1.).unwrap();
    n.inverse_cdf(confidence)
}

fn t_value_two_sided(confidence: f64, degrees_of_freedom: usize) -> f64 {
    assert!(confidence > 0. && confidence < 1.);
    let t = statrs::distribution::StudentsT::new(0., 1., degrees_of_freedom as f64).unwrap();
    let alpha = 1. - confidence;
    t.inverse_cdf(1. - alpha / 2.)
}

fn t_value_one_sided(confidence: f64, degrees_of_freedom: usize) -> f64 {
    assert!(confidence > 0. && confidence < 1.);
    let t = statrs::distribution::StudentsT::new(0., 1., degrees_of_freedom as f64).unwrap();
    t.inverse_cdf(confidence)
}

fn approx(actual: f64, expected: f64, tolerance: f64) {
    assert!(
        (actual - expected).abs() < tolerance,
        "expected {} within {} of {}",
        actual,
        tolerance,
        expected
    );
}

const MEAN_DATA: [f64; 100] = [
    82., 94., 68., 6., 39., 80., 10., 97., 34., 66., 62., 7., 39., 68., 93., 64., 10., 74., 15.,
    34., 4., 48., 88., 94., 17., 99., 81., 37., 68., 66., 40., 23., 67., 72., 63., 71., 18., 51.,
    65., 87., 12., 44., 89., 67., 28., 86., 62., 22., 90., 18., 50., 25., 98., 24., 61., 62., 86.,
    100., 96., 27., 36., 82., 90., 55., 26., 38., 97., 73., 16., 49., 23., 26., 55., 26., 3., 23.,
    47., 27., 58., 27., 97., 32., 29., 56., 28., 23., 37., 72., 62., 77., 63., 100., 40., 84.,
    77., 39., 71., 61., 17., 77.,
];

fn mean_sample() -> Vec<Fixed> {
    MEAN_DATA.iter().map(|&x| fx(x)).collect()
}

#[test]
fn test_t_value() {
    for confidence in [0.5, 0.8, 0.9, 0.95, 0.99, 0.999] {
        let t_value = t_value_two_sided(confidence, 1000);
        let z_value = z_value_two_sided(confidence);
        approx(t_value, z_value, 1e-2);

        let t_value = t_value_one_sided(confidence, 1000);
        let z_value = z_value_one_sided(confidence);
        approx(t_value, z_value, 1e-2);
    }
}

#[test]
fn test_mean_ci() {
    let confidence = Confidence::new_two_sided(fx(0.95));
    let data = mean_sample();
    let t = fx(t_value_two_sided(0.95, data.len() - 1));

    let ci = Arithmetic::ci(confidence, t, &data).unwrap();
    // mean: 53.67
    // stddev: 28.097613040716798
    approx(val(ci.low().unwrap()), 48.0948, 1e-3);
    approx(val(ci.high().unwrap()), 59.2452, 1e-3);
    approx(val(ci.low().unwrap()) + val(ci.high().unwrap()), 2. * 53.67, 1e-3);

    let ci = Harmonic::ci(confidence, t, &data).unwrap();
    // harmonic mean: 30.031313156339586
    approx(val(ci.low().unwrap()), 23.6141, 1e-3);
    approx(val(ci.high().unwrap()), 41.2379, 1e-3);

    let ci = Geometric::ci(confidence, t, &data).unwrap();
    // geometric mean: 43.7268032829256
    approx(val(ci.low().unwrap()), 37.7311, 1e-3);
    approx(val(ci.high().unwrap()), 50.6753, 1e-3);
}

#[test]
fn test_harmonic_ci() {
    let confidence = Confidence::new_two_sided(fx(0.95));
    let data: Vec<Fixed> = [
        1.81600583f64,
        0.07498389,
        1.29092744,
        0.62023863,
        0.09345327,
        1.94670997,
        2.27687339,
        0.9251231,
        1.78173864,
        0.4391542,
        1.36948099,
        1.5191194,
        0.42286756,
        1.48463176,
        0.17621009,
        2.31810064,
        0.15633061,
        2.55137878,
        1.11043948,
        1.35923319,
        1.58385561,
        0.63431437,
        0.49993148,
        0.49168534,
        0.11533354,
    ]
    .iter()
    .map(|&x| fx(x))
    .collect();
    let t = fx(t_value_two_sided(0.95, data.len() - 1));
    let ci = Harmonic::ci(confidence, t, &data).unwrap();
    // harmonic mean: 0.38041820166550844
    approx(val(ci.low().unwrap()), 0.245, 1e-3);
    approx(val(ci.high().unwrap()), 0.852, 1e-3);
}

#[test]
fn test_confidence_level() {
    let mut rng = rand::rng();

    const POPULATION_SIZE: usize = 10_000;
    let repetitions = 10_000;
    let sample_size = 10;
    let confidence = Confidence::new_two_sided(fx(0.95));
    let tolerance = 0.02;

    // generate population (uniformly distributed between 0 and 1)
    let mut population = [0f64; POPULATION_SIZE];
    for v in population.iter_mut() {
        *v = rng.random::<f64>();
    }
    let population_mean = population.iter().sum::<f64>() / POPULATION_SIZE as f64;
    println!("population_mean: {}", population_mean);
    println!("population head: {:?}", &population[..10]);
    let population_mean_fx = fx(population_mean);

    let t = fx(t_value_two_sided(0.95, sample_size - 1));

    // generate samples and compute confidence intervals
    let mut count_in_ci = 0;
    for _ in 0..repetitions {
        let sample = random_sample(&population, sample_size, &mut rng);
        let sample_ci = Arithmetic::ci(confidence, t, &sample).unwrap();
        if sample_ci.contains(&population_mean_fx) {
            count_in_ci += 1;
        }
    }
    let ci_contains_mean = count_in_ci as f64 / repetitions as f64;
    approx(ci_contains_mean, val(confidence.level()), tolerance);
}

fn random_sample(data: &[f64], sample_size: usize, rng: &mut impl rand::Rng) -> Vec<Fixed> {
    assert!(sample_size < data.len());
    (0..sample_size)
        .map(|_| rng.random_range(0..data.len()))
        .map(|i| fx(data[i]))
        .collect()
}

fn kahan_add(current_sum: &mut f32, x: f32, compensation: &mut f32) {
    let sum = *current_sum;
    let c = *compensation;
    let y = x - c;
    let t = sum + y;
    *compensation = (t - sum) - y;
    *current_sum = t;
}

#[test]
fn test_kahan_add() {
    let mut normal = 0_f32;
    let mut kahan = 0_f32;
    let mut kahan_c = 0_f32;
    let x = 0.1;

    for _ in 0..50_000_000_usize {
        normal += x;
        kahan_add(&mut kahan, x, &mut kahan_c);
    }

    approx(5_000_000_f64, kahan as f64, 1e-10);
    assert!((5_000_000. - normal as f64).abs() > 500_000.); // normal is not accurate
}

#[test]
fn test_proportion_ci() {
    let population = 500;
    let successes = 421;
    let confidence = fx(0.95);
    let z = fx(z_value_two_sided(0.95));
    let interval = proportion::ci(confidence, z, population, successes).unwrap();
    approx(val(interval.low().unwrap()), 0.81, 1e-2);
    approx(val(interval.high().unwrap()), 0.87, 1e-2);
}

#[test]
fn test_proportion_ci_if() {
    let data: Vec<i32> = vec![
        1, 2, 3, 4, 5, 6, 7, 8, 9, 10, 11, 12, 13, 14, 15, 16, 17, 18, 19, 20,
    ];
    let confidence = fx(0.95);
    let z = fx(z_value_two_sided(0.95));
    let interval = proportion::ci_if(confidence, z, &data, |x| x <= 10).unwrap();
    approx(val(interval.low().unwrap()), 0.299, 1e-2);
    approx(val(interval.high().unwrap()), 0.701, 1e-2);
}

#[test]
fn test_proportion_ci_true() {
    let data: Vec<bool> = vec![
        true, false, true, true, false, true, true, false, true, true, false, false, false, true,
        false, true, false, false, true, false,
    ];
    let confidence = fx(0.95);
    let z = fx(z_value_two_sided(0.95));
    let interval = proportion::ci_true(confidence, z, &data).unwrap();
    approx(val(interval.low().unwrap()), 0.299, 1e-2);
    approx(val(interval.high().unwrap()), 0.701, 1e-2);
}

#[test]
fn test_proportion_z_normal() {
    let confidence = fx(0.95);
    let z = fx(z_value_two_sided(0.95));
    let interval = proportion::ci_z_normal(confidence, z, 500, 421).unwrap();
    // p = 0.842, sd = sqrt(0.842 * 0.158 / 500)
    approx(val(interval.low().unwrap()), 0.810, 1e-2);
    approx(val(interval.high().unwrap()), 0.874, 1e-2);
    assert!(interval.low().unwrap() <= interval.high().unwrap());
}

#[test]
fn test_proportion_errors() {
    let z = fx(z_value_two_sided(0.95));
    assert!(matches!(
        proportion::ci(fx(0.95), z, 10, 11),
        Err(CIError::InvalidSuccesses(11, 10))
    ));
    assert!(matches!(
        proportion::ci(fx(1.5), z, 10, 5),
        Err(CIError::InvalidConfidenceLevel(_))
    ));
    assert!(matches!(
        proportion::ci(fx(0.95), z, 10, 1),
        Err(CIError::TooFewSuccesses(1, 10, _))
    ));
    assert!(matches!(
        proportion::ci(fx(0.95), z, 10, 9),
        Err(CIError::TooFewFailures(1, 10, _))
    ));
    assert!(matches!(
        proportion::ci_z_normal(fx(0.95), z, 30, 5),
        Err(CIError::TooFewSuccesses(5, 30, _))
    ));
}

#[test]
fn test_mean_errors() {
    let confidence = Confidence::new_two_sided(fx(0.95));
    let t = fx(12.7062);
    let one = vec![fx_int(5)];
    assert!(matches!(
        Arithmetic::ci(confidence, t, &one),
        Err(CIError::TooFewSamples(1))
    ));
    let with_nonpositive = vec![fx_int(3), fx_int(-1), fx_int(2)];
    assert!(matches!(
        Geometric::ci(confidence, t, &with_nonpositive),
        Err(CIError::InvalidInputData)
    ));
    assert!(matches!(
        Harmonic::ci(confidence, t, &with_nonpositive),
        Err(CIError::InvalidInputData)
    ));
}

#[test]
fn test_mean_exact_symmetry() {
    // with a zero critical value the arithmetic interval collapses to the
    // truncated mean, and in general the bounds sum to twice the mean
    let confidence = Confidence::new_two_sided(fx(0.95));
    let data = vec![fx_int(1), fx_int(2), fx_int(4)];
    let ci = Arithmetic::ci(confidence, Fixed::from_raw(0), &data).unwrap();
    // mean of 1, 2, 4 is 7/3 = 2.333333333...
    assert_eq!(ci.low().unwrap().raw(), 2_333_333_333);
    assert_eq!(ci.high().unwrap().raw(), 2_333_333_333);

    let t = fx(t_value_two_sided(0.95, data.len() - 1));
    let ci = Arithmetic::ci(confidence, t, &data).unwrap();
    assert_eq!(
        ci.low().unwrap().raw() as i128 + ci.high().unwrap().raw() as i128,
        2 * 2_333_333_333i128
    );
    assert!(ci.low().unwrap() <= ci.high().unwrap());
}

#[test]
fn test_median_ci() {
    let data: Vec<f64> = vec![
        8., 11., 12., 13., 15., 17., 19., 20., 21., 21., 22., 23., 25., 26., 28.,
    ];
    let confidence = Confidence::new_two_sided(fx(0.95));
    let z = fx(z_value_two_sided(0.95));
    let median_ci = quantile::ci_sorted_unchecked(confidence, z, &data, fx(0.5));
    assert_eq!(median_ci, Some(Interval::new(13., 23.)));
}

#[test]
fn test_quantile_ci() {
    let data: Vec<f64> = vec![
        8., 11., 12., 13., 15., 17., 19., 20., 21., 21., 22., 23., 25., 26., 28.,
    ];
    let confidence = Confidence::new_two_sided(fx(0.95));
    let z = fx(z_value_two_sided(0.95));
    let quantile_ci = quantile::ci_sorted_unchecked(confidence, z, &data, fx(0.25));
    assert_eq!(quantile_ci, Some(Interval::new(8., 20.)));
}

#[derive(Debug, Clone, Copy, PartialEq)]
enum Numbers {
    One,
    Two,
    Three,
    Four,
    Five,
    Six,
    Seven,
    Eight,
    Nine,
    Ten,
    Eleven,
    Twelve,
    Thirteen,
    Fourteen,
    Fifteen,
}

#[test]
fn test_median_undordered() {
    let data: Vec<Numbers> = vec![
        One, Two, Three, Four, Five, Six, Seven, Eight, Nine, Ten, Eleven, Twelve, Thirteen,
        Fourteen, Fifteen,
    ];
    let confidence = Confidence::new_two_sided(fx(0.95));
    let z = fx(z_value_two_sided(0.95));
    let median_ci = quantile::ci_sorted_unchecked(confidence, z, &data, fx(0.5)).unwrap();
    assert_eq!(median_ci, Interval::new_unordered_unchecked(Four, Twelve));
    assert_eq!(median_ci.left(), Some(&Four));
    assert_eq!(median_ci.right(), Some(&Twelve));
}

#[test]
fn test_median_ci_unsorted() {
    let data: Vec<Fixed> = (1..=15).map(fx_int).collect();
    let confidence = Confidence::new_two_sided(fx(0.95));
    let quantile_level = fx(0.5); // median
    let z = fx(z_value_two_sided(0.95));
    let mut rng = rand::rng();
    for _i in 0..100 {
        let mut shuffled = data.to_vec();
        shuffled.shuffle(&mut rng);
        let interval = quantile::ci(confidence, z, &shuffled, quantile_level).unwrap();
        assert_eq!(interval, Interval::new(fx_int(4), fx_int(12)));
    }
}

#[test]
fn test_quantile_scenarios() {
    let data: Vec<Fixed> = (1..=15).map(fx_int).collect();

    let confidence = Confidence::new_two_sided(fx(0.95));
    let z = fx(z_value_two_sided(0.95));
    let interval = quantile::ci(confidence, z, &data, fx(0.5)).unwrap();
    assert_eq!(interval, Interval::new(fx_int(4), fx_int(12)));

    let confidence = Confidence::new_two_sided(fx(0.8));
    let z = fx(z_value_two_sided(0.8));
    let interval2 = quantile::ci(confidence, z, &data, fx(0.5)).unwrap();
    assert_eq!(interval2, Interval::new(fx_int(6), fx_int(10)));

    let confidence = Confidence::new_two_sided(fx(0.5));
    let z = fx(z_value_two_sided(0.5));
    let interval3 = quantile::ci(confidence, z, &data, fx(0.2)).unwrap();
    assert_eq!(interval3, Interval::new(fx_int(2), fx_int(5)));
}

#[test]
fn test_quantile_too_few() {
    let confidence = Confidence::new_two_sided(fx(0.95));
    let z = fx(z_value_two_sided(0.95));
    let data: Vec<Fixed> = vec![fx_int(1), fx_int(2)];
    assert_eq!(quantile::ci(confidence, z, &data, fx(0.5)), None);
}

#[test]
fn test_interval_operations() {
    let interval = Interval::new(fx_int(1), fx_int(5));
    assert_eq!(interval.low(), Some(fx_int(1)));
    assert_eq!(interval.high(), Some(fx_int(5)));
    assert!(interval.contains(&fx_int(3)));
    assert!(interval.contains(&fx_int(1)));
    assert!(!interval.contains(&fx_int(6)));

    let unordered = Interval::new_unordered_unchecked(fx_int(5), fx_int(1));
    assert_eq!(unordered.left(), Some(&fx_int(5)));
    assert_eq!(unordered.right(), Some(&fx_int(1)));
}

#[test]
fn test_confidence_accessors() {
    let two = Confidence::new_two_sided(fx(0.9));
    assert!(two.is_two_sided());
    assert_eq!(two.level(), fx(0.9));
    let one = Confidence::new_one_sided(fx(0.9));
    assert!(!one.is_two_sided());
}

#[test]
fn test_geometric_degenerate() {
    // identical values: the geometric interval collapses onto the value,
    // up to the fixed-point log/exp rounding
    let confidence = Confidence::new_two_sided(fx(0.95));
    let data = vec![fx_int(10), fx_int(10), fx_int(10)];
    let ci = Geometric::ci(confidence, Fixed::from_raw(0), &data).unwrap();
    approx(val(ci.low().unwrap()), 10.0, 1e-6);
    approx(val(ci.high().unwrap()), 10.0, 1e-6);
    assert!(ci.low().unwrap() <= ci.high().unwrap());
}

#[test]
fn test_harmonic_degenerate() {
    // identical values: the harmonic interval collapses onto the value
    let confidence = Confidence::new_two_sided(fx(0.95));
    let data = vec![fx_int(4), fx_int(4), fx_int(4)];
    let ci = Harmonic::ci(confidence, Fixed::from_raw(0), &data).unwrap();
    approx(val(ci.low().unwrap()), 4.0, 1e-8);
    approx(val(ci.high().unwrap()), 4.0, 1e-8);
}
