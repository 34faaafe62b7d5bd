use kde_stats::bandwidth::silverman_bandwith;
use kde_stats::ratio::Ratio;
use kde_stats::stats::{mean, quantile, standard_deviation, variance, StatsError};

/// Sample values are in tenths.
fn in_tenths(q: Ratio) -> f64 {
    q.numer as f64 / q.denom as f64 / 10.0
}

fn approx(a: f64, b: f64, tol: f64) -> bool {
    (a - b).abs() <= tol
}

#[test]
fn check_quantile() {
    let v = vec![5, 6, 7, 8];
    assert!(approx(in_tenths(quantile(&v, Ratio::new(45, 100)).unwrap()), 0.6283333333333333, 1e-10));
    assert!(approx(in_tenths(quantile(&v, Ratio::new(2, 10)).unwrap()), 0.52, 1e-10));
    assert!(approx(in_tenths(quantile(&v, Ratio::new(0, 1)).unwrap()), 0.5, 1e-10));
    assert!(approx(in_tenths(quantile(&v, Ratio::new(1, 1)).unwrap()), 0.8, 1e-10));
}

#[test]
fn quantile_exact_pair() {
    // h = 0.45 * 4 + (0.45 + 1) / 3 - 1 = 1.28333..., so 6 + 0.28333... * (7 - 6).
    let q = quantile(&[5, 6, 7, 8], Ratio::new(45, 100)).unwrap();
    assert_eq!((q.numer, q.denom), (300 * 6 + 85, 300));
}

#[test]
fn quantile_sorts_the_sample() {
    let v = vec![8, 5, 7, 6];
    assert!(approx(in_tenths(quantile(&v, Ratio::new(45, 100)).unwrap()), 0.6283333333333333, 1e-10));
    assert!(approx(in_tenths(quantile(&v, Ratio::new(0, 1)).unwrap()), 0.5, 1e-10));
    assert!(approx(in_tenths(quantile(&v, Ratio::new(1, 1)).unwrap()), 0.8, 1e-10));
}

#[test]
fn quantile_extremes_are_min_and_max() {
    let v = vec![13, -4, 27, 0, 9, -4, 2];
    let lo = quantile(&v, Ratio::new(0, 7)).unwrap();
    let hi = quantile(&v, Ratio::new(7, 7)).unwrap();
    assert_eq!((lo.numer, lo.denom), (-4, 1));
    assert_eq!((hi.numer, hi.denom), (27, 1));
    let one = quantile(&[42], Ratio::new(1, 2)).unwrap();
    assert_eq!((one.numer, one.denom), (42, 1));
}

#[test]
fn quantile_rejects_probability_out_of_range() {
    let v = vec![5, 6, 7, 8];
    assert_eq!(quantile(&v, Ratio::new(15, 10)).unwrap_err(), StatsError::ProbabilityOutOfRange);
    assert_eq!(quantile(&v, Ratio::new(-1, 10)).unwrap_err(), StatsError::ProbabilityOutOfRange);
}

#[test]
fn mean_of_sample() {
    let m = mean(&[5, 6, 7, 8]).unwrap();
    assert_eq!((m.numer, m.denom), (26, 4));
    assert_eq!(mean(&[]).unwrap_err(), StatsError::EmptySample);
}

#[test]
fn variance_about_mean_and_center() {
    // Deviations from 6.5 are -1.5, -0.5, 0.5, 1.5: squares sum to 5, over 3.
    let var = variance(&[5, 6, 7, 8], None).unwrap();
    assert!(approx(var.numer as f64 / var.denom as f64, 5.0 / 3.0, 1e-12));
    let about_zero = variance(&[1, 2, 3], Some(Ratio::new(0, 1))).unwrap();
    assert_eq!((about_zero.numer, about_zero.denom), (14, 2));
}

#[test]
fn variance_needs_two_points() {
    assert_eq!(variance(&[3], None).unwrap_err(), StatsError::TooFewPoints);
    assert_eq!(variance(&[], None).unwrap_err(), StatsError::TooFewPoints);
    assert_eq!(standard_deviation(&[3], None).unwrap_err(), StatsError::TooFewPoints);
}

#[test]
fn variance_is_translation_invariant() {
    let v = vec![3, -7, 12, 0, 5];
    let w: Vec<i32> = v.iter().map(|x| x + 1000).collect();
    let a = variance(&v, None).unwrap();
    let b = variance(&w, None).unwrap();
    assert_eq!((a.numer, a.denom), (b.numer, b.denom));
}

#[test]
fn standard_deviation_squares_to_variance() {
    let v = vec![2, 4, 4, 4, 5, 5, 7, 9];
    let var = variance(&v, None).unwrap();
    let sd = standard_deviation(&v, None).unwrap();
    let sd_value = (sd.square.numer as f64 / sd.square.denom as f64).sqrt();
    assert!(approx(sd_value * sd_value, var.numer as f64 / var.denom as f64, 1e-12));
    assert!(approx(sd_value, (32.0f64 / 7.0).sqrt(), 1e-12));
}

#[test]
fn silverman_spread_of_sample() {
    // sd = sqrt(5/3) = 1.29; IQR = 7.5833 - 5.4167 = 2.1667 and 2.1667 / 1.34 = 1.617.
    let bw = silverman_bandwith(&[5, 6, 7, 8]).unwrap();
    assert_eq!(bw.n, 4);
    let sq = bw.spread.square;
    assert!(approx(sq.numer as f64 / sq.denom as f64, 5.0 / 3.0, 1e-12));
    assert!(!bw.is_degenerate());
    let width = 0.9 * (sq.numer as f64 / sq.denom as f64).sqrt() * 4f64.powf(-0.2) / 10.0;
    assert!(approx(width, 0.08805517529498187, 1e-12));
}

#[test]
fn silverman_uses_iqr_when_smaller() {
    // One far value inflates the deviation but not the interquartile range.
    let v = vec![10, 11, 12, 13, 14, 15, 16, 1000];
    let bw = silverman_bandwith(&v).unwrap();
    let sq = bw.spread.square;
    let q75 = quantile(&v, Ratio::new(3, 4)).unwrap();
    let q25 = quantile(&v, Ratio::new(1, 4)).unwrap();
    let iqr = q75.numer as f64 / q75.denom as f64 - q25.numer as f64 / q25.denom as f64;
    assert!(approx(sq.numer as f64 / sq.denom as f64, (iqr / 1.34) * (iqr / 1.34), 1e-9));
}

#[test]
fn silverman_degenerate_samples() {
    assert!(silverman_bandwith(&[3, 3, 3]).unwrap().is_degenerate());
    // Not constant, but the interquartile range is zero.
    assert!(silverman_bandwith(&[0, 0, 0, 0, 0, 0, 0, 100]).unwrap().is_degenerate());
    assert_eq!(silverman_bandwith(&[3]).unwrap_err(), StatsError::TooFewPoints);
}

#[test]
fn silverman_shrinks_with_sample_size() {
    // The same shape, repeated: the spread stays, the factor n^(-1/5) falls.
    let small: Vec<i32> = (0..10).collect();
    let large: Vec<i32> = (0..320).map(|i| i % 10).collect();
    let width = |v: &Vec<i32>| {
        let bw = silverman_bandwith(v).unwrap();
        let sq = bw.spread.square;
        0.9 * (sq.numer as f64 / sq.denom as f64).sqrt() * (bw.n as f64).powf(-0.2)
    };
    let ratio = width(&large) / width(&small);
    assert!(approx(ratio, 32f64.powf(-0.2), 0.05));
}

#[test]
fn quantile_grows_with_probability() {
    let v = vec![40, -3, 17, 17, 8, 99, 0, 23, -50];
    let mut last = f64::NEG_INFINITY;
    for k in 0..=20 {
        let q = quantile(&v, Ratio::new(k, 20)).unwrap();
        let value = q.numer as f64 / q.denom as f64;
        assert!(value >= last);
        last = value;
    }
    assert_eq!(last, 99.0);
}

#[test]
fn quantile_and_mean_on_large_sample() {
    let v: Vec<i32> = (0..20000).rev().collect();
    let lo = quantile(&v, Ratio::new(0, 1)).unwrap();
    let hi = quantile(&v, Ratio::new(1, 1)).unwrap();
    assert_eq!((lo.numer, lo.denom), (0, 1));
    assert_eq!((hi.numer, hi.denom), (19999, 1));
    let m = mean(&v).unwrap();
    assert_eq!(m.numer * 2, 19999 * m.denom);
}
