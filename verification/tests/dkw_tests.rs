use rust_pi::dkw::{cdf_lower, cdf_upper, ci, ci_lower, ci_upper};
use rust_pi::rat::Rat;
use rust_pi::sample::Sample;

/// Expands weighted ratings into a flat, already-sorted sample over
/// denominator 1.
fn generate_sample(ratings: Vec<(i64, usize)>) -> Sample {
    let mut vals = Vec::new();
    for (rating, count) in ratings {
        for _ in 0..count {
            vals.push(rating);
        }
    }
    vals.sort_unstable();
    Sample::new(vals, 1).unwrap()
}

/// The DKW band half-width for a sample of n at significance alpha,
/// approximated by a rational with denominator 2^30 (well within the 1e-6
/// tolerance of the fixtures below).
fn eps_rat(n: usize, alpha: f64) -> Rat {
    let e = ((0.5 / n as f64) * (2.0 / alpha).ln()).sqrt();
    let den: i64 = 1 << 30;
    Rat::new((e * den as f64).round() as i64, den)
}

fn to_f64(r: &Rat) -> f64 {
    r.num as f64 / r.den as f64
}

#[test]
fn ci_mixed() {
    let sample = generate_sample(vec![(1, 0), (2, 3), (3, 9), (4, 53), (5, 144)]);
    let ci_05 = ci(&sample, eps_rat(sample.len(), 0.05));
    println!("ci_05: {}", ci_05.render(Some(9)));
    assert!((to_f64(&ci_05.lower) - 4.335_399).abs() <= 1e-6);
    assert!((to_f64(&ci_05.upper) - 4.782_937).abs() <= 1e-6);
}

#[test]
fn ci_single() {
    let sample = generate_sample(vec![(12, 10)]);
    let ci_05 = ci(&sample, eps_rat(sample.len(), 0.05));
    println!("ci_05: {}", ci_05.render(Some(9)));
    assert!((to_f64(&ci_05.lower) - 12.0).abs() <= 1e-6);
    assert!((to_f64(&ci_05.upper) - 12.0).abs() <= 1e-6);
}

#[test]
fn ci_max_uncertainty() {
    let sample = generate_sample(vec![(1, 1), (2, 1)]);
    let ci_05 = ci(&sample, eps_rat(sample.len(), 0.05));
    println!("ci_05: {}", ci_05.render(Some(9)));
    assert!((to_f64(&ci_05.lower) - 1.0).abs() <= 1e-6);
    assert!((to_f64(&ci_05.upper) - 2.0).abs() <= 1e-6);
}

#[test]
fn ci_two_points_exact_numerators() {
    // sample {1, 2}, epsilon = 1/2: the upper envelope at the first point is
    // already clamped to 1 and the lower envelope to 0, so the bounds are
    // exactly the two observations: 4/4 and 8/4.
    let sample = Sample::new(vec![1, 2], 1).unwrap();
    let eps = Rat::new(1, 2);
    let lower = ci_lower(&sample, eps);
    let upper = ci_upper(&sample, eps);
    assert_eq!(lower.num, 4);
    assert_eq!(lower.den, 4);
    assert_eq!(upper.num, 8);
    assert_eq!(upper.den, 4);
}

#[test]
fn degenerate_sample_collapses() {
    // every observation is 12, so both ends are exactly 12 whatever epsilon
    let sample = generate_sample(vec![(12, 10)]);
    let interval = ci(&sample, Rat::new(1, 7));
    let twelve = Rat::new(12, 1);
    assert!(interval.lower.eq_value(&twelve));
    assert!(interval.upper.eq_value(&twelve));
}

#[test]
fn envelopes_bracket_probability() {
    // sample {1, 2, 2, 3}, epsilon 1/4, probe at 2:
    // empirical probability 3/4, lower envelope 1/2, upper envelope 1
    let sample = Sample::new(vec![1, 2, 2, 3], 1).unwrap();
    let eps = Rat::new(1, 4);
    let x = Rat::new(2, 1);
    let lo = cdf_lower(&sample, x, eps);
    let hi = cdf_upper(&sample, x, eps);
    let p = rust_pi::sample::prob_by(&sample, x);
    assert_eq!(lo.num, 8);
    assert_eq!(lo.den, 16);
    assert_eq!(hi.num, 16);
    assert_eq!(hi.den, 16);
    assert!(lo.le(&p));
    assert!(p.le(&hi));
    // both envelopes stay within [0, 1]
    assert!(Rat::new(0, 1).le(&lo));
    assert!(hi.le(&Rat::new(1, 1)));
}

#[test]
fn envelopes_clamp_at_the_ends() {
    // far left of the sample the envelopes are 0 and epsilon; far right they
    // are 1 - epsilon and 1
    let sample = Sample::new(vec![1, 2, 2, 3], 1).unwrap();
    let eps = Rat::new(1, 4);
    let below = Rat::new(0, 1);
    let above = Rat::new(9, 2);
    assert_eq!(cdf_lower(&sample, below, eps).num, 0);
    assert_eq!(cdf_upper(&sample, below, eps).num, 4);
    assert_eq!(cdf_lower(&sample, above, eps).num, 12);
    assert_eq!(cdf_upper(&sample, above, eps).num, 16);
}

#[test]
fn interval_ordered_and_within_range() {
    let sample = Sample::new(vec![1, 2, 3, 10], 2).unwrap();
    let eps = Rat::new(3, 10);
    let interval = ci(&sample, eps);
    let min = Rat::new(1, 2);
    let max = Rat::new(10, 2);
    assert!(interval.lower.le(&interval.upper));
    assert!(min.le(&interval.lower));
    assert!(interval.upper.le(&max));
}

#[test]
fn oversized_band_spans_the_whole_range() {
    // an epsilon above 1 clamps the upper envelope to 1 and the lower to 0
    // everywhere, so the interval is exactly the observed range
    let sample = Sample::new(vec![1, 3], 1).unwrap();
    let interval = ci(&sample, Rat::new(2, 1));
    assert!(interval.lower.eq_value(&Rat::new(1, 1)));
    assert!(interval.upper.eq_value(&Rat::new(3, 1)));
}

#[test]
fn wider_band_widens_interval() {
    // epsilon 1/10 versus 3/10: the wider band must contain the narrower
    // band's interval
    let sample = Sample::new(vec![1, 2, 3, 10], 2).unwrap();
    let narrow = ci(&sample, Rat::new(1, 10));
    let wide = ci(&sample, Rat::new(3, 10));
    assert!(wide.lower.le(&narrow.lower));
    assert!(narrow.upper.le(&wide.upper));
}
