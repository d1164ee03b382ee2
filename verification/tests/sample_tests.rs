use rust_pi::rat::Rat;
use rust_pi::sample::{prob_by, quantile, Sample};

#[test]
fn sample_rejects_unsorted_values() {
    assert!(Sample::new(vec![3, 1, 2], 1).is_none());
}

#[test]
fn sample_rejects_bad_denominator() {
    assert!(Sample::new(vec![1, 2, 3], 0).is_none());
    assert!(Sample::new(vec![1, 2, 3], -4).is_none());
}

#[test]
fn sample_accepts_sorted_values() {
    let s = Sample::new(vec![1, 1, 2, 5], 10).unwrap();
    assert_eq!(s.len(), 4);
}

#[test]
fn prob_by_counts_all_ties() {
    // the empirical CDF counts every observation <= x, so a probe equal to
    // a run of duplicates lands on the rightmost matching rank
    let s = Sample::new(vec![4, 4, 4, 5], 1).unwrap();
    let p = prob_by(&s, Rat::new(4, 1));
    assert_eq!(p.num, 3);
    assert_eq!(p.den, 4);
}

#[test]
fn prob_by_uses_insertion_rank_when_absent() {
    let s = Sample::new(vec![1, 3, 5], 1).unwrap();
    assert_eq!(prob_by(&s, Rat::new(2, 1)).num, 1);
    assert_eq!(prob_by(&s, Rat::new(0, 1)).num, 0);
    assert_eq!(prob_by(&s, Rat::new(6, 1)).num, 3);
    // a fractional probe compares exactly: 7/2 lies between 3 and 5
    assert_eq!(prob_by(&s, Rat::new(7, 2)).num, 2);
}

#[test]
fn quantile_picks_nearest_lower_rank() {
    let ordered = vec![10i64, 20, 30, 40];
    assert_eq!(*quantile(&ordered, Rat::new(0, 1)), 10);
    assert_eq!(*quantile(&ordered, Rat::new(1, 4)), 10);
    assert_eq!(*quantile(&ordered, Rat::new(1, 2)), 20);
    assert_eq!(*quantile(&ordered, Rat::new(3, 4)), 30);
    assert_eq!(*quantile(&ordered, Rat::new(1, 1)), 40);
}

#[test]
fn quantile_truncates_rather_than_rounds() {
    // q * n = 2.7 truncates to index 2, then steps back to index 1
    let ordered = vec![10i64, 20, 30];
    assert_eq!(*quantile(&ordered, Rat::new(9, 10)), 20);
}

#[test]
fn quantile_is_generic_over_elements() {
    let ordered = vec![1.5f64, 2.5, 3.5];
    assert_eq!(*quantile(&ordered, Rat::new(1, 2)), 1.5);
}
