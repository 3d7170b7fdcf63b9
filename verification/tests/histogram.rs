use tenancy_sim::histogram::copy_vector;
use tenancy_sim::histogram::get_distribution;
use tenancy_sim::histogram::get_distribution_difference;
use tenancy_sim::histogram::get_overalloc_area;
use tenancy_sim::histogram::get_sum;
use tenancy_sim::histogram::has_settled;
use tenancy_sim::ratio::Ratio;
use tenancy_sim::ratio::Threshold;

#[test]
fn get_sum_adds_all_counts() {
    assert_eq!(get_sum(&vec![1, 2, 3, 4]), 10);
    assert_eq!(get_sum(&vec![7]), 7);
}

#[test]
fn get_sum_of_nothing_is_one() {
    assert_eq!(get_sum(&vec![]), 1);
    assert_eq!(get_sum(&vec![0, 0, 0]), 1);
}

#[test]
fn get_sum_goes_beyond_64_bits() {
    let big = u64::MAX;
    assert_eq!(get_sum(&vec![big, big, big]), 3 * (big as u128));
}

#[test]
fn copy_vector_keeps_every_count() {
    let input = vec![5, 0, 9, u64::MAX];
    assert_eq!(copy_vector(&input), input);
    assert_eq!(copy_vector(&vec![]), Vec::<u64>::new());
}

#[test]
fn get_distribution_divides_by_the_sum() {
    let shares = get_distribution(&vec![1, 3, 0, 4]);
    assert_eq!(
        shares,
        vec![
            Ratio { num: 1, den: 8 },
            Ratio { num: 3, den: 8 },
            Ratio { num: 0, den: 8 },
            Ratio { num: 4, den: 8 },
        ]
    );
    let whole: u128 = shares.iter().map(|share| share.num).sum();
    assert_eq!(whole, 8);
}

#[test]
fn get_distribution_of_zeros_is_zeros() {
    let shares = get_distribution(&vec![0, 0, 0]);
    assert_eq!(shares, vec![Ratio { num: 0, den: 1 }; 3]);
    for share in shares {
        assert_eq!(share.num as f64 / share.den as f64, 0.0);
    }
    assert_eq!(get_distribution(&vec![]), Vec::<Ratio>::new());
}

#[test]
fn distance_leaves_the_last_position_out() {
    let a = vec![1, 1, 2];
    let b = vec![2, 1, 1];
    assert_eq!(get_distribution_difference(&a, &b), Some(Ratio { num: 4, den: 16 }));
    let c = vec![1, 1, 2, 0];
    let d = vec![2, 1, 1, 0];
    assert_eq!(get_distribution_difference(&c, &d), Some(Ratio { num: 8, den: 16 }));
}

#[test]
fn distance_to_itself_is_zero() {
    for x in [vec![3, 1, 4, 1, 5], vec![0, 0], vec![9], vec![]] {
        let distance = get_distribution_difference(&x, &x).unwrap();
        assert_eq!(distance.num, 0);
        assert!(distance.den > 0);
    }
}

#[test]
fn distance_is_symmetric() {
    let a = vec![10, 0, 3, 7];
    let b = vec![1, 2, 3, 4];
    let there = get_distribution_difference(&a, &b);
    let back = get_distribution_difference(&b, &a);
    assert_eq!(there, back);
    assert_eq!(there, Some(Ratio { num: 80 + 40 + 30, den: 200 }));
}

#[test]
fn distance_from_an_empty_histogram_uses_the_safe_sum() {
    let a = vec![0, 0, 0];
    let b = vec![0, 1023, 0];
    assert_eq!(get_distribution_difference(&a, &b), Some(Ratio { num: 1023, den: 1023 }));
}

#[test]
fn distance_that_does_not_fit_is_none() {
    let a = vec![u64::MAX, u64::MAX, u64::MAX];
    assert_eq!(get_distribution_difference(&a, &a), None);
}

#[test]
fn overalloc_area_weighs_the_excess_by_the_count() {
    assert_eq!(
        get_overalloc_area(vec![3, 10, 12], 10, 3),
        Some(Ratio { num: 24, den: 25 })
    );
    assert_eq!(
        get_overalloc_area(vec![3, 10, 12], 2, 5),
        Some(Ratio { num: 3 + 80 + 120, den: 25 })
    );
    assert_eq!(get_overalloc_area(vec![], 0, 0), Some(Ratio { num: 0, den: 1 }));
}

#[test]
fn overalloc_area_that_does_not_fit_is_none() {
    assert_eq!(get_overalloc_area(vec![u64::MAX, u64::MAX], 0, 2), None);
    assert_eq!(
        get_overalloc_area(vec![u64::MAX], 0, 1),
        Some(Ratio { num: (u64::MAX as u128) * (u64::MAX as u128), den: u64::MAX as u128 })
    );
}

#[test]
fn has_settled_compares_with_the_threshold() {
    let delta = Threshold { num: 5, den: 1000 };
    assert_eq!(has_settled(&vec![0, 0, 0], &vec![0, 1023, 0], &delta), Some(false));
    assert_eq!(has_settled(&vec![0, 1023, 0], &vec![0, 2046, 0], &delta), Some(true));
    // 1/4 + 1/4 against 1/8 + 1/8: a distance of 1/4
    let previous = vec![0, 1, 1, 2];
    let current = vec![0, 1, 1, 6];
    assert_eq!(has_settled(&previous, &current, &Threshold { num: 1, den: 4 }), Some(false));
    assert_eq!(has_settled(&previous, &current, &Threshold { num: 26, den: 100 }), Some(true));
}

#[test]
fn has_settled_gives_up_beyond_128_bits() {
    let a = vec![1 << 62, 0];
    let b = vec![0, 1 << 62];
    assert_eq!(get_distribution_difference(&a, &b), Some(Ratio { num: 1 << 124, den: 1 << 124 }));
    assert_eq!(has_settled(&a, &b, &Threshold { num: 1, den: 2 }), Some(false));
    assert_eq!(has_settled(&a, &b, &Threshold { num: 3, den: 2 }), Some(true));
    assert_eq!(has_settled(&a, &b, &Threshold { num: 1, den: 1 << 10 }), None);
    assert_eq!(has_settled(&a, &b, &Threshold { num: 1 << 10, den: 1 }), None);
}

#[test]
fn ratio_is_below_cross_multiplies() {
    let half = Ratio { num: 1, den: 2 };
    assert_eq!(half.is_below(&Threshold { num: 2, den: 3 }), Some(true));
    assert_eq!(half.is_below(&Threshold { num: 1, den: 2 }), Some(false));
    assert_eq!(half.is_below(&Threshold { num: 1, den: 3 }), Some(false));
    let huge = Ratio { num: u128::MAX, den: 1 };
    assert_eq!(huge.is_below(&Threshold { num: 1, den: 2 }), None);
    assert_eq!(huge.is_below(&Threshold { num: 0, den: 1 }), Some(false));
}
