use tenancy_sim::sampler::Sampler;
use tenancy_sim::sampler::SamplerError;

#[test]
fn new_refuses_an_empty_table() {
    assert_eq!(Sampler::new(vec![]).err(), Some(SamplerError::InvalidDistribution));
}

#[test]
fn new_refuses_a_negative_weight() {
    assert_eq!(
        Sampler::new(vec![(1, 4), (2, -1), (3, 2)]).err(),
        Some(SamplerError::InvalidDistribution)
    );
    assert_eq!(Sampler::new(vec![(1, i64::MIN)]).err(), Some(SamplerError::InvalidDistribution));
}

#[test]
fn new_refuses_weights_that_are_all_zero() {
    assert_eq!(Sampler::new(vec![(1, 0), (2, 0)]).err(), Some(SamplerError::InvalidDistribution));
}

#[test]
fn new_refuses_a_sum_beyond_64_bits() {
    assert_eq!(
        Sampler::new(vec![(1, i64::MAX), (2, 1)]).err(),
        Some(SamplerError::WeightOverflow)
    );
    assert!(Sampler::new(vec![(1, i64::MAX), (2, 0)]).is_ok());
}

#[test]
fn value_at_follows_the_table() {
    let sampler = Sampler::new(vec![(7, 1), (9, 0), (11, 3)]).unwrap_or_else(|_| panic!());
    assert_eq!(sampler.value_at(0), Some(7));
    assert_eq!(sampler.value_at(1), Some(9));
    assert_eq!(sampler.value_at(2), Some(11));
    assert_eq!(sampler.value_at(3), None);
}

#[test]
fn sample_never_gives_a_value_of_weight_zero() {
    let mut sampler = Sampler::new(vec![(7, 0), (9, 5), (11, 0)]).unwrap_or_else(|_| panic!());
    for _ in 0..1000 {
        assert_eq!(sampler.sample(), 9);
    }
}

#[test]
fn sample_stays_within_the_table() {
    let mut sampler =
        Sampler::new(vec![(2, 1), (4, 0), (6, 1), (8, 2)]).unwrap_or_else(|_| panic!());
    let mut seen = [false; 3];
    for _ in 0..2000 {
        match sampler.sample() {
            2 => seen[0] = true,
            6 => seen[1] = true,
            8 => seen[2] = true,
            other => panic!("{} is not a value of positive weight", other),
        }
    }
    assert_eq!(seen, [true, true, true]);
}

#[test]
fn sample_follows_the_weights() {
    let mut sampler = Sampler::new(vec![(10, 1), (20, 3), (30, 4)]).unwrap_or_else(|_| panic!());
    let draws = 80_000;
    let mut counts = [0u64; 3];
    for _ in 0..draws {
        match sampler.sample() {
            10 => counts[0] += 1,
            20 => counts[1] += 1,
            30 => counts[2] += 1,
            other => panic!("{} is not in the table", other),
        }
    }
    let expected = [0.125, 0.375, 0.5];
    for (count, share) in counts.iter().zip(expected) {
        let observed = *count as f64 / draws as f64;
        assert!((observed - share).abs() < 0.02, "{} against {}", observed, share);
    }
}
