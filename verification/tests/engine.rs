use tenancy_sim::engine::caching;
use tenancy_sim::engine::simulate;
use tenancy_sim::engine::Measurement;
use tenancy_sim::engine::Settings;
use tenancy_sim::engine::SimulationError;
use tenancy_sim::histogram::get_distribution;
use tenancy_sim::ratio::Threshold;
use tenancy_sim::sampler::Sampler;
use tenancy_sim::simulator::Simulator;

fn table(pairs: Vec<(u64, i64)>) -> Sampler {
    Sampler::new(pairs).unwrap_or_else(|_| panic!("the table is refused"))
}

fn settings(warmup: u32, samples: u32, cycles: u32) -> Settings {
    Settings::new(warmup, samples, cycles).unwrap()
}

fn shares(histogram: &Vec<u64>) -> Vec<f64> {
    get_distribution(histogram).iter().map(|share| share.num as f64 / share.den as f64).collect()
}

#[test]
fn settings_new_holds_to_the_limit() {
    assert_eq!(
        Settings::new(7, 1024, 100_001),
        Some(Settings { warmup_ticks: 7, samples_per_cycle: 1024, max_cycles: 100_001 })
    );
    assert_eq!(Settings::new(0, 0, 1), None);
    assert!(Settings::new(0, 1, u32::MAX).is_some());
    assert!(Settings::new(0, 2, 0x7fff_ffff).is_some());
    assert_eq!(Settings::new(0, 3, 0x7fff_ffff), None);
    assert_eq!(Settings::new(0, u32::MAX, u32::MAX), None);
}

#[test]
fn settings_standard_values() {
    let usual = Settings::standard();
    assert_eq!(usual.warmup_ticks, 1023);
    assert_eq!(usual.samples_per_cycle, 1024);
    assert_eq!(usual.max_cycles, 100_001);
    assert_eq!(Settings::new(1023, 1024, 100_001), Some(usual));
}

#[test]
fn measurement_new_is_all_zero() {
    let fresh = Measurement::new(4);
    assert_eq!(fresh.dcsd_observed, vec![0; 5]);
    assert_eq!(fresh.total_overalloc, 0);
    assert_eq!(fresh.trace_len, 0);
}

#[test]
fn measurement_record_counts_the_tick() {
    let mut cache = Simulator::init();
    let mut gauge = Measurement::new(3);
    cache.add_tenancy(9);
    assert_eq!(gauge.record(&cache, 1), Ok(()));
    cache.add_tenancy(9);
    assert_eq!(gauge.record(&cache, 1), Ok(()));
    cache.add_tenancy(9);
    assert_eq!(gauge.record(&cache, 1), Ok(()));
    assert_eq!(gauge.dcsd_observed, vec![0, 1, 1, 1]);
    assert_eq!(gauge.trace_len, 3);
    assert_eq!(gauge.total_overalloc, 0 + 1 + 2);
}

#[test]
fn measurement_record_refuses_a_missing_bucket() {
    let mut cache = Simulator::init();
    let mut gauge = Measurement::new(1);
    cache.add_tenancy(9);
    assert_eq!(gauge.record(&cache, 0), Ok(()));
    cache.add_tenancy(9);
    assert_eq!(
        gauge.record(&cache, 0),
        Err(SimulationError::InternalConsistency { tick: 2, index: 2 })
    );
    assert_eq!(gauge.dcsd_observed, vec![0, 1]);
    assert_eq!(gauge.trace_len, 1);
    assert_eq!(gauge.total_overalloc, 1);
}

#[test]
fn unit_tenancies_fill_the_bucket_of_one() {
    let delta = Threshold { num: 5, den: 1000 };
    let histogram = caching(table(vec![(1, 1)]), 10, delta, 2).unwrap();
    assert_eq!(histogram, vec![0, 2046, 0]);
    let probabilities = shares(&histogram);
    assert!((probabilities[1] - 1.0).abs() < 1e-9);
    assert!(probabilities[0].abs() < 1e-9);
    assert!(probabilities[2].abs() < 1e-9);
}

#[test]
fn run_ends_at_the_first_settled_cycle() {
    // Occupancy climbs 1, 2, 3 and stays at 3.
    let third = Threshold { num: 3, den: 10 };
    let histogram = simulate(table(vec![(3, 1)]), 0, third, 3, settings(0, 5, 5)).unwrap();
    assert_eq!(histogram, vec![0, 1, 1, 6]);
    let tenth = Threshold { num: 1, den: 10 };
    let histogram = simulate(table(vec![(3, 1)]), 0, tenth, 3, settings(0, 5, 5)).unwrap();
    assert_eq!(histogram, vec![0, 1, 1, 10]);
}

#[test]
fn run_ends_at_the_cycle_cap() {
    let never = Threshold { num: 0, den: 1 };
    let histogram = simulate(table(vec![(1, 1)]), 0, never, 2, settings(0, 4, 3)).unwrap();
    assert_eq!(histogram, vec![0, 9, 0]);
    let histogram = simulate(table(vec![(3, 1)]), 0, never, 3, settings(0, 5, 2)).unwrap();
    assert_eq!(histogram, vec![0, 1, 1, 6]);
    let histogram = simulate(table(vec![(3, 1)]), 0, never, 3, settings(0, 5, 0)).unwrap();
    assert_eq!(histogram, vec![0, 0, 0, 0]);
}

#[test]
fn warm_up_is_not_counted() {
    let never = Threshold { num: 0, den: 1 };
    let histogram = simulate(table(vec![(3, 1)]), 0, never, 3, settings(3, 5, 1)).unwrap();
    assert_eq!(histogram, vec![0, 0, 0, 4]);
    let histogram = simulate(table(vec![(3, 1)]), 0, never, 3, settings(1, 5, 1)).unwrap();
    assert_eq!(histogram, vec![0, 0, 1, 3]);
}

#[test]
fn run_breaks_off_when_a_bucket_is_missing() {
    let delta = Threshold { num: 5, den: 1000 };
    let outcome = simulate(table(vec![(10, 1)]), 0, delta, 2, settings(0, 1024, 10));
    assert_eq!(outcome, Err(SimulationError::InternalConsistency { tick: 3, index: 3 }));
    let outcome = caching(table(vec![(10, 1)]), 0, delta, 2);
    assert_eq!(outcome, Err(SimulationError::InternalConsistency { tick: 1024, index: 10 }));
}

#[test]
fn zero_and_five_tick_tenancies_mix() {
    let delta = Threshold { num: 5, den: 1000 };
    let first = caching(table(vec![(0, 1), (5, 1)]), 10, delta, 5).unwrap();
    let second = caching(table(vec![(0, 1), (5, 1)]), 10, delta, 5).unwrap();
    assert_eq!(first.len(), 6);
    assert_eq!(second.len(), 6);
    // A slot is taken at every tick, and at most four earlier tenancies of
    // five ticks are still there.
    assert_eq!(first[0], 0);
    for level in 1..=5 {
        assert!(first[level] > 0, "no tick with {} slots in use", level);
    }
    let ticks: u64 = first.iter().sum();
    assert!(ticks > 0 && ticks % 1023 == 0);
    let one = shares(&first);
    let other = shares(&second);
    let apart: f64 = one.iter().zip(&other).map(|(x, y)| (x - y).abs()).sum();
    assert!(apart < 0.15, "the two runs are {} apart", apart);
    // With four earlier draws each lasting with chance one half, three slots
    // are the most likely level.
    assert!((one[3] - 0.375).abs() < 0.1);
}
