use tenancy_sim::simulator::Simulator;

fn unexpired(durations: &[u64]) -> u64 {
    let now = durations.len() as u64;
    let mut live = 0;
    for (index, duration) in durations.iter().enumerate() {
        let admitted = index as u64 + 1;
        let lasting = if *duration == 0 { 1 } else { *duration };
        if admitted + lasting > now {
            live += 1;
        }
    }
    live
}

#[test]
fn init_is_empty() {
    let cache = Simulator::init();
    assert_eq!(cache._get_size(), 0);
    assert_eq!(cache.get_step(), 0);
    assert_eq!(cache.get_excess(0), 0);
}

#[test]
fn add_tenancy_ticks_and_takes_a_slot() {
    let mut cache = Simulator::init();
    cache.add_tenancy(5);
    assert_eq!(cache.get_step(), 1);
    assert_eq!(cache._get_size(), 1);
    cache.add_tenancy(5);
    cache.add_tenancy(5);
    assert_eq!(cache.get_step(), 3);
    assert_eq!(cache._get_size(), 3);
}

#[test]
fn update_releases_what_is_due() {
    let mut cache = Simulator::init();
    cache.add_tenancy(2);
    cache.add_tenancy(1);
    assert_eq!(cache._get_size(), 2);
    cache.update();
    assert_eq!(cache.get_step(), 3);
    assert_eq!(cache._get_size(), 0);
    cache.update();
    assert_eq!(cache._get_size(), 0);
    assert_eq!(cache.get_step(), 4);
}

#[test]
fn unit_tenancies_hold_exactly_one_slot() {
    let mut cache = Simulator::init();
    for _ in 0..100 {
        cache.add_tenancy(1);
        assert_eq!(cache._get_size(), 1);
    }
}

#[test]
fn zero_tenancy_is_gone_after_one_tick() {
    let mut cache = Simulator::init();
    cache.add_tenancy(10);
    let before = cache._get_size();
    cache.add_tenancy(0);
    assert_eq!(cache._get_size(), before + 1);
    cache.update();
    assert_eq!(cache._get_size(), before);
}

#[test]
fn zero_tenancy_then_tick_equals_two_ticks() {
    let mut with = Simulator::init();
    let mut without = Simulator::init();
    for duration in [4, 1, 2, 7] {
        with.add_tenancy(duration);
        without.add_tenancy(duration);
    }
    with.add_tenancy(0);
    with.update();
    without.update();
    without.update();
    for _ in 0..10 {
        assert_eq!(with._get_size(), without._get_size());
        assert_eq!(with.get_step(), without.get_step());
        with.update();
        without.update();
    }
}

#[test]
fn size_counts_the_unexpired_tenancies() {
    let durations = [2, 0, 5, 1, 1, 3, 0, 9, 4, 2, 2, 1];
    let mut cache = Simulator::init();
    for upto in 0..durations.len() {
        cache.add_tenancy(durations[upto]);
        assert_eq!(cache._get_size(), unexpired(&durations[..upto + 1]));
    }
    assert_eq!(cache._get_size(), 4);
}

#[test]
fn long_tenancies_pile_up() {
    let mut cache = Simulator::init();
    for tick in 1..=50 {
        cache.add_tenancy(u64::MAX);
        assert_eq!(cache._get_size(), tick);
    }
    cache.update();
    assert_eq!(cache._get_size(), 50);
}

#[test]
fn get_excess_is_the_part_above_capacity() {
    let mut cache = Simulator::init();
    for _ in 0..7 {
        cache.add_tenancy(100);
    }
    assert_eq!(cache._get_size(), 7);
    assert_eq!(cache.get_excess(0), 7);
    assert_eq!(cache.get_excess(3), 4);
    assert_eq!(cache.get_excess(6), 1);
    assert_eq!(cache.get_excess(7), 0);
    assert_eq!(cache.get_excess(8), 0);
    assert_eq!(cache.get_excess(u64::MAX), 0);
}
