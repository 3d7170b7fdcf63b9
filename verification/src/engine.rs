//! The simulation engine: draws tenancies, feeds them to the tracker tick by
//! tick, and counts how often each number of slots in use was seen.
//!
//! Which tenancies are drawn is up to chance. Every contract here therefore
//! speaks of the sequence of draws that a run happened to make: whatever that
//! sequence was, the result is the one this module defines for it.

use crate::histogram::closer_than;
use crate::histogram::copy_vector;
use crate::histogram::decidable;
use crate::histogram::distance_den;
use crate::histogram::distance_num;
use crate::histogram::has_settled;
use crate::histogram::lemma_count_within_total;
use crate::histogram::lemma_distance_bound;
use crate::histogram::lemma_total_of_raised;
use crate::histogram::safe_total;
use crate::histogram::total;
use crate::ratio::Threshold;
use crate::sampler::yields;
use crate::sampler::Sampler;
use crate::simulator::excess;
use crate::simulator::lemma_size_counts_unexpired;
use crate::simulator::lemma_size_within_longest;
use crate::simulator::Occupancy;
use crate::simulator::Simulator;
use vstd::prelude::*;

verus! {

/// The most admissions a run may measure, so that every count and every
/// distance between two histograms fits the arithmetic that works on them.
pub const MEASURED_LIMIT: u64 = 0x7fff_ffff;

/// How long a run warms up, how many draws make a cycle, and after how many
/// cycles it gives up waiting for the histogram to settle.
#[derive(Clone, Copy, Debug, PartialEq, Eq, Structural)]
pub struct Settings {
    /// Admissions made before any is counted.
    pub warmup_ticks: u32,
    /// Draws per cycle; a cycle admits one tenancy less than this.
    pub samples_per_cycle: u32,
    /// The number of cycles after which a run ends in any case.
    pub max_cycles: u32,
}

impl Settings {
    /// Admissions per cycle.
    pub open spec fn batch(self) -> int {
        self.samples_per_cycle - 1
    }

    /// The number of measured admissions in `cycles` whole cycles.
    #[verifier::opaque]
    pub open spec fn measured_through(self, cycles: int) -> int {
        cycles * self.batch()
    }

    /// Settings a run can work with: a cycle of at least one draw, and no more
    /// than `MEASURED_LIMIT` measured admissions in all.
    pub open spec fn wf(self) -> bool {
        &&& self.samples_per_cycle >= 1
        &&& self.measured_through(self.max_cycles as int) <= MEASURED_LIMIT
    }

    /// The settings with the given numbers, if a run can work with them.
    pub fn new(warmup_ticks: u32, samples_per_cycle: u32, max_cycles: u32) -> (settings: Option<
        Settings,
    >)
        ensures
            settings is Some <==> (Settings { warmup_ticks, samples_per_cycle, max_cycles }).wf(),
            settings matches Some(s) ==> s == (Settings {
                warmup_ticks,
                samples_per_cycle,
                max_cycles,
            }),
    {
        reveal(Settings::measured_through);
        if samples_per_cycle == 0 {
            return None;
        }
        let batch: u64 = (samples_per_cycle - 1) as u64;
        assert(max_cycles * batch <= u64::MAX) by (nonlinear_arith)
            requires
                max_cycles <= u32::MAX,
                batch <= u32::MAX,
        ;
        if max_cycles as u64 * batch > MEASURED_LIMIT {
            return None;
        }
        Some(Settings { warmup_ticks, samples_per_cycle, max_cycles })
    }

    /// The usual settings: one cycle's worth of warm-up, cycles of 1024 draws,
    /// and at most 100 001 cycles.
    pub fn standard() -> (settings: Settings)
        ensures
            settings == (Settings {
                warmup_ticks: 1023,
                samples_per_cycle: 1024,
                max_cycles: 100_001,
            }),
            settings.wf(),
    {
        reveal(Settings::measured_through);
        Settings { warmup_ticks: 1023, samples_per_cycle: 1024, max_cycles: 100_001 }
    }
}

/// Why a run broke off.
#[derive(Clone, Copy, Debug, PartialEq, Eq, Structural)]
pub enum SimulationError {
    /// At step `tick` of the clock, `index` slots were in use, more than the
    /// histogram has buckets for.
    InternalConsistency { tick: u64, index: u64 },
}

/// What a run has measured so far.
pub struct Measurement {
    /// For each number of slots, at how many measured ticks it was in use.
    pub dcsd_observed: Vec<u64>,
    /// The sum, over the measured ticks, of the slots in use beyond the fixed
    /// size.
    pub total_overalloc: u128,
    /// The number of measured ticks.
    pub trace_len: u64,
}

impl Measurement {
    /// The invariant of a measurement: each measured tick is counted in one
    /// bucket, and none added more than 64 bits of excess.
    pub open spec fn wf(&self) -> bool {
        &&& total(self.dcsd_observed@) == self.trace_len
        &&& self.total_overalloc <= self.trace_len * u64::MAX
    }

    /// A measurement of nothing yet, with buckets for 0 to `length` slots.
    pub fn new(length: usize) -> (fresh: Measurement)
        requires
            length < usize::MAX,
        ensures
            fresh.dcsd_observed@ == Seq::new((length + 1) as nat, |i: int| 0u64),
            fresh.total_overalloc == 0,
            fresh.trace_len == 0,
            fresh.wf(),
    {
        let mut dcsd_observed: Vec<u64> = Vec::new();
        while dcsd_observed.len() <= length
            invariant
                length < usize::MAX,
                dcsd_observed.len() <= length + 1,
                dcsd_observed@ == Seq::new(dcsd_observed.len() as nat, |i: int| 0u64),
                total(dcsd_observed@) == 0,
            decreases length + 1 - dcsd_observed.len(),
        {
            let ghost before = dcsd_observed@;
            dcsd_observed.push(0);
            assert(dcsd_observed@.drop_last() =~= before);
            assert(dcsd_observed@ =~= Seq::new(dcsd_observed.len() as nat, |i: int| 0u64));
        }
        Measurement { dcsd_observed, total_overalloc: 0, trace_len: 0 }
    }

    /// Counts one tick at which the tracker `cache` has just taken a tenancy in:
    /// the bucket of the slots now in use goes up by 1, and so does the number
    /// of measured ticks; the excess over `cache_size` is added up. Where there
    /// is no such bucket nothing is counted, and the error names the step and
    /// the number of slots.
    pub fn record(&mut self, cache: &Simulator, cache_size: u64) -> (counted: Result<
        (),
        SimulationError,
    >)
        requires
            old(self).wf(),
            old(self).trace_len < u64::MAX,
        ensures
            match counted {
                Ok(()) => {
                    &&& 0 <= cache@.size < old(self).dcsd_observed.len()
                    &&& final(self).dcsd_observed@ == old(self).dcsd_observed@.update(
                        cache@.size,
                        (old(self).dcsd_observed[cache@.size] + 1) as u64,
                    )
                    &&& final(self).trace_len == old(self).trace_len + 1
                    &&& final(self).total_overalloc == old(self).total_overalloc + excess(
                        cache@.size,
                        cache_size,
                    )
                    &&& final(self).wf()
                },
                Err(reason) => {
                    &&& cache@.size >= old(self).dcsd_observed.len()
                    &&& reason == (SimulationError::InternalConsistency {
                        tick: cache@.step as u64,
                        index: cache@.size as u64,
                    })
                    &&& *final(self) == *old(self)
                },
            },
    {
        let size: u64 = cache._get_size();
        if size >= self.dcsd_observed.len() as u64 {
            return Err(
                SimulationError::InternalConsistency { tick: cache.get_step(), index: size },
            );
        }
        let bucket: usize = size as usize;
        let seen: u64 = self.dcsd_observed[bucket];
        proof {
            lemma_count_within_total(self.dcsd_observed@, bucket as int);
            lemma_total_of_raised(self.dcsd_observed@, bucket as int);
            assert(self.trace_len * u64::MAX + u64::MAX == (self.trace_len + 1) * u64::MAX)
                by (nonlinear_arith);
            assert((self.trace_len + 1) * u64::MAX <= u128::MAX) by (nonlinear_arith)
                requires
                    self.trace_len + 1 <= u64::MAX,
            ;
        }
        self.dcsd_observed.set(bucket, seen + 1);
        self.total_overalloc = self.total_overalloc + cache.get_excess(cache_size) as u128;
        self.trace_len = self.trace_len + 1;
        Ok(())
    }
}

/// The slots in use after the admissions `draws`.
pub open spec fn occupancy(draws: Seq<u64>) -> int {
    Occupancy::after(draws).size
}

/// At how many of the ticks after the first `warmup`, `level` slots were in
/// use.
pub open spec fn tally_at(draws: Seq<u64>, warmup: nat, level: int) -> nat
    decreases draws.len(),
{
    if draws.len() <= warmup {
        0
    } else {
        let earlier = tally_at(draws.drop_last(), warmup, level);
        if occupancy(draws) == level {
            earlier + 1
        } else {
            earlier
        }
    }
}

/// The histogram of the run `draws`: bucket `i` counts the ticks after the
/// first `warmup` at which `i` slots were in use.
pub open spec fn tally(draws: Seq<u64>, warmup: nat, buckets: nat) -> Seq<u64> {
    Seq::new(buckets, |i: int| tally_at(draws, warmup, i) as u64)
}

/// Whether at every tick after the first `warmup` the slots in use had a
/// bucket.
pub open spec fn within(draws: Seq<u64>, warmup: nat, buckets: nat) -> bool {
    forall|n: int| warmup < n <= draws.len() ==> 0 <= occupancy(#[trigger] draws.take(n)) < buckets
}

/// Whether every draw is a value of the table with a weight that is not zero.
pub open spec fn drawn_from(draws: Seq<u64>, values: Seq<u64>, weights: Seq<i64>) -> bool {
    forall|i: int| 0 <= i < draws.len() ==> yields(values, weights, #[trigger] draws[i])
}

/// Whether a histogram with buckets for 0 to `length` slots has a bucket for
/// whatever a run on the table may bring: there is a bucket for one slot, and
/// no value that the table can give lasts longer than `length` ticks.
pub open spec fn covers(values: Seq<u64>, weights: Seq<i64>, length: nat) -> bool {
    &&& length >= 1
    &&& forall|i: int|
        0 <= i < values.len() && weights[i] > 0 ==> (#[trigger] values[i]) <= length
}

/// On a table that `length` covers, a run never has more than `length` slots in
/// use.
pub proof fn lemma_covered_run_fits(
    draws: Seq<u64>,
    values: Seq<u64>,
    weights: Seq<i64>,
    length: nat,
)
    requires
        drawn_from(draws, values, weights),
        covers(values, weights, length),
    ensures
        occupancy(draws) <= length,
{
    assert forall|i: int| 0 <= i < draws.len() implies draws[i] <= length by {
        let j = choose|j: int| 0 <= j < values.len() && values[j] == draws[i] && weights[j] > 0;
        assert(values[j] <= length);
    }
    lemma_size_within_longest(draws, length as int);
}

/// The number of ticks up to the end of cycle `cycles`, warm-up included.
pub open spec fn ticks_through(settings: Settings, cycles: int) -> int {
    settings.warmup_ticks + settings.measured_through(cycles)
}

/// The histogram as it stood at the end of cycle `cycles`.
pub open spec fn snapshot(draws: Seq<u64>, settings: Settings, buckets: nat, cycles: int) -> Seq<
    u64,
> {
    tally(draws.take(ticks_through(settings, cycles)), settings.warmup_ticks as nat, buckets)
}

/// Whether the histogram moved by less than `delta` over cycle `cycle`.
pub open spec fn settled(
    draws: Seq<u64>,
    settings: Settings,
    delta: Threshold,
    buckets: nat,
    cycle: int,
) -> bool {
    closer_than(
        snapshot(draws, settings, buckets, cycle - 1),
        snapshot(draws, settings, buckets, cycle),
        delta,
    )
}

/// Whether the histogram moved by `delta` or more over each of the first
/// `cycles` cycles.
pub open spec fn unsettled_through(
    draws: Seq<u64>,
    settings: Settings,
    delta: Threshold,
    buckets: nat,
    cycles: int,
) -> bool {
    forall|c: int| 1 <= c <= cycles ==> !#[trigger] settled(draws, settings, delta, buckets, c)
}

/// Whether `draws` is a whole run of `cycles` cycles on a table with the given
/// values and weights: every draw is one the table can give, every measured
/// tick had its bucket, no earlier cycle settled, and the last one either
/// settled or was the last one allowed.
pub open spec fn completes(
    draws: Seq<u64>,
    cycles: int,
    values: Seq<u64>,
    weights: Seq<i64>,
    settings: Settings,
    delta: Threshold,
    buckets: nat,
) -> bool {
    &&& drawn_from(draws, values, weights)
    &&& 0 <= cycles <= settings.max_cycles
    &&& draws.len() == ticks_through(settings, cycles)
    &&& within(draws, settings.warmup_ticks as nat, buckets)
    &&& unsettled_through(draws, settings, delta, buckets, cycles - 1)
    &&& (cycles == settings.max_cycles || (cycles >= 1 && settled(
        draws,
        settings,
        delta,
        buckets,
        cycles,
    )))
}

/// The error of a run that broke off after the admissions `draws`: it names the
/// step of the clock and the slots then in use.
pub open spec fn failure_of(draws: Seq<u64>) -> SimulationError {
    SimulationError::InternalConsistency {
        tick: draws.len() as u64,
        index: occupancy(draws) as u64,
    }
}

/// Whether `draws` is a run that broke off in the cycle after `cycles` whole
/// ones, on a table with the given values and weights: every draw is one the
/// table can give, the last tick, a measured one, left more slots in use than
/// there are buckets, and until then the run had gone on as it should.
pub open spec fn breaks_off(
    draws: Seq<u64>,
    cycles: int,
    values: Seq<u64>,
    weights: Seq<i64>,
    settings: Settings,
    delta: Threshold,
    buckets: nat,
) -> bool {
    &&& drawn_from(draws, values, weights)
    &&& 0 <= cycles < settings.max_cycles
    &&& ticks_through(settings, cycles) < draws.len() <= ticks_through(settings, cycles + 1)
    &&& within(draws.drop_last(), settings.warmup_ticks as nat, buckets)
    &&& unsettled_through(draws, settings, delta, buckets, cycles)
    &&& occupancy(draws) >= buckets
}

/// What a run may return for a table with the given values and weights: the
/// histogram of some whole run of draws from the table, which counts each
/// measured tick once, or the error of some run of such draws that broke off.
pub open spec fn outcome_of_run(
    outcome: Result<Vec<u64>, SimulationError>,
    values: Seq<u64>,
    weights: Seq<i64>,
    settings: Settings,
    delta: Threshold,
    buckets: nat,
) -> bool {
    match outcome {
        Ok(histogram) => exists|draws: Seq<u64>, cycles: int| #[trigger]
            completes(draws, cycles, values, weights, settings, delta, buckets) && histogram@
                == tally(draws, settings.warmup_ticks as nat, buckets) && total(histogram@)
                == settings.measured_through(cycles),
        Err(reason) => exists|draws: Seq<u64>, cycles: int| #[trigger]
            breaks_off(draws, cycles, values, weights, settings, delta, buckets) && reason
                == failure_of(draws),
    }
}

/// Each cycle measures one batch of admissions.
pub proof fn lemma_ticks_step(settings: Settings, cycles: int)
    ensures
        settings.measured_through(0) == 0,
        settings.measured_through(cycles + 1) == settings.measured_through(cycles)
            + settings.batch(),
{
    reveal(Settings::measured_through);
    assert((cycles + 1) * settings.batch() == cycles * settings.batch() + settings.batch())
        by (nonlinear_arith);
}

/// More cycles measure no fewer admissions.
pub proof fn lemma_ticks_grow(settings: Settings, fewer: int, more: int)
    requires
        settings.batch() >= 0,
        fewer <= more,
    ensures
        settings.measured_through(fewer) <= settings.measured_through(more),
{
    reveal(Settings::measured_through);
    assert(fewer * settings.batch() <= more * settings.batch()) by (nonlinear_arith)
        requires
            settings.batch() >= 0,
            fewer <= more,
    ;
}

proof fn lemma_take_of_push(draws: Seq<u64>, next: u64, n: int)
    requires
        0 <= n <= draws.len(),
    ensures
        draws.push(next).take(n) == draws.take(n),
{
    assert(draws.push(next).take(n) =~= draws.take(n));
}

/// No bucket counts more ticks than were measured.
pub proof fn lemma_tally_at_bound(draws: Seq<u64>, warmup: nat, level: int)
    ensures
        draws.len() <= warmup ==> tally_at(draws, warmup, level) == 0,
        draws.len() > warmup ==> tally_at(draws, warmup, level) <= draws.len() - warmup,
    decreases draws.len(),
{
    if draws.len() > warmup {
        lemma_tally_at_bound(draws.drop_last(), warmup, level);
    }
}

/// One more measured tick raises the bucket of the slots then in use by 1 and
/// leaves the others.
pub proof fn lemma_tally_push(draws: Seq<u64>, next: u64, warmup: nat, buckets: nat)
    requires
        warmup <= draws.len() < u64::MAX,
        0 <= occupancy(draws.push(next)) < buckets,
    ensures
        tally(draws.push(next), warmup, buckets) == tally(draws, warmup, buckets).update(
            occupancy(draws.push(next)),
            (tally(draws, warmup, buckets)[occupancy(draws.push(next))] + 1) as u64,
        ),
{
    let longer = draws.push(next);
    let level = occupancy(longer);
    assert(longer.drop_last() =~= draws);
    assert forall|i: int| 0 <= i < buckets implies tally_at(longer, warmup, i) == if i == level {
        tally_at(draws, warmup, i) + 1
    } else {
        tally_at(draws, warmup, i)
    } && tally_at(longer, warmup, i) <= u64::MAX by {
        lemma_tally_at_bound(longer, warmup, i);
    }
    assert(tally(longer, warmup, buckets) =~= tally(draws, warmup, buckets).update(
        level,
        (tally(draws, warmup, buckets)[level] + 1) as u64,
    ));
}

proof fn lemma_within_extends(draws: Seq<u64>, next: u64, warmup: nat, buckets: nat)
    requires
        within(draws, warmup, buckets),
        draws.len() >= warmup ==> 0 <= occupancy(draws.push(next)) < buckets,
    ensures
        within(draws.push(next), warmup, buckets),
{
    let longer = draws.push(next);
    assert forall|n: int| warmup < n <= longer.len() implies 0 <= occupancy(
        #[trigger] longer.take(n),
    ) < buckets by {
        if n <= draws.len() {
            lemma_take_of_push(draws, next, n);
            assert(0 <= occupancy(draws.take(n)) < buckets);
        } else {
            assert(longer.take(n) =~= longer);
        }
    }
}

proof fn lemma_unsettled_stable(
    draws: Seq<u64>,
    next: u64,
    settings: Settings,
    delta: Threshold,
    buckets: nat,
    cycles: int,
)
    requires
        settings.batch() >= 0,
        ticks_through(settings, cycles) <= draws.len(),
        unsettled_through(draws, settings, delta, buckets, cycles),
    ensures
        unsettled_through(draws.push(next), settings, delta, buckets, cycles),
{
    assert forall|c: int| 1 <= c <= cycles implies !#[trigger] settled(
        draws.push(next),
        settings,
        delta,
        buckets,
        c,
    ) by {
        lemma_ticks_grow(settings, c, cycles);
        lemma_ticks_grow(settings, c - 1, c);
        lemma_ticks_grow(settings, 0, c - 1);
        lemma_ticks_step(settings, 0);
        lemma_take_of_push(draws, next, ticks_through(settings, c));
        lemma_take_of_push(draws, next, ticks_through(settings, c - 1));
        assert(!settled(draws, settings, delta, buckets, c));
    }
}

/// Two histograms of at most `MEASURED_LIMIT` ticks each can be compared with
/// any threshold in 128 bits.
pub proof fn lemma_measured_decidable(a: Seq<u64>, b: Seq<u64>, delta: Threshold)
    requires
        a.len() == b.len(),
        total(a) <= MEASURED_LIMIT,
        total(b) <= MEASURED_LIMIT,
    ensures
        decidable(a, b, delta),
{
    lemma_distance_bound(a, b);
    let sa = safe_total(a) as int;
    let sb = safe_total(b) as int;
    let den = distance_den(a, b) as int;
    let num = distance_num(a, b) as int;
    assert(0 <= sa * sb <= 0x7fff_ffff * 0x7fff_ffff) by (nonlinear_arith)
        requires
            0 <= sa <= 0x7fff_ffff,
            0 <= sb <= 0x7fff_ffff,
    ;
    assert(num * delta.den <= 0x8000_0000_0000_0000 * 0xffff_ffff_ffff_ffff) by (nonlinear_arith)
        requires
            0 <= num <= 0x8000_0000_0000_0000,
            0 <= delta.den <= 0xffff_ffff_ffff_ffff,
    ;
    assert(delta.num * den <= 0xffff_ffff_ffff_ffff * 0x4000_0000_0000_0000) by (nonlinear_arith)
        requires
            0 <= den <= 0x4000_0000_0000_0000,
            0 <= delta.num <= 0xffff_ffff_ffff_ffff,
    ;
}

/// Runs the simulation on draws from `ten_dist`: after `settings.warmup_ticks`
/// admissions that are not counted, cycle after cycle of admissions, each
/// counted in the bucket of the slots then in use. The run ends after the
/// first cycle over which the histogram moved by less than `delta`, or after
/// `settings.max_cycles` cycles, and returns the histogram, of `length + 1`
/// buckets. It breaks off with an error at the first measured tick that leaves
/// more than `length` slots in use.
pub fn simulate(
    ten_dist: Sampler,
    cache_size: u64,
    delta: Threshold,
    length: usize,
    settings: Settings,
) -> (outcome: Result<Vec<u64>, SimulationError>)
    requires
        ten_dist.wf(),
        settings.wf(),
        length < usize::MAX,
    ensures
        outcome_of_run(
            outcome,
            ten_dist.values(),
            ten_dist.weights(),
            settings,
            delta,
            (length + 1) as nat,
        ),
        outcome matches Ok(histogram) ==> histogram.len() == length + 1,
        covers(ten_dist.values(), ten_dist.weights(), length as nat) ==> outcome is Ok,
{
    let ghost values = ten_dist.values();
    let ghost weights = ten_dist.weights();
    let ghost buckets = (length + 1) as nat;
    let ghost warmup = settings.warmup_ticks as nat;
    let mut sampler = ten_dist;
    let mut cache = Simulator::init();
    let ghost mut draws: Seq<u64> = Seq::empty();
    let mut time: u32 = 0;
    while time < settings.warmup_ticks
        invariant
            time <= settings.warmup_ticks,
            sampler.wf(),
            sampler.values() == values,
            sampler.weights() == weights,
            cache.wf(),
            cache@ == Occupancy::after(draws),
            draws.len() == time,
            drawn_from(draws, values, weights),
        decreases settings.warmup_ticks - time,
    {
        let tenancy: u64 = sampler.sample();
        proof {
            lemma_size_counts_unexpired(draws);
        }
        cache.add_tenancy(tenancy);
        proof {
            let longer = draws.push(tenancy);
            assert(longer.drop_last() =~= draws);
            draws = longer;
        }
        time = time + 1;
    }
    let mut gauge = Measurement::new(length);
    let mut prev_output: Vec<u64> = copy_vector(&gauge.dcsd_observed);
    let mut cycles: u32 = 0;
    proof {
        assert forall|i: int| 0 <= i < buckets implies tally_at(draws, warmup, i) == 0 by {
            lemma_tally_at_bound(draws, warmup, i);
        }
        assert(gauge.dcsd_observed@ =~= tally(draws, warmup, buckets));
        lemma_ticks_step(settings, 0);
    }
    loop
        invariant
            settings.wf(),
                values == ten_dist.values(),
            weights == ten_dist.weights(),
            warmup == settings.warmup_ticks,
            buckets == length + 1,
            cycles <= settings.max_cycles,
            sampler.wf(),
            sampler.values() == values,
            sampler.weights() == weights,
            cache.wf(),
            cache@ == Occupancy::after(draws),
            draws.len() == ticks_through(settings, cycles as int),
            drawn_from(draws, values, weights),
            within(draws, warmup, buckets),
            gauge.wf(),
            gauge.trace_len == settings.measured_through(cycles as int),
            gauge.dcsd_observed@ == tally(draws, warmup, buckets),
            prev_output@ == gauge.dcsd_observed@,
            unsettled_through(draws, settings, delta, buckets, cycles as int),
        decreases settings.max_cycles - cycles,
    {
        if cycles >= settings.max_cycles {
            proof {
                assert(completes(draws, cycles as int, values, weights, settings, delta, buckets));
            }
            return Ok(gauge.dcsd_observed);
        }
        let ghost start = draws;
        let mut issued: u32 = 0;
        proof {
            lemma_ticks_grow(settings, 0, cycles as int);
            lemma_ticks_grow(settings, cycles as int + 1, settings.max_cycles as int);
            lemma_ticks_step(settings, cycles as int);
            assert(draws.take(draws.len() as int) =~= draws);
        }
        while issued < settings.samples_per_cycle - 1
            invariant
                settings.wf(),
                        values == ten_dist.values(),
                weights == ten_dist.weights(),
                warmup == settings.warmup_ticks,
                buckets == length + 1,
                cycles < settings.max_cycles,
                settings.measured_through(cycles as int) + settings.batch() <= MEASURED_LIMIT,
                0 <= settings.measured_through(cycles as int),
                issued <= settings.batch(),
                sampler.wf(),
                sampler.values() == values,
                sampler.weights() == weights,
                cache.wf(),
                cache@ == Occupancy::after(draws),
                draws.len() == ticks_through(settings, cycles as int) + issued,
                start == draws.take(ticks_through(settings, cycles as int)),
                drawn_from(draws, values, weights),
                within(draws, warmup, buckets),
                gauge.wf(),
                gauge.trace_len == settings.measured_through(cycles as int) + issued,
                gauge.dcsd_observed@ == tally(draws, warmup, buckets),
                prev_output@ == tally(start, warmup, buckets),
                total(prev_output@) == settings.measured_through(cycles as int),
                unsettled_through(draws, settings, delta, buckets, cycles as int),
            decreases settings.batch() - issued,
        {
            let tenancy: u64 = sampler.sample();
            proof {
                lemma_size_counts_unexpired(draws);
            }
            cache.add_tenancy(tenancy);
            let ghost longer = draws.push(tenancy);
            proof {
                assert(longer.drop_last() =~= draws);
                lemma_size_counts_unexpired(longer);
                lemma_unsettled_stable(draws, tenancy, settings, delta, buckets, cycles as int);
                lemma_take_of_push(draws, tenancy, ticks_through(settings, cycles as int));
                assert forall|i: int| 0 <= i < longer.len() implies yields(
                    values,
                    weights,
                    #[trigger] longer[i],
                ) by {
                    if i < draws.len() {
                        assert(longer[i] == draws[i]);
                    }
                }
            }
            match gauge.record(&cache, cache_size) {
                Ok(()) => {},
                Err(reason) => {
                    proof {
                        lemma_ticks_step(settings, cycles as int);
                        assert(breaks_off(
                            longer,
                            cycles as int,
                            values,
                            weights,
                            settings,
                            delta,
                            buckets,
                        ));
                        if covers(values, weights, length as nat) {
                            lemma_covered_run_fits(longer, values, weights, length as nat);
                        }
                    }
                    return Err(reason);
                },
            }
            proof {
                lemma_tally_push(draws, tenancy, warmup, buckets);
                lemma_within_extends(draws, tenancy, warmup, buckets);
                draws = longer;
            }
            issued = issued + 1;
        }
        cycles = cycles + 1;
        proof {
            lemma_ticks_step(settings, cycles as int - 1);
            assert(draws.take(draws.len() as int) =~= draws);
            lemma_measured_decidable(prev_output@, gauge.dcsd_observed@, delta);
        }
        let verdict: Option<bool> = has_settled(&prev_output, &gauge.dcsd_observed, &delta);
        if let Some(true) = verdict {
            proof {
                assert(completes(draws, cycles as int, values, weights, settings, delta, buckets));
            }
            return Ok(gauge.dcsd_observed);
        }
        prev_output = copy_vector(&gauge.dcsd_observed);
    }
}

/// Runs the simulation with the usual settings, see `simulate` and
/// `Settings::standard`.
pub fn caching(ten_dist: Sampler, cache_size: u64, delta: Threshold, length: usize) -> (outcome:
    Result<Vec<u64>, SimulationError>)
    requires
        ten_dist.wf(),
        length < usize::MAX,
    ensures
        outcome_of_run(
            outcome,
            ten_dist.values(),
            ten_dist.weights(),
            Settings { warmup_ticks: 1023, samples_per_cycle: 1024, max_cycles: 100_001 },
            delta,
            (length + 1) as nat,
        ),
        outcome matches Ok(histogram) ==> histogram.len() == length + 1,
        covers(ten_dist.values(), ten_dist.weights(), length as nat) ==> outcome is Ok,
{
    simulate(ten_dist, cache_size, delta, length, Settings::standard())
}

} // verus!
