//! The occupancy tracker: a clock, the number of slots in use, and a sparse
//! schedule of the releases that future steps of the clock will bring.

use std::collections::HashMap;
use vstd::prelude::*;

verus! {

broadcast use vstd::std_specs::hash::group_hash_axioms;

/// A bound no scheduled step reaches: a clock below `2^64` plus a duration
/// below `2^64`.
pub open spec fn horizon() -> nat {
    0x2_0000_0000_0000_0000
}

/// How many releases `schedule` holds for step `at`.
pub open spec fn due(schedule: Map<nat, nat>, at: nat) -> nat {
    if schedule.contains_key(at) {
        schedule[at]
    } else {
        0
    }
}

/// How many releases `schedule` holds for step `from` and every later step.
pub open spec fn pending(schedule: Map<nat, nat>, from: nat) -> nat
    decreases horizon() - from,
{
    if from >= horizon() {
        0
    } else {
        due(schedule, from) + pending(schedule, (from + 1) as nat)
    }
}

/// The step at which a tenancy admitted at step `now` is released. A tenancy of
/// duration 0 lasts until the next step, like one of duration 1.
pub open spec fn release_step(now: nat, duration: u64) -> nat {
    if duration == 0 {
        now + 1
    } else {
        now + duration as nat
    }
}

/// By how much `size` slots in use exceed the fixed number `fixed`.
pub open spec fn excess(size: int, fixed: u64) -> int {
    if size <= fixed {
        0
    } else {
        size - fixed
    }
}

/// The tracker as a mathematical value.
pub struct Occupancy {
    /// Slots in use.
    pub size: int,
    /// The clock.
    pub step: nat,
    /// For each future step with releases due, their number.
    pub schedule: Map<nat, nat>,
}

impl Occupancy {
    /// The tracker before any tick: nothing in use, nothing scheduled.
    pub open spec fn empty() -> Occupancy {
        Occupancy { size: 0, step: 0, schedule: Map::empty() }
    }

    /// One tick of the clock: the releases due at the new step are applied and
    /// their entry leaves the schedule.
    pub open spec fn advance(self) -> Occupancy {
        let now = (self.step + 1) as nat;
        Occupancy {
            size: self.size - due(self.schedule, now),
            step: now,
            schedule: self.schedule.remove(now),
        }
    }

    /// One tick of the clock, then one more slot in use and one more release
    /// scheduled for the step at which the new tenancy ends.
    pub open spec fn with_tenancy(self, duration: u64) -> Occupancy {
        let ticked = self.advance();
        let end = release_step(ticked.step, duration);
        Occupancy {
            size: ticked.size + 1,
            step: ticked.step,
            schedule: ticked.schedule.insert(end, due(ticked.schedule, end) + 1),
        }
    }

    /// The tracker after admitting `durations` one by one, starting empty.
    pub open spec fn after(durations: Seq<u64>) -> Occupancy
        decreases durations.len(),
    {
        if durations.len() == 0 {
            Occupancy::empty()
        } else {
            Occupancy::after(durations.drop_last()).with_tenancy(durations.last())
        }
    }

    /// The invariant of the tracker: every scheduled step lies in the future
    /// and has at least one release due, and the slots in use are exactly the
    /// releases still scheduled. No more slots are in use than ticks have passed.
    pub open spec fn wf(self) -> bool {
        &&& self.step <= u64::MAX
        &&& forall|k: nat| #[trigger]
            self.schedule.contains_key(k) ==> self.step < k < horizon() && self.schedule[k] >= 1
        &&& self.size == pending(self.schedule, (self.step + 1) as nat)
        &&& self.size <= self.step
    }
}

/// Schedules that agree from `from` on have the same releases pending from
/// `from` on.
pub proof fn lemma_pending_agrees(schedule: Map<nat, nat>, other: Map<nat, nat>, from: nat)
    requires
        forall|k: nat| k >= from ==> due(schedule, k) == due(other, k),
    ensures
        pending(schedule, from) == pending(other, from),
    decreases horizon() - from,
{
    if from < horizon() {
        lemma_pending_agrees(schedule, other, (from + 1) as nat);
    }
}

/// Schedules that agree from `from` on, but for step `at`, differ in what is
/// pending from `from` on by what they differ in at `at`.
pub proof fn lemma_pending_differs_at(
    schedule: Map<nat, nat>,
    other: Map<nat, nat>,
    at: nat,
    from: nat,
)
    requires
        from <= at < horizon(),
        forall|k: nat| k >= from && k != at ==> due(schedule, k) == due(other, k),
    ensures
        pending(other, from) - due(other, at) == pending(schedule, from) - due(schedule, at),
        due(schedule, at) <= pending(schedule, from),
    decreases at - from,
{
    if from == at {
        lemma_pending_agrees(schedule, other, (from + 1) as nat);
    } else {
        lemma_pending_differs_at(schedule, other, at, (from + 1) as nat);
    }
}

/// A tick keeps the invariant, and releases no more slots than are in use.
pub proof fn lemma_advance_wf(o: Occupancy)
    requires
        o.wf(),
        o.step < u64::MAX,
    ensures
        o.advance().wf(),
        0 <= o.advance().size <= o.size,
        o.advance().size < o.advance().step,
{
    let now = (o.step + 1) as nat;
    lemma_pending_agrees(o.schedule, o.advance().schedule, (now + 1) as nat);
}

/// An admission keeps the invariant.
pub proof fn lemma_with_tenancy_wf(o: Occupancy, duration: u64)
    requires
        o.wf(),
        o.step < u64::MAX,
    ensures
        o.with_tenancy(duration).wf(),
        o.with_tenancy(duration).size == o.advance().size + 1,
        due(o.advance().schedule, release_step(o.advance().step, duration)) < o.advance().step,
{
    lemma_advance_wf(o);
    let ticked = o.advance();
    let end = release_step(ticked.step, duration);
    let from = (ticked.step + 1) as nat;
    lemma_pending_differs_at(ticked.schedule, o.with_tenancy(duration).schedule, end, from);
}

/// The step at which the tenancy admitted as number `index` (counting from 0)
/// is released: it is admitted at step `index + 1`.
pub open spec fn release_of(index: int, duration: u64) -> int {
    release_step((index + 1) as nat, duration) as int
}

/// How many of the admissions `durations` are released after step `now`.
pub open spec fn unexpired(durations: Seq<u64>, now: int) -> nat
    decreases durations.len(),
{
    if durations.len() == 0 {
        0
    } else {
        let rest = unexpired(durations.drop_last(), now);
        if release_of(durations.len() - 1, durations.last()) > now {
            rest + 1
        } else {
            rest
        }
    }
}

/// How many of the admissions `durations` are released at step `at`.
pub open spec fn expiring(durations: Seq<u64>, at: int) -> nat
    decreases durations.len(),
{
    if durations.len() == 0 {
        0
    } else {
        let rest = expiring(durations.drop_last(), at);
        if release_of(durations.len() - 1, durations.last()) == at {
            rest + 1
        } else {
            rest
        }
    }
}

/// How many of the admissions `durations` have an admission step plus duration
/// that exceeds `now`.
pub open spec fn outlasting(durations: Seq<u64>, now: int) -> nat
    decreases durations.len(),
{
    if durations.len() == 0 {
        0
    } else {
        let rest = outlasting(durations.drop_last(), now);
        if durations.len() + durations.last() > now {
            rest + 1
        } else {
            rest
        }
    }
}

proof fn lemma_unexpired_step(durations: Seq<u64>, now: int)
    ensures
        unexpired(durations, now) == unexpired(durations, now + 1) + expiring(durations, now + 1),
    decreases durations.len(),
{
    if durations.len() > 0 {
        lemma_unexpired_step(durations.drop_last(), now);
    }
}

proof fn lemma_after_shape(durations: Seq<u64>)
    ensures
        Occupancy::after(durations).step == durations.len(),
        Occupancy::after(durations).size == unexpired(durations, durations.len() as int),
        forall|k: nat|
            k > durations.len() ==> due(Occupancy::after(durations).schedule, k) == expiring(
                durations,
                k as int,
            ),
    decreases durations.len(),
{
    if durations.len() > 0 {
        let earlier = durations.drop_last();
        lemma_after_shape(earlier);
        lemma_unexpired_step(earlier, earlier.len() as int);
        let ticked = Occupancy::after(earlier).advance();
        let end = release_step(ticked.step, durations.last());
        assert forall|k: nat| k > durations.len() implies due(
            Occupancy::after(durations).schedule,
            k,
        ) == expiring(durations, k as int) by {
            assert(due(ticked.schedule, k) == expiring(earlier, k as int));
        }
    }
}

/// After any sequence of admissions the slots in use are exactly the tenancies
/// not yet released, and so never negative.
pub proof fn lemma_size_counts_unexpired(durations: Seq<u64>)
    ensures
        Occupancy::after(durations).size == unexpired(durations, durations.len() as int),
        Occupancy::after(durations).size >= 0,
        Occupancy::after(durations).step == durations.len(),
{
    lemma_after_shape(durations);
}

proof fn lemma_unexpired_bound(durations: Seq<u64>, now: int, longest: int)
    requires
        longest >= 1,
        forall|i: int| 0 <= i < durations.len() ==> durations[i] <= longest,
    ensures
        durations.len() + longest > now ==> unexpired(durations, now) <= durations.len() + longest
            - now,
        durations.len() + longest <= now ==> unexpired(durations, now) == 0,
    decreases durations.len(),
{
    if durations.len() > 0 {
        let front = durations.drop_last();
        assert forall|i: int| 0 <= i < front.len() implies front[i] <= longest by {
            assert(front[i] == durations[i]);
        }
        lemma_unexpired_bound(front, now, longest);
    }
}

/// Where no tenancy lasts longer than `longest` ticks, no more than `longest`
/// slots are ever in use.
pub proof fn lemma_size_within_longest(durations: Seq<u64>, longest: int)
    requires
        longest >= 1,
        forall|i: int| 0 <= i < durations.len() ==> durations[i] <= longest,
    ensures
        Occupancy::after(durations).size <= longest,
{
    lemma_after_shape(durations);
    lemma_unexpired_bound(durations, durations.len() as int, longest);
}

/// Where every tenancy lasts one tick, or none, exactly one slot is in use
/// after each admission: the tenancy just taken in.
pub proof fn lemma_unit_tenancies_hold_one_slot(durations: Seq<u64>)
    requires
        durations.len() > 0,
        forall|i: int| 0 <= i < durations.len() ==> durations[i] <= 1,
    ensures
        Occupancy::after(durations).size == 1,
{
    lemma_size_within_longest(durations, 1);
    lemma_after_shape(durations);
}

proof fn lemma_outlasting_earlier(durations: Seq<u64>, now: int)
    requires
        durations.len() < now,
    ensures
        unexpired(durations, now) == outlasting(durations, now),
    decreases durations.len(),
{
    if durations.len() > 0 {
        lemma_outlasting_earlier(durations.drop_last(), now);
    }
}

/// After a sequence of admissions of which the last has a duration other than
/// zero, the slots in use are the admissions whose admission step plus duration
/// exceeds the clock.
pub proof fn lemma_size_counts_outlasting(durations: Seq<u64>)
    requires
        durations.len() > 0 ==> durations.last() != 0,
    ensures
        Occupancy::after(durations).size == outlasting(durations, durations.len() as int),
{
    lemma_after_shape(durations);
    if durations.len() > 0 {
        lemma_outlasting_earlier(durations.drop_last(), durations.len() as int);
    }
}

/// Admitting a tenancy of duration 0 and ticking once more leaves the tracker
/// as two plain ticks would: the tenancy is gone. Where nothing else was due at
/// those two steps, the slots in use are back at their earlier number.
pub proof fn lemma_zero_tenancy_leaves_no_trace(o: Occupancy)
    ensures
        o.with_tenancy(0).advance() == o.advance().advance(),
        due(o.schedule, (o.step + 1) as nat) == 0 && due(o.schedule, (o.step + 2) as nat) == 0
            ==> o.with_tenancy(0).advance().size == o.size,
{
    assert(o.with_tenancy(0).advance().schedule =~= o.advance().advance().schedule);
}

/// The occupancy tracker.
pub struct Simulator {
    size: u64,
    tracker: HashMap<u128, u64>,
    step: u64,
}

/// The schedule a hash map of release counts stands for.
pub open spec fn schedule_of(entries: Map<u128, u64>) -> Map<nat, nat> {
    Map::new(
        |k: nat| k <= u128::MAX && entries.contains_key(k as u128),
        |k: nat| entries[k as u128] as nat,
    )
}

impl View for Simulator {
    type V = Occupancy;

    closed spec fn view(&self) -> Occupancy {
        Occupancy {
            size: self.size as int,
            step: self.step as nat,
            schedule: schedule_of(self.tracker@),
        }
    }
}

impl Simulator {
    /// The invariant of the tracker, see `Occupancy::wf`.
    pub open spec fn wf(&self) -> bool {
        self@.wf()
    }

    /// A tracker with nothing in use, at step 0.
    pub fn init() -> (cache: Simulator)
        ensures
            cache@ == Occupancy::empty(),
            cache.wf(),
    {
        let cache = Simulator { size: 0, tracker: HashMap::new(), step: 0 };
        assert(cache@.schedule =~= Map::empty());
        assert(pending(Map::empty(), 1) == 0) by {
            lemma_pending_zero(1);
        }
        cache
    }

    /// Takes in one tenancy of the given length: the clock ticks, then one more
    /// slot is in use until the tenancy ends, `tenancy` ticks later. A tenancy
    /// of length 0 ends at the next tick, like one of length 1.
    pub fn add_tenancy(&mut self, tenancy: u64)
        requires
            old(self).wf(),
            old(self)@.step < u64::MAX,
        ensures
            final(self)@ == old(self)@.with_tenancy(tenancy),
            final(self).wf(),
    {
        proof {
            lemma_with_tenancy_wf(self@, tenancy);
        }
        self.update();
        self.size = self.size + 1;
        let lasting: u64 = if tenancy == 0 {
            1
        } else {
            tenancy
        };
        let target: u128 = self.step as u128 + lasting as u128;
        let expirations_at_step: u64 = match self.tracker.get(&target) {
            Some(count) => *count,
            None => 0,
        };
        self.tracker.insert(target, expirations_at_step + 1);
        assert(self@.schedule =~= old(self)@.with_tenancy(tenancy).schedule);
    }

    /// One tick of the clock: the tenancies that end at the new step give
    /// their slots back.
    pub fn update(&mut self)
        requires
            old(self).wf(),
            old(self)@.step < u64::MAX,
        ensures
            final(self)@ == old(self)@.advance(),
            final(self).wf(),
    {
        proof {
            lemma_advance_wf(self@);
        }
        self.step = self.step + 1;
        let now: u128 = self.step as u128;
        let released: u64 = match self.tracker.remove(&now) {
            Some(count) => count,
            None => 0,
        };
        self.size = self.size - released;
        assert(self@.schedule =~= old(self)@.advance().schedule);
    }

    /// By how much the slots in use exceed `fixed`: 0 while they do not.
    pub fn get_excess(&self, fixed: u64) -> (over: u64)
        ensures
            over == excess(self@.size, fixed),
            self@.size <= fixed ==> over == 0,
            self@.size > fixed ==> over == self@.size - fixed,
    {
        if self.size <= fixed {
            0
        } else {
            self.size - fixed
        }
    }

    /// The number of slots in use.
    pub fn _get_size(&self) -> (size: u64)
        ensures
            size == self@.size,
    {
        self.size
    }

    /// The clock: how many ticks have passed.
    pub fn get_step(&self) -> (step: u64)
        ensures
            step == self@.step,
    {
        self.step
    }
}

proof fn lemma_pending_zero(from: nat)
    ensures
        pending(Map::empty(), from) == 0,
    decreases horizon() - from,
{
    if from < horizon() {
        lemma_pending_zero((from + 1) as nat);
    }
}

} // verus!
