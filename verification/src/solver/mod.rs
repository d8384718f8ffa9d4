//! The rotation scheduler: carves the period into eligible ranges, groups
//! them into rotations and assigns each rotation's slots to the candidates
//! that the cost factors rank first.

pub mod assign;
pub mod model;
pub mod order;

pub use assign::{assign, candidate_views, pick, picks};
pub use model::{availability, candidate_of, contenders, rotation, scheduled};

use crate::config::Config;
use crate::constraints::{
    all_constraints_wf, apply_constraints, lemma_narrowed, narrowed, tidy, Constraint,
};
use crate::factors::panel::{
    lemma_budget_grows, lemma_initial_budget, lemma_opinions_bounded, state_after_all,
    within_budget,
};
use crate::factors::{all, weighted_sum, Candidate, Factors};
use crate::time::{valid_timestamp, MAX_DURATION};
use crate::timerange::{all_wf, lemma_total_length_bounded, total_length, TimeRange};
use model::{
    lemma_rotation_humans, lemma_schedule_step, lemma_scheduled, lemma_state_after_all_budget,
    lemma_total_length_split,
};
use vstd::prelude::*;
use vstd::slice::{slice_subrange, slice_to_vec};

verus! {

/// One range of the schedule with the person assigned to it, if any.
#[derive(Debug, PartialEq, Eq, Hash)]
pub struct ScheduleSlot {
    pub time: TimeRange,
    pub human: Option<String>,
}

/// A slot as contracts see it: its range and the identifier assigned to it.
pub struct SlotView {
    pub time: TimeRange,
    pub human: Option<Seq<char>>,
}

impl View for ScheduleSlot {
    type V = SlotView;

    open spec fn view(&self) -> SlotView {
        SlotView {
            time: self.time,
            human: match self.human {
                Some(name) => Some(name@),
                None => None,
            },
        }
    }
}

impl Clone for ScheduleSlot {
    fn clone(&self) -> (copy: Self)
        ensures
            copy@ == self@,
    {
        ScheduleSlot {
            time: self.time,
            human: match &self.human {
                Some(name) => Some(name.clone()),
                None => None,
            },
        }
    }
}

/// The slots of a schedule as contracts see them.
pub open spec fn slot_views(slots: Seq<ScheduleSlot>) -> Seq<SlotView> {
    Seq::new(slots.len(), |i: int| slots[i]@)
}

/// The ranges of a sequence of slots.
pub open spec fn slot_times(slots: Seq<SlotView>) -> Seq<TimeRange> {
    Seq::new(slots.len(), |i: int| slots[i].time)
}

/// Whether `range` is one of `ranges`.
pub fn contains_range(ranges: &Vec<TimeRange>, range: TimeRange) -> (found: bool)
    ensures
        found == ranges@.contains(range),
{
    let mut i: usize = 0;
    while i < ranges.len()
        invariant
            i <= ranges.len(),
            forall|k: int| 0 <= k < i ==> ranges@[k] != range,
        decreases ranges.len() - i,
    {
        if ranges[i] == range {
            return true;
        }
        i = i + 1;
    }
    false
}

/// For each of `slots`, whether somebody bound by `constraints` can take it.
pub fn possible_coverage(constraints: &Vec<Constraint>, slots: &[TimeRange]) -> (available: Vec<
    bool,
>)
    requires
        all_constraints_wf(constraints@),
        all_wf(slots@),
    ensures
        available@ == availability(constraints@, slots@),
{
    let left = apply_constraints(constraints, slice_to_vec(slots));
    let mut available: Vec<bool> = Vec::new();
    let mut i: usize = 0;
    while i < slots.len()
        invariant
            i <= slots.len(),
            left@ == narrowed(constraints@, slots@),
            available@.len() == i,
            forall|k: int| 0 <= k < i ==> available@[k] == left@.contains(slots@[k]),
        decreases slots.len() - i,
    {
        available.push(contains_range(&left, slots[i]));
        i = i + 1;
    }
    assert(available@ =~= availability(constraints@, slots@));
    available
}

/// The most of their budget that the factors may have used for a run to be
/// scheduled: it leaves room for the longest prior workload on top.
pub const MAX_BUDGET: i64 = 9_214_148_664_817_921_032;

/// Lets the factors take in finalized slots one after the other.
fn take_in(factors: &mut Factors, slots: &Vec<ScheduleSlot>, Ghost(budget): Ghost<int>)
    requires
        old(factors).wf(),
        within_budget(old(factors).state(), budget),
        all_wf(slot_times(slot_views(slots@))),
        budget + total_length(slot_times(slot_views(slots@))) <= MAX_BUDGET,
    ensures
        final(factors).wf(),
        final(factors).state() == state_after_all(old(factors).state(), slot_views(slots@)),
        within_budget(
            final(factors).state(),
            budget + total_length(slot_times(slot_views(slots@))),
        ),
{
    let ghost views = slot_views(slots@);
    let ghost times = slot_times(views);
    let ghost before = factors.state();
    let mut j: usize = 0;
    while j < slots.len()
        invariant
            j <= slots.len(),
            views == slot_views(slots@),
            times == slot_times(views),
            all_wf(times),
            factors.wf(),
            within_budget(before, budget),
            budget + total_length(times) <= MAX_BUDGET,
            factors.state() == state_after_all(before, views.take(j as int)),
        decreases slots.len() - j,
    {
        proof {
            let done = views.take(j as int);
            assert(slot_times(done) =~= times.take(j as int));
            assert forall|i: int| 0 <= i < slot_times(done).len() implies (#[trigger] slot_times(
                done,
            )[i]).wf() by {
                assert(slot_times(done)[i] == times[i]);
            }
            lemma_state_after_all_budget(before, done, budget);
            lemma_total_length_split(times, j as int, 1);
            assert(times.subrange(j as int, j as int + 1) =~= seq![times[j as int]]);
            assert(seq![times[j as int]].drop_last() =~= Seq::<TimeRange>::empty());
            assert(total_length(Seq::<TimeRange>::empty()) == 0);
            assert(seq![times[j as int]].last() == times[j as int]);
            assert(total_length(seq![times[j as int]]) == times[j as int].length());
            assert(times[j as int] == slots@[j as int].time);
            assert(times[j as int].wf());
            assert(views.take(j as int + 1).drop_last() =~= done);
            assert(views.take(j as int + 1).last() == slots@[j as int]@);
        }
        factors.update(&slots[j]);
        j = j + 1;
    }
    proof {
        assert(views.take(slots.len() as int) =~= views);
        lemma_state_after_all_budget(before, views, budget);
    }
}

/// Schedules a configuration's people over a period, rotation by rotation.
#[derive(Debug)]
pub struct Scheduler<'a> {
    pub config: &'a Config,
    pub factors: Factors,
    pub debug: bool,
}

impl<'a> Scheduler<'a> {
    /// The configuration is well formed, and what the factors remember is
    /// consistent.
    pub open spec fn wf(&self) -> bool {
        self.config.wf() && self.factors.wf()
    }

    /// The factors have room left to take in slots of `seconds` in all.
    pub open spec fn room(&self, seconds: int) -> bool {
        within_budget(self.factors.state(), MAX_BUDGET - seconds)
    }

    /// Whether the configuration is well formed and what the factors
    /// remember is consistent.
    pub fn check(&self) -> (valid: bool)
        ensures
            valid == self.wf(),
    {
        self.config.check() && self.factors.check()
    }

    /// Whether the factors have room left to take in slots of `seconds` in
    /// all.
    pub fn has_room(&self, seconds: i64) -> (room: bool)
        ensures
            room == self.room(seconds as int),
    {
        self.factors.keeps_to(MAX_BUDGET as i128 - seconds as i128)
    }

    /// A scheduler at the start of a run.
    pub fn new(config: &'a Config) -> (scheduler: Self)
        requires
            config.wf(),
        ensures
            scheduler.wf(),
            scheduler.config == config,
            scheduler.factors.state() == Factors::initial(config),
            !scheduler.debug,
            within_budget(scheduler.factors.state(), 0),
    {
        let factors = all(config);
        proof {
            lemma_initial_budget(config);
        }
        Self { config, factors, debug: false }
    }

    /// The same scheduler, marked to have its candidates shown.
    pub fn with_debug(self) -> (scheduler: Self)
        ensures
            scheduler.debug,
            scheduler.config == self.config,
            scheduler.factors == self.factors,
    {
        Self { config: self.config, factors: self.factors, debug: true }
    }

    /// The candidates for one rotation: the people who can take some slot
    /// of it, in the configuration's order, each scored by every factor.
    pub fn candidates(&self, slots_to_fill: &[TimeRange]) -> (out: Vec<Candidate<'a>>)
        requires
            self.wf(),
            all_wf(slots_to_fill@),
            total_length(slots_to_fill@) <= MAX_DURATION,
            self.room(0),
        ensures
            candidate_views(out@) == contenders(
                self.config,
                self.factors.state(),
                slots_to_fill@,
                self.config.humans@.len() as int,
            ),
            forall|k: int|
                0 <= k < out@.len() ==> weighted_sum((#[trigger] out@[k]).costs()) <= u128::MAX,
    {
        let ghost state = self.factors.state();
        let mut out: Vec<Candidate<'a>> = Vec::new();
        let mut p: usize = 0;
        while p < self.config.humans.len()
            invariant
                self.wf(),
                all_wf(slots_to_fill@),
                total_length(slots_to_fill@) <= MAX_DURATION,
                self.room(0),
                state == self.factors.state(),
                p <= self.config.humans@.len(),
                candidate_views(out@) == contenders(self.config, state, slots_to_fill@, p as int),
                forall|k: int|
                    0 <= k < out@.len() ==> weighted_sum((#[trigger] out@[k]).costs())
                        <= u128::MAX,
            decreases self.config.humans.len() - p,
        {
            let person = &self.config.humans[p];
            assert(self.config.humans@[p as int].1.wf());
            let available = possible_coverage(&person.1.constraints, slots_to_fill);
            let mut candidate = Candidate::new(person.0.as_str(), available);
            self.factors.populate(self.config, slots_to_fill, &mut candidate);
            proof {
                lemma_opinions_bounded(
                    state,
                    slots_to_fill@,
                    candidate.human@,
                    candidate.available_slots@,
                    MAX_BUDGET as int,
                );
            }
            let ghost before = out@;
            let ghost view = candidate@;
            if candidate.is_available() {
                assert(view.available()) by {
                    let i = choose|i: int| candidate.can_take(i);
                    assert(view.can_take(i));
                }
                out.push(candidate);
                assert(candidate_views(out@) =~= candidate_views(before).push(view));
            } else {
                assert(!view.available()) by {
                    if view.available() {
                        let i = choose|i: int| view.can_take(i);
                        assert(candidate.can_take(i));
                    }
                }
            }
            p = p + 1;
        }
        out
    }

    /// Assigns the slots of one rotation with what the factors remember
    /// now. No slot goes to a person who cannot take it.
    pub fn schedule_rotation(&self, slots_to_fill: &[TimeRange]) -> (out: Vec<ScheduleSlot>)
        requires
            self.wf(),
            all_wf(slots_to_fill@),
            total_length(slots_to_fill@) <= MAX_DURATION,
            self.room(0),
        ensures
            slot_views(out@) == rotation(self.config, self.factors.state(), slots_to_fill@),
            slot_times(slot_views(out@)) == slots_to_fill@,
            forall|i: int|
                0 <= i < out@.len() && (#[trigger] out@[i])@.human is Some ==> exists|k: int|
                    0 <= k < self.config.humans@.len() && (#[trigger] self.config.humans@[k]).0@
                        == out@[i]@.human->0 && availability(
                        self.config.humans@[k].1.constraints@,
                        slots_to_fill@,
                    )[i],
            forall|i: int|
                0 <= i < out@.len() && (#[trigger] out@[i])@.human is None ==> forall|k: int|
                    0 <= k < self.config.humans@.len() ==> !availability(
                        (#[trigger] self.config.humans@[k]).1.constraints@,
                        slots_to_fill@,
                    )[i],
    {
        let candidates = self.candidates(slots_to_fill);
        let out = assign(&candidates, slots_to_fill);
        proof {
            let listed = contenders(
                self.config,
                self.factors.state(),
                slots_to_fill@,
                self.config.humans@.len() as int,
            );
            assert(slot_views(out@) =~= rotation(
                self.config,
                self.factors.state(),
                slots_to_fill@,
            ));
            assert(slot_times(slot_views(out@)) =~= slots_to_fill@);
            assert forall|i: int| 0 <= i < out@.len() implies match (#[trigger] out@[i])@.human {
                Some(name) => exists|k: int|
                    0 <= k < self.config.humans@.len() && (#[trigger] self.config.humans@[k]).0@
                        == name && availability(
                        self.config.humans@[k].1.constraints@,
                        slots_to_fill@,
                    )[i],
                None => forall|k: int|
                    0 <= k < self.config.humans@.len() ==> !availability(
                        (#[trigger] self.config.humans@[k]).1.constraints@,
                        slots_to_fill@,
                    )[i],
            } by {
                assert(out@[i]@ == rotation(self.config, self.factors.state(), slots_to_fill@)[i]);
                lemma_rotation_humans(self.config, self.factors.state(), slots_to_fill@, i);
            }
        }
        out
    }

    /// Lets every factor take in the finalized slots of one rotation, in
    /// their order.
    pub fn record(&mut self, assignments: &Vec<ScheduleSlot>)
        requires
            old(self).wf(),
            all_wf(slot_times(slot_views(assignments@))),
            old(self).room(total_length(slot_times(slot_views(assignments@)))),
        ensures
            final(self).wf(),
            final(self).config == old(self).config,
            final(self).debug == old(self).debug,
            final(self).factors.state() == state_after_all(
                old(self).factors.state(),
                slot_views(assignments@),
            ),
            final(self).room(0),
    {
        take_in(
            &mut self.factors,
            assignments,
            Ghost(MAX_BUDGET - total_length(slot_times(slot_views(assignments@)))),
        );
    }

    /// The ranges of the period from `start` to `end` that the rules for
    /// everybody leave, in chronological order.
    pub fn eligible(&self, start: i64, end: i64) -> (ranges: Vec<TimeRange>)
        requires
            self.wf(),
            valid_timestamp(start as int),
            valid_timestamp(end as int),
            start <= end,
        ensures
            ranges@ == narrowed(self.config.constraints@, seq![TimeRange { start, end }]),
            tidy(ranges@, TimeRange { start, end }),
            0 <= total_length(ranges@) <= end - start,
    {
        let period = TimeRange::new(start, end);
        let mut whole: Vec<TimeRange> = Vec::new();
        whole.push(period);
        assert(whole@ =~= seq![period]);
        let ranges = apply_constraints(&self.config.constraints, whole);
        proof {
            lemma_narrowed(self.config.constraints@, seq![period], period);
            lemma_total_length_bounded(ranges@, period);
        }
        ranges
    }

    /// Schedules the period from `start` to `end`. The rules for everybody
    /// carve the period into eligible ranges, each of which becomes one
    /// slot. The slots are taken a rotation at a time, as many as the shift
    /// length has days; each rotation is assigned with what the factors
    /// remember by then, and the factors take in its slots before the next
    /// rotation is assigned. The result depends on nothing but the
    /// configuration, what the factors remembered, and the period.
    pub fn schedule(&mut self, start: i64, end: i64) -> (out: Vec<ScheduleSlot>)
        requires
            old(self).wf(),
            valid_timestamp(start as int),
            valid_timestamp(end as int),
            start <= end,
            old(self).room(end - start),
        ensures
            final(self).wf(),
            final(self).config == old(self).config,
            final(self).debug == old(self).debug,
            slot_views(out@) == scheduled(
                old(self).config,
                old(self).factors.state(),
                narrowed(old(self).config.constraints@, seq![TimeRange { start, end }]),
                old(self).config.shift_days(),
            ),
            slot_times(slot_views(out@)) == narrowed(
                old(self).config.constraints@,
                seq![TimeRange { start, end }],
            ),
            tidy(slot_times(slot_views(out@)), TimeRange { start, end }),
            forall|i: int|
                0 <= i < out@.len() && (#[trigger] out@[i])@.human is Some ==> exists|k: int|
                    0 <= k < old(self).config.humans@.len() && (#[trigger] old(
                        self,
                    ).config.humans@[k]).0@ == out@[i]@.human->0,
            final(self).factors.state() == state_after_all(
                old(self).factors.state(),
                slot_views(out@),
            ),
            final(self).room(0),
    {
        let eligible = self.eligible(start, end);
        let days = self.config.rotation_days();
        let ghost ranges = eligible@;
        let ghost first_state = self.factors.state();
        let ghost size = self.config.shift_days();
        let ghost base = MAX_BUDGET - (end - start);
        let mut out: Vec<ScheduleSlot> = Vec::new();
        let mut at: usize = 0;
        proof {
            assert(ranges.skip(0) =~= ranges);
            assert(slot_views(out@) =~= Seq::<SlotView>::empty());
            assert(ranges.take(0) =~= Seq::<TimeRange>::empty());
            assert(slot_times(slot_views(out@)) =~= ranges.take(0));
        }
        while at < eligible.len()
            invariant
                self.wf(),
                self.config == old(self).config,
                self.debug == old(self).debug,
                ranges == eligible@,
                all_wf(ranges),
                0 <= total_length(ranges) <= end - start,
                valid_timestamp(start as int),
                valid_timestamp(end as int),
                base == MAX_BUDGET - (end - start),
                size == self.config.shift_days(),
                days == size,
                1 <= days,
                at <= eligible@.len(),
                within_budget(self.factors.state(), base + total_length(ranges.take(at as int))),
                slot_views(out@) + scheduled(
                    self.config,
                    self.factors.state(),
                    ranges.skip(at as int),
                    size,
                ) == scheduled(self.config, first_state, ranges, size),
                slot_times(slot_views(out@)) == ranges.take(at as int),
                self.factors.state() == state_after_all(first_state, slot_views(out@)),
            decreases eligible@.len() - at,
        {
            let remaining: usize = eligible.len() - at;
            let n: usize = if remaining as u64 <= days as u64 {
                remaining
            } else {
                days as usize
            };
            let chunk = slice_subrange(eligible.as_slice(), at, at + n);
            let ghost state = self.factors.state();
            let ghost spent = total_length(ranges.take(at as int));
            proof {
                lemma_total_length_split(ranges, at as int, n as int);
                lemma_budget_grows(state, base + spent, MAX_BUDGET as int);
            }
            let mut assignments = self.schedule_rotation(chunk);
            let ghost views = slot_views(assignments@);
            let ghost before = out@;
            take_in(&mut self.factors, &assignments, Ghost(base + spent));
            out.append(&mut assignments);
            proof {
                assert(slot_views(out@) =~= slot_views(before) + views);
                lemma_schedule_step(
                    self.config,
                    first_state,
                    state,
                    ranges,
                    size,
                    at as int,
                    n as int,
                    slot_views(before),
                    views,
                );
            }
            at = at + n;
        }
        proof {
            assert(ranges.skip(at as int) =~= Seq::<TimeRange>::empty());
            assert(ranges.take(at as int) =~= ranges);
            assert(slot_views(out@) + Seq::<SlotView>::empty() =~= slot_views(out@));
            lemma_scheduled(self.config, first_state, ranges, size);
            assert forall|i: int|
                0 <= i < out@.len() && (#[trigger] out@[i])@.human is Some implies exists|k: int|
                0 <= k < self.config.humans@.len() && (#[trigger] self.config.humans@[k]).0@
                    == out@[i]@.human->0 by {
                assert(slot_views(out@)[i] == out@[i]@);
                assert(slot_times(slot_views(out@)).len() == out@.len());
                let slot = scheduled(self.config, first_state, ranges, size)[i];
                assert(slot == out@[i]@);
            }
            lemma_budget_grows(
                self.factors.state(),
                base + total_length(ranges),
                MAX_BUDGET as int,
            );
        }
        out
    }
}

} // verus!
