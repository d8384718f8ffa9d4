//! The coverage factor: prefers the candidate who can take more of the
//! rotation.

use super::{lemma_ratio_cost_bounds, ratio_cost, Candidate, Optimizer, COST_SCALE};
use crate::config::Config;
use crate::solver::ScheduleSlot;
use crate::time::MAX_DURATION;
use crate::timerange::{all_wf, lemma_total_length_prefix, total_length, TimeRange};
use vstd::prelude::*;

verus! {

/// The coverage factor. It remembers nothing.
#[derive(Debug)]
pub struct Coverage;

/// The total length of those of the first `n` slots that are marked
/// available.
pub open spec fn covered_upto(slots: Seq<TimeRange>, available: Seq<bool>, n: int) -> int
    decreases n,
{
    if n <= 0 {
        0
    } else {
        covered_upto(slots, available, n - 1) + if available[n - 1] {
            slots[n - 1].length()
        } else {
            0
        }
    }
}

/// The total length of the slots that are marked available, slot `i` going
/// with mark `i`.
pub open spec fn covered_length(slots: Seq<TimeRange>, available: Seq<bool>) -> int {
    covered_upto(
        slots,
        available,
        if slots.len() <= available.len() {
            slots.len() as int
        } else {
            available.len() as int
        },
    )
}

/// The share of the rotation's length that the candidate cannot take, or
/// `None` where they can take none of it.
pub open spec fn coverage_cost(slots: Seq<TimeRange>, available: Seq<bool>) -> Option<int> {
    let total = total_length(slots);
    let covered = covered_length(slots, available);
    if covered == 0 {
        None
    } else {
        Some(ratio_cost(total - covered, total))
    }
}

/// The available slots among the first `n` are together no longer than the
/// first `n` slots.
pub proof fn lemma_covered_upto(slots: Seq<TimeRange>, available: Seq<bool>, n: int)
    requires
        all_wf(slots),
        0 <= n <= slots.len(),
    ensures
        0 <= covered_upto(slots, available, n) <= total_length(slots.take(n)),
    decreases n,
{
    if n > 0 {
        lemma_covered_upto(slots, available, n - 1);
        assert(slots.take(n).drop_last() =~= slots.take(n - 1));
        assert(slots.take(n).last() == slots[n - 1]);
        assert(slots[n - 1].wf());
    }
}

/// A coverage cost lies between 0 and 1.
pub proof fn lemma_coverage_cost(slots: Seq<TimeRange>, available: Seq<bool>)
    requires
        all_wf(slots),
    ensures
        0 <= covered_length(slots, available) <= total_length(slots),
        coverage_cost(slots, available) matches Some(c) ==> 0 <= c <= COST_SCALE,
{
    let n = if slots.len() <= available.len() {
        slots.len() as int
    } else {
        available.len() as int
    };
    lemma_covered_upto(slots, available, n);
    lemma_total_length_prefix(slots, n);
    let total = total_length(slots);
    let covered = covered_length(slots, available);
    if covered != 0 {
        lemma_ratio_cost_bounds(total - covered, total);
    }
}

impl Optimizer for Coverage {
    type State = ();

    open spec fn state(&self) -> () {
        ()
    }

    open spec fn wf(&self) -> bool {
        true
    }

    open spec fn initial(config: &Config) -> () {
        ()
    }

    open spec fn label(&self) -> Seq<char> {
        "coverage"@
    }

    open spec fn importance(&self) -> u64 {
        5
    }

    open spec fn takes(&self, slot: &ScheduleSlot) -> bool {
        true
    }

    open spec fn state_after(&self, slot: &ScheduleSlot) -> () {
        ()
    }

    open spec fn scores(&self, slots: Seq<TimeRange>, candidate: &Candidate) -> bool {
        all_wf(slots) && total_length(slots) <= MAX_DURATION
    }

    open spec fn price(&self, slots: Seq<TimeRange>, candidate: &Candidate) -> Option<int> {
        coverage_cost(slots, candidate.available_slots@)
    }

    fn init(config: &Config) -> (factor: Self) {
        Coverage
    }

    fn name(&self) -> (name: &'static str) {
        "coverage"
    }

    fn weight(&self) -> (weight: u64) {
        5
    }

    fn update(&mut self, slot: &ScheduleSlot) {
    }

    fn cost(&self, config: &Config, slots_to_fill: &[TimeRange], candidate: &Candidate) -> (cost:
        Option<u128>)
        ensures
            cost matches Some(c) ==> c <= COST_SCALE,
    {
        proof {
            lemma_coverage_cost(slots_to_fill@, candidate.available_slots@);
        }
        let n = if slots_to_fill.len() <= candidate.available_slots.len() {
            slots_to_fill.len()
        } else {
            candidate.available_slots.len()
        };
        let mut total: i64 = 0;
        let mut covered: i64 = 0;
        let mut i: usize = 0;
        while i < slots_to_fill.len()
            invariant
                all_wf(slots_to_fill@),
                total_length(slots_to_fill@) <= MAX_DURATION,
                i <= slots_to_fill.len(),
                n <= slots_to_fill.len(),
                n <= candidate.available_slots.len(),
                total == total_length(slots_to_fill@.take(i as int)),
                covered == covered_upto(
                    slots_to_fill@,
                    candidate.available_slots@,
                    if i <= n {
                        i as int
                    } else {
                        n as int
                    },
                ),
                0 <= covered <= total,
            decreases slots_to_fill.len() - i,
        {
            proof {
                assert(slots_to_fill@.take(i as int + 1).drop_last() =~= slots_to_fill@.take(
                    i as int,
                ));
                assert(slots_to_fill@.take(i as int + 1).last() == slots_to_fill@[i as int]);
                lemma_total_length_prefix(slots_to_fill@, i as int + 1);
                assert(slots_to_fill@[i as int].wf());
            }
            let length = slots_to_fill[i].len();
            total = total + length;
            if i < n && candidate.available_slots[i] {
                covered = covered + length;
            }
            i = i + 1;
        }
        assert(slots_to_fill@.take(slots_to_fill.len() as int) =~= slots_to_fill@);
        if covered == 0 {
            None
        } else {
            Some(((total - covered) as u128) * COST_SCALE / (total as u128))
        }
    }
}

} // verus!
