//! The workload factor: prefers the candidate who has worked less.

use super::{standing, standing_cost, Candidate, Optimizer, COST_SCALE};
use crate::config::Config;
use crate::ledger::{amount, lemma_sum_with_value, sum_of, with_value, Ledger};
use crate::solver::{ScheduleSlot, SlotView};
use crate::timerange::TimeRange;
use vstd::prelude::*;

verus! {

/// The workload factor. It remembers for each person the total length of
/// the slots assigned to them, in seconds, on top of the workload that they
/// brought along.
#[derive(Debug)]
pub struct Workload {
    pub workload: Ledger,
}

/// What the factor remembers at the start of a run, after the first `n`
/// people have been entered: for each of them their prior workload.
pub open spec fn workload_seeded(config: &Config, n: int) -> Seq<(Seq<char>, int)>
    decreases n,
{
    if n <= 0 {
        Seq::empty()
    } else {
        with_value(
            workload_seeded(config, n - 1),
            config.humans@[n - 1].0@,
            config.humans@[n - 1].1.prior_workload as int,
        )
    }
}

/// The workload filed under `name`, which is 0 for a person not yet seen.
pub open spec fn workload_of(book: Seq<(Seq<char>, int)>, name: Seq<char>) -> int {
    amount(book, name)
}

/// A finalized slot raises the sum of all workloads by its length where it
/// is assigned, and leaves the workloads as they are where it is not.
pub proof fn lemma_workload_after(book: Seq<(Seq<char>, int)>, slot: SlotView)
    ensures
        sum_of(workload_after(book, slot)) == sum_of(book) + if slot.human is Some {
            slot.time.length()
        } else {
            0
        },
{
    if let Some(name) = slot.human {
        lemma_sum_with_value(book, name, workload_of(book, name) + slot.time.length());
    }
}

/// What the factor remembers after one more finalized slot: the slot's
/// length on top of the workload of the person assigned to it, and nothing
/// new for an unassigned slot.
pub open spec fn workload_after(book: Seq<(Seq<char>, int)>, slot: SlotView) -> Seq<
    (Seq<char>, int),
> {
    match slot.human {
        Some(name) => with_value(book, name, workload_of(book, name) + slot.time.length()),
        None => book,
    }
}

impl Optimizer for Workload {
    type State = Seq<(Seq<char>, int)>;

    open spec fn state(&self) -> Seq<(Seq<char>, int)> {
        self.workload@
    }

    open spec fn wf(&self) -> bool {
        self.workload.wf()
    }

    open spec fn initial(config: &Config) -> Seq<(Seq<char>, int)> {
        workload_seeded(config, config.humans@.len() as int)
    }

    open spec fn label(&self) -> Seq<char> {
        "workload"@
    }

    open spec fn importance(&self) -> u64 {
        5
    }

    open spec fn takes(&self, slot: &ScheduleSlot) -> bool {
        &&& slot.time.wf()
        &&& slot@.human matches Some(name) ==> i64::MIN <= workload_of(self.workload@, name)
            + slot.time.length() <= i64::MAX
    }

    open spec fn state_after(&self, slot: &ScheduleSlot) -> Seq<(Seq<char>, int)> {
        workload_after(self.workload@, slot@)
    }

    open spec fn scores(&self, slots: Seq<TimeRange>, candidate: &Candidate) -> bool {
        true
    }

    /// Where the candidate's workload stands between the smallest and the
    /// largest workload of all people. The factor abstains while all are
    /// equal.
    open spec fn price(&self, slots: Seq<TimeRange>, candidate: &Candidate) -> Option<int> {
        standing(self.workload@, candidate.human@)
    }

    fn init(config: &Config) -> (factor: Self) {
        let mut workload = Ledger::new();
        let mut i: usize = 0;
        while i < config.humans.len()
            invariant
                i <= config.humans.len(),
                workload.wf(),
                workload@ == workload_seeded(config, i as int),
            decreases config.humans.len() - i,
        {
            workload.set(config.humans[i].0.as_str(), config.humans[i].1.prior_workload);
            i = i + 1;
        }
        Workload { workload }
    }

    fn name(&self) -> (name: &'static str) {
        "workload"
    }

    fn weight(&self) -> (weight: u64) {
        5
    }

    fn update(&mut self, slot: &ScheduleSlot) {
        match &slot.human {
            Some(name) => {
                let so_far = match self.workload.get(name.as_str()) {
                    Some(value) => value,
                    None => 0,
                };
                self.workload.set(name.as_str(), so_far + slot.time.len());
            },
            None => {},
        }
    }

    fn cost(&self, config: &Config, slots_to_fill: &[TimeRange], candidate: &Candidate) -> (cost:
        Option<u128>)
        ensures
            cost matches Some(c) ==> c <= COST_SCALE,
    {
        standing_cost(&self.workload, candidate.human)
    }
}

} // verus!
