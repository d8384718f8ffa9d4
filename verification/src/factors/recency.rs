//! The recency factor: prefers the candidate whose last slot lies further
//! back.

use super::{standing, standing_cost, Candidate, Optimizer, COST_SCALE};
use crate::config::Config;
use crate::ledger::{with_value, Ledger};
use crate::solver::{ScheduleSlot, SlotView};
use crate::timerange::TimeRange;
use vstd::prelude::*;

verus! {

/// The recency factor. It remembers for each person the end of the last
/// slot assigned to them.
#[derive(Debug)]
pub struct Recency {
    pub recency: Ledger,
}

/// What the factor remembers at the start of a run, after the first `n`
/// people have been entered: the epoch for each of them.
pub open spec fn recency_seeded(config: &Config, n: int) -> Seq<(Seq<char>, int)>
    decreases n,
{
    if n <= 0 {
        Seq::empty()
    } else {
        with_value(recency_seeded(config, n - 1), config.humans@[n - 1].0@, 0)
    }
}

/// What the factor remembers after one more finalized slot: the slot's end
/// for the person assigned to it, and nothing new for an unassigned slot.
pub open spec fn recency_after(book: Seq<(Seq<char>, int)>, slot: SlotView) -> Seq<
    (Seq<char>, int),
> {
    match slot.human {
        Some(name) => with_value(book, name, slot.time.end as int),
        None => book,
    }
}

impl Optimizer for Recency {
    type State = Seq<(Seq<char>, int)>;

    open spec fn state(&self) -> Seq<(Seq<char>, int)> {
        self.recency@
    }

    open spec fn wf(&self) -> bool {
        self.recency.wf()
    }

    open spec fn initial(config: &Config) -> Seq<(Seq<char>, int)> {
        recency_seeded(config, config.humans@.len() as int)
    }

    open spec fn label(&self) -> Seq<char> {
        "recency"@
    }

    open spec fn importance(&self) -> u64 {
        1
    }

    open spec fn takes(&self, slot: &ScheduleSlot) -> bool {
        true
    }

    open spec fn state_after(&self, slot: &ScheduleSlot) -> Seq<(Seq<char>, int)> {
        recency_after(self.recency@, slot@)
    }

    open spec fn scores(&self, slots: Seq<TimeRange>, candidate: &Candidate) -> bool {
        true
    }

    /// Where the end of the candidate's last slot stands between the
    /// earliest and the latest such end of all people, the more recent the
    /// higher. The factor abstains while all are equal.
    open spec fn price(&self, slots: Seq<TimeRange>, candidate: &Candidate) -> Option<int> {
        standing(self.recency@, candidate.human@)
    }

    fn init(config: &Config) -> (factor: Self) {
        let mut recency = Ledger::new();
        let mut i: usize = 0;
        while i < config.humans.len()
            invariant
                i <= config.humans.len(),
                recency.wf(),
                recency@ == recency_seeded(config, i as int),
            decreases config.humans.len() - i,
        {
            recency.set(config.humans[i].0.as_str(), 0);
            i = i + 1;
        }
        Recency { recency }
    }

    fn name(&self) -> (name: &'static str) {
        "recency"
    }

    fn weight(&self) -> (weight: u64) {
        1
    }

    fn update(&mut self, slot: &ScheduleSlot) {
        match &slot.human {
            Some(name) => {
                self.recency.set(name.as_str(), slot.time.end);
            },
            None => {},
        }
    }

    fn cost(&self, config: &Config, slots_to_fill: &[TimeRange], candidate: &Candidate) -> (cost:
        Option<u128>)
        ensures
            cost matches Some(c) ==> c <= COST_SCALE,
    {
        standing_cost(&self.recency, candidate.human)
    }
}

} // verus!
