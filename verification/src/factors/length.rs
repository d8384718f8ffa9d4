//! The length factor: holds the current run of one person to the shift
//! length.

use super::{ratio_cost, Candidate, Optimizer, COST_SCALE};
use crate::config::Config;
use crate::solver::{ScheduleSlot, SlotView};
use crate::text::same_text;
use crate::timerange::TimeRange;
use vstd::prelude::*;

verus! {

/// The length factor. It remembers who holds the latest run of slots in a
/// row and how long that run has become, in seconds.
#[derive(Debug)]
pub struct Length {
    pub current: Option<(String, i64)>,
    pub limit: i64,
}

/// What the length factor remembers: the holder of the latest run with the
/// run's length so far, and the shift length that a run should keep to.
pub struct LengthState {
    pub current: Option<(Seq<char>, int)>,
    pub limit: int,
}

/// What the factor remembers after one more finalized slot: an unassigned
/// slot ends the run, a slot of the run's holder lengthens it, and a slot of
/// anybody else starts a new run.
pub open spec fn length_after(state: LengthState, slot: SlotView) -> LengthState {
    LengthState {
        current: match slot.human {
            Some(name) => Some(
                (
                    name,
                    match state.current {
                        Some((holder, run)) if holder == name => run + slot.time.length(),
                        _ => slot.time.length(),
                    },
                ),
            ),
            None => None,
        },
        limit: state.limit,
    }
}

/// The cost of the candidate called `name`. For the holder of the current
/// run it is one minus the share of the shift length that the run has left,
/// which is the run's length over the shift length and goes above 1 once
/// the run exceeds the shift length. For anybody else it is 0. While nobody
/// has been assigned, the factor abstains.
pub open spec fn length_cost(state: LengthState, name: Seq<char>) -> Option<int> {
    match state.current {
        Some((holder, run)) => Some(
            if holder == name {
                ratio_cost(state.limit - (state.limit - run), state.limit)
            } else {
                0
            },
        ),
        None => None,
    }
}

impl Optimizer for Length {
    type State = LengthState;

    open spec fn state(&self) -> LengthState {
        LengthState {
            current: match self.current {
                Some((holder, run)) => Some((holder@, run as int)),
                None => None,
            },
            limit: self.limit as int,
        }
    }

    open spec fn wf(&self) -> bool {
        &&& self.limit > 0
        &&& self.current matches Some((_, run)) ==> run >= 0
    }

    open spec fn initial(config: &Config) -> LengthState {
        LengthState { current: None, limit: config.shift_days() * 86_400 }
    }

    open spec fn label(&self) -> Seq<char> {
        "length"@
    }

    open spec fn importance(&self) -> u64 {
        100
    }

    open spec fn takes(&self, slot: &ScheduleSlot) -> bool {
        &&& slot.time.wf()
        &&& length_after(self.state(), slot@).current matches Some((_, run)) ==> run <= i64::MAX
    }

    open spec fn state_after(&self, slot: &ScheduleSlot) -> LengthState {
        length_after(self.state(), slot@)
    }

    open spec fn scores(&self, slots: Seq<TimeRange>, candidate: &Candidate) -> bool {
        true
    }

    open spec fn price(&self, slots: Seq<TimeRange>, candidate: &Candidate) -> Option<int> {
        length_cost(self.state(), candidate.human@)
    }

    fn init(config: &Config) -> (factor: Self) {
        Length { current: None, limit: config.rotation_days() * 86_400 }
    }

    fn name(&self) -> (name: &'static str) {
        "length"
    }

    fn weight(&self) -> (weight: u64) {
        100
    }

    fn update(&mut self, slot: &ScheduleSlot) {
        let length = slot.time.len();
        match &slot.human {
            Some(name) => {
                let run = match &self.current {
                    Some((holder, run)) => {
                        if same_text(holder.as_str(), name.as_str()) {
                            *run + length
                        } else {
                            length
                        }
                    },
                    None => length,
                };
                self.current = Some((name.clone(), run));
            },
            None => {
                self.current = None;
            },
        }
    }

    fn cost(&self, config: &Config, slots_to_fill: &[TimeRange], candidate: &Candidate) -> (cost:
        Option<u128>) {
        match &self.current {
            Some((holder, run)) => {
                if same_text(holder.as_str(), candidate.human) {
                    Some((*run as u128) * COST_SCALE / (self.limit as u128))
                } else {
                    Some(0)
                }
            },
            None => None,
        }
    }
}

} // verus!
