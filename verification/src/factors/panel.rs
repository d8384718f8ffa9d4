//! The four built-in factors taken together.

use super::coverage::{coverage_cost, lemma_coverage_cost, Coverage};
use super::length::{length_after, length_cost, Length, LengthState};
use super::recency::{recency_after, Recency};
use super::workload::{workload_after, workload_of, Workload};
use super::{has_factor, lemma_standing, ratio_cost, standing, weighted_sum};
use super::{Candidate, Cost, Optimizer, COST_SCALE};
use crate::config::Config;
use crate::ledger::{
    distinct_names, has_name, index_of, lemma_same_amounts, lemma_same_amounts_with_value,
    lemma_with_value, same_amounts, value_of, with_value,
};
use crate::solver::{ScheduleSlot, SlotView};
use crate::time::MAX_DURATION;
use crate::timerange::{all_wf, total_length, TimeRange};
use vstd::prelude::*;

verus! {

/// The built-in factors in the order in which they score a candidate.
#[derive(Debug)]
pub struct Factors {
    pub coverage: Coverage,
    pub length: Length,
    pub recency: Recency,
    pub workload: Workload,
}

/// What the built-in factors remember, as contracts see it.
pub struct FactorsState {
    pub length: LengthState,
    pub recency: Seq<(Seq<char>, int)>,
    pub workload: Seq<(Seq<char>, int)>,
}

/// What a factor called `name` of weight `weight` files with a candidate:
/// its cost, or nothing where it abstains.
pub open spec fn said(name: Seq<char>, weight: u64, cost: Option<int>) -> Seq<(Seq<char>, Cost)> {
    match cost {
        Some(c) => seq![(name, Cost { cost: c as u128, weight })],
        None => Seq::empty(),
    }
}

/// What the built-in factors file with the candidate called `name` whose
/// availability over `slots` is `available`: coverage with weight 5, length
/// with weight 100, recency with weight 1 and workload with weight 5, each
/// unless it abstains.
pub open spec fn opinions(
    state: FactorsState,
    slots: Seq<TimeRange>,
    name: Seq<char>,
    available: Seq<bool>,
) -> Seq<(Seq<char>, Cost)> {
    said("coverage"@, 5, coverage_cost(slots, available)) + said(
        "length"@,
        100,
        length_cost(state.length, name),
    ) + said("recency"@, 1, standing(state.recency, name)) + said(
        "workload"@,
        5,
        standing(state.workload, name),
    )
}

/// What the factors remember after one more finalized slot.
pub open spec fn state_after(state: FactorsState, slot: SlotView) -> FactorsState {
    FactorsState {
        length: length_after(state.length, slot),
        recency: recency_after(state.recency, slot),
        workload: workload_after(state.workload, slot),
    }
}

/// What the factors remember after a sequence of finalized slots, taken in
/// one after the other.
pub open spec fn state_after_all(state: FactorsState, slots: Seq<SlotView>) -> FactorsState
    decreases slots.len(),
{
    if slots.len() == 0 {
        state
    } else {
        state_after(state_after_all(state, slots.drop_last()), slots.last())
    }
}

/// The amounts that the factors remember are consistent and have room for
/// more: the current run is no longer than `budget`, and no workload is more
/// than `budget` above the longest prior workload that a person may bring.
pub open spec fn within_budget(state: FactorsState, budget: int) -> bool {
    &&& 0 <= budget
    &&& state.length.limit > 0
    &&& state.length.current matches Some((_, run)) ==> 0 <= run <= budget
    &&& distinct_names(state.recency)
    &&& distinct_names(state.workload)
    &&& forall|i: int|
        0 <= i < state.workload.len() ==> 0 <= (#[trigger] state.workload[i]).1 <= MAX_DURATION
            + budget
}

/// The four factor names differ from each other.
pub proof fn lemma_factor_names()
    ensures
        "coverage"@ != "length"@,
        "coverage"@ != "recency"@,
        "coverage"@ != "workload"@,
        "length"@ != "recency"@,
        "length"@ != "workload"@,
        "recency"@ != "workload"@,
{
    reveal_strlit("coverage");
    reveal_strlit("length");
    reveal_strlit("recency");
    reveal_strlit("workload");
    assert("coverage"@.len() == 8);
    assert("length"@.len() == 6);
    assert("recency"@.len() == 7);
    assert("workload"@.len() == 8);
    assert("coverage"@[0] == 'c');
    assert("workload"@[0] == 'w');
}

/// A slot of length `length` taken in uses up that much more of the budget.
pub proof fn lemma_state_after_budget(state: FactorsState, slot: SlotView, budget: int)
    requires
        within_budget(state, budget),
        slot.time.wf(),
    ensures
        within_budget(state_after(state, slot), budget + slot.time.length()),
{
    let after = state_after(state, slot);
    match slot.human {
        Some(name) => {
            lemma_with_value(state.recency, name, slot.time.end as int);
            let amount = workload_of(state.workload, name) + slot.time.length();
            lemma_with_value(state.workload, name, amount);
            if has_name(state.workload, name) {
                let at = index_of(state.workload, name);
                assert(0 <= state.workload[at].1 <= MAX_DURATION + budget);
            }
            let at = if has_name(state.workload, name) {
                index_of(state.workload, name)
            } else {
                state.workload.len() as int
            };
            assert(after.workload == with_value(state.workload, name, amount));
            assert(0 <= amount <= MAX_DURATION + budget + slot.time.length());
            assert forall|i: int| 0 <= i < after.workload.len() implies 0 <= (
            #[trigger] after.workload[i]).1 <= MAX_DURATION + budget + slot.time.length() by {
                if i != at {
                    assert(after.workload[i] == state.workload[i]);
                    assert(0 <= state.workload[i].1 <= MAX_DURATION + budget);
                } else {
                    assert(after.workload[i] == (name, amount));
                }
            }
        },
        None => {},
    }
}

/// A budget that is kept stays kept when it grows.
pub proof fn lemma_budget_grows(state: FactorsState, budget: int, more: int)
    requires
        within_budget(state, budget),
        budget <= more,
    ensures
        within_budget(state, more),
{
    assert forall|i: int| 0 <= i < state.workload.len() implies 0 <= (
    #[trigger] state.workload[i]).1 <= MAX_DURATION + more by {
        assert(0 <= state.workload[i].1 <= MAX_DURATION + budget);
    }
}

/// At the start of a run nothing of the budget is used.
pub proof fn lemma_initial_budget(config: &Config)
    requires
        config.wf(),
    ensures
        within_budget(Factors::initial(config), 0),
{
    lemma_seeded(config, config.humans@.len() as int);
}

/// What the recency and the workload factor remember after the first `n`
/// people have been entered: no name twice, and as workloads the prior
/// workloads of the people.
proof fn lemma_seeded(config: &Config, n: int)
    requires
        config.wf(),
        0 <= n <= config.humans@.len(),
    ensures
        distinct_names(super::recency::recency_seeded(config, n)),
        distinct_names(super::workload::workload_seeded(config, n)),
        forall|i: int|
            0 <= i < super::workload::workload_seeded(config, n).len() ==> 0 <= (
            #[trigger] super::workload::workload_seeded(config, n)[i]).1 <= MAX_DURATION,
    decreases n,
{
    if n > 0 {
        lemma_seeded(config, n - 1);
        let name = config.humans@[n - 1].0@;
        let prior = config.humans@[n - 1].1.prior_workload as int;
        assert(config.humans@[n - 1].1.wf());
        let recency = super::recency::recency_seeded(config, n - 1);
        let workload = super::workload::workload_seeded(config, n - 1);
        lemma_with_value(recency, name, 0);
        lemma_with_value(workload, name, prior);
        let after = with_value(workload, name, prior);
        let at = if has_name(workload, name) {
            index_of(workload, name)
        } else {
            workload.len() as int
        };
        assert forall|i: int| 0 <= i < after.len() implies 0 <= (#[trigger] after[i]).1
            <= MAX_DURATION by {
            if i != at {
                assert(after[i] == workload[i]);
            } else {
                assert(after[i] == (name, prior));
            }
        }
    }
}

/// The factors remember the same: the same run, and the same amounts for
/// the same people, in whatever order.
pub open spec fn same_memory(a: FactorsState, b: FactorsState) -> bool {
    &&& a.length == b.length
    &&& same_amounts(a.recency, b.recency)
    &&& same_amounts(a.workload, b.workload)
}

/// Factors that remember the same say the same of every candidate.
pub proof fn lemma_same_opinions(
    a: FactorsState,
    b: FactorsState,
    slots: Seq<TimeRange>,
    name: Seq<char>,
    available: Seq<bool>,
)
    requires
        same_memory(a, b),
    ensures
        opinions(a, slots, name, available) == opinions(b, slots, name, available),
{
    lemma_same_amounts(a.recency, b.recency);
    lemma_same_amounts(a.workload, b.workload);
    assert(value_of(a.recency, name) == value_of(b.recency, name));
    assert(value_of(a.workload, name) == value_of(b.workload, name));
}

/// Factors that remember the same still do after the same slot.
pub proof fn lemma_same_memory_after(a: FactorsState, b: FactorsState, slot: SlotView)
    requires
        same_memory(a, b),
    ensures
        same_memory(state_after(a, slot), state_after(b, slot)),
{
    if let Some(name) = slot.human {
        lemma_same_amounts_with_value(a.recency, b.recency, name, slot.time.end as int);
        assert(value_of(a.workload, name) == value_of(b.workload, name));
        lemma_same_amounts_with_value(
            a.workload,
            b.workload,
            name,
            workload_of(a.workload, name) + slot.time.length(),
        );
    }
}

/// Factors that remember the same still do after the same slots.
pub proof fn lemma_same_memory_after_all(a: FactorsState, b: FactorsState, slots: Seq<SlotView>)
    requires
        same_memory(a, b),
    ensures
        same_memory(state_after_all(a, slots), state_after_all(b, slots)),
    decreases slots.len(),
{
    if slots.len() > 0 {
        lemma_same_memory_after_all(a, b, slots.drop_last());
        lemma_same_memory_after(
            state_after_all(a, slots.drop_last()),
            state_after_all(b, slots.drop_last()),
            slots.last(),
        );
    }
}

/// The weighted sum of two sequences in a row is the sum of their weighted
/// sums.
pub proof fn lemma_weighted_sum_concat(a: Seq<(Seq<char>, Cost)>, b: Seq<(Seq<char>, Cost)>)
    ensures
        weighted_sum(a + b) == weighted_sum(a) + weighted_sum(b),
    decreases b.len(),
{
    if b.len() == 0 {
        assert(a + b =~= a);
    } else {
        assert((a + b).drop_last() =~= a + b.drop_last());
        lemma_weighted_sum_concat(a, b.drop_last());
    }
}

/// What one factor files weighs no more than its weight times `bound`, where
/// its cost is at most `bound`.
pub proof fn lemma_said_bounded(name: Seq<char>, weight: u64, cost: Option<int>, bound: int)
    requires
        cost matches Some(c) ==> 0 <= c <= bound,
        0 <= bound <= u128::MAX,
    ensures
        0 <= weighted_sum(said(name, weight, cost)) <= weight * bound,
{
    let entries = said(name, weight, cost);
    match cost {
        Some(c) => {
            assert(entries.drop_last() =~= Seq::<(Seq<char>, Cost)>::empty());
            assert(weighted_sum(entries.drop_last()) == 0);
            assert(0 <= c * weight <= weight * bound) by (nonlinear_arith)
                requires
                    0 <= c <= bound,
                    0 <= weight,
            ;
        },
        None => {
            assert(weight * bound >= 0) by (nonlinear_arith)
                requires
                    0 <= bound,
                    0 <= weight,
            ;
        },
    }
}

/// The weighted sum of what the factors file with a candidate fits the
/// machine's largest integer, so the candidate's aggregate cost can be
/// computed.
pub proof fn lemma_opinions_bounded(
    state: FactorsState,
    slots: Seq<TimeRange>,
    name: Seq<char>,
    available: Seq<bool>,
    budget: int,
)
    requires
        within_budget(state, budget),
        budget <= i64::MAX,
        all_wf(slots),
    ensures
        0 <= weighted_sum(opinions(state, slots, name, available)) <= u128::MAX,
{
    let a = said("coverage"@, 5, coverage_cost(slots, available));
    let b = said("length"@, 100, length_cost(state.length, name));
    let c = said("recency"@, 1, standing(state.recency, name));
    let d = said("workload"@, 5, standing(state.workload, name));
    lemma_coverage_cost(slots, available);
    lemma_standing(state.recency, name);
    lemma_standing(state.workload, name);
    let run_bound: int = i64::MAX * COST_SCALE;
    assert(length_cost(state.length, name) matches Some(cost) ==> 0 <= cost <= run_bound) by {
        if let Some((holder, run)) = state.length.current {
            let limit = state.length.limit;
            let scaled = run * COST_SCALE;
            assert(0 <= scaled <= i64::MAX * COST_SCALE) by (nonlinear_arith)
                requires
                    0 <= run <= i64::MAX,
                    scaled == run * COST_SCALE,
            ;
            assert(0 <= scaled / limit <= scaled) by (nonlinear_arith)
                requires
                    0 <= scaled,
                    limit > 0,
            ;
            assert(ratio_cost(limit - (limit - run), limit) == scaled / limit);
        }
    }
    lemma_said_bounded("coverage"@, 5, coverage_cost(slots, available), COST_SCALE as int);
    lemma_said_bounded("length"@, 100, length_cost(state.length, name), run_bound);
    lemma_said_bounded("recency"@, 1, standing(state.recency, name), COST_SCALE as int);
    lemma_said_bounded("workload"@, 5, standing(state.workload, name), COST_SCALE as int);
    lemma_weighted_sum_concat(a, b);
    lemma_weighted_sum_concat(a + b, c);
    lemma_weighted_sum_concat(a + b + c, d);
}

impl Factors {
    /// What the factors remember.
    pub open spec fn state(&self) -> FactorsState {
        FactorsState {
            length: self.length.state(),
            recency: self.recency.state(),
            workload: self.workload.state(),
        }
    }

    /// What each factor remembers is consistent.
    pub open spec fn wf(&self) -> bool {
        &&& self.coverage.wf()
        &&& self.length.wf()
        &&& self.recency.wf()
        &&& self.workload.wf()
    }

    /// What the factors remember at the start of a run.
    pub open spec fn initial(config: &Config) -> FactorsState {
        FactorsState {
            length: Length::initial(config),
            recency: Recency::initial(config),
            workload: Workload::initial(config),
        }
    }

    /// Every factor can take the slot in without an amount running over.
    pub open spec fn takes(&self, slot: &ScheduleSlot) -> bool {
        self.length.takes(slot) && self.workload.takes(slot)
    }

    /// Whether what each factor remembers is consistent.
    pub fn check(&self) -> (valid: bool)
        ensures
            valid == self.wf(),
    {
        let run_ok = match &self.length.current {
            Some((_, run)) => *run >= 0,
            None => true,
        };
        self.length.limit > 0 && run_ok && self.recency.recency.check()
            && self.workload.workload.check()
    }

    /// Whether the factors keep to a budget of `budget` seconds.
    pub fn keeps_to(&self, budget: i128) -> (kept: bool)
        ensures
            kept == within_budget(self.state(), budget as int),
    {
        if budget < 0 || self.length.limit <= 0 {
            return false;
        }
        match &self.length.current {
            Some((_, run)) => {
                if *run < 0 || *run as i128 > budget {
                    return false;
                }
            },
            None => {},
        }
        if !self.recency.recency.check() || !self.workload.workload.check() {
            return false;
        }
        let ample = budget > 0x7fff_ffff_ffff_ffff;
        let mut i: usize = 0;
        while i < self.workload.workload.entries.len()
            invariant
                i <= self.workload.workload.entries@.len(),
                0 <= budget,
                ample == (budget > 0x7fff_ffff_ffff_ffff),
                forall|k: int|
                    0 <= k < i ==> 0 <= (#[trigger] self.workload.workload@[k]).1 <= MAX_DURATION
                        + budget,
            decreases self.workload.workload.entries.len() - i,
        {
            let value = self.workload.workload.entries[i].value;
            if value < 0 || (!ample && value as i128 > MAX_DURATION as i128 + budget) {
                assert(!(0 <= self.workload.workload@[i as int].1 <= MAX_DURATION + budget));
                return false;
            }
            i = i + 1;
        }
        true
    }

    /// Lets every factor file its cost with a candidate that no factor has
    /// scored yet.
    pub fn populate<'a>(
        &self,
        config: &Config,
        slots_to_fill: &[TimeRange],
        candidate: &mut Candidate<'a>,
    )
        requires
            self.wf(),
            all_wf(slots_to_fill@),
            total_length(slots_to_fill@) <= MAX_DURATION,
            old(candidate).costs().len() == 0,
        ensures
            final(candidate).wf(),
            final(candidate).human@ == old(candidate).human@,
            final(candidate).available_slots@ == old(candidate).available_slots@,
            final(candidate).costs() == opinions(
                self.state(),
                slots_to_fill@,
                old(candidate).human@,
                old(candidate).available_slots@,
            ),
    {
        proof {
            lemma_factor_names();
        }
        let ghost name = candidate.human@;
        let ghost available = candidate.available_slots@;
        let ghost a = said("coverage"@, 5, coverage_cost(slots_to_fill@, available));
        let ghost b = said("length"@, 100, length_cost(self.state().length, name));
        let ghost c = said("recency"@, 1, standing(self.state().recency, name));
        let ghost d = said("workload"@, 5, standing(self.state().workload, name));
        self.coverage.populate(config, slots_to_fill, candidate);
        assert(candidate.costs() =~= a);
        self.length.populate(config, slots_to_fill, candidate);
        assert(candidate.costs() =~= a + b) by {
            assert(!has_factor(a, "length"@));
        }
        self.recency.populate(config, slots_to_fill, candidate);
        assert(candidate.costs() =~= a + b + c) by {
            assert(!has_factor(a + b, "recency"@));
        }
        self.workload.populate(config, slots_to_fill, candidate);
        assert(candidate.costs() =~= a + b + c + d) by {
            assert(!has_factor(a + b + c, "workload"@));
        }
    }

    /// Lets every factor take in one finalized slot.
    pub fn update(&mut self, slot: &ScheduleSlot)
        requires
            old(self).wf(),
            old(self).takes(slot),
        ensures
            final(self).wf(),
            final(self).state() == state_after(old(self).state(), slot@),
    {
        self.coverage.update(slot);
        self.length.update(slot);
        self.recency.update(slot);
        self.workload.update(slot);
    }
}

/// The built-in factors as they stand at the start of a run.
pub fn all(config: &Config) -> (factors: Factors)
    requires
        config.wf(),
    ensures
        factors.wf(),
        factors.state() == Factors::initial(config),
{
    Factors {
        coverage: Coverage::init(config),
        length: Length::init(config),
        recency: Recency::init(config),
        workload: Workload::init(config),
    }
}

} // verus!
