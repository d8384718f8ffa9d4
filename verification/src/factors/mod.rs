//! Cost factors: scorers that say how much each candidate should be spared
//! in the rotation at hand, and the candidates that they score.

pub mod coverage;
pub mod length;
pub mod panel;
pub mod recency;
pub mod workload;

pub use panel::{all, Factors, FactorsState};

use crate::config::Config;
use crate::ledger::{greatest, least, lemma_least_greatest, value_of, Ledger};
use crate::solver::ScheduleSlot;
use crate::text::{lemma_name_order, name_le, same_text};
use crate::timerange::TimeRange;
use vstd::prelude::*;

verus! {

/// The cost that stands for 1: costs are fixed-point numbers counted in
/// units of one part in `COST_SCALE`.
pub const COST_SCALE: u128 = 1_000_000_000_000_000;

/// What one factor says of one candidate: a cost in units of one part in
/// [`COST_SCALE`], lower for the candidate to prefer, and the weight with
/// which it enters the candidate's aggregate cost.
#[derive(Debug, Clone, Copy, PartialEq, Eq, Structural)]
pub struct Cost {
    pub cost: u128,
    pub weight: u64,
}

/// The quotient `num / den` as a cost, rounded down.
pub open spec fn ratio_cost(num: int, den: int) -> int {
    num * COST_SCALE / den
}

/// A quotient of a part by the whole is a cost between 0 and 1.
pub proof fn lemma_ratio_cost_bounds(num: int, den: int)
    requires
        0 <= num <= den,
        0 < den,
    ensures
        0 <= ratio_cost(num, den) <= COST_SCALE,
{
    let scaled = num * COST_SCALE;
    assert(0 <= scaled <= den * COST_SCALE) by (nonlinear_arith)
        requires
            0 <= num <= den,
            scaled == num * COST_SCALE,
    ;
    assert(0 <= scaled / den <= COST_SCALE) by (nonlinear_arith)
        requires
            0 <= scaled <= den * COST_SCALE,
            0 < den,
    ;
}

/// Where the amount filed under `name` stands between the smallest and the
/// largest amount of the mapping, from 0 for the smallest to 1 for the
/// largest; `None` where all amounts are equal or none is filed under
/// `name`.
pub open spec fn standing(book: Seq<(Seq<char>, int)>, name: Seq<char>) -> Option<int> {
    let lo = least(book);
    let hi = greatest(book);
    if hi == lo {
        None
    } else {
        match value_of(book, name) {
            Some(value) => Some(ratio_cost(value - lo, hi - lo)),
            None => None,
        }
    }
}

/// A standing is a cost between 0 and 1.
pub proof fn lemma_standing(book: Seq<(Seq<char>, int)>, name: Seq<char>)
    ensures
        standing(book, name) matches Some(c) ==> 0 <= c <= COST_SCALE,
{
    if standing(book, name) is Some {
        lemma_least_greatest(book);
        let i = crate::ledger::index_of(book, name);
        assert(least(book) <= book[i].1 <= greatest(book));
        lemma_ratio_cost_bounds(book[i].1 - least(book), greatest(book) - least(book));
    }
}

/// Computes where the amount filed under `name` stands between the smallest
/// and the largest amount of the ledger.
pub fn standing_cost(ledger: &Ledger, name: &str) -> (cost: Option<u128>)
    requires
        ledger.wf(),
    ensures
        match cost {
            Some(c) => standing(ledger@, name@) == Some(c as int) && c <= COST_SCALE,
            None => standing(ledger@, name@) is None,
        },
{
    proof {
        lemma_standing(ledger@, name@);
    }
    let lo = ledger.min_value();
    let hi = ledger.max_value();
    if hi == lo {
        return None;
    }
    match ledger.get(name) {
        Some(value) => {
            proof {
                lemma_least_greatest(ledger@);
                let i = crate::ledger::index_of(ledger@, name@);
                assert(least(ledger@) <= ledger@[i].1 <= greatest(ledger@));
            }
            let delta: u128 = (value as i128 - lo as i128) as u128;
            let range: u128 = (hi as i128 - lo as i128) as u128;
            Some(delta * COST_SCALE / range)
        },
        None => None,
    }
}

/// A scorer with a say in how candidates are ranked. It may keep a running
/// state, which `update` moves on by one finalized slot at a time.
pub trait Optimizer: Sized {
    /// What the factor remembers, as contracts see it.
    type State;

    /// What the factor remembers.
    spec fn state(&self) -> Self::State;

    /// What the factor remembers is consistent.
    spec fn wf(&self) -> bool;

    /// What the factor remembers at the start of a run.
    spec fn initial(config: &Config) -> Self::State;

    /// The factor's name.
    spec fn label(&self) -> Seq<char>;

    /// The factor's weight.
    spec fn importance(&self) -> u64;

    /// The slot can be taken in without an amount running over.
    spec fn takes(&self, slot: &ScheduleSlot) -> bool;

    /// What the factor remembers once the slot has been taken in.
    spec fn state_after(&self, slot: &ScheduleSlot) -> Self::State;

    /// The slots can be scored without an amount running over.
    spec fn scores(&self, slots: Seq<TimeRange>, candidate: &Candidate) -> bool;

    /// The candidate's cost in units of one part in [`COST_SCALE`], or
    /// `None` where the factor abstains.
    spec fn price(&self, slots: Seq<TimeRange>, candidate: &Candidate) -> Option<int>;

    /// The factor as it stands at the start of a run.
    fn init(config: &Config) -> (factor: Self)
        requires
            config.wf(),
        ensures
            factor.wf(),
            factor.state() == Self::initial(config),
    ;

    /// The name under which the factor's costs are filed.
    fn name(&self) -> (name: &'static str)
        ensures
            name@ == self.label(),
    ;

    /// The weight with which the factor's cost enters the aggregate.
    fn weight(&self) -> (weight: u64)
        ensures
            weight == self.importance(),
    ;

    /// Takes in one finalized slot.
    fn update(&mut self, slot: &ScheduleSlot)
        requires
            old(self).wf(),
            old(self).takes(slot),
        ensures
            final(self).wf(),
            final(self).state() == old(self).state_after(slot),
    ;

    /// The candidate's cost for the slots to fill, lower for the candidate
    /// to prefer, or `None` where the factor abstains.
    fn cost(&self, config: &Config, slots_to_fill: &[TimeRange], candidate: &Candidate) -> (cost:
        Option<u128>)
        requires
            self.wf(),
            self.scores(slots_to_fill@, candidate),
        ensures
            match cost {
                Some(c) => self.price(slots_to_fill@, candidate) == Some(c as int),
                None => self.price(slots_to_fill@, candidate) is None,
            },
    ;

    /// Files the factor's cost with the candidate, unless the factor
    /// abstains.
    fn populate<'a>(
        &self,
        config: &Config,
        slots_to_fill: &[TimeRange],
        candidate: &mut Candidate<'a>,
    )
        requires
            self.wf(),
            self.scores(slots_to_fill@, old(candidate)),
            old(candidate).wf(),
        ensures
            final(candidate).wf(),
            final(candidate).human@ == old(candidate).human@,
            final(candidate).available_slots@ == old(candidate).available_slots@,
            final(candidate).costs() == match self.price(slots_to_fill@, old(candidate)) {
                Some(c) => with_factor(
                    old(candidate).costs(),
                    self.label(),
                    Cost { cost: c as u128, weight: self.importance() },
                ),
                None => old(candidate).costs(),
            },
    {
        if let Some(cost) = self.cost(config, slots_to_fill, candidate) {
            candidate.add_factor(self.name(), Cost { cost, weight: self.weight() });
        }
    }
}

/// The sum over the factors of cost times weight.
pub open spec fn weighted_sum(factors: Seq<(Seq<char>, Cost)>) -> int
    decreases factors.len(),
{
    if factors.len() == 0 {
        0
    } else {
        weighted_sum(factors.drop_last()) + factors.last().1.cost * factors.last().1.weight
    }
}

/// The sum of the factors' weights.
pub open spec fn weight_sum(factors: Seq<(Seq<char>, Cost)>) -> int
    decreases factors.len(),
{
    if factors.len() == 0 {
        0
    } else {
        weight_sum(factors.drop_last()) + factors.last().1.weight
    }
}

/// The weighted average of the factors' costs, rounded down; 0 where no
/// factor has a say.
pub open spec fn aggregate(factors: Seq<(Seq<char>, Cost)>) -> int {
    if weight_sum(factors) == 0 {
        0
    } else {
        weighted_sum(factors) / weight_sum(factors)
    }
}

/// No factor name occurs twice.
pub open spec fn distinct_factors(s: Seq<(Seq<char>, Cost)>) -> bool {
    forall|i: int, j: int| 0 <= i < j < s.len() ==> (#[trigger] s[i]).0 != (#[trigger] s[j]).0
}

/// Some cost is filed under `name`.
pub open spec fn has_factor(s: Seq<(Seq<char>, Cost)>, name: Seq<char>) -> bool {
    exists|i: int| 0 <= i < s.len() && (#[trigger] s[i]).0 == name
}

/// The place of a cost filed under `name`.
pub open spec fn factor_index(s: Seq<(Seq<char>, Cost)>, name: Seq<char>) -> int {
    choose|i: int| 0 <= i < s.len() && (#[trigger] s[i]).0 == name
}

/// The factors with `cost` filed under `name`: in place of the cost that was
/// there, or as a new last entry.
pub open spec fn with_factor(s: Seq<(Seq<char>, Cost)>, name: Seq<char>, cost: Cost) -> Seq<
    (Seq<char>, Cost),
> {
    if has_factor(s, name) {
        s.update(factor_index(s, name), (name, cost))
    } else {
        s.push((name, cost))
    }
}

/// Filing a cost keeps the factor names unrepeated.
pub proof fn lemma_with_factor_distinct(s: Seq<(Seq<char>, Cost)>, name: Seq<char>, cost: Cost)
    requires
        distinct_factors(s),
    ensures
        distinct_factors(with_factor(s, name, cost)),
{
    let t = with_factor(s, name, cost);
    let at = if has_factor(s, name) {
        factor_index(s, name)
    } else {
        s.len() as int
    };
    assert forall|i: int, j: int| 0 <= i < j < t.len() implies (#[trigger] t[i]).0 != (
    #[trigger] t[j]).0 by {
        if i != at && i < s.len() {
            assert(t[i] == s[i]);
        }
        if j != at && j < s.len() {
            assert(t[j] == s[j]);
        }
    }
}

/// A person who can take at least one slot of the rotation at hand, with
/// what the factors say of them.
#[derive(Debug)]
pub struct Candidate<'a> {
    /// The person's identifier.
    pub human: &'a str,
    /// For each slot of the rotation, whether the person can take it.
    pub available_slots: Vec<bool>,
    /// The cost that each factor with a say gives the person, by the
    /// factor's name.
    pub factors: Vec<(&'a str, Cost)>,
}

/// A candidate as contracts see it.
pub struct CandidateView {
    pub human: Seq<char>,
    pub available_slots: Seq<bool>,
    pub factors: Seq<(Seq<char>, Cost)>,
}

impl CandidateView {
    /// The person can take slot `i`.
    pub open spec fn can_take(&self, i: int) -> bool {
        0 <= i < self.available_slots.len() && self.available_slots[i]
    }

    /// The person can take some slot.
    pub open spec fn available(&self) -> bool {
        exists|i: int| self.can_take(i)
    }

    /// The person's aggregate cost.
    pub open spec fn total_cost(&self) -> int {
        aggregate(self.factors)
    }

    /// This candidate is ranked no later than `other`: its aggregate cost is
    /// lower, or the costs are equal and its identifier does not come after
    /// the other's.
    pub open spec fn outranks(&self, other: CandidateView) -> bool {
        self.total_cost() < other.total_cost() || (self.total_cost() == other.total_cost()
            && name_le(self.human, other.human))
    }
}

/// The ranking of candidates is a total preorder in which only candidates of
/// one identifier and one cost are tied.
pub proof fn lemma_outranks(a: CandidateView, b: CandidateView, c: CandidateView)
    ensures
        a.outranks(a),
        a.outranks(b) || b.outranks(a),
        a.outranks(b) && b.outranks(c) ==> a.outranks(c),
        a.outranks(b) && b.outranks(a) ==> a.human == b.human && a.total_cost() == b.total_cost(),
{
    lemma_name_order(a.human, b.human, c.human);
    lemma_name_order(b.human, a.human, c.human);
}

impl<'a> View for Candidate<'a> {
    type V = CandidateView;

    open spec fn view(&self) -> CandidateView {
        CandidateView {
            human: self.human@,
            available_slots: self.available_slots@,
            factors: self.costs(),
        }
    }
}

impl<'a> Candidate<'a> {
    /// The factors' costs by name, as contracts see them.
    pub open spec fn costs(&self) -> Seq<(Seq<char>, Cost)> {
        Seq::new(self.factors@.len(), |i: int| (self.factors@[i].0@, self.factors@[i].1))
    }

    /// No factor name occurs twice.
    pub open spec fn wf(&self) -> bool {
        distinct_factors(self.costs())
    }

    /// The person can take slot `i`.
    pub open spec fn can_take(&self, i: int) -> bool {
        0 <= i < self.available_slots@.len() && self.available_slots@[i]
    }

    /// The person's aggregate cost.
    pub open spec fn total_cost(&self) -> int {
        aggregate(self.costs())
    }

    pub fn new(human: &'a str, available_slots: Vec<bool>) -> (candidate: Self)
        ensures
            candidate.human@ == human@,
            candidate.available_slots@ == available_slots@,
            candidate.costs() == Seq::<(Seq<char>, Cost)>::empty(),
            candidate.wf(),
    {
        let candidate = Self { human, available_slots, factors: Vec::new() };
        assert(candidate.costs() =~= Seq::<(Seq<char>, Cost)>::empty());
        candidate
    }

    /// Whether the person can take any slot at all.
    pub fn is_available(&self) -> (available: bool)
        ensures
            available == exists|i: int| self.can_take(i),
    {
        let mut i: usize = 0;
        while i < self.available_slots.len()
            invariant
                i <= self.available_slots.len(),
                forall|k: int| 0 <= k < i ==> !self.can_take(k),
            decreases self.available_slots.len() - i,
        {
            if self.available_slots[i] {
                assert(self.can_take(i as int));
                return true;
            }
            i = i + 1;
        }
        false
    }

    /// Files `cost` under the factor name `name`, in place of the cost that
    /// was filed there or as a new last entry.
    pub fn add_factor(&mut self, name: &'a str, cost: Cost)
        requires
            old(self).wf(),
        ensures
            final(self).wf(),
            final(self).human@ == old(self).human@,
            final(self).available_slots@ == old(self).available_slots@,
            final(self).costs() == with_factor(old(self).costs(), name@, cost),
    {
        proof {
            lemma_with_factor_distinct(self.costs(), name@, cost);
        }
        let mut i: usize = 0;
        while i < self.factors.len()
            invariant
                self.wf(),
                *self == *old(self),
                i <= self.factors.len(),
                forall|k: int| 0 <= k < i ==> (#[trigger] self.costs()[k]).0 != name@,
            decreases self.factors.len() - i,
        {
            if same_text(self.factors[i].0, name) {
                proof {
                    assert(self.costs()[i as int].0 == name@);
                    let j = factor_index(self.costs(), name@);
                    if j < i {
                        assert(self.costs()[j].0 != self.costs()[i as int].0);
                    } else if i < j {
                        assert(self.costs()[i as int].0 != self.costs()[j].0);
                    }
                }
                let ghost before = self.costs();
                self.factors.set(i, (name, cost));
                assert(self.costs() =~= before.update(i as int, (name@, cost)));
                return ;
            }
            i = i + 1;
        }
        let ghost before = self.costs();
        self.factors.push((name, cost));
        assert(self.costs() =~= before.push((name@, cost)));
    }

    /// The aggregate cost by which candidates are ranked, lower first: the
    /// weighted average of the factors' costs, rounded down, and 0 where no
    /// factor has a say.
    pub fn cost(&self) -> (total: u128)
        requires
            weighted_sum(self.costs()) <= u128::MAX,
        ensures
            total == self.total_cost(),
    {
        let mut sum: u128 = 0;
        let mut weight: u128 = 0;
        let mut i: usize = 0;
        while i < self.factors.len()
            invariant
                i <= self.factors.len(),
                weighted_sum(self.costs()) <= u128::MAX,
                sum == weighted_sum(self.costs().take(i as int)),
                weight == weight_sum(self.costs().take(i as int)),
                weight <= i * u64::MAX,
            decreases self.factors.len() - i,
        {
            proof {
                assert(self.costs().take(i as int + 1).drop_last() =~= self.costs().take(i as int));
                assert(self.costs().take(i as int + 1).last() == self.costs()[i as int]);
                lemma_weighted_sum_prefix(self.costs(), i as int + 1);
                assert(i * u64::MAX + u64::MAX == (i + 1) * u64::MAX) by (nonlinear_arith);
                assert(self.factors.len() * u64::MAX <= usize::MAX * u64::MAX) by (nonlinear_arith)
                    requires
                        self.factors.len() <= usize::MAX,
                ;
                assert(i * u64::MAX <= (self.factors.len() - 1) * u64::MAX) by (nonlinear_arith)
                    requires
                        i <= self.factors.len() - 1,
                ;
            }
            let entry = self.factors[i].1;
            assert(entry.cost * entry.weight >= 0) by (nonlinear_arith);
            sum = sum + entry.cost * (entry.weight as u128);
            weight = weight + entry.weight as u128;
            i = i + 1;
        }
        assert(self.costs().take(self.factors.len() as int) =~= self.costs());
        if weight == 0 {
            0
        } else {
            sum / weight
        }
    }
}

/// The weighted sum of the first `n` factors is no more than that of all.
pub proof fn lemma_weighted_sum_prefix(factors: Seq<(Seq<char>, Cost)>, n: int)
    requires
        0 <= n <= factors.len(),
    ensures
        0 <= weighted_sum(factors.take(n)) <= weighted_sum(factors),
    decreases factors.len() - n,
{
    if n == factors.len() {
        assert(factors.take(n) =~= factors);
        lemma_weighted_sum_nonnegative(factors);
    } else {
        lemma_weighted_sum_prefix(factors, n + 1);
        assert(factors.take(n + 1).drop_last() =~= factors.take(n));
        let last = factors.take(n + 1).last().1;
        assert(last.cost * last.weight >= 0) by (nonlinear_arith);
        lemma_weighted_sum_nonnegative(factors.take(n));
    }
}

/// A weighted sum is never negative.
pub proof fn lemma_weighted_sum_nonnegative(factors: Seq<(Seq<char>, Cost)>)
    ensures
        weighted_sum(factors) >= 0,
    decreases factors.len(),
{
    if factors.len() > 0 {
        lemma_weighted_sum_nonnegative(factors.drop_last());
        let last = factors.last().1;
        assert(last.cost * last.weight >= 0) by (nonlinear_arith);
    }
}

} // verus!
