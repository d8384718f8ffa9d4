//! What a scheduling run is given: the shift length, the rules that hold for
//! everybody and the people with their own rules.

use crate::constraints::{
    all_constraints_wf, check_constraints, clone_constraints, same_rules, Constraint,
};
use crate::time::MAX_DURATION;
use vstd::prelude::*;

verus! {

/// One person's own rules and the workload they bring along from before
/// the run, in seconds.
#[derive(Debug)]
pub struct Human {
    pub constraints: Vec<Constraint>,
    pub prior_workload: i64,
}

impl Human {
    /// The rules are well formed and the prior workload is a duration that
    /// is not negative.
    pub open spec fn wf(&self) -> bool {
        &&& all_constraints_wf(self.constraints@)
        &&& 0 <= self.prior_workload <= MAX_DURATION
    }

    /// Whether the person is well formed.
    pub fn check(&self) -> (valid: bool)
        ensures
            valid == self.wf(),
    {
        check_constraints(&self.constraints) && 0 <= self.prior_workload && self.prior_workload
            <= MAX_DURATION
    }

    /// The two persons have the same rules and the same prior workload.
    pub open spec fn same_as(&self, other: Human) -> bool {
        same_rules(self.constraints@, other.constraints@) && self.prior_workload
            == other.prior_workload
    }

    pub fn with_constraints(self, constraints: Vec<Constraint>) -> (human: Self)
        ensures
            human.constraints == constraints,
            human.prior_workload == self.prior_workload,
    {
        Self { constraints, prior_workload: self.prior_workload }
    }

    pub fn with_prior_workload(self, prior_workload: i64) -> (human: Self)
        ensures
            human.constraints == self.constraints,
            human.prior_workload == prior_workload,
    {
        Self { constraints: self.constraints, prior_workload }
    }
}

impl Clone for Human {
    fn clone(&self) -> (copy: Self)
        ensures
            copy.same_as(*self),
    {
        Human {
            constraints: clone_constraints(&self.constraints),
            prior_workload: self.prior_workload,
        }
    }
}

impl Default for Human {
    /// A person without rules of their own and without prior workload.
    fn default() -> (human: Self)
        ensures
            human.constraints@ == Seq::<Constraint>::empty(),
            human.prior_workload == 0,
            human.wf(),
    {
        Self { constraints: Vec::new(), prior_workload: 0 }
    }
}

/// The configuration of a scheduling run.
#[derive(Debug)]
pub struct Config {
    /// The length of one shift in seconds, a whole number of days.
    pub shift_length: i64,
    /// The rules that hold for everybody, in the order in which they apply.
    pub constraints: Vec<Constraint>,
    /// The people by identifier.
    pub humans: Vec<(String, Human)>,
}

impl Config {
    /// The shift length is a duration, and all rules and people are well
    /// formed.
    pub open spec fn wf(&self) -> bool {
        &&& -MAX_DURATION <= self.shift_length <= MAX_DURATION
        &&& all_constraints_wf(self.constraints@)
        &&& forall|i: int| 0 <= i < self.humans@.len() ==> (#[trigger] self.humans@[i]).1.wf()
    }

    /// Whether the configuration is well formed.
    pub fn check(&self) -> (valid: bool)
        ensures
            valid == self.wf(),
    {
        if self.shift_length < -MAX_DURATION || self.shift_length > MAX_DURATION {
            return false;
        }
        if !check_constraints(&self.constraints) {
            return false;
        }
        let mut i: usize = 0;
        while i < self.humans.len()
            invariant
                i <= self.humans.len(),
                forall|k: int| 0 <= k < i ==> (#[trigger] self.humans@[k]).1.wf(),
            decreases self.humans.len() - i,
        {
            if !self.humans[i].1.check() {
                return false;
            }
            i = i + 1;
        }
        true
    }

    /// The two configurations have the same shift length, the same rules
    /// for everybody and the same people in the same order.
    pub open spec fn same_as(&self, other: Config) -> bool {
        &&& self.shift_length == other.shift_length
        &&& same_rules(self.constraints@, other.constraints@)
        &&& self.humans@.len() == other.humans@.len()
        &&& forall|i: int|
            0 <= i < self.humans@.len() ==> (#[trigger] self.humans@[i]).0@ == other.humans@[i].0@
                && self.humans@[i].1.same_as(other.humans@[i].1)
    }

    /// No two people have the same identifier.
    pub open spec fn distinct_people(&self) -> bool {
        forall|i: int, j: int|
            0 <= i < j < self.humans@.len() ==> (#[trigger] self.humans@[i]).0@ != (
            #[trigger] self.humans@[j]).0@
    }

    /// One of the people is called `name` and is the same as `human`.
    pub open spec fn lists(&self, name: Seq<char>, human: Human) -> bool {
        exists|k: int|
            0 <= k < self.humans@.len() && (#[trigger] self.humans@[k]).0@ == name
                && self.humans@[k].1.same_as(human)
    }

    /// The two configurations differ at most in the order of their people:
    /// they have the same shift length and the same rules for everybody,
    /// and each lists every person of the other.
    pub open spec fn reordered(&self, other: Config) -> bool {
        &&& self.shift_length == other.shift_length
        &&& same_rules(self.constraints@, other.constraints@)
        &&& forall|k: int|
            0 <= k < self.humans@.len() ==> other.lists(
                (#[trigger] self.humans@[k]).0@,
                self.humans@[k].1,
            )
        &&& forall|k: int|
            0 <= k < other.humans@.len() ==> self.lists(
                (#[trigger] other.humans@[k]).0@,
                other.humans@[k].1,
            )
    }

    /// The shift length in whole days, which is at least one: a shift length
    /// of less than a day, or a negative one of less than a day, counts as
    /// one day.
    pub open spec fn shift_days(&self) -> int {
        let length: int = if self.shift_length < 0 {
            -self.shift_length
        } else {
            self.shift_length as int
        };
        if length / 86_400 < 1 {
            1
        } else {
            length / 86_400
        }
    }

    /// The shift length in whole days, at least one.
    pub fn rotation_days(&self) -> (days: i64)
        requires
            self.wf(),
        ensures
            days == self.shift_days(),
            1 <= days <= MAX_DURATION / 86_400,
    {
        let length: i64 = if self.shift_length < 0 {
            -self.shift_length
        } else {
            self.shift_length
        };
        let days: i64 = length / 86_400;
        if days < 1 {
            1
        } else {
            days
        }
    }
}

impl Clone for Config {
    fn clone(&self) -> (copy: Self)
        ensures
            copy.same_as(*self),
    {
        let mut humans: Vec<(String, Human)> = Vec::new();
        let mut i: usize = 0;
        while i < self.humans.len()
            invariant
                i <= self.humans.len(),
                humans@.len() == i,
                forall|k: int|
                    0 <= k < i ==> (#[trigger] humans@[k]).0@ == self.humans@[k].0@
                        && humans@[k].1.same_as(self.humans@[k].1),
            decreases self.humans.len() - i,
        {
            humans.push((self.humans[i].0.clone(), self.humans[i].1.clone()));
            i = i + 1;
        }
        Config {
            shift_length: self.shift_length,
            constraints: clone_constraints(&self.constraints),
            humans,
        }
    }
}

} // verus!
