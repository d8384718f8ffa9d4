//! Availability rules and the time that each leaves of a range.

pub mod dayofweek;
pub mod timeofday;
pub mod unavailable;

use crate::time::{ClockTime, Date, Weekday};
use crate::time::{day_of, weekday_of_day};
use crate::timerange::{all_wf, all_within, chronological, covers, none_zero, TimeRange};
use vstd::prelude::*;

verus! {

/// One availability rule.
#[derive(Debug)]
#[allow(inconsistent_fields)]
pub enum Constraint {
    /// Always satisfied.
    Unconstrained,
    /// Satisfied on the listed weekdays, from midnight to midnight.
    DayOfWeek(Vec<Weekday>),
    /// Satisfied during a daily clock window; where `start` is not before
    /// `end`, the window runs past midnight into the next day.
    TimeOfDay { start: ClockTime, end: ClockTime },
    /// Satisfied outside the calendar days from `start` to `end`, from
    /// midnight at the start of the first to 23:59:59 on the last.
    Unavailable { start: Date, end: Date },
}

impl Constraint {
    /// The rule's times and dates are valid, and its span of days does not
    /// run backwards.
    pub open spec fn wf(&self) -> bool {
        match self {
            Constraint::Unconstrained => true,
            Constraint::DayOfWeek(_) => true,
            Constraint::TimeOfDay { start, end } => start.wf() && end.wf(),
            Constraint::Unavailable { start, end } => start.wf() && end.wf() && start.days
                <= end.days,
        }
    }

    /// Whether the rule is well formed.
    pub fn check(&self) -> (valid: bool)
        ensures
            valid == self.wf(),
    {
        match self {
            Constraint::Unconstrained => true,
            Constraint::DayOfWeek(_) => true,
            Constraint::TimeOfDay { start, end } => start.check() && end.check(),
            Constraint::Unavailable { start, end } => start.check() && end.check() && start.days
                <= end.days,
        }
    }

    /// The time of `range` during which the rule holds, as ranges in
    /// chronological order.
    pub open spec fn suitable(&self, range: TimeRange) -> Seq<TimeRange> {
        match self {
            Constraint::Unconstrained => seq![range],
            Constraint::DayOfWeek(days) => dayofweek::listed_days(days@, range),
            Constraint::TimeOfDay { start, end } => timeofday::daily_windows(*start, *end, range),
            Constraint::Unavailable { start, end } => unavailable::outside_exclusion(
                *start,
                *end,
                range,
            ),
        }
    }

    /// The rule holds at the instant `t` of `range`: always; on a listed
    /// weekday; in the clock window that opens on one of the range's
    /// calendar days; or outside the excluded span of days.
    pub open spec fn holds_at(&self, range: TimeRange, t: int) -> bool {
        match self {
            Constraint::Unconstrained => true,
            Constraint::DayOfWeek(days) => days@.contains(weekday_of_day(day_of(t))),
            Constraint::TimeOfDay { start, end } => timeofday::in_window_upto(
                *start,
                *end,
                range,
                day_of(range.end as int),
                t,
            ),
            Constraint::Unavailable { start, end } => !unavailable::exclusion(*start, *end).holds(
                t,
            ),
        }
    }

    /// The time of each of `ranges` during which the rule holds, range after
    /// range.
    pub open spec fn suitable_in_all(&self, ranges: Seq<TimeRange>) -> Seq<TimeRange>
        decreases ranges.len(),
    {
        if ranges.len() == 0 {
            Seq::empty()
        } else {
            self.suitable_in_all(ranges.drop_last()) + self.suitable(ranges.last())
        }
    }

    /// The two rules are the same: the same kind with the same weekdays in
    /// the same order, the same clock times or the same dates.
    pub open spec fn same_as(&self, other: Constraint) -> bool {
        match (*self, other) {
            (Constraint::Unconstrained, Constraint::Unconstrained) => true,
            (Constraint::DayOfWeek(days), Constraint::DayOfWeek(others)) => days@ == others@,
            (
                Constraint::TimeOfDay { start, end },
                Constraint::TimeOfDay { start: other_start, end: other_end },
            ) => start == other_start && end == other_end,
            (
                Constraint::Unavailable { start, end },
                Constraint::Unavailable { start: other_start, end: other_end },
            ) => start == other_start && end == other_end,
            _ => false,
        }
    }

    /// Splits `range` into the ranges during which the rule holds.
    pub fn suitable_ranges(&self, range: TimeRange) -> (out: Vec<TimeRange>)
        requires
            self.wf(),
            range.wf(),
        ensures
            out@ == self.suitable(range),
            all_wf(out@),
            all_within(out@, range),
            chronological(out@),
            !range.zero() ==> none_zero(out@),
            forall|t: int|
                #[trigger] covers(out@, t) <==> range.holds(t) && self.holds_at(range, t),
    {
        proof {
            lemma_suitable(*self, range);
            assert forall|t: int| #[trigger]
                covers(self.suitable(range), t) <==> range.holds(t) && self.holds_at(
                    range,
                    t,
                ) by {
                lemma_suitable_covers(*self, range, t);
            }
        }
        match self {
            Constraint::Unconstrained => {
                let mut out: Vec<TimeRange> = Vec::new();
                out.push(range);
                assert(out@ =~= seq![range]);
                out
            },
            Constraint::DayOfWeek(days) => dayofweek::day_of_week_ranges(days, range),
            Constraint::TimeOfDay { start, end } => timeofday::time_of_day_ranges(
                *start,
                *end,
                range,
            ),
            Constraint::Unavailable { start, end } => unavailable::available_ranges(
                *start,
                *end,
                range,
            ),
        }
    }

    /// Splits each of `ranges` into the ranges during which the rule holds
    /// and strings the results together.
    pub fn flat_map(&self, ranges: &Vec<TimeRange>) -> (out: Vec<TimeRange>)
        requires
            self.wf(),
            all_wf(ranges@),
        ensures
            out@ == self.suitable_in_all(ranges@),
            all_wf(out@),
            chronological(ranges@) ==> chronological(out@),
            none_zero(ranges@) ==> none_zero(out@),
    {
        proof {
            if chronological(ranges@) {
                lemma_hull(ranges@);
                lemma_suitable_in_all(*self, ranges@, hull(ranges@));
            }
            lemma_suitable_in_all_none_zero(*self, ranges@);
        }
        let mut out: Vec<TimeRange> = Vec::new();
        let mut i: usize = 0;
        while i < ranges.len()
            invariant
                self.wf(),
                all_wf(ranges@),
                i <= ranges.len(),
                out@ == self.suitable_in_all(ranges@.take(i as int)),
                all_wf(out@),
            decreases ranges.len() - i,
        {
            let mut pieces = self.suitable_ranges(ranges[i]);
            proof {
                assert(ranges@.take(i as int + 1).drop_last() =~= ranges@.take(i as int));
                assert(ranges@.take(i as int + 1).last() == ranges@[i as int]);
            }
            out.append(&mut pieces);
            i = i + 1;
        }
        assert(ranges@.take(ranges.len() as int) =~= ranges@);
        out
    }
}

impl Clone for Constraint {
    fn clone(&self) -> (copy: Self)
        ensures
            copy.same_as(*self),
    {
        match self {
            Constraint::Unconstrained => Constraint::Unconstrained,
            Constraint::DayOfWeek(days) => {
                let mut copied: Vec<Weekday> = Vec::new();
                let mut i: usize = 0;
                while i < days.len()
                    invariant
                        i <= days.len(),
                        copied@ == days@.take(i as int),
                    decreases days.len() - i,
                {
                    copied.push(days[i]);
                    assert(copied@ =~= days@.take(i as int + 1));
                    i = i + 1;
                }
                assert(days@.take(days.len() as int) =~= days@);
                Constraint::DayOfWeek(copied)
            },
            Constraint::TimeOfDay { start, end } => Constraint::TimeOfDay {
                start: *start,
                end: *end,
            },
            Constraint::Unavailable { start, end } => Constraint::Unavailable {
                start: *start,
                end: *end,
            },
        }
    }
}

/// Rules that are the same are well formed together and leave the same of
/// every range.
pub proof fn lemma_same_rule(a: Constraint, b: Constraint, range: TimeRange)
    requires
        a.same_as(b),
    ensures
        a.wf() == b.wf(),
        a.suitable(range) == b.suitable(range),
{
}

/// What a rule leaves of a range: well-formed ranges inside it in
/// chronological order, none of them empty unless the range itself is.
pub proof fn lemma_suitable(constraint: Constraint, range: TimeRange)
    requires
        constraint.wf(),
        range.wf(),
    ensures
        all_wf(constraint.suitable(range)),
        all_within(constraint.suitable(range), range),
        chronological(constraint.suitable(range)),
        !range.zero() ==> none_zero(constraint.suitable(range)),
{
    match constraint {
        Constraint::Unconstrained => {},
        Constraint::DayOfWeek(days) => {
            dayofweek::lemma_listed_days_upto(days@, range, crate::time::day_of(range.end as int));
        },
        Constraint::TimeOfDay { start, end } => {
            timeofday::lemma_daily_windows_upto(
                start,
                end,
                range,
                crate::time::day_of(range.end as int),
            );
        },
        Constraint::Unavailable { start, end } => {
            unavailable::lemma_outside_exclusion(start, end, range);
        },
    }
}

/// A sequence of well-formed ranges in chronological order inside `outer`.
pub open spec fn tidy(s: Seq<TimeRange>, outer: TimeRange) -> bool {
    &&& all_wf(s)
    &&& chronological(s)
    &&& all_within(s, outer)
}

/// A rule applied to each of a tidy sequence of ranges leaves a tidy
/// sequence, which reaches no further than the sequence did and holds no
/// empty range unless the sequence did.
pub proof fn lemma_suitable_in_all(constraint: Constraint, ranges: Seq<TimeRange>, outer: TimeRange)
    requires
        constraint.wf(),
        tidy(ranges, outer),
    ensures
        tidy(constraint.suitable_in_all(ranges), outer),
        none_zero(ranges) ==> none_zero(constraint.suitable_in_all(ranges)),
        forall|i: int|
            0 <= i < constraint.suitable_in_all(ranges).len() ==> ranges.len() > 0 && (
            #[trigger] constraint.suitable_in_all(ranges)[i]).end <= ranges.last().end,
    decreases ranges.len(),
{
    if ranges.len() > 0 {
        let init = ranges.drop_last();
        let head = constraint.suitable_in_all(init);
        let tail = constraint.suitable(ranges.last());
        let all = constraint.suitable_in_all(ranges);
        assert(forall|i: int| 0 <= i < init.len() ==> init[i] == ranges[i]);
        lemma_suitable_in_all(constraint, init, outer);
        lemma_suitable(constraint, ranges.last());
        assert(all =~= head + tail);
        if init.len() > 0 {
            assert(init.last() == ranges[ranges.len() - 2]);
            assert(ranges[ranges.len() - 2].end <= ranges[ranges.len() - 1].start);
        }
        assert forall|i: int| 0 <= i < all.len() implies (#[trigger] all[i]).wf() && all[i].within(
            outer,
        ) && all[i].end <= ranges.last().end && (none_zero(ranges) ==> !all[i].zero()) by {
            if i < head.len() {
                assert(all[i] == head[i]);
            } else {
                assert(all[i] == tail[i - head.len()]);
                assert(ranges.last().within(outer));
                assert(!ranges.last().zero() ==> none_zero(tail));
            }
        }
        assert forall|i: int, j: int| 0 <= i < j < all.len() implies (#[trigger] all[i]).end <= (
        #[trigger] all[j]).start by {
            if j < head.len() {
                assert(all[i] == head[i] && all[j] == head[j]);
            } else if i < head.len() {
                assert(all[i] == head[i]);
                assert(all[j] == tail[j - head.len()]);
                assert(tail[j - head.len()].within(ranges.last()));
            } else {
                assert(all[i] == tail[i - head.len()]);
                assert(all[j] == tail[j - head.len()]);
            }
        }
    }
}

/// The range from the start of the first of a sequence to the end of its
/// last.
pub open spec fn hull(ranges: Seq<TimeRange>) -> TimeRange {
    if ranges.len() == 0 {
        TimeRange { start: 0, end: 0 }
    } else {
        TimeRange { start: ranges[0].start, end: ranges.last().end }
    }
}

/// Well-formed ranges in chronological order are a tidy sequence inside
/// their hull.
pub proof fn lemma_hull(ranges: Seq<TimeRange>)
    requires
        all_wf(ranges),
        chronological(ranges),
    ensures
        hull(ranges).wf(),
        tidy(ranges, hull(ranges)),
{
    if ranges.len() > 0 {
        let last = ranges.len() - 1;
        assert(ranges[0].wf() && ranges[last].wf());
        assert forall|i: int| 0 <= i < ranges.len() implies (#[trigger] ranges[i]).within(
            hull(ranges),
        ) by {
            assert(ranges[i].wf());
            if 0 < i {
                assert(ranges[0].end <= ranges[i].start);
            }
            if i < last {
                assert(ranges[i].end <= ranges[last].start);
            }
        }
    }
}

/// A rule applied to each of a sequence of well-formed ranges, none of them
/// empty, leaves no empty range.
pub proof fn lemma_suitable_in_all_none_zero(constraint: Constraint, ranges: Seq<TimeRange>)
    requires
        constraint.wf(),
        all_wf(ranges),
    ensures
        all_wf(constraint.suitable_in_all(ranges)),
        none_zero(ranges) ==> none_zero(constraint.suitable_in_all(ranges)),
    decreases ranges.len(),
{
    if ranges.len() > 0 {
        let init = ranges.drop_last();
        let head = constraint.suitable_in_all(init);
        let tail = constraint.suitable(ranges.last());
        let all = constraint.suitable_in_all(ranges);
        assert(forall|i: int| 0 <= i < init.len() ==> init[i] == ranges[i]);
        lemma_suitable_in_all_none_zero(constraint, init);
        lemma_suitable(constraint, ranges.last());
        assert forall|i: int| 0 <= i < all.len() implies (#[trigger] all[i]).wf() && (none_zero(
            ranges,
        ) ==> !all[i].zero()) by {
            if i < head.len() {
                assert(all[i] == head[i]);
            } else {
                assert(all[i] == tail[i - head.len()]);
                assert(!ranges.last().zero() ==> none_zero(tail));
            }
        }
    }
}

/// Rules applied in turn to well-formed ranges, none of them empty, leave
/// no empty range.
pub proof fn lemma_narrowed_none_zero(constraints: Seq<Constraint>, ranges: Seq<TimeRange>)
    requires
        all_constraints_wf(constraints),
        all_wf(ranges),
    ensures
        all_wf(narrowed(constraints, ranges)),
        none_zero(ranges) ==> none_zero(narrowed(constraints, ranges)),
    decreases constraints.len(),
{
    if constraints.len() > 0 {
        let init = constraints.drop_last();
        assert(forall|i: int| 0 <= i < init.len() ==> init[i] == constraints[i]);
        lemma_narrowed_none_zero(init, ranges);
        lemma_suitable_in_all_none_zero(constraints.last(), narrowed(init, ranges));
    }
}

/// What is left of `ranges` after each of `constraints` in turn has been
/// applied to what the ones before it left.
pub open spec fn narrowed(constraints: Seq<Constraint>, ranges: Seq<TimeRange>) -> Seq<TimeRange>
    decreases constraints.len(),
{
    if constraints.len() == 0 {
        ranges
    } else {
        constraints.last().suitable_in_all(narrowed(constraints.drop_last(), ranges))
    }
}

/// Every rule of the sequence is well formed.
pub open spec fn all_constraints_wf(constraints: Seq<Constraint>) -> bool {
    forall|i: int| 0 <= i < constraints.len() ==> (#[trigger] constraints[i]).wf()
}

/// Whether every rule of the list is well formed.
pub fn check_constraints(constraints: &Vec<Constraint>) -> (valid: bool)
    ensures
        valid == all_constraints_wf(constraints@),
{
    let mut i: usize = 0;
    while i < constraints.len()
        invariant
            i <= constraints.len(),
            forall|k: int| 0 <= k < i ==> (#[trigger] constraints@[k]).wf(),
        decreases constraints.len() - i,
    {
        if !constraints[i].check() {
            return false;
        }
        i = i + 1;
    }
    true
}

/// Copies a list of rules.
pub fn clone_constraints(constraints: &Vec<Constraint>) -> (copy: Vec<Constraint>)
    ensures
        same_rules(copy@, constraints@),
{
    let mut copy: Vec<Constraint> = Vec::new();
    let mut i: usize = 0;
    while i < constraints.len()
        invariant
            i <= constraints.len(),
            copy@.len() == i,
            forall|k: int| 0 <= k < i ==> (#[trigger] copy@[k]).same_as(constraints@[k]),
        decreases constraints.len() - i,
    {
        copy.push(constraints[i].clone());
        i = i + 1;
    }
    copy
}

/// The two lists hold the same rules in the same order.
pub open spec fn same_rules(a: Seq<Constraint>, b: Seq<Constraint>) -> bool {
    &&& a.len() == b.len()
    &&& forall|i: int| 0 <= i < a.len() ==> (#[trigger] a[i]).same_as(b[i])
}

/// Being the same rules does not depend on which list comes first.
pub proof fn lemma_same_rules_symmetric(a: Seq<Constraint>, b: Seq<Constraint>)
    requires
        same_rules(a, b),
    ensures
        same_rules(b, a),
{
    assert forall|i: int| 0 <= i < b.len() implies (#[trigger] b[i]).same_as(a[i]) by {
        assert(a[i].same_as(b[i]));
    }
}

/// Lists of the same rules are well formed together and leave the same of
/// the same ranges.
pub proof fn lemma_same_rules(a: Seq<Constraint>, b: Seq<Constraint>, ranges: Seq<TimeRange>)
    requires
        same_rules(a, b),
    ensures
        all_constraints_wf(a) == all_constraints_wf(b),
        narrowed(a, ranges) == narrowed(b, ranges),
    decreases a.len(),
{
    assert forall|i: int| 0 <= i < a.len() implies (#[trigger] a[i]).wf() == b[i].wf() by {
        lemma_same_rule(a[i], b[i], TimeRange { start: 0, end: 0 });
    }
    if all_constraints_wf(a) {
        assert forall|i: int| 0 <= i < b.len() implies (#[trigger] b[i]).wf() by {
            assert(a[i].wf() == b[i].wf());
        }
    }
    if all_constraints_wf(b) {
        assert forall|i: int| 0 <= i < a.len() implies (#[trigger] a[i]).wf() by {
            assert(a[i].wf() == b[i].wf());
        }
    }
    if a.len() > 0 {
        assert(a.last().same_as(b.last()));
        assert(same_rules(a.drop_last(), b.drop_last())) by {
            let (front, other) = (a.drop_last(), b.drop_last());
            assert forall|i: int| 0 <= i < front.len() implies (#[trigger] front[i]).same_as(
                other[i],
            ) by {
                assert(a[i].same_as(b[i]));
            }
        }
        lemma_same_rules(a.drop_last(), b.drop_last(), ranges);
        lemma_same_rule_in_all(a.last(), b.last(), narrowed(a.drop_last(), ranges));
    }
}

/// Rules that are the same leave the same of each of a sequence of ranges.
pub proof fn lemma_same_rule_in_all(a: Constraint, b: Constraint, ranges: Seq<TimeRange>)
    requires
        a.same_as(b),
    ensures
        a.suitable_in_all(ranges) == b.suitable_in_all(ranges),
    decreases ranges.len(),
{
    if ranges.len() > 0 {
        lemma_same_rule_in_all(a, b, ranges.drop_last());
        lemma_same_rule(a, b, ranges.last());
    }
}

/// Rules applied in turn to a tidy sequence of ranges leave a tidy sequence,
/// which holds no empty range unless the sequence did.
pub proof fn lemma_narrowed(constraints: Seq<Constraint>, ranges: Seq<TimeRange>, outer: TimeRange)
    requires
        all_constraints_wf(constraints),
        tidy(ranges, outer),
    ensures
        tidy(narrowed(constraints, ranges), outer),
        none_zero(ranges) ==> none_zero(narrowed(constraints, ranges)),
    decreases constraints.len(),
{
    if constraints.len() > 0 {
        let init = constraints.drop_last();
        assert(forall|i: int| 0 <= i < init.len() ==> init[i] == constraints[i]);
        lemma_narrowed(init, ranges, outer);
        lemma_suitable_in_all(constraints.last(), narrowed(init, ranges), outer);
    }
}

/// With no rule to apply, the ranges stay as they are.
pub proof fn lemma_narrowed_by_none(ranges: Seq<TimeRange>)
    ensures
        narrowed(Seq::<Constraint>::empty(), ranges) == ranges,
{
}

/// Narrows `ranges` by each of `constraints` in turn: every rule is applied
/// to what the rules before it left.
pub fn apply_constraints(constraints: &Vec<Constraint>, ranges: Vec<TimeRange>) -> (out: Vec<
    TimeRange,
>)
    requires
        all_constraints_wf(constraints@),
        all_wf(ranges@),
    ensures
        out@ == narrowed(constraints@, ranges@),
        all_wf(out@),
        chronological(ranges@) ==> chronological(out@),
        none_zero(ranges@) ==> none_zero(out@),
{
    proof {
        if chronological(ranges@) {
            lemma_hull(ranges@);
            lemma_narrowed(constraints@, ranges@, hull(ranges@));
        }
        lemma_narrowed_none_zero(constraints@, ranges@);
    }
    let mut current = ranges;
    let mut i: usize = 0;
    while i < constraints.len()
        invariant
            all_constraints_wf(constraints@),
            i <= constraints.len(),
            current@ == narrowed(constraints@.take(i as int), ranges@),
            all_wf(current@),
        decreases constraints.len() - i,
    {
        proof {
            assert(constraints@.take(i as int + 1).drop_last() =~= constraints@.take(i as int));
            assert(constraints@.take(i as int + 1).last() == constraints@[i as int]);
        }
        current = constraints[i].flat_map(&current);
        i = i + 1;
    }
    assert(constraints@.take(constraints.len() as int) =~= constraints@);
    current
}

/// What a rule leaves of a range are exactly the instants of the range at
/// which the rule holds.
pub proof fn lemma_suitable_covers(constraint: Constraint, range: TimeRange, t: int)
    requires
        constraint.wf(),
        range.wf(),
    ensures
        covers(constraint.suitable(range), t) <==> range.holds(t) && constraint.holds_at(range, t),
{
    match constraint {
        Constraint::Unconstrained => {
            let left = constraint.suitable(range);
            assert(left[0] == range);
            if covers(left, t) {
                let i = choose|i: int| 0 <= i < left.len() && (#[trigger] left[i]).holds(t);
            }
        },
        Constraint::DayOfWeek(days) => {
            dayofweek::lemma_listed_days_cover(days@, range, t);
        },
        Constraint::TimeOfDay { start, end } => {
            timeofday::lemma_daily_windows_cover(start, end, range, t);
        },
        Constraint::Unavailable { start, end } => {
            unavailable::lemma_outside_exclusion_cover(start, end, range, t);
        },
    }
}

/// The unconstrained rule leaves every range as it is.
pub proof fn lemma_unconstrained(range: TimeRange)
    ensures
        Constraint::Unconstrained.suitable(range) == seq![range],
{
}

/// A days-of-the-week rule that lists all seven weekdays leaves every
/// non-empty range as it is.
pub proof fn lemma_all_weekdays(days: Vec<Weekday>, range: TimeRange)
    requires
        range.wf(),
        !range.zero(),
        forall|w: Weekday| days@.contains(w),
    ensures
        Constraint::DayOfWeek(days).suitable(range) == seq![range],
{
    dayofweek::lemma_every_day_listed(days@, range);
}

} // verus!
