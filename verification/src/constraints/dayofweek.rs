//! The days-of-the-week rule: whole calendar days on listed weekdays.

use crate::time::{day_index, day_of, day_start, lemma_day_of_bounds, lemma_day_of_monotonic};
use crate::time::{weekday_of_day, Weekday};
use crate::timerange::{
    all_wf, all_within, chronological, covers, none_zero, separated, TimeRange,
};
use vstd::prelude::*;

verus! {

/// Calendar day `d` from midnight to midnight.
pub open spec fn whole_day(d: int) -> TimeRange {
    TimeRange { start: day_start(d) as i64, end: day_start(d + 1) as i64 }
}

/// `acc` with `piece` taken in at its end: an empty piece is dropped, one
/// that touches the last range is merged into it, any other is appended.
pub open spec fn absorb(acc: Seq<TimeRange>, piece: TimeRange) -> Seq<TimeRange> {
    if piece.zero() {
        acc
    } else if acc.len() > 0 && acc.last().touches(piece) {
        acc.drop_last().push(acc.last().join(piece))
    } else {
        acc.push(piece)
    }
}

/// The time of `range` that falls on listed weekdays, up to and including
/// calendar day `d`, with runs of listed days merged into single ranges.
pub open spec fn listed_days_upto(days: Seq<Weekday>, range: TimeRange, d: int) -> Seq<TimeRange>
    decreases d - day_of(range.start as int) + 1,
{
    if d < day_of(range.start as int) {
        Seq::empty()
    } else {
        let before = listed_days_upto(days, range, d - 1);
        if days.contains(weekday_of_day(d)) {
            absorb(before, range.meet(whole_day(d)))
        } else {
            before
        }
    }
}

/// The time of `range` that falls on listed weekdays: for each calendar day
/// from the day of `range.start` to the day of `range.end` whose weekday is
/// listed, the part of `range` on that day, runs of such days merged.
pub open spec fn listed_days(days: Seq<Weekday>, range: TimeRange) -> Seq<TimeRange> {
    listed_days_upto(days, range, day_of(range.end as int))
}

/// The part of `range` on one of its days is a well-formed range inside it
/// that starts no earlier than the day and ends no later.
pub proof fn lemma_day_piece(range: TimeRange, d: int)
    requires
        range.wf(),
        day_of(range.start as int) <= d <= day_of(range.end as int),
    ensures
        range.touches(whole_day(d)),
        range.meet(whole_day(d)).wf(),
        range.meet(whole_day(d)).within(range),
        range.meet(whole_day(d)).start >= day_start(d),
        range.meet(whole_day(d)).end <= day_start(d + 1),
        range.meet(whole_day(d)).start == if range.start >= day_start(d) {
            range.start as int
        } else {
            day_start(d)
        },
        range.meet(whole_day(d)).end == if range.end <= day_start(d + 1) {
            range.end as int
        } else {
            day_start(d + 1)
        },
{
    lemma_day_of_bounds(range.start as int);
    lemma_day_of_bounds(range.end as int);
}

/// What the days-of-the-week rule leaves of a range: well-formed, non-empty
/// ranges inside it, in chronological order with a gap between any two, the
/// last of them ending by the end of day `d`.
pub proof fn lemma_listed_days_upto(days: Seq<Weekday>, range: TimeRange, d: int)
    requires
        range.wf(),
        d <= day_of(range.end as int),
    ensures
        all_wf(listed_days_upto(days, range, d)),
        none_zero(listed_days_upto(days, range, d)),
        all_within(listed_days_upto(days, range, d), range),
        chronological(listed_days_upto(days, range, d)),
        forall|i: int|
            0 <= i < listed_days_upto(days, range, d).len() ==> (#[trigger] listed_days_upto(
                days,
                range,
                d,
            )[i]).end <= day_start(d + 1),
    decreases d - day_of(range.start as int) + 1,
{
    if d >= day_of(range.start as int) {
        let before = listed_days_upto(days, range, d - 1);
        let piece = range.meet(whole_day(d));
        let after = listed_days_upto(days, range, d);
        lemma_listed_days_upto(days, range, d - 1);
        lemma_day_piece(range, d);
        if days.contains(weekday_of_day(d)) && !piece.zero() {
            if before.len() > 0 && before.last().touches(piece) {
                let merged = before.last().join(piece);
                assert(before.last().wf());
                assert(before.last().end <= day_start(d));
                assert(merged.start == before.last().start);
                assert(merged.end == piece.end);
                assert forall|i: int| 0 <= i < after.len() implies (#[trigger] after[i]).wf()
                    && !after[i].zero() && after[i].within(range) && after[i].end <= day_start(
                    d + 1,
                ) by {
                    if i < after.len() - 1 {
                        assert(after[i] == before[i]);
                    }
                }
                assert forall|i: int, j: int| 0 <= i < j < after.len() implies (
                #[trigger] after[i]).end <= (#[trigger] after[j]).start by {
                    assert(after[i] == before[i]);
                    if j < after.len() - 1 {
                        assert(after[j] == before[j]);
                    } else {
                        assert(before[i].end <= before[before.len() - 1].start);
                    }
                }
            } else {
                assert forall|i: int| 0 <= i < after.len() implies (#[trigger] after[i]).wf()
                    && !after[i].zero() && after[i].within(range) && after[i].end <= day_start(
                    d + 1,
                ) by {
                    if i < after.len() - 1 {
                        assert(after[i] == before[i]);
                    }
                }
                assert forall|i: int, j: int| 0 <= i < j < after.len() implies (
                #[trigger] after[i]).end <= (#[trigger] after[j]).start by {
                    assert(after[i] == before[i]);
                    if j < after.len() - 1 {
                        assert(after[j] == before[j]);
                    } else {
                        assert(before[i].end <= day_start(d));
                    }
                }
            }
        }
    }
}

/// The days-of-the-week rule merges runs of listed days: between any two
/// ranges that it leaves lies a gap.
pub proof fn lemma_listed_days_separated(days: Seq<Weekday>, range: TimeRange, d: int)
    requires
        range.wf(),
        d <= day_of(range.end as int),
    ensures
        separated(listed_days_upto(days, range, d)),
    decreases d - day_of(range.start as int) + 1,
{
    if d >= day_of(range.start as int) {
        let before = listed_days_upto(days, range, d - 1);
        let piece = range.meet(whole_day(d));
        let after = listed_days_upto(days, range, d);
        lemma_listed_days_separated(days, range, d - 1);
        lemma_listed_days_upto(days, range, d - 1);
        lemma_day_piece(range, d);
        if days.contains(weekday_of_day(d)) && !piece.zero() {
            assert forall|i: int, j: int| 0 <= i < j < after.len() implies (#[trigger] after[i]).end
                < (#[trigger] after[j]).start by {
                let last = before.len() - 1;
                if before.len() > 0 && before.last().touches(piece) {
                    assert(after[i] == before[i]);
                    if j < last {
                        assert(after[j] == before[j]);
                    } else {
                        assert(before[last].wf());
                        assert(before[i].end < before[last].start);
                        assert(after[j].start == before[last].start);
                    }
                } else {
                    assert(after[i] == before[i]);
                    if j <= last {
                        assert(after[j] == before[j]);
                    } else {
                        assert(after[j] == piece);
                        assert(before[last].wf());
                        assert(before[last].end <= day_start(d));
                        if i < last {
                            assert(before[i].end < before[last].start);
                        }
                    }
                }
            }
        }
    }
}

/// What is taken in covers what was covered before and the piece, where the
/// piece starts no earlier than all that was covered ends.
pub proof fn lemma_absorb_covers(acc: Seq<TimeRange>, piece: TimeRange, t: int)
    requires
        all_wf(acc),
        piece.wf(),
        forall|i: int| 0 <= i < acc.len() ==> (#[trigger] acc[i]).end <= piece.start,
    ensures
        covers(absorb(acc, piece), t) <==> covers(acc, t) || piece.holds(t),
{
    let after = absorb(acc, piece);
    if piece.zero() {
    } else if acc.len() > 0 && acc.last().touches(piece) {
        let last = acc.last();
        let merged = last.join(piece);
        assert(acc[acc.len() - 1] == last);
        assert(last.wf() && last.end <= piece.start);
        assert(merged.start == last.start && merged.end == piece.end);
        assert(after[acc.len() - 1] == merged);
        if covers(after, t) {
            let i = choose|i: int| 0 <= i < after.len() && (#[trigger] after[i]).holds(t);
            if i < acc.len() - 1 {
                assert(acc[i] == after[i]);
            } else if t < last.end {
                assert(acc[acc.len() - 1].holds(t));
            }
        }
        if covers(acc, t) {
            let i = choose|i: int| 0 <= i < acc.len() && (#[trigger] acc[i]).holds(t);
            if i < acc.len() - 1 {
                assert(after[i] == acc[i]);
            } else {
                assert(after[acc.len() - 1].holds(t));
            }
        }
        if piece.holds(t) {
            assert(after[acc.len() - 1].holds(t));
        }
    } else {
        assert(after[acc.len() as int] == piece);
        if covers(after, t) {
            let i = choose|i: int| 0 <= i < after.len() && (#[trigger] after[i]).holds(t);
            if i < acc.len() {
                assert(acc[i] == after[i]);
            }
        }
        if covers(acc, t) {
            let i = choose|i: int| 0 <= i < acc.len() && (#[trigger] acc[i]).holds(t);
            assert(after[i] == acc[i]);
        }
    }
}

/// Up to day `d`, the rule leaves exactly the instants of the range that
/// fall on listed weekdays.
pub proof fn lemma_listed_days_upto_cover(days: Seq<Weekday>, range: TimeRange, d: int, t: int)
    requires
        range.wf(),
        d <= day_of(range.end as int),
    ensures
        covers(listed_days_upto(days, range, d), t) <==> range.holds(t) && day_of(t) <= d
            && days.contains(weekday_of_day(day_of(t))),
    decreases d - day_of(range.start as int) + 1,
{
    lemma_day_of_bounds(range.start as int);
    lemma_day_of_bounds(range.end as int);
    if d >= day_of(range.start as int) {
        let before = listed_days_upto(days, range, d - 1);
        let piece = range.meet(whole_day(d));
        lemma_listed_days_upto_cover(days, range, d - 1, t);
        lemma_listed_days_upto(days, range, d - 1);
        lemma_day_piece(range, d);
        assert(piece.holds(t) <==> range.holds(t) && day_of(t) == d);
        if days.contains(weekday_of_day(d)) {
            lemma_absorb_covers(before, piece, t);
        }
    }
}

/// The days-of-the-week rule leaves exactly the instants of the range that
/// fall on listed weekdays.
pub proof fn lemma_listed_days_cover(days: Seq<Weekday>, range: TimeRange, t: int)
    requires
        range.wf(),
    ensures
        covers(listed_days(days, range), t) <==> range.holds(t) && days.contains(
            weekday_of_day(day_of(t)),
        ),
{
    lemma_listed_days_upto_cover(days, range, day_of(range.end as int), t);
}

/// With every weekday listed, the days of a non-empty range up to day `d`
/// merge into one range from its start.
proof fn lemma_every_day_listed_upto(days: Seq<Weekday>, range: TimeRange, d: int)
    requires
        range.wf(),
        !range.zero(),
        forall|w: Weekday| days.contains(w),
        day_of(range.start as int) <= d <= day_of(range.end as int),
    ensures
        listed_days_upto(days, range, d) == seq![
            TimeRange {
                start: range.start,
                end: if range.end <= day_start(d + 1) {
                    range.end
                } else {
                    day_start(d + 1) as i64
                },
            },
        ],
    decreases d - day_of(range.start as int),
{
    lemma_day_of_bounds(range.start as int);
    lemma_day_of_bounds(range.end as int);
    lemma_day_piece(range, d);
    let before = listed_days_upto(days, range, d - 1);
    let piece = range.meet(whole_day(d));
    assert(days.contains(weekday_of_day(d)));
    if d == day_of(range.start as int) {
        assert(before =~= Seq::<TimeRange>::empty());
        assert(!piece.zero());
        assert(absorb(before, piece) =~= seq![piece]);
    } else {
        lemma_every_day_listed_upto(days, range, d - 1);
        assert(before.last().end == day_start(d));
        assert(piece.start == day_start(d));
        if !piece.zero() {
            assert(before.last().touches(piece));
            assert(absorb(before, piece) =~= seq![before.last().join(piece)]);
        }
    }
}

/// With every weekday listed, the rule leaves a non-empty range whole.
pub proof fn lemma_every_day_listed(days: Seq<Weekday>, range: TimeRange)
    requires
        range.wf(),
        !range.zero(),
        forall|w: Weekday| days.contains(w),
    ensures
        listed_days(days, range) == seq![range],
{
    lemma_day_of_bounds(range.end as int);
    lemma_day_of_monotonic(range.start as int, range.end as int);
    lemma_every_day_listed_upto(days, range, day_of(range.end as int));
}

/// Whether `day` is among `days`.
pub fn lists_weekday(days: &Vec<Weekday>, day: Weekday) -> (b: bool)
    ensures
        b == days@.contains(day),
{
    let mut i: usize = 0;
    while i < days.len()
        invariant
            i <= days.len(),
            forall|k: int| 0 <= k < i ==> days@[k] != day,
        decreases days.len() - i,
    {
        if days[i] == day {
            return true;
        }
        i = i + 1;
    }
    false
}

/// Walks the calendar days of `range` and keeps its time on listed weekdays,
/// merging runs of listed days.
pub fn day_of_week_ranges(days: &Vec<Weekday>, range: TimeRange) -> (out: Vec<TimeRange>)
    requires
        range.wf(),
    ensures
        out@ == listed_days(days@, range),
{
    let first = day_index(range.start);
    let last = day_index(range.end);
    proof {
        lemma_day_of_bounds(range.start as int);
        lemma_day_of_bounds(range.end as int);
        lemma_day_of_monotonic(range.start as int, range.end as int);
    }
    let mut out: Vec<TimeRange> = Vec::new();
    let mut d: i64 = first;
    while d <= last
        invariant
            range.wf(),
            first == day_of(range.start as int),
            last == day_of(range.end as int),
            crate::time::valid_day(first as int),
            crate::time::valid_day(last as int),
            first <= d <= last + 1,
            out@ == listed_days_upto(days@, range, d - 1),
        decreases last + 1 - d,
    {
        proof {
            lemma_day_piece(range, d as int);
        }
        if lists_weekday(days, Weekday::of_day(d)) {
            let day_begin: i64 = d * 86_400;
            let day_end: i64 = (d + 1) * 86_400;
            let piece = TimeRange::new(
                if range.start >= day_begin {
                    range.start
                } else {
                    day_begin
                },
                if range.end <= day_end {
                    range.end
                } else {
                    day_end
                },
            );
            assert(piece == range.meet(whole_day(d as int)));
            if !piece.is_zero() {
                let n = out.len();
                if n > 0 {
                    let merged = out[n - 1].union(&piece);
                    match merged {
                        Some(joined) => {
                            let ghost before = out@;
                            out.set(n - 1, joined);
                            assert(out@ =~= before.drop_last().push(joined));
                        },
                        None => {
                            out.push(piece);
                        },
                    }
                } else {
                    out.push(piece);
                }
            }
        }
        d = d + 1;
    }
    out
}

} // verus!
