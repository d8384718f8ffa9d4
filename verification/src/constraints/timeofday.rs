//! The time-of-day rule: a daily clock window, which may run past midnight.

use crate::time::{day_index, day_of, day_start, lemma_day_of_bounds, lemma_day_of_monotonic};
use crate::time::{valid_day, ClockTime};
use crate::timerange::{all_wf, all_within, chronological, covers, none_zero, TimeRange};
use vstd::prelude::*;

verus! {

/// The clock window that opens on calendar day `d`: from `start` on that day
/// to `end` on the same day, or on the next day where `start` is not before
/// `end`.
pub open spec fn daily_window(start: ClockTime, end: ClockTime, d: int) -> TimeRange {
    TimeRange {
        start: (day_start(d) + start.secs) as i64,
        end: if start.secs < end.secs {
            (day_start(d) + end.secs) as i64
        } else {
            (day_start(d + 1) + end.secs) as i64
        },
    }
}

/// The time of `range` inside the clock windows that open on its calendar
/// days up to and including day `d`: one range for each window that shares
/// more than a point with `range`.
pub open spec fn daily_windows_upto(
    start: ClockTime,
    end: ClockTime,
    range: TimeRange,
    d: int,
) -> Seq<TimeRange>
    decreases d - day_of(range.start as int) + 1,
{
    if d < day_of(range.start as int) {
        Seq::empty()
    } else {
        let before = daily_windows_upto(start, end, range, d - 1);
        let window = daily_window(start, end, d);
        if range.touches(window) && !range.meet(window).zero() {
            before.push(range.meet(window))
        } else {
            before
        }
    }
}

/// The time of `range` inside the daily clock window: for each calendar day
/// from the day of `range.start` to the day of `range.end`, the part of
/// `range` in the window that opens on that day, where it is not empty.
pub open spec fn daily_windows(start: ClockTime, end: ClockTime, range: TimeRange) -> Seq<
    TimeRange,
> {
    daily_windows_upto(start, end, range, day_of(range.end as int))
}

/// What the time-of-day rule leaves of a range: well-formed, non-empty
/// ranges inside it, in chronological order, the last of them ending by the
/// end of the window that opens on day `d`.
pub proof fn lemma_daily_windows_upto(start: ClockTime, end: ClockTime, range: TimeRange, d: int)
    requires
        range.wf(),
        start.wf(),
        end.wf(),
        d <= day_of(range.end as int),
    ensures
        all_wf(daily_windows_upto(start, end, range, d)),
        none_zero(daily_windows_upto(start, end, range, d)),
        all_within(daily_windows_upto(start, end, range, d), range),
        chronological(daily_windows_upto(start, end, range, d)),
        forall|i: int|
            0 <= i < daily_windows_upto(start, end, range, d).len() ==> (
            #[trigger] daily_windows_upto(start, end, range, d)[i]).end <= daily_window(
                start,
                end,
                d,
            ).end,
    decreases d - day_of(range.start as int) + 1,
{
    if d >= day_of(range.start as int) {
        let before = daily_windows_upto(start, end, range, d - 1);
        let window = daily_window(start, end, d);
        let after = daily_windows_upto(start, end, range, d);
        lemma_daily_windows_upto(start, end, range, d - 1);
        lemma_day_of_bounds(range.start as int);
        lemma_day_of_bounds(range.end as int);
        assert(daily_window(start, end, d - 1).end <= window.start);
        assert(daily_window(start, end, d - 1).end <= window.end);
        if range.touches(window) && !range.meet(window).zero() {
            let piece = range.meet(window);
            assert forall|i: int| 0 <= i < after.len() implies (#[trigger] after[i]).wf()
                && !after[i].zero() && after[i].within(range) && after[i].end <= window.end by {
                if i < after.len() - 1 {
                    assert(after[i] == before[i]);
                }
            }
            assert forall|i: int, j: int| 0 <= i < j < after.len() implies (
            #[trigger] after[i]).end <= (#[trigger] after[j]).start by {
                assert(after[i] == before[i]);
                if j < after.len() - 1 {
                    assert(after[j] == before[j]);
                }
            }
        } else {
            assert forall|i: int| 0 <= i < after.len() implies (#[trigger] after[i]).end
                <= window.end by {
                assert(after[i] == before[i]);
            }
        }
    }
}

/// The instant `t` lies in the clock window that opens on one of the days
/// from the day of `range.start` to day `d`.
pub open spec fn in_window_upto(
    start: ClockTime,
    end: ClockTime,
    range: TimeRange,
    d: int,
    t: int,
) -> bool {
    exists|day: int|
        day_of(range.start as int) <= day <= d && (#[trigger] daily_window(start, end, day)).holds(
            t,
        )
}

/// Up to day `d`, the rule leaves exactly the instants of the range that
/// lie in the clock window that opens on one of its days.
pub proof fn lemma_daily_windows_upto_cover(
    start: ClockTime,
    end: ClockTime,
    range: TimeRange,
    d: int,
    t: int,
)
    requires
        range.wf(),
        start.wf(),
        end.wf(),
        d <= day_of(range.end as int),
    ensures
        covers(daily_windows_upto(start, end, range, d), t) <==> range.holds(t) && in_window_upto(
            start,
            end,
            range,
            d,
            t,
        ),
    decreases d - day_of(range.start as int) + 1,
{
    lemma_day_of_bounds(range.start as int);
    lemma_day_of_bounds(range.end as int);
    let first = day_of(range.start as int);
    if d >= first {
        let before = daily_windows_upto(start, end, range, d - 1);
        let after = daily_windows_upto(start, end, range, d);
        let window = daily_window(start, end, d);
        lemma_daily_windows_upto_cover(start, end, range, d - 1, t);
        let here = range.holds(t) && window.holds(t);
        assert(in_window_upto(start, end, range, d, t) <==> in_window_upto(
            start,
            end,
            range,
            d - 1,
            t,
        ) || window.holds(t)) by {
            if in_window_upto(start, end, range, d, t) {
                let day = choose|day: int|
                    first <= day <= d && (#[trigger] daily_window(start, end, day)).holds(t);
                if day < d {
                    assert(in_window_upto(start, end, range, d - 1, t));
                }
            }
            if in_window_upto(start, end, range, d - 1, t) {
                let day = choose|day: int|
                    first <= day <= d - 1 && (#[trigger] daily_window(start, end, day)).holds(t);
                assert(first <= day <= d);
            }
            if window.holds(t) {
                assert(daily_window(start, end, d).holds(t));
            }
        }
        if range.touches(window) && !range.meet(window).zero() {
            let piece = range.meet(window);
            assert(piece.holds(t) <==> here);
            assert(after == before.push(piece));
            assert(after[before.len() as int] == piece);
            if covers(after, t) {
                let i = choose|i: int| 0 <= i < after.len() && (#[trigger] after[i]).holds(t);
                if i < before.len() {
                    assert(before[i] == after[i]);
                }
            }
            if covers(before, t) {
                let i = choose|i: int| 0 <= i < before.len() && (#[trigger] before[i]).holds(t);
                assert(after[i] == before[i]);
            }
        } else {
            assert(!here);
        }
    } else {
        assert(!in_window_upto(start, end, range, d, t));
    }
}

/// The time-of-day rule leaves exactly the instants of the range that lie
/// in the clock window that opens on one of the range's calendar days.
pub proof fn lemma_daily_windows_cover(start: ClockTime, end: ClockTime, range: TimeRange, t: int)
    requires
        range.wf(),
        start.wf(),
        end.wf(),
    ensures
        covers(daily_windows(start, end, range), t) <==> range.holds(t) && in_window_upto(
            start,
            end,
            range,
            day_of(range.end as int),
            t,
        ),
{
    lemma_daily_windows_upto_cover(start, end, range, day_of(range.end as int), t);
}

/// Walks the calendar days of `range` and keeps its time inside the clock
/// window that opens on each.
pub fn time_of_day_ranges(start: ClockTime, end: ClockTime, range: TimeRange) -> (out: Vec<
    TimeRange,
>)
    requires
        range.wf(),
        start.wf(),
        end.wf(),
    ensures
        out@ == daily_windows(start, end, range),
{
    let first = day_index(range.start);
    let last = day_index(range.end);
    proof {
        lemma_day_of_bounds(range.start as int);
        lemma_day_of_bounds(range.end as int);
        lemma_day_of_monotonic(range.start as int, range.end as int);
    }
    let mut out: Vec<TimeRange> = Vec::new();
    let mut d: i64 = first;
    while d <= last
        invariant
            range.wf(),
            start.wf(),
            end.wf(),
            first == day_of(range.start as int),
            last == day_of(range.end as int),
            valid_day(first as int),
            valid_day(last as int),
            first <= d <= last + 1,
            out@ == daily_windows_upto(start, end, range, d - 1),
        decreases last + 1 - d,
    {
        let midnight: i64 = d * 86_400;
        let window = if start.secs < end.secs {
            TimeRange::new(midnight + start.secs as i64, midnight + end.secs as i64)
        } else {
            TimeRange::new(midnight + start.secs as i64, midnight + 86_400 + end.secs as i64)
        };
        assert(window == daily_window(start, end, d as int));
        match range.intersection(&window) {
            Some(piece) => {
                if !piece.is_zero() {
                    out.push(piece);
                }
            },
            None => {},
        }
        d = d + 1;
    }
    out
}

} // verus!
