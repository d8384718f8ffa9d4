//! The unavailability rule: a closed span of calendar days cut out.

use crate::time::{day_start, Date};
use crate::timerange::{all_wf, all_within, chronological, covers, none_zero, TimeRange};
use vstd::prelude::*;

verus! {

/// The span that the rule cuts out: from midnight at the start of `start` to
/// 23:59:59 on `end`.
pub open spec fn exclusion(start: Date, end: Date) -> TimeRange {
    TimeRange {
        start: day_start(start.days as int) as i64,
        end: (day_start(end.days as int) + 86_399) as i64,
    }
}

/// What is left of `range` outside the excluded span. Where the two share no
/// more than a point, that is `range` itself; else the part before the
/// conflict and the part after it, each only where it is not empty.
pub open spec fn outside_exclusion(start: Date, end: Date, range: TimeRange) -> Seq<TimeRange> {
    let excluded = exclusion(start, end);
    if !range.touches(excluded) || range.meet(excluded).zero() {
        seq![range]
    } else {
        let conflict = range.meet(excluded);
        let before = if conflict.start != range.start {
            seq![TimeRange { start: range.start, end: conflict.start }]
        } else {
            Seq::empty()
        };
        let after = if conflict.end != range.end {
            seq![TimeRange { start: conflict.end, end: range.end }]
        } else {
            Seq::empty()
        };
        before + after
    }
}

/// What the unavailability rule leaves of a range: well-formed ranges inside
/// it in chronological order, none of them empty unless the range itself is.
pub proof fn lemma_outside_exclusion(start: Date, end: Date, range: TimeRange)
    requires
        range.wf(),
        start.wf(),
        end.wf(),
        start.days <= end.days,
    ensures
        all_wf(outside_exclusion(start, end, range)),
        all_within(outside_exclusion(start, end, range), range),
        chronological(outside_exclusion(start, end, range)),
        !range.zero() ==> none_zero(outside_exclusion(start, end, range)),
{
}

/// The unavailability rule leaves exactly the instants of the range that
/// lie outside the excluded span.
pub proof fn lemma_outside_exclusion_cover(start: Date, end: Date, range: TimeRange, t: int)
    requires
        range.wf(),
        start.wf(),
        end.wf(),
        start.days <= end.days,
    ensures
        covers(outside_exclusion(start, end, range), t) <==> range.holds(t) && !exclusion(
            start,
            end,
        ).holds(t),
{
    let left = outside_exclusion(start, end, range);
    let excluded = exclusion(start, end);
    if covers(left, t) {
        let i = choose|i: int| 0 <= i < left.len() && (#[trigger] left[i]).holds(t);
        assert(left[i].holds(t));
    }
    if range.holds(t) && !excluded.holds(t) {
        if !range.touches(excluded) || range.meet(excluded).zero() {
            assert(left[0] == range);
        } else {
            let conflict = range.meet(excluded);
            if t < conflict.start {
                assert(left[0] == TimeRange { start: range.start, end: conflict.start });
            } else {
                let last = TimeRange { start: conflict.end, end: range.end };
                assert(left[left.len() - 1] == last);
                assert(left[left.len() - 1].holds(t));
            }
        }
    }
}

/// Cuts the excluded span of days out of `range`.
pub fn available_ranges(start: Date, end: Date, range: TimeRange) -> (out: Vec<TimeRange>)
    requires
        range.wf(),
        start.wf(),
        end.wf(),
    ensures
        out@ == outside_exclusion(start, end, range),
{
    let excluded = TimeRange::new(start.days * 86_400, end.days * 86_400 + 86_399);
    let mut out: Vec<TimeRange> = Vec::new();
    match range.intersection(&excluded) {
        Some(conflict) => {
            if conflict.is_zero() {
                out.push(range);
            } else {
                if conflict.start != range.start {
                    out.push(TimeRange::new(range.start, conflict.start));
                }
                if conflict.end != range.end {
                    out.push(TimeRange::new(conflict.end, range.end));
                }
            }
        },
        None => {
            out.push(range);
        },
    }
    assert(out@ =~= outside_exclusion(start, end, range));
    out
}

} // verus!
