//! Closed time ranges and ordered sequences of them.

use crate::time::{is_valid_timestamp, valid_timestamp};
use vstd::prelude::*;

verus! {

/// A span of time from `start` to `end`, both inclusive, in seconds since
/// 1970-01-01T00:00:00.
#[derive(Debug, Clone, Copy, PartialEq, Eq, Structural, Hash, PartialOrd, Ord)]
pub struct TimeRange {
    pub start: i64,
    pub end: i64,
}

impl TimeRange {
    /// Both ends are valid timestamps and the range does not run backwards.
    pub open spec fn wf(&self) -> bool {
        &&& valid_timestamp(self.start as int)
        &&& valid_timestamp(self.end as int)
        &&& self.start <= self.end
    }

    /// The range is empty: its two ends coincide.
    pub open spec fn zero(&self) -> bool {
        self.start == self.end
    }

    /// The duration of the range in seconds.
    pub open spec fn length(&self) -> int {
        self.end - self.start
    }

    /// The two ranges overlap or touch.
    pub open spec fn touches(&self, other: TimeRange) -> bool {
        self.start <= other.end && other.start <= self.end
    }

    /// The part that two touching ranges share.
    pub open spec fn meet(&self, other: TimeRange) -> TimeRange {
        TimeRange {
            start: if self.start >= other.start {
                self.start
            } else {
                other.start
            },
            end: if self.end <= other.end {
                self.end
            } else {
                other.end
            },
        }
    }

    /// The single range that two touching ranges cover together.
    pub open spec fn join(&self, other: TimeRange) -> TimeRange {
        TimeRange {
            start: if self.start <= other.start {
                self.start
            } else {
                other.start
            },
            end: if self.end >= other.end {
                self.end
            } else {
                other.end
            },
        }
    }

    /// This range comes before `other` where ranges are sorted: it starts
    /// earlier, or starts at the same time and ends earlier.
    pub open spec fn sorts_before(&self, other: TimeRange) -> bool {
        self.start < other.start || (self.start == other.start && self.end < other.end)
    }

    /// The range holds the instant `t`, its end not counted as part of it.
    pub open spec fn holds(&self, t: int) -> bool {
        self.start <= t < self.end
    }

    /// This range lies inside `outer`.
    pub open spec fn within(&self, outer: TimeRange) -> bool {
        outer.start <= self.start && self.end <= outer.end
    }

    /// Whether both ends are valid timestamps and the range does not run
    /// backwards.
    pub fn check(&self) -> (valid: bool)
        ensures
            valid == self.wf(),
    {
        is_valid_timestamp(self.start) && is_valid_timestamp(self.end) && self.start <= self.end
    }

    pub fn new(start: i64, end: i64) -> (r: Self)
        ensures
            r == (TimeRange { start, end }),
    {
        Self { start, end }
    }

    pub fn is_zero(&self) -> (b: bool)
        ensures
            b == self.zero(),
    {
        self.start == self.end
    }

    /// Whether `time` lies in the range, either end included.
    pub fn contains(&self, time: i64) -> (b: bool)
        ensures
            b == (self.start <= time <= self.end),
    {
        time >= self.start && time <= self.end
    }

    pub fn len(&self) -> (d: i64)
        requires
            self.wf(),
        ensures
            d == self.length(),
            d >= 0,
    {
        self.end - self.start
    }

    /// The part shared with `other`, which is empty where the two merely
    /// touch; `None` where they are strictly apart.
    pub fn intersection(&self, other: &TimeRange) -> (r: Option<TimeRange>)
        ensures
            r == if self.touches(*other) {
                Some(self.meet(*other))
            } else {
                None
            },
    {
        if self.start > other.end || self.end < other.start {
            None
        } else {
            Some(
                TimeRange {
                    start: if self.start >= other.start {
                        self.start
                    } else {
                        other.start
                    },
                    end: if self.end <= other.end {
                        self.end
                    } else {
                        other.end
                    },
                },
            )
        }
    }

    /// The range covered together with `other`; `None` where the two are
    /// strictly apart and so cover no single range.
    pub fn union(&self, other: &TimeRange) -> (r: Option<TimeRange>)
        ensures
            r == if self.touches(*other) {
                Some(self.join(*other))
            } else {
                None
            },
    {
        if self.start > other.end || self.end < other.start {
            None
        } else {
            Some(
                TimeRange {
                    start: if self.start <= other.start {
                        self.start
                    } else {
                        other.start
                    },
                    end: if self.end >= other.end {
                        self.end
                    } else {
                        other.end
                    },
                },
            )
        }
    }

    /// Whether this range comes before `other` where ranges are sorted, by
    /// start and then by end.
    pub fn precedes(&self, other: &TimeRange) -> (b: bool)
        ensures
            b == self.sorts_before(*other),
    {
        self.start < other.start || (self.start == other.start && self.end < other.end)
    }

    pub fn contiguous(&self, other: &TimeRange) -> (b: bool)
        ensures
            b == self.touches(*other),
    {
        self.start <= other.end && self.end >= other.start
    }
}

/// Two ranges have no intersection exactly when one ends strictly before the
/// other starts. Where they have one, it does not depend on the order of the
/// two, is a well-formed range, and lies inside both.
pub proof fn lemma_intersection(a: TimeRange, b: TimeRange)
    requires
        a.wf(),
        b.wf(),
    ensures
        !a.touches(b) <==> (a.end < b.start || b.end < a.start),
        a.touches(b) == b.touches(a),
        a.touches(b) ==> {
            &&& a.meet(b) == b.meet(a)
            &&& a.meet(b).wf()
            &&& a.meet(b).within(a)
            &&& a.meet(b).within(b)
        },
{
}

/// Where two ranges touch, their union does not depend on the order of the
/// two, is a well-formed range, and holds both.
pub proof fn lemma_union(a: TimeRange, b: TimeRange)
    requires
        a.wf(),
        b.wf(),
        a.touches(b),
    ensures
        a.join(b) == b.join(a),
        a.join(b).wf(),
        a.within(a.join(b)),
        b.within(a.join(b)),
        a.join(b).length() <= a.length() + b.length(),
{
}

/// Every range of the sequence is well formed.
pub open spec fn all_wf(s: Seq<TimeRange>) -> bool {
    forall|i: int| 0 <= i < s.len() ==> (#[trigger] s[i]).wf()
}

/// No range of the sequence is empty.
pub open spec fn none_zero(s: Seq<TimeRange>) -> bool {
    forall|i: int| 0 <= i < s.len() ==> !(#[trigger] s[i]).zero()
}

/// Every range of the sequence lies inside `outer`.
pub open spec fn all_within(s: Seq<TimeRange>, outer: TimeRange) -> bool {
    forall|i: int| 0 <= i < s.len() ==> (#[trigger] s[i]).within(outer)
}

/// The ranges come in chronological order and share at most end points:
/// each ends no later than the next one starts.
pub open spec fn chronological(s: Seq<TimeRange>) -> bool {
    forall|i: int, j: int| 0 <= i < j < s.len() ==> (#[trigger] s[i]).end <= (#[trigger] s[j]).start
}

/// Well-formed ranges in chronological order are sorted by start and then
/// by end.
pub proof fn lemma_chronological_sorted(s: Seq<TimeRange>, i: int, j: int)
    requires
        all_wf(s),
        chronological(s),
        0 <= i < j < s.len(),
    ensures
        s[i] == s[j] || s[i].sorts_before(s[j]),
{
    assert(s[i].wf() && s[j].wf());
    assert(s[i].end <= s[j].start);
}

/// The ranges come in chronological order with a gap between any two: each
/// ends before the next one starts.
pub open spec fn separated(s: Seq<TimeRange>) -> bool {
    forall|i: int, j: int| 0 <= i < j < s.len() ==> (#[trigger] s[i]).end < (#[trigger] s[j]).start
}

/// Some range of the sequence holds the instant `t`, the end of a range not
/// counted as part of it.
pub open spec fn covers(s: Seq<TimeRange>, t: int) -> bool {
    exists|i: int| 0 <= i < s.len() && (#[trigger] s[i]).holds(t)
}

/// The sum of the lengths of the ranges.
pub open spec fn total_length(s: Seq<TimeRange>) -> int
    decreases s.len(),
{
    if s.len() == 0 {
        0
    } else {
        total_length(s.drop_last()) + s.last().length()
    }
}

/// The total length of two sequences in a row is the sum of their totals.
pub proof fn lemma_total_length_concat(a: Seq<TimeRange>, b: Seq<TimeRange>)
    ensures
        total_length(a + b) == total_length(a) + total_length(b),
    decreases b.len(),
{
    if b.len() == 0 {
        assert(a + b =~= a);
    } else {
        assert((a + b).drop_last() =~= a + b.drop_last());
        lemma_total_length_concat(a, b.drop_last());
    }
}

/// Well-formed ranges have a total length that is not negative.
pub proof fn lemma_total_length_nonnegative(s: Seq<TimeRange>)
    requires
        all_wf(s),
    ensures
        total_length(s) >= 0,
    decreases s.len(),
{
    if s.len() > 0 {
        lemma_total_length_nonnegative(s.drop_last());
    }
}

/// The first `n` of a sequence of well-formed ranges are together no longer
/// than all of them.
pub proof fn lemma_total_length_prefix(s: Seq<TimeRange>, n: int)
    requires
        all_wf(s),
        0 <= n <= s.len(),
    ensures
        0 <= total_length(s.take(n)) <= total_length(s),
    decreases s.len() - n,
{
    if n == s.len() {
        assert(s.take(n) =~= s);
        lemma_total_length_nonnegative(s);
    } else {
        lemma_total_length_prefix(s, n + 1);
        assert(s.take(n + 1).drop_last() =~= s.take(n));
        assert(s.take(n + 1).last() == s[n]);
        assert(all_wf(s.take(n))) by {
            let first = s.take(n);
            assert forall|i: int| 0 <= i < first.len() implies (#[trigger] first[i]).wf() by {
                assert(first[i] == s[i]);
            }
        }
        lemma_total_length_nonnegative(s.take(n));
    }
}

/// Ranges in chronological order inside `outer` reach from their first start
/// to their last end at most, so together they are no longer than `outer`.
pub proof fn lemma_total_length_bounded(s: Seq<TimeRange>, outer: TimeRange)
    requires
        all_wf(s),
        chronological(s),
        all_within(s, outer),
        outer.wf(),
    ensures
        0 <= total_length(s) <= outer.length(),
        s.len() > 0 ==> total_length(s) <= s.last().end - outer.start,
    decreases s.len(),
{
    if s.len() > 0 {
        let init = s.drop_last();
        lemma_total_length_bounded(init, outer);
        if init.len() > 0 {
            assert(init.last() == s[s.len() - 2]);
            assert(s[s.len() - 2].end <= s[s.len() - 1].start);
        }
        assert(s.last().within(outer));
    }
}

} // verus!
