//! Figures drawn from a finished schedule: how much each person works, how
//! long their longest run of slots is, and how often runs of each length
//! came to an end.

use crate::ledger::{
    amount, distinct_names, greatest, has_name, index_of, least, lemma_sum_with_value,
    lemma_with_value, sum_of, value_of, with_value, Ledger,
};
use crate::solver::assign::ranked;
use crate::solver::{slot_times, slot_views, ScheduleSlot, SlotView};
use crate::timerange::{all_wf, lemma_total_length_prefix, total_length};
use vstd::prelude::*;

verus! {

/// The figures of a schedule. Durations are in seconds; slots that nobody
/// was assigned to count for the person called `UNASSIGNED`.
#[derive(Debug)]
pub struct Summary {
    /// The total length of each person's slots.
    pub workload: Ledger,
    /// The length of each person's longest run of slots in a row.
    pub longest_shift: Ledger,
    /// For each length in whole hours, how many runs of that length were
    /// followed by a slot of another person.
    pub shift_length_histogram: Vec<(i64, usize)>,
}

/// What has been counted after some slots of a schedule.
pub struct Tally {
    pub workload: Seq<(Seq<char>, int)>,
    pub longest_shift: Seq<(Seq<char>, int)>,
    pub histogram: Seq<(int, int)>,
    /// The person of the latest slot with the length of their run so far.
    pub current: Option<(Seq<char>, int)>,
}

/// A duration in whole hours, rounded towards zero.
pub open spec fn whole_hours(seconds: int) -> int {
    if seconds >= 0 {
        seconds / 3600
    } else {
        -((-seconds) / 3600)
    }
}

/// The name that a slot is counted for.
pub open spec fn counted_for(slot: SlotView) -> Seq<char> {
    match slot.human {
        Some(name) => name,
        None => "UNASSIGNED"@,
    }
}

/// Some count is filed under `key`.
pub open spec fn has_key(s: Seq<(int, int)>, key: int) -> bool {
    exists|i: int| 0 <= i < s.len() && (#[trigger] s[i]).0 == key
}

/// The place of a count filed under `key`.
pub open spec fn key_index(s: Seq<(int, int)>, key: int) -> int {
    choose|i: int| 0 <= i < s.len() && (#[trigger] s[i]).0 == key
}

/// No key occurs twice.
pub open spec fn distinct_keys(s: Seq<(int, int)>) -> bool {
    forall|i: int, j: int| 0 <= i < j < s.len() ==> (#[trigger] s[i]).0 != (#[trigger] s[j]).0
}

/// The histogram with one more under `key`.
pub open spec fn counted(s: Seq<(int, int)>, key: int) -> Seq<(int, int)> {
    if has_key(s, key) {
        s.update(key_index(s, key), (key, s[key_index(s, key)].1 + 1))
    } else {
        s.push((key, 1))
    }
}

/// What has been counted after one more slot. The slot's length goes on top
/// of its person's workload. Where the person is the one of the slot before,
/// their run grows by the slot's length; else a new run starts, and the run
/// that ended is counted in the histogram under its length in whole hours.
/// The person's longest shift is the run where that is longer.
pub open spec fn tally_after(tally: Tally, slot: SlotView) -> Tally {
    let name = counted_for(slot);
    let length = slot.time.length();
    let run = match tally.current {
        Some((holder, so_far)) if holder == name => so_far + length,
        _ => length,
    };
    Tally {
        workload: with_value(tally.workload, name, amount(tally.workload, name) + length),
        longest_shift: match value_of(tally.longest_shift, name) {
            Some(longest) if longest >= run => tally.longest_shift,
            _ => with_value(tally.longest_shift, name, run),
        },
        histogram: match tally.current {
            Some((holder, so_far)) if holder != name => counted(
                tally.histogram,
                whole_hours(so_far),
            ),
            _ => tally.histogram,
        },
        current: Some((name, run)),
    }
}

/// What has been counted after all slots of a schedule, taken in order.
pub open spec fn tally_of(slots: Seq<SlotView>) -> Tally
    decreases slots.len(),
{
    if slots.len() == 0 {
        Tally {
            workload: Seq::empty(),
            longest_shift: Seq::empty(),
            histogram: Seq::empty(),
            current: None,
        }
    } else {
        tally_after(tally_of(slots.drop_last()), slots.last())
    }
}

/// What is known of a tally of well-formed slots: no name and no key occurs
/// twice, no amount is negative or above the total length of the slots, and
/// no count is above the number of slots.
pub open spec fn tally_ok(tally: Tally, total: int, slots: int) -> bool {
    &&& 0 <= total
    &&& 0 <= slots
    &&& distinct_names(tally.workload)
    &&& distinct_names(tally.longest_shift)
    &&& distinct_keys(tally.histogram)
    &&& forall|i: int|
        0 <= i < tally.workload.len() ==> 0 <= (#[trigger] tally.workload[i]).1 <= total
    &&& forall|i: int|
        0 <= i < tally.longest_shift.len() ==> 0 <= (#[trigger] tally.longest_shift[i]).1 <= total
    &&& forall|i: int|
        0 <= i < tally.histogram.len() ==> 0 <= (#[trigger] tally.histogram[i]).1 <= slots
    &&& tally.current matches Some((_, run)) ==> 0 <= run <= total
}

/// One more well-formed slot keeps a tally in order.
pub proof fn lemma_tally_after(tally: Tally, slot: SlotView, total: int, slots: int)
    requires
        tally_ok(tally, total, slots),
        slot.time.wf(),
    ensures
        tally_ok(tally_after(tally, slot), total + slot.time.length(), slots + 1),
{
    let after = tally_after(tally, slot);
    let name = counted_for(slot);
    let length = slot.time.length();
    let bound = total + length;
    let run = match tally.current {
        Some((holder, so_far)) if holder == name => so_far + length,
        _ => length,
    };
    // workload
    let sum = amount(tally.workload, name) + length;
    lemma_with_value(tally.workload, name, sum);
    if has_name(tally.workload, name) {
        assert(0 <= tally.workload[index_of(tally.workload, name)].1 <= total);
    }
    let at = if has_name(tally.workload, name) {
        index_of(tally.workload, name)
    } else {
        tally.workload.len() as int
    };
    assert(after.workload == with_value(tally.workload, name, sum));
    assert(0 <= sum <= bound);
    assert forall|i: int| 0 <= i < after.workload.len() implies 0 <= (
    #[trigger] after.workload[i]).1 <= bound by {
        if i != at {
            assert(after.workload[i] == tally.workload[i]);
            assert(0 <= tally.workload[i].1 <= total);
        } else {
            assert(after.workload[i] == (name, sum));
        }
    }
    // longest shift
    lemma_with_value(tally.longest_shift, name, run);
    let at = if has_name(tally.longest_shift, name) {
        index_of(tally.longest_shift, name)
    } else {
        tally.longest_shift.len() as int
    };
    assert forall|i: int| 0 <= i < after.longest_shift.len() implies 0 <= (
    #[trigger] after.longest_shift[i]).1 <= bound by {
        if after.longest_shift == tally.longest_shift {
            assert(0 <= tally.longest_shift[i].1 <= total);
        } else if i != at {
            assert(after.longest_shift[i] == tally.longest_shift[i]);
            assert(0 <= tally.longest_shift[i].1 <= total);
        } else {
            assert(after.longest_shift[i] == (name, run));
        }
    }
    // histogram
    if let Some((holder, so_far)) = tally.current {
        if holder != name {
            let key = whole_hours(so_far);
            let hist = tally.histogram;
            let at = if has_key(hist, key) {
                key_index(hist, key)
            } else {
                hist.len() as int
            };
            if has_key(hist, key) {
                assert(0 <= hist[at].1 <= slots);
            }
            assert(after.histogram == counted(hist, key));
            assert forall|i: int| 0 <= i < after.histogram.len() implies 0 <= (
            #[trigger] after.histogram[i]).1 <= slots + 1 by {
                if i != at {
                    assert(after.histogram[i] == hist[i]);
                    assert(0 <= hist[i].1 <= slots);
                } else if has_key(hist, key) {
                    assert(after.histogram[i] == (key, hist[at].1 + 1));
                } else {
                    assert(after.histogram[i] == (key, 1int));
                }
            }
            assert forall|i: int, j: int| 0 <= i < j < after.histogram.len() implies (
            #[trigger] after.histogram[i]).0 != (#[trigger] after.histogram[j]).0 by {
                if i != at && i < hist.len() {
                    assert(after.histogram[i] == hist[i]);
                }
                if j != at && j < hist.len() {
                    assert(after.histogram[j] == hist[j]);
                }
            }
        }
    }
    if after.histogram == tally.histogram {
        assert forall|i: int| 0 <= i < after.histogram.len() implies 0 <= (
        #[trigger] after.histogram[i]).1 <= slots + 1 by {
            assert(0 <= tally.histogram[i].1 <= slots);
        }
    }
}

/// The tally of well-formed slots is in order.
pub proof fn lemma_tally_of(slots: Seq<SlotView>)
    requires
        all_wf(slot_times(slots)),
    ensures
        tally_ok(tally_of(slots), total_length(slot_times(slots)), slots.len() as int),
    decreases slots.len(),
{
    if slots.len() > 0 {
        let init = slots.drop_last();
        assert(slot_times(slots).drop_last() =~= slot_times(init));
        assert(slot_times(slots).last() == slots.last().time);
        assert forall|i: int| 0 <= i < slot_times(init).len() implies (#[trigger] slot_times(
            init,
        )[i]).wf() by {
            assert(slot_times(init)[i] == slot_times(slots)[i]);
        }
        assert(slot_times(slots)[slots.len() - 1].wf());
        lemma_tally_of(init);
        lemma_tally_after(
            tally_of(init),
            slots.last(),
            total_length(slot_times(init)),
            init.len() as int,
        );
    }
}

/// The workloads of a schedule add up to the total length of its slots.
pub proof fn lemma_workload_adds_up(slots: Seq<SlotView>)
    ensures
        sum_of(tally_of(slots).workload) == total_length(slot_times(slots)),
    decreases slots.len(),
{
    if slots.len() > 0 {
        let init = slots.drop_last();
        let before = tally_of(init).workload;
        let name = counted_for(slots.last());
        assert(slot_times(slots).drop_last() =~= slot_times(init));
        assert(slot_times(slots).last() == slots.last().time);
        lemma_workload_adds_up(init);
        lemma_sum_with_value(before, name, amount(before, name) + slots.last().time.length());
    }
}

/// A quotient rounded towards zero.
pub open spec fn quotient(a: int, b: int) -> int {
    if a >= 0 {
        a / b
    } else {
        -((-a) / b)
    }
}

/// `order` lists every entry of the mapping once: those of more whole hours
/// first, and those of equal whole hours in the order in which they stand in
/// the mapping.
pub open spec fn by_hours_descending(order: Seq<usize>, book: Seq<(Seq<char>, int)>) -> bool {
    &&& order.len() == book.len()
    &&& forall|a: int| 0 <= a < order.len() ==> (#[trigger] order[a]) < book.len()
    &&& forall|k: int| 0 <= k < book.len() ==> #[trigger] ranked(order, k)
    &&& forall|a: int, b: int|
        0 <= a < b < order.len() ==> goes_before(book, #[trigger] order[a], #[trigger] order[b])
}

/// Entry `x` goes before entry `y` where entries are listed by whole hours:
/// it has more whole hours, or as many and stands earlier in the mapping.
pub open spec fn goes_before(book: Seq<(Seq<char>, int)>, x: usize, y: usize) -> bool {
    whole_hours(book[x as int].1) > whole_hours(book[y as int].1) || (whole_hours(book[x as int].1)
        == whole_hours(book[y as int].1) && x < y)
}

/// Whole hours of a duration, rounded towards zero.
pub fn hours_of(seconds: i64) -> (hours: i64)
    ensures
        hours == whole_hours(seconds as int),
{
    seconds / 3600
}

impl Summary {
    /// The histogram as contracts see it.
    pub open spec fn histogram(&self) -> Seq<(int, int)> {
        Seq::new(
            self.shift_length_histogram@.len(),
            |i: int|
                {
                    let entry = self.shift_length_histogram@[i];
                    (entry.0 as int, entry.1 as int)
                },
        )
    }

    /// No name and no length occurs twice.
    pub open spec fn wf(&self) -> bool {
        &&& self.workload.wf()
        &&& self.longest_shift.wf()
        &&& distinct_keys(self.histogram())
    }

    /// Counts one more run that ended at `hours` whole hours.
    fn count_run(&mut self, hours: i64, Ghost(limit): Ghost<int>)
        requires
            distinct_keys(old(self).histogram()),
            limit < usize::MAX,
            forall|i: int|
                0 <= i < old(self).histogram().len() ==> (#[trigger] old(self).histogram()[i]).1
                    <= limit,
        ensures
            final(self).workload == old(self).workload,
            final(self).longest_shift == old(self).longest_shift,
            final(self).histogram() == counted(old(self).histogram(), hours as int),
    {
        let mut i: usize = 0;
        while i < self.shift_length_histogram.len()
            invariant
                *self == *old(self),
                distinct_keys(self.histogram()),
                limit < usize::MAX,
                forall|k: int|
                    0 <= k < self.histogram().len() ==> (#[trigger] self.histogram()[k]).1 <= limit,
                i <= self.shift_length_histogram@.len(),
                forall|k: int| 0 <= k < i ==> (#[trigger] self.histogram()[k]).0 != hours,
            decreases self.shift_length_histogram.len() - i,
        {
            if self.shift_length_histogram[i].0 == hours {
                proof {
                    assert(self.histogram()[i as int].0 == hours);
                    let j = key_index(self.histogram(), hours as int);
                    if j < i {
                        assert(self.histogram()[j].0 != self.histogram()[i as int].0);
                    } else if i < j {
                        assert(self.histogram()[i as int].0 != self.histogram()[j].0);
                    }
                    assert(self.histogram()[i as int].1 <= limit);
                }
                let ghost before = self.histogram();
                let count = self.shift_length_histogram[i].1;
                self.shift_length_histogram.set(i, (hours, count + 1));
                assert(self.histogram() =~= before.update(i as int, (hours as int, count + 1)));
                return ;
            }
            i = i + 1;
        }
        let ghost before = self.histogram();
        self.shift_length_histogram.push((hours, 1));
        assert(self.histogram() =~= before.push((hours as int, 1)));
    }

    /// Draws the figures from a schedule.
    pub fn from(schedule: &[ScheduleSlot]) -> (summary: Summary)
        requires
            all_wf(slot_times(slot_views(schedule@))),
            total_length(slot_times(slot_views(schedule@))) <= i64::MAX,
        ensures
            summary.wf(),
            summary.workload@ == tally_of(slot_views(schedule@)).workload,
            summary.longest_shift@ == tally_of(slot_views(schedule@)).longest_shift,
            summary.histogram() == tally_of(slot_views(schedule@)).histogram,
    {
        let ghost views = slot_views(schedule@);
        let ghost times = slot_times(views);
        let mut summary = Summary {
            workload: Ledger::new(),
            longest_shift: Ledger::new(),
            shift_length_histogram: Vec::new(),
        };
        let mut current: Option<(String, i64)> = None;
        let mut i: usize = 0;
        assert(summary.histogram() =~= Seq::<(int, int)>::empty());
        assert(views.take(0) =~= Seq::<SlotView>::empty());
        while i < schedule.len()
            invariant
                i <= schedule@.len(),
                views == slot_views(schedule@),
                times == slot_times(views),
                all_wf(times),
                total_length(times) <= i64::MAX,
                summary.workload@ == tally_of(views.take(i as int)).workload,
                summary.longest_shift@ == tally_of(views.take(i as int)).longest_shift,
                summary.histogram() == tally_of(views.take(i as int)).histogram,
                match current {
                    Some((holder, run)) => tally_of(views.take(i as int)).current == Some(
                        (holder@, run as int),
                    ),
                    None => tally_of(views.take(i as int)).current is None,
                },
            decreases schedule.len() - i,
        {
            let ghost done = views.take(i as int);
            let ghost tally = tally_of(done);
            proof {
                assert(slot_times(done) =~= times.take(i as int));
                assert forall|k: int| 0 <= k < slot_times(done).len() implies (
                #[trigger] slot_times(done)[k]).wf() by {
                    assert(slot_times(done)[k] == times[k]);
                }
                lemma_tally_of(done);
                lemma_total_length_prefix(times, i as int);
                lemma_total_length_prefix(times, i as int + 1);
                assert(times.take(i as int + 1).drop_last() =~= times.take(i as int));
                assert(times.take(i as int + 1).last() == times[i as int]);
                assert(times[i as int] == schedule@[i as int].time);
                assert(times[i as int].wf());
                assert(views.take(i as int + 1).drop_last() =~= done);
                assert(views.take(i as int + 1).last() == schedule@[i as int]@);
                lemma_tally_after(
                    tally,
                    schedule@[i as int]@,
                    total_length(slot_times(done)),
                    i as int,
                );
            }
            let slot = &schedule[i];
            let name: &str = match &slot.human {
                Some(human) => human.as_str(),
                None => "UNASSIGNED",
            };
            assert(name@ == counted_for(slot@));
            let length = slot.time.len();
            let so_far = match summary.workload.get(name) {
                Some(value) => {
                    proof {
                        let at = index_of(tally.workload, name@);
                        assert(0 <= tally.workload[at].1 <= total_length(slot_times(done)));
                    }
                    value
                },
                None => 0,
            };
            summary.workload.set(name, so_far + length);
            let run = match &current {
                Some((holder, run)) => {
                    if crate::text::same_text(holder.as_str(), name) {
                        *run + length
                    } else {
                        summary.count_run(hours_of(*run), Ghost(i as int));
                        length
                    }
                },
                None => length,
            };
            current = Some((name.to_owned(), run));
            let longer = match summary.longest_shift.get(name) {
                Some(longest) => longest < run,
                None => true,
            };
            if longer {
                summary.longest_shift.set(name, run);
            }
            i = i + 1;
        }
        assert(views.take(schedule@.len() as int) =~= views);
        proof {
            lemma_tally_of(views);
        }
        summary
    }

    /// The places of the entries of a mapping, listed by whole hours: those
    /// of more hours first, and those of equal hours in their order.
    pub fn by_hours(items: &Ledger) -> (order: Vec<usize>)
        ensures
            by_hours_descending(order@, items@),
    {
        let mut order: Vec<usize> = Vec::new();
        let mut k: usize = 0;
        while k < items.entries.len()
            invariant
                k <= items.entries@.len(),
                items@.len() == items.entries@.len(),
                order@.len() == k,
                forall|a: int| 0 <= a < order@.len() ==> (#[trigger] order@[a]) < k,
                forall|j: int| 0 <= j < k ==> #[trigger] ranked(order@, j),
                forall|a: int, b: int|
                    0 <= a < b < order@.len() ==> goes_before(
                        items@,
                        #[trigger] order@[a],
                        #[trigger] order@[b],
                    ),
            decreases items.entries.len() - k,
        {
            let hours = hours_of(items.entries[k].value);
            let mut pos: usize = 0;
            while pos < order.len() && hours_of(items.entries[order[pos]].value) >= hours
                invariant
                    k < items.entries@.len(),
                    items@.len() == items.entries@.len(),
                    hours == whole_hours(items@[k as int].1),
                    order@.len() == k,
                    forall|a: int| 0 <= a < order@.len() ==> (#[trigger] order@[a]) < k,
                    pos <= order@.len(),
                    forall|a: int| 0 <= a < pos ==> goes_before(items@, #[trigger] order@[a], k),
                decreases order.len() - pos,
            {
                assert(order@[pos as int] < k);
                pos = pos + 1;
            }
            let ghost before = order@;
            order.insert(pos, k);
            proof {
                let after = order@;
                assert(after == before.insert(pos as int, k));
                assert forall|j: int| 0 <= j < k + 1 implies #[trigger] ranked(after, j) by {
                    if j == k {
                        assert(after[pos as int] == k);
                    } else {
                        assert(ranked(before, j));
                        let a = choose|a: int| 0 <= a < before.len() && #[trigger] before[a] == j;
                        if a < pos {
                            assert(after[a] == j);
                        } else {
                            assert(after[a + 1] == j);
                        }
                    }
                }
                assert forall|a: int, b: int| 0 <= a < b < after.len() implies goes_before(
                    items@,
                    #[trigger] after[a],
                    #[trigger] after[b],
                ) by {
                    if b < pos {
                        assert(after[a] == before[a] && after[b] == before[b]);
                    } else if b == pos {
                        assert(after[a] == before[a]);
                    } else if a < pos {
                        assert(after[a] == before[a] && after[b] == before[b - 1]);
                    } else if a == pos {
                        assert(after[b] == before[b - 1]);
                        assert(before[pos as int] < k);
                        if b - 1 > pos {
                            assert(goes_before(items@, before[pos as int], before[b - 1]));
                        }
                    } else {
                        assert(after[a] == before[a - 1] && after[b] == before[b - 1]);
                    }
                }
            }
            k = k + 1;
        }
        order
    }

    /// The smallest, the largest and the average amount of a mapping that is
    /// not empty, each in whole hours.
    pub fn stats(items: &Ledger) -> (figures: (i64, i64, i64))
        requires
            items@.len() > 0,
        ensures
            figures.0 == whole_hours(least(items@)),
            figures.1 == whole_hours(greatest(items@)),
            figures.2 == whole_hours(quotient(sum_of(items@), items@.len() as int)),
    {
        let min = items.min_value();
        let max = items.max_value();
        let mut sum: i128 = 0;
        let mut i: usize = 0;
        while i < items.entries.len()
            invariant
                i <= items.entries@.len(),
                items@.len() == items.entries@.len(),
                sum == sum_of(items@.take(i as int)),
                -(i * 0x8000_0000_0000_0000) <= sum <= i * 0x7fff_ffff_ffff_ffff,
            decreases items.entries.len() - i,
        {
            proof {
                assert(items@.take(i as int + 1).drop_last() =~= items@.take(i as int));
                assert(items@.take(i as int + 1).last() == items@[i as int]);
            }
            sum = sum + items.entries[i].value as i128;
            i = i + 1;
        }
        assert(items@.take(items.entries@.len() as int) =~= items@);
        let count = items.entries.len() as i128;
        let mean: i128 = sum / count;
        proof {
            lemma_mean_bounds(sum as int, count as int);
        }
        (hours_of(min), hours_of(max), hours_of(mean as i64))
    }

    /// The smallest, the average and the largest workload in whole hours.
    pub fn workload_stats(&self) -> (figures: (i64, i64, i64))
        requires
            self.workload@.len() > 0,
        ensures
            figures.0 == whole_hours(least(self.workload@)),
            figures.1 == whole_hours(quotient(sum_of(self.workload@), self.workload@.len() as int)),
            figures.2 == whole_hours(greatest(self.workload@)),
    {
        let (min, max, avg) = Self::stats(&self.workload);
        (min, avg, max)
    }

    /// The smallest, the average and the largest of the people's longest
    /// shifts in whole hours.
    pub fn longest_shift_stats(&self) -> (figures: (i64, i64, i64))
        requires
            self.longest_shift@.len() > 0,
        ensures
            figures.0 == whole_hours(least(self.longest_shift@)),
            figures.1 == whole_hours(
                quotient(sum_of(self.longest_shift@), self.longest_shift@.len() as int),
            ),
            figures.2 == whole_hours(greatest(self.longest_shift@)),
    {
        let (min, max, avg) = Self::stats(&self.longest_shift);
        (min, avg, max)
    }
}

/// The mean of `count` amounts that each fit 64 bits fits 64 bits.
proof fn lemma_mean_bounds(sum: int, count: int)
    requires
        count > 0,
        -(count * 0x8000_0000_0000_0000) <= sum <= count * 0x7fff_ffff_ffff_ffff,
    ensures
        -0x8000_0000_0000_0000 <= quotient(sum, count) <= 0x7fff_ffff_ffff_ffff,
{
    if sum >= 0 {
        assert(sum / count <= 0x7fff_ffff_ffff_ffff) by (nonlinear_arith)
            requires
                count > 0,
                0 <= sum <= count * 0x7fff_ffff_ffff_ffff,
        ;
        assert(sum / count >= 0) by (nonlinear_arith)
            requires
                count > 0,
                0 <= sum,
        ;
    } else {
        assert((-sum) / count <= 0x8000_0000_0000_0000) by (nonlinear_arith)
            requires
                count > 0,
                0 <= -sum <= count * 0x8000_0000_0000_0000,
        ;
        assert((-sum) / count >= 0) by (nonlinear_arith)
            requires
                count > 0,
                0 <= -sum,
        ;
    }
}

} // verus!
