//! What a schedule is: who contends for a rotation, who gets its slots, and
//! how rotation follows rotation; with what holds of every schedule.

use super::assign::{pick, picks, lemma_some_pick};
use super::{slot_times, SlotView};
use crate::config::Config;
use crate::constraints::{lemma_same_rules, narrowed, Constraint};
use crate::factors::panel::{
    lemma_state_after_budget, opinions, state_after_all, within_budget,
};
use crate::factors::{CandidateView, FactorsState};
use crate::timerange::{
    all_wf, lemma_total_length_concat, lemma_total_length_nonnegative, lemma_total_length_prefix,
    total_length, TimeRange,
};
use vstd::prelude::*;

verus! {

/// For each of `slots`, whether somebody bound by `constraints` can take it:
/// a slot can be taken where it is, unchanged, among the ranges that the
/// rules leave of the slots.
pub open spec fn availability(constraints: Seq<Constraint>, slots: Seq<TimeRange>) -> Seq<bool> {
    Seq::new(slots.len(), |i: int| narrowed(constraints, slots).contains(slots[i]))
}

/// Person `k` of the configuration as a candidate for a rotation: with
/// their availability over the slots and with what the factors say of them.
pub open spec fn candidate_of(
    config: &Config,
    state: FactorsState,
    slots: Seq<TimeRange>,
    k: int,
) -> CandidateView {
    let person = config.humans@[k];
    let available = availability(person.1.constraints@, slots);
    CandidateView {
        human: person.0@,
        available_slots: available,
        factors: opinions(state, slots, person.0@, available),
    }
}

/// The people of the first `n` of the configuration who can take some slot
/// of the rotation, as candidates, in the configuration's order.
pub open spec fn contenders(
    config: &Config,
    state: FactorsState,
    slots: Seq<TimeRange>,
    n: int,
) -> Seq<CandidateView>
    decreases n,
{
    if n <= 0 {
        Seq::empty()
    } else if candidate_of(config, state, slots, n - 1).available() {
        contenders(config, state, slots, n - 1).push(candidate_of(config, state, slots, n - 1))
    } else {
        contenders(config, state, slots, n - 1)
    }
}

/// The slots of one rotation as assigned: each goes to the person picked
/// for it among those who can take some slot of the rotation, and stays
/// unassigned where nobody can take it.
pub open spec fn rotation(config: &Config, state: FactorsState, slots: Seq<TimeRange>) -> Seq<
    SlotView,
> {
    Seq::new(
        slots.len(),
        |i: int|
            SlotView {
                time: slots[i],
                human: pick(contenders(config, state, slots, config.humans@.len() as int), i),
            },
    )
}

/// The schedule for `ranges`: they are taken `size` at a time, each such
/// rotation is assigned with what the factors remember by then, and the
/// factors take in its slots before the next rotation is assigned.
pub open spec fn scheduled(
    config: &Config,
    state: FactorsState,
    ranges: Seq<TimeRange>,
    size: int,
) -> Seq<SlotView>
    decreases ranges.len(),
{
    if ranges.len() == 0 || size <= 0 {
        Seq::empty()
    } else {
        let n = if size < ranges.len() {
            size
        } else {
            ranges.len() as int
        };
        let first = rotation(config, state, ranges.take(n));
        first + scheduled(config, state_after_all(state, first), ranges.skip(n), size)
    }
}

/// Every contender is one of the people who can take some slot.
pub proof fn lemma_contender(
    config: &Config,
    state: FactorsState,
    slots: Seq<TimeRange>,
    n: int,
    c: int,
)
    requires
        0 <= n <= config.humans@.len(),
        0 <= c < contenders(config, state, slots, n).len(),
    ensures
        exists|k: int|
            0 <= k < n && #[trigger] candidate_of(config, state, slots, k) == contenders(
                config,
                state,
                slots,
                n,
            )[c] && candidate_of(config, state, slots, k).available(),
    decreases n,
{
    let before = contenders(config, state, slots, n - 1);
    let all = contenders(config, state, slots, n);
    if c < before.len() {
        lemma_contender(config, state, slots, n - 1, c);
        let k = choose|k: int|
            0 <= k < n - 1 && #[trigger] candidate_of(config, state, slots, k) == before[c]
                && candidate_of(config, state, slots, k).available();
        assert(all[c] == before[c]);
        assert(candidate_of(config, state, slots, k) == all[c]);
    } else {
        assert(candidate_of(config, state, slots, n - 1) == all[c]);
    }
}

/// Every one of the first `n` people who can take some slot is among the
/// contenders.
pub proof fn lemma_person_contends(
    config: &Config,
    state: FactorsState,
    slots: Seq<TimeRange>,
    n: int,
    k: int,
)
    requires
        0 <= k < n <= config.humans@.len(),
        candidate_of(config, state, slots, k).available(),
    ensures
        exists|c: int|
            0 <= c < contenders(config, state, slots, n).len() && #[trigger] contenders(
                config,
                state,
                slots,
                n,
            )[c] == candidate_of(config, state, slots, k),
    decreases n,
{
    let before = contenders(config, state, slots, n - 1);
    let all = contenders(config, state, slots, n);
    if k < n - 1 {
        lemma_person_contends(config, state, slots, n - 1, k);
        let c = choose|c: int|
            0 <= c < before.len() && #[trigger] before[c] == candidate_of(config, state, slots, k);
        assert(all[c] == before[c]);
    } else {
        assert(all == before.push(candidate_of(config, state, slots, k)));
        assert(all[before.len() as int] == candidate_of(config, state, slots, k));
    }
}

/// Who gets a slot of a rotation: a person of the configuration who can
/// take it, where anybody can; and nobody, where nobody can.
pub proof fn lemma_rotation_humans(
    config: &Config,
    state: FactorsState,
    slots: Seq<TimeRange>,
    i: int,
)
    requires
        0 <= i < slots.len(),
    ensures
        match rotation(config, state, slots)[i].human {
            Some(name) => exists|k: int|
                0 <= k < config.humans@.len() && (#[trigger] config.humans@[k]).0@ == name
                    && availability(config.humans@[k].1.constraints@, slots)[i],
            None => forall|k: int|
                0 <= k < config.humans@.len() ==> !availability(
                    (#[trigger] config.humans@[k]).1.constraints@,
                    slots,
                )[i],
        },
{
    let n = config.humans@.len() as int;
    let listed = contenders(config, state, slots, n);
    if exists|c: int| picks(listed, i, c) {
        let c = choose|c: int| picks(listed, i, c);
        lemma_contender(config, state, slots, n, c);
        let k = choose|k: int|
            0 <= k < n && #[trigger] candidate_of(config, state, slots, k) == listed[c]
                && candidate_of(config, state, slots, k).available();
        assert(config.humans@[k].0@ == listed[c].human);
        assert(availability(config.humans@[k].1.constraints@, slots)[i]);
    } else {
        assert forall|k: int| 0 <= k < n implies !availability(
            (#[trigger] config.humans@[k]).1.constraints@,
            slots,
        )[i] by {
            if availability(config.humans@[k].1.constraints@, slots)[i] {
                let candidate = candidate_of(config, state, slots, k);
                assert(candidate.can_take(i));
                lemma_person_contends(config, state, slots, n, k);
                let c = choose|c: int| 0 <= c < listed.len() && #[trigger] listed[c] == candidate;
                assert(listed[c].can_take(i));
                lemma_some_pick(listed, i, listed.len() as int);
                assert(listed.take(listed.len() as int) =~= listed);
                let best = choose|b: int| #[trigger] picks(listed, i, b);
                assert(picks(listed, i, best));
            }
        }
    }
}

/// Every slot of a schedule is one of the ranges, in their order, and every
/// person assigned is one of the configuration.
pub proof fn lemma_scheduled(
    config: &Config,
    state: FactorsState,
    ranges: Seq<TimeRange>,
    size: int,
)
    requires
        size >= 1,
    ensures
        slot_times(scheduled(config, state, ranges, size)) == ranges,
        forall|i: int|
            0 <= i < ranges.len() ==> match (#[trigger] scheduled(
                config,
                state,
                ranges,
                size,
            )[i]).human {
                Some(name) => exists|k: int|
                    0 <= k < config.humans@.len() && (#[trigger] config.humans@[k]).0@ == name,
                None => true,
            },
    decreases ranges.len(),
{
    if ranges.len() > 0 {
        let n = if size < ranges.len() {
            size
        } else {
            ranges.len() as int
        };
        let first = rotation(config, state, ranges.take(n));
        let rest = scheduled(config, state_after_all(state, first), ranges.skip(n), size);
        let all = scheduled(config, state, ranges, size);
        lemma_scheduled(config, state_after_all(state, first), ranges.skip(n), size);
        assert(all == first + rest);
        assert(slot_times(rest) == ranges.skip(n));
        assert(rest.len() == ranges.len() - n) by {
            assert(slot_times(rest).len() == rest.len());
        }
        assert(slot_times(all) =~= ranges) by {
            assert forall|i: int| 0 <= i < ranges.len() implies slot_times(all)[i] == ranges[i] by {
                if i < n {
                    assert(all[i] == first[i]);
                } else {
                    assert(all[i] == rest[i - n]);
                    assert(slot_times(rest)[i - n] == ranges.skip(n)[i - n]);
                }
            }
        }
        assert forall|i: int| 0 <= i < ranges.len() implies match (#[trigger] all[i]).human {
            Some(name) => exists|k: int|
                0 <= k < config.humans@.len() && (#[trigger] config.humans@[k]).0@ == name,
            None => true,
        } by {
            if i < n {
                assert(all[i] == first[i]);
                lemma_rotation_humans(config, state, ranges.take(n), i);
            } else {
                assert(all[i] == rest[i - n]);
            }
        }
    } else {
        assert(slot_times(scheduled(config, state, ranges, size)) =~= ranges);
    }
}

/// Configurations that are the same have the same contenders.
pub proof fn lemma_same_contenders(
    a: &Config,
    b: &Config,
    state: FactorsState,
    slots: Seq<TimeRange>,
    n: int,
)
    requires
        a.same_as(*b),
        0 <= n <= a.humans@.len(),
    ensures
        contenders(a, state, slots, n) == contenders(b, state, slots, n),
    decreases n,
{
    if n > 0 {
        lemma_same_contenders(a, b, state, slots, n - 1);
        assert(a.humans@[n - 1].0@ == b.humans@[n - 1].0@ && a.humans@[n - 1].1.same_as(
            b.humans@[n - 1].1,
        ));
        lemma_same_rules(
            a.humans@[n - 1].1.constraints@,
            b.humans@[n - 1].1.constraints@,
            slots,
        );
    }
}

/// Scheduling is a function of what it is given: configurations that are
/// the same, with the same ranges and the factors remembering the same,
/// have the same schedule.
pub proof fn lemma_schedule_deterministic(
    a: &Config,
    b: &Config,
    state: FactorsState,
    ranges: Seq<TimeRange>,
    size: int,
)
    requires
        a.same_as(*b),
    ensures
        scheduled(a, state, ranges, size) == scheduled(b, state, ranges, size),
        a.shift_days() == b.shift_days(),
        narrowed(a.constraints@, ranges) == narrowed(b.constraints@, ranges),
    decreases ranges.len(),
{
    lemma_same_rules(a.constraints@, b.constraints@, ranges);
    if ranges.len() > 0 && size > 0 {
        let n = if size < ranges.len() {
            size
        } else {
            ranges.len() as int
        };
        lemma_same_contenders(a, b, state, ranges.take(n), a.humans@.len() as int);
        let first = rotation(a, state, ranges.take(n));
        assert(first =~= rotation(b, state, ranges.take(n)));
        lemma_schedule_deterministic(a, b, state_after_all(state, first), ranges.skip(n), size);
    }
}

/// The total length of the first ranges of a sequence, of those that follow
/// and of the rest add up to the total length of all.
pub proof fn lemma_total_length_split(s: Seq<TimeRange>, at: int, n: int)
    requires
        all_wf(s),
        0 <= at,
        0 <= n,
        at + n <= s.len(),
    ensures
        total_length(s.take(at + n)) == total_length(s.take(at)) + total_length(
            s.subrange(at, at + n),
        ),
        0 <= total_length(s.subrange(at, at + n)) <= total_length(s),
        0 <= total_length(s.take(at)),
        total_length(s.take(at + n)) <= total_length(s),
        all_wf(s.subrange(at, at + n)),
{
    assert(s.take(at + n) =~= s.take(at) + s.subrange(at, at + n));
    lemma_total_length_concat(s.take(at), s.subrange(at, at + n));
    lemma_total_length_prefix(s, at + n);
    lemma_total_length_prefix(s, at);
    assert forall|i: int| 0 <= i < n implies (#[trigger] s.subrange(at, at + n)[i]).wf() by {
        assert(s.subrange(at, at + n)[i] == s[at + i]);
    }
    lemma_total_length_nonnegative(s.subrange(at, at + n));
}

/// Slots taken in one after the other use as much of the budget as they are
/// long together.
pub proof fn lemma_state_after_all_budget(state: FactorsState, slots: Seq<SlotView>, budget: int)
    requires
        within_budget(state, budget),
        all_wf(slot_times(slots)),
    ensures
        within_budget(state_after_all(state, slots), budget + total_length(slot_times(slots))),
    decreases slots.len(),
{
    if slots.len() > 0 {
        let init = slots.drop_last();
        assert(slot_times(slots).drop_last() =~= slot_times(init));
        assert(slot_times(slots).last() == slots.last().time);
        assert forall|i: int| 0 <= i < slot_times(init).len() implies (#[trigger] slot_times(
            init,
        )[i]).wf() by {
            assert(slot_times(init)[i] == slot_times(slots)[i]);
        }
        assert(slot_times(slots)[slots.len() - 1].wf());
        lemma_state_after_all_budget(state, init, budget);
        lemma_state_after_budget(
            state_after_all(state, init),
            slots.last(),
            budget + total_length(slot_times(init)),
        );
    }
}

/// Taking in one sequence of slots and then another is taking in the two in
/// a row.
pub proof fn lemma_state_after_all_concat(state: FactorsState, a: Seq<SlotView>, b: Seq<SlotView>)
    ensures
        state_after_all(state, a + b) == state_after_all(state_after_all(state, a), b),
    decreases b.len(),
{
    if b.len() == 0 {
        assert(a + b =~= a);
    } else {
        assert((a + b).drop_last() =~= a + b.drop_last());
        lemma_state_after_all_concat(state, a, b.drop_last());
    }
}

/// One more rotation scheduled: what is scheduled so far with what is still
/// to be scheduled stays the whole schedule.
pub proof fn lemma_schedule_step(
    config: &Config,
    first_state: FactorsState,
    state: FactorsState,
    ranges: Seq<TimeRange>,
    size: int,
    at: int,
    n: int,
    done: Seq<SlotView>,
    views: Seq<SlotView>,
)
    requires
        0 <= at < ranges.len(),
        1 <= size,
        n == if ranges.len() - at <= size {
            ranges.len() - at
        } else {
            size
        },
        done + scheduled(config, state, ranges.skip(at), size) == scheduled(
            config,
            first_state,
            ranges,
            size,
        ),
        slot_times(done) == ranges.take(at),
        state == state_after_all(first_state, done),
        views == rotation(config, state, ranges.subrange(at, at + n)),
    ensures
        (done + views) + scheduled(
            config,
            state_after_all(state, views),
            ranges.skip(at + n),
            size,
        ) == scheduled(config, first_state, ranges, size),
        slot_times(done + views) == ranges.take(at + n),
        state_after_all(state, views) == state_after_all(first_state, done + views),
{
    let chunk = ranges.subrange(at, at + n);
    let left = ranges.skip(at);
    assert(left.take(n) =~= chunk);
    assert(left.skip(n) =~= ranges.skip(at + n));
    let rest = scheduled(config, state_after_all(state, views), ranges.skip(at + n), size);
    assert(scheduled(config, state, left, size) == views + rest);
    assert(done + (views + rest) =~= (done + views) + rest);
    assert(slot_times(views) =~= chunk);
    assert(slot_times(done + views) =~= ranges.take(at) + chunk);
    assert(ranges.take(at) + chunk =~= ranges.take(at + n));
    lemma_state_after_all_concat(first_state, done, views);
}

} // verus!
