//! The order in which a configuration lists its people has no say in the
//! schedule.
//!
//! Candidates are ranked by cost and, among equal costs, by identifier, so
//! that who gets a slot does not depend on where they stand in the
//! configuration; and what the factors remember is kept by identifier.

use super::assign::{lemma_pick, pick, picks};
use super::model::{
    availability, candidate_of, contenders, lemma_contender, lemma_person_contends, rotation,
    scheduled,
};
use super::SlotView;
use crate::config::Config;
use crate::constraints::{lemma_same_rules, lemma_same_rules_symmetric, narrowed};
use crate::factors::panel::{
    lemma_same_memory_after_all, lemma_same_opinions, same_memory, state_after_all,
};
use crate::factors::recency::recency_seeded;
use crate::factors::workload::workload_seeded;
use crate::factors::{CandidateView, Factors, FactorsState};
use crate::ledger::{distinct_names, lemma_with_value, same_amounts, value_of};
use crate::timerange::TimeRange;
use vstd::prelude::*;

verus! {

/// One of the first `n` people of the configuration is called `name`.
pub open spec fn named_among(config: &Config, n: int, name: Seq<char>) -> bool {
    exists|k: int| 0 <= k < n && (#[trigger] config.humans@[k]).0@ == name
}

/// Configurations that differ at most in the order of their people do so
/// whichever of the two comes first.
pub proof fn lemma_reordered_symmetric(a: &Config, b: &Config)
    requires
        a.reordered(*b),
    ensures
        b.reordered(*a),
{
    lemma_same_rules_symmetric(a.constraints@, b.constraints@);
}

/// At the start of a run the recency factor remembers the epoch for the
/// people of the configuration, and nothing for anybody else.
pub proof fn lemma_recency_seeded(config: &Config, n: int, name: Seq<char>)
    requires
        0 <= n <= config.humans@.len(),
    ensures
        distinct_names(recency_seeded(config, n)),
        value_of(recency_seeded(config, n), name) == if named_among(config, n, name) {
            Some(0int)
        } else {
            None
        },
    decreases n,
{
    if n > 0 {
        let last = config.humans@[n - 1].0@;
        lemma_recency_seeded(config, n - 1, name);
        lemma_recency_seeded(config, n - 1, last);
        lemma_with_value(recency_seeded(config, n - 1), last, 0);
        if name == last {
            assert(config.humans@[n - 1].0@ == name);
        } else if named_among(config, n, name) {
            let k = choose|k: int| 0 <= k < n && (#[trigger] config.humans@[k]).0@ == name;
            assert(0 <= k < n - 1 && config.humans@[k].0@ == name);
        } else if named_among(config, n - 1, name) {
            let k = choose|k: int| 0 <= k < n - 1 && (#[trigger] config.humans@[k]).0@ == name;
            assert(0 <= k < n && config.humans@[k].0@ == name);
        }
    }
}

/// At the start of a run the workload factor remembers their prior workload
/// for the people of the configuration, and nothing for anybody else.
pub proof fn lemma_workload_seeded(config: &Config, n: int, name: Seq<char>)
    requires
        config.distinct_people(),
        0 <= n <= config.humans@.len(),
    ensures
        distinct_names(workload_seeded(config, n)),
        !named_among(config, n, name) ==> value_of(workload_seeded(config, n), name) is None,
        forall|k: int|
            0 <= k < n && (#[trigger] config.humans@[k]).0@ == name ==> value_of(
                workload_seeded(config, n),
                name,
            ) == Some(config.humans@[k].1.prior_workload as int),
    decreases n,
{
    if n > 0 {
        let last = config.humans@[n - 1].0@;
        let prior = config.humans@[n - 1].1.prior_workload as int;
        lemma_workload_seeded(config, n - 1, name);
        lemma_workload_seeded(config, n - 1, last);
        lemma_with_value(workload_seeded(config, n - 1), last, prior);
        if name == last {
            assert(config.humans@[n - 1].0@ == name);
            assert forall|k: int| 0 <= k < n && (#[trigger] config.humans@[k]).0@ == name implies k
                == n - 1 by {
                if k < n - 1 {
                    assert(config.humans@[k].0@ != config.humans@[n - 1].0@);
                }
            }
        } else if !named_among(config, n, name) {
            if named_among(config, n - 1, name) {
                let k = choose|k: int| 0 <= k < n - 1 && (#[trigger] config.humans@[k]).0@ == name;
                assert(0 <= k < n && config.humans@[k].0@ == name);
            }
        }
    }
}

/// At the start of a run the factors remember the same for configurations
/// that differ at most in the order of their people.
pub proof fn lemma_initial_same_memory(a: &Config, b: &Config)
    requires
        a.distinct_people(),
        b.distinct_people(),
        a.reordered(*b),
    ensures
        same_memory(Factors::initial(a), Factors::initial(b)),
{
    let (m, n) = (a.humans@.len() as int, b.humans@.len() as int);
    let (recency_a, recency_b) = (recency_seeded(a, m), recency_seeded(b, n));
    let (workload_a, workload_b) = (workload_seeded(a, m), workload_seeded(b, n));
    assert forall|name: Seq<char>|
        #![trigger value_of(recency_a, name)]
        value_of(recency_a, name) == value_of(recency_b, name) by {
        lemma_recency_seeded(a, m, name);
        lemma_recency_seeded(b, n, name);
        lemma_named_in_both(a, b, name);
    }
    assert forall|name: Seq<char>|
        #![trigger value_of(workload_a, name)]
        value_of(workload_a, name) == value_of(workload_b, name) by {
        lemma_workload_seeded(a, m, name);
        lemma_workload_seeded(b, n, name);
        lemma_named_in_both(a, b, name);
        if named_among(a, m, name) {
            let k = choose|k: int| 0 <= k < m && (#[trigger] a.humans@[k]).0@ == name;
            assert(b.lists(a.humans@[k].0@, a.humans@[k].1));
            let j = choose|j: int|
                0 <= j < n && (#[trigger] b.humans@[j]).0@ == name && b.humans@[j].1.same_as(
                    a.humans@[k].1,
                );
            assert(b.humans@[j].0@ == name);
        }
    }
    lemma_recency_seeded(a, m, Seq::empty());
    lemma_recency_seeded(b, n, Seq::empty());
    lemma_workload_seeded(a, m, Seq::empty());
    lemma_workload_seeded(b, n, Seq::empty());
}

/// Configurations that differ at most in the order of their people have
/// people of the same names.
proof fn lemma_named_in_both(a: &Config, b: &Config, name: Seq<char>)
    requires
        a.reordered(*b),
    ensures
        named_among(a, a.humans@.len() as int, name) == named_among(
            b,
            b.humans@.len() as int,
            name,
        ),
{
    let (m, n) = (a.humans@.len() as int, b.humans@.len() as int);
    if named_among(a, m, name) {
        let k = choose|k: int| 0 <= k < m && (#[trigger] a.humans@[k]).0@ == name;
        assert(b.lists(a.humans@[k].0@, a.humans@[k].1));
        let j = choose|j: int|
            0 <= j < n && (#[trigger] b.humans@[j]).0@ == name && b.humans@[j].1.same_as(
                a.humans@[k].1,
            );
        assert(b.humans@[j].0@ == name);
    }
    if named_among(b, n, name) {
        let j = choose|j: int| 0 <= j < n && (#[trigger] b.humans@[j]).0@ == name;
        assert(a.lists(b.humans@[j].0@, b.humans@[j].1));
        let k = choose|k: int|
            0 <= k < m && (#[trigger] a.humans@[k]).0@ == name && a.humans@[k].1.same_as(
                b.humans@[j].1,
            );
        assert(a.humans@[k].0@ == name);
    }
}

/// The same person is the same candidate, whatever the configuration that
/// lists them, where the factors remember the same.
pub proof fn lemma_same_candidate(
    a: &Config,
    b: &Config,
    x: FactorsState,
    y: FactorsState,
    slots: Seq<TimeRange>,
    k: int,
    j: int,
)
    requires
        same_memory(x, y),
        0 <= k < a.humans@.len(),
        0 <= j < b.humans@.len(),
        a.humans@[k].0@ == b.humans@[j].0@,
        a.humans@[k].1.same_as(b.humans@[j].1),
    ensures
        candidate_of(a, x, slots, k) == candidate_of(b, y, slots, j),
{
    let (rules_a, rules_b) = (a.humans@[k].1.constraints@, b.humans@[j].1.constraints@);
    lemma_same_rules(rules_a, rules_b, slots);
    assert(availability(rules_a, slots) =~= availability(rules_b, slots));
    lemma_same_opinions(x, y, slots, a.humans@[k].0@, availability(rules_a, slots));
}

/// Every contender of one configuration is a contender of the other, where
/// the two differ at most in the order of their people.
pub proof fn lemma_contenders_in_both(
    a: &Config,
    b: &Config,
    x: FactorsState,
    y: FactorsState,
    slots: Seq<TimeRange>,
    c: int,
)
    requires
        a.reordered(*b),
        same_memory(x, y),
        0 <= c < contenders(a, x, slots, a.humans@.len() as int).len(),
    ensures
        contenders(b, y, slots, b.humans@.len() as int).contains(
            contenders(a, x, slots, a.humans@.len() as int)[c],
        ),
{
    let (m, n) = (a.humans@.len() as int, b.humans@.len() as int);
    let (listed_a, listed_b) = (contenders(a, x, slots, m), contenders(b, y, slots, n));
    lemma_contender(a, x, slots, m, c);
    let k = choose|k: int|
        0 <= k < m && #[trigger] candidate_of(a, x, slots, k) == listed_a[c] && candidate_of(
            a,
            x,
            slots,
            k,
        ).available();
    assert(b.lists(a.humans@[k].0@, a.humans@[k].1));
    let j = choose|j: int|
        0 <= j < n && (#[trigger] b.humans@[j]).0@ == a.humans@[k].0@ && b.humans@[j].1.same_as(
            a.humans@[k].1,
        );
    lemma_same_memory_symmetric(x, y);
    lemma_same_candidate(b, a, y, x, slots, j, k);
    lemma_person_contends(b, y, slots, n, j);
    let d = choose|d: int|
        0 <= d < listed_b.len() && #[trigger] listed_b[d] == candidate_of(b, y, slots, j);
    assert(listed_b[d] == listed_a[c]);
}

/// Remembering the same does not depend on which factors come first.
pub proof fn lemma_same_memory_symmetric(x: FactorsState, y: FactorsState)
    requires
        same_memory(x, y),
    ensures
        same_memory(y, x),
{
    assert forall|name: Seq<char>|
        #![trigger value_of(y.recency, name)]
        value_of(y.recency, name) == value_of(x.recency, name) by {
        assert(value_of(x.recency, name) == value_of(y.recency, name));
    }
    assert forall|name: Seq<char>|
        #![trigger value_of(y.workload, name)]
        value_of(y.workload, name) == value_of(x.workload, name) by {
        assert(value_of(x.workload, name) == value_of(y.workload, name));
    }
}

/// Who is picked for a slot depends on who the candidates are, not on the
/// order in which they are listed.
pub proof fn lemma_pick_any_order(first: Seq<CandidateView>, second: Seq<CandidateView>, slot: int)
    requires
        forall|k: int| 0 <= k < first.len() ==> second.contains(#[trigger] first[k]),
        forall|k: int| 0 <= k < second.len() ==> first.contains(#[trigger] second[k]),
    ensures
        pick(first, slot) == pick(second, slot),
{
    if exists|k: int| picks(first, slot, k) {
        let k = choose|k: int| picks(first, slot, k);
        lemma_picked_in_both(first, second, slot, k);
        let j = choose|j: int| picks(second, slot, j) && second[j] == first[k];
        lemma_pick(first, slot, k);
        lemma_pick(second, slot, j);
    } else if exists|j: int| picks(second, slot, j) {
        let j = choose|j: int| picks(second, slot, j);
        lemma_picked_in_both(second, first, slot, j);
    }
}

/// The one to take a slot among the candidates of one list is the one to
/// take it among those of another list of the same candidates.
proof fn lemma_picked_in_both(
    first: Seq<CandidateView>,
    second: Seq<CandidateView>,
    slot: int,
    k: int,
)
    requires
        forall|k: int| 0 <= k < first.len() ==> second.contains(#[trigger] first[k]),
        forall|k: int| 0 <= k < second.len() ==> first.contains(#[trigger] second[k]),
        picks(first, slot, k),
    ensures
        exists|j: int| picks(second, slot, j) && second[j] == first[k],
{
    assert(second.contains(first[k]));
    let j = choose|j: int| 0 <= j < second.len() && second[j] == first[k];
    assert forall|i: int| 0 <= i < second.len() && (#[trigger] second[i]).can_take(
        slot,
    ) implies second[j].outranks(second[i]) by {
        assert(first.contains(second[i]));
        let h = choose|h: int| 0 <= h < first.len() && first[h] == second[i];
        assert(first[h].can_take(slot));
    }
    assert(picks(second, slot, j));
}

/// A rotation is assigned the same, whatever the order of the people.
pub proof fn lemma_rotation_any_order(
    a: &Config,
    b: &Config,
    x: FactorsState,
    y: FactorsState,
    slots: Seq<TimeRange>,
)
    requires
        a.reordered(*b),
        same_memory(x, y),
    ensures
        rotation(a, x, slots) == rotation(b, y, slots),
{
    let (m, n) = (a.humans@.len() as int, b.humans@.len() as int);
    let (listed_a, listed_b) = (contenders(a, x, slots, m), contenders(b, y, slots, n));
    lemma_reordered_symmetric(a, b);
    lemma_same_memory_symmetric(x, y);
    assert forall|c: int| 0 <= c < listed_a.len() implies listed_b.contains(
        #[trigger] listed_a[c],
    ) by {
        lemma_contenders_in_both(a, b, x, y, slots, c);
    }
    assert forall|c: int| 0 <= c < listed_b.len() implies listed_a.contains(
        #[trigger] listed_b[c],
    ) by {
        lemma_contenders_in_both(b, a, y, x, slots, c);
    }
    assert forall|i: int| 0 <= i < slots.len() implies rotation(a, x, slots)[i] == rotation(
        b,
        y,
        slots,
    )[i] by {
        lemma_pick_any_order(listed_a, listed_b, i);
    }
    assert(rotation(a, x, slots) =~= rotation(b, y, slots));
}

/// Ranges are scheduled the same, whatever the order of the people, where
/// the factors remember the same.
pub proof fn lemma_scheduled_any_order(
    a: &Config,
    b: &Config,
    x: FactorsState,
    y: FactorsState,
    ranges: Seq<TimeRange>,
    size: int,
)
    requires
        a.reordered(*b),
        same_memory(x, y),
    ensures
        scheduled(a, x, ranges, size) == scheduled(b, y, ranges, size),
    decreases ranges.len(),
{
    if ranges.len() > 0 && size > 0 {
        let n = if size < ranges.len() {
            size
        } else {
            ranges.len() as int
        };
        let first = rotation(a, x, ranges.take(n));
        lemma_rotation_any_order(a, b, x, y, ranges.take(n));
        lemma_same_memory_after_all(x, y, first);
        lemma_scheduled_any_order(
            a,
            b,
            state_after_all(x, first),
            state_after_all(y, first),
            ranges.skip(n),
            size,
        );
    }
}

/// The order in which a configuration lists its people has no say in the
/// schedule of a run: two configurations of the same shift length and the
/// same rules, each without two people of one identifier and each listing
/// the people of the other, have the same eligible ranges and the same
/// schedule for them.
pub proof fn lemma_schedule_any_order(a: &Config, b: &Config, period: TimeRange)
    requires
        a.distinct_people(),
        b.distinct_people(),
        a.reordered(*b),
    ensures
        narrowed(a.constraints@, seq![period]) == narrowed(b.constraints@, seq![period]),
        a.shift_days() == b.shift_days(),
        scheduled(
            a,
            Factors::initial(a),
            narrowed(a.constraints@, seq![period]),
            a.shift_days(),
        ) == scheduled(
            b,
            Factors::initial(b),
            narrowed(b.constraints@, seq![period]),
            b.shift_days(),
        ),
{
    lemma_same_rules(a.constraints@, b.constraints@, seq![period]);
    lemma_initial_same_memory(a, b);
    lemma_scheduled_any_order(
        a,
        b,
        Factors::initial(a),
        Factors::initial(b),
        narrowed(a.constraints@, seq![period]),
        a.shift_days(),
    );
}

} // verus!
