//! Assigning the slots of one rotation to its candidates.

use super::{ScheduleSlot, SlotView};
use crate::factors::{lemma_outranks, weighted_sum, Candidate, CandidateView};
use crate::text::{lemma_name_order, text_before};
use crate::timerange::TimeRange;
use vstd::prelude::*;

verus! {

/// The candidates of a rotation as contracts see them.
pub open spec fn candidate_views(candidates: Seq<Candidate>) -> Seq<CandidateView> {
    Seq::new(candidates.len(), |i: int| candidates[i]@)
}

/// Candidate `k` is the one to take slot `slot`: it can take the slot, and
/// no candidate that can is ranked before it.
pub open spec fn picks(candidates: Seq<CandidateView>, slot: int, k: int) -> bool {
    &&& 0 <= k < candidates.len()
    &&& candidates[k].can_take(slot)
    &&& forall|j: int|
        0 <= j < candidates.len() && (#[trigger] candidates[j]).can_take(slot)
            ==> candidates[k].outranks(candidates[j])
}

/// The identifier of the candidate to take slot `slot`: of those who can
/// take it the one of lowest aggregate cost and, among equals, of the first
/// identifier; `None` where nobody can take the slot.
pub open spec fn pick(candidates: Seq<CandidateView>, slot: int) -> Option<Seq<char>> {
    if exists|k: int| picks(candidates, slot, k) {
        Some(candidates[choose|k: int| picks(candidates, slot, k)].human)
    } else {
        None
    }
}

/// Whoever is the one to take a slot, the identifier is the same.
pub proof fn lemma_pick(candidates: Seq<CandidateView>, slot: int, k: int)
    requires
        picks(candidates, slot, k),
    ensures
        pick(candidates, slot) == Some(candidates[k].human),
{
    let other = choose|k: int| picks(candidates, slot, k);
    assert(candidates[k].outranks(candidates[other]));
    assert(candidates[other].outranks(candidates[k]));
    lemma_outranks(candidates[k], candidates[other], candidates[k]);
}

/// Where one of the first `n` candidates can take a slot, one of them is
/// the one to take it among the first `n`.
pub proof fn lemma_some_pick(candidates: Seq<CandidateView>, slot: int, n: int)
    requires
        0 <= n <= candidates.len(),
        exists|k: int| 0 <= k < n && (#[trigger] candidates[k]).can_take(slot),
    ensures
        exists|k: int| #[trigger] picks(candidates.take(n), slot, k),
    decreases n,
{
    let first = candidates.take(n);
    let init = candidates.take(n - 1);
    assert(forall|j: int| 0 <= j < n - 1 ==> init[j] == candidates[j]);
    assert(forall|j: int| 0 <= j < n ==> first[j] == candidates[j]);
    let last = candidates[n - 1];
    if exists|k: int| 0 <= k < n - 1 && (#[trigger] candidates[k]).can_take(slot) {
        lemma_some_pick(candidates, slot, n - 1);
        let best = choose|k: int| #[trigger] picks(init, slot, k);
        assert(first[best] == init[best]);
        if last.can_take(slot) && !init[best].outranks(last) {
            lemma_outranks(last, init[best], last);
            assert forall|j: int| 0 <= j < first.len() && (#[trigger] first[j]).can_take(
                slot,
            ) implies last.outranks(first[j]) by {
                if j < n - 1 {
                    assert(init[j].can_take(slot));
                    lemma_outranks(last, init[best], init[j]);
                }
            }
            assert(picks(first, slot, n - 1));
        } else {
            assert forall|j: int| 0 <= j < first.len() && (#[trigger] first[j]).can_take(
                slot,
            ) implies first[best].outranks(first[j]) by {
                if j < n - 1 {
                    assert(init[j].can_take(slot));
                }
            }
            assert(picks(first, slot, best));
        }
    } else {
        assert(last.can_take(slot));
        lemma_outranks(last, last, last);
        assert forall|j: int| 0 <= j < first.len() && (#[trigger] first[j]).can_take(
            slot,
        ) implies last.outranks(first[j]) by {
            if j < n - 1 {
                assert(!candidates[j].can_take(slot));
            }
        }
        assert(picks(first, slot, n - 1));
    }
}

/// Candidate `k` has a place in `order`.
pub open spec fn ranked(order: Seq<usize>, k: int) -> bool {
    exists|a: int| 0 <= a < order.len() && #[trigger] order[a] == k
}

/// `order` lists every candidate, and lists them by rank.
pub open spec fn is_ranking(order: Seq<usize>, candidates: Seq<CandidateView>) -> bool {
    &&& forall|a: int| 0 <= a < order.len() ==> (#[trigger] order[a]) < candidates.len()
    &&& forall|k: int| 0 <= k < candidates.len() ==> #[trigger] ranked(order, k)
    &&& forall|a: int, b: int|
        0 <= a < b < order.len() ==> candidates[#[trigger] order[a] as int].outranks(
            candidates[#[trigger] order[b] as int],
        )
}

/// `costs` holds the aggregate cost of each candidate.
pub open spec fn costs_of(costs: Seq<u128>, candidates: Seq<Candidate>) -> bool {
    &&& costs.len() == candidates.len()
    &&& forall|k: int|
        0 <= k < candidates.len() ==> costs[k] == (#[trigger] candidates[k])@.total_cost()
}

/// What is settled of slot `slot` once the first `rank` candidates of the
/// ranking have had their turn: the slot is taken by the first of them who
/// can take it, and is free where none of them can.
pub open spec fn settled(
    candidates: Seq<CandidateView>,
    order: Seq<usize>,
    slot: int,
    taker: Option<usize>,
    rank: int,
) -> bool {
    match taker {
        Some(r) => r < rank && candidates[order[r as int] as int].can_take(slot) && forall|q: int|
            0 <= q < r ==> !candidates[#[trigger] order[q] as int].can_take(slot),
        None => forall|q: int|
            0 <= q < rank ==> !candidates[#[trigger] order[q] as int].can_take(slot),
    }
}

/// Whether candidate `x` is ranked no later than candidate `y`.
fn comes_first<'a>(
    candidates: &Vec<Candidate<'a>>,
    costs: &Vec<u128>,
    x: usize,
    y: usize,
) -> (first: bool)
    requires
        costs_of(costs@, candidates@),
        x < candidates@.len(),
        y < candidates@.len(),
    ensures
        first == candidates@[x as int]@.outranks(candidates@[y as int]@),
{
    proof {
        let (a, b) = (candidates@[x as int].human@, candidates@[y as int].human@);
        lemma_name_order(b, a, a);
        assert(costs@[x as int] == candidates@[x as int]@.total_cost());
        assert(costs@[y as int] == candidates@[y as int]@.total_cost());
    }
    costs[x] < costs[y] || (costs[x] == costs[y] && !text_before(
        candidates[y].human,
        candidates[x].human,
    ))
}

/// Ranks the candidates: by aggregate cost, lowest first, and among equal
/// costs by identifier.
fn ranking<'a>(candidates: &Vec<Candidate<'a>>, costs: &Vec<u128>) -> (order: Vec<usize>)
    requires
        costs_of(costs@, candidates@),
    ensures
        is_ranking(order@, candidate_views(candidates@)),
        order@.len() == candidates@.len(),
{
    let ghost views = candidate_views(candidates@);
    let mut order: Vec<usize> = Vec::new();
    let mut k: usize = 0;
    while k < candidates.len()
        invariant
            k <= candidates.len(),
            costs_of(costs@, candidates@),
            views == candidate_views(candidates@),
            order@.len() == k,
            forall|a: int| 0 <= a < order@.len() ==> (#[trigger] order@[a]) < k,
            forall|j: int| 0 <= j < k ==> #[trigger] ranked(order@, j),
            forall|a: int, b: int|
                0 <= a < b < order@.len() ==> views[#[trigger] order@[a] as int].outranks(
                    views[#[trigger] order@[b] as int],
                ),
        decreases candidates.len() - k,
    {
        // The new candidate goes behind all who are ranked no later.
        let mut pos: usize = 0;
        while pos < order.len() && comes_first(candidates, costs, order[pos], k)
            invariant
                k < candidates.len(),
                costs_of(costs@, candidates@),
                views == candidate_views(candidates@),
                order@.len() == k,
                forall|a: int| 0 <= a < order@.len() ==> (#[trigger] order@[a]) < k,
                pos <= order@.len(),
                forall|a: int|
                    0 <= a < pos ==> views[#[trigger] order@[a] as int].outranks(views[k as int]),
            decreases order.len() - pos,
        {
            pos = pos + 1;
        }
        let ghost before = order@;
        order.insert(pos, k);
        proof {
            let after = order@;
            assert(after == before.insert(pos as int, k));
            assert forall|j: int| 0 <= j < k + 1 implies #[trigger] ranked(after, j) by {
                if j == k {
                    assert(after[pos as int] == k);
                } else {
                    assert(ranked(before, j));
                    let a = choose|a: int| 0 <= a < before.len() && #[trigger] before[a] == j;
                    if a < pos {
                        assert(after[a] == j);
                    } else {
                        assert(after[a + 1] == j);
                    }
                }
            }
            assert forall|a: int, b: int| 0 <= a < b < after.len() implies views[
            #[trigger] after[a] as int].outranks(views[#[trigger] after[b] as int]) by {
                if b < pos {
                    assert(after[a] == before[a] && after[b] == before[b]);
                } else if b == pos {
                    assert(after[a] == before[a]);
                } else if a < pos {
                    assert(after[a] == before[a] && after[b] == before[b - 1]);
                } else if a == pos {
                    assert(after[b] == before[b - 1]);
                    let at = before[pos as int] as int;
                    let later = before[b - 1] as int;
                    assert(!views[at].outranks(views[k as int]));
                    lemma_outranks(views[k as int], views[at], views[later]);
                    if b - 1 > pos {
                        assert(views[before[pos as int] as int].outranks(
                            views[before[b - 1] as int],
                        ));
                    }
                } else {
                    assert(after[a] == before[a - 1] && after[b] == before[b - 1]);
                }
            }
        }
        k = k + 1;
    }
    order
}

/// Assigns the slots of one rotation: the candidates are ranked by
/// aggregate cost and, among equal costs, by identifier, and then each in
/// turn takes every slot that is still free and that they can take. So each
/// slot goes to the one picked for it, no slot goes to a candidate who
/// cannot take it, and a slot stays unassigned only where no candidate can
/// take it.
pub fn assign<'a>(candidates: &Vec<Candidate<'a>>, slots_to_fill: &[TimeRange]) -> (out: Vec<
    ScheduleSlot,
>)
    requires
        forall|k: int|
            0 <= k < candidates@.len() ==> weighted_sum((#[trigger] candidates@[k]).costs())
                <= u128::MAX,
    ensures
        out@.len() == slots_to_fill@.len(),
        forall|i: int|
            0 <= i < out@.len() ==> (#[trigger] out@[i])@ == (SlotView {
                time: slots_to_fill@[i],
                human: pick(candidate_views(candidates@), i),
            }),
        forall|i: int|
            0 <= i < out@.len() && (#[trigger] out@[i])@.human is Some ==> exists|k: int|
                0 <= k < candidates@.len() && (#[trigger] candidates@[k])@.can_take(i)
                    && candidates@[k]@.human == out@[i]@.human->0,
        forall|i: int|
            0 <= i < out@.len() && (#[trigger] out@[i])@.human is None ==> forall|k: int|
                0 <= k < candidates@.len() ==> !(#[trigger] candidates@[k])@.can_take(i),
{
    let ghost views = candidate_views(candidates@);
    let mut costs: Vec<u128> = Vec::new();
    let mut k: usize = 0;
    while k < candidates.len()
        invariant
            k <= candidates.len(),
            forall|j: int|
                0 <= j < candidates@.len() ==> weighted_sum((#[trigger] candidates@[j]).costs())
                    <= u128::MAX,
            costs@.len() == k,
            forall|j: int| 0 <= j < k ==> costs@[j] == (#[trigger] candidates@[j])@.total_cost(),
        decreases candidates.len() - k,
    {
        assert(weighted_sum(candidates@[k as int].costs()) <= u128::MAX);
        costs.push(candidates[k].cost());
        k = k + 1;
    }
    let order = ranking(candidates, &costs);
    let slots = slots_to_fill.len();
    // For each slot, the rank of the candidate who took it.
    let mut taken: Vec<Option<usize>> = Vec::new();
    let mut i: usize = 0;
    while i < slots
        invariant
            i <= slots,
            taken@.len() == i,
            forall|s: int| 0 <= s < i ==> (#[trigger] taken@[s]) is None,
        decreases slots - i,
    {
        taken.push(None);
        i = i + 1;
    }
    let mut free: usize = slots;
    let mut rank: usize = 0;
    while rank < order.len() && free > 0
        invariant
            views == candidate_views(candidates@),
            is_ranking(order@, views),
            order@.len() == candidates@.len(),
            slots == slots_to_fill@.len(),
            rank <= order@.len(),
            taken@.len() == slots,
            free <= slots,
            free == 0 ==> forall|s: int| 0 <= s < slots ==> (#[trigger] taken@[s]) is Some,
            forall|s: int|
                0 <= s < slots ==> settled(views, order@, s, #[trigger] taken@[s], rank as int),
        decreases order@.len() - rank,
    {
        let candidate = &candidates[order[rank]];
        assert(views[order@[rank as int] as int] == candidate@);
        let mut s: usize = 0;
        let mut left: usize = 0;
        while s < slots
            invariant
                views == candidate_views(candidates@),
                is_ranking(order@, views),
                order@.len() == candidates@.len(),
                rank < order@.len(),
                views[order@[rank as int] as int] == candidate@,
                taken@.len() == slots,
                s <= slots,
                left <= s,
                left == 0 ==> forall|t: int| 0 <= t < s ==> (#[trigger] taken@[t]) is Some,
                forall|t: int|
                    0 <= t < s ==> settled(views, order@, t, #[trigger] taken@[t], rank + 1),
                forall|t: int|
                    s <= t < slots ==> settled(views, order@, t, #[trigger] taken@[t], rank as int),
            decreases slots - s,
        {
            let ghost before = taken@;
            assert(settled(views, order@, s as int, before[s as int], rank as int));
            if taken[s].is_none() {
                if s < candidate.available_slots.len() && candidate.available_slots[s] {
                    taken.set(s, Some(rank));
                } else {
                    left = left + 1;
                }
            }
            assert forall|t: int| 0 <= t < slots && t != s implies #[trigger] taken@[t]
                == before[t] by {}
            assert(settled(views, order@, s as int, taken@[s as int], rank + 1));
            s = s + 1;
        }
        free = left;
        rank = rank + 1;
    }
    let mut out: Vec<ScheduleSlot> = Vec::new();
    let mut i: usize = 0;
    while i < slots
        invariant
            views == candidate_views(candidates@),
            is_ranking(order@, views),
            order@.len() == candidates@.len(),
            slots == slots_to_fill@.len(),
            taken@.len() == slots,
            i <= slots,
            out@.len() == i,
            rank <= order@.len(),
            rank == order@.len() || forall|s: int|
                0 <= s < slots ==> (#[trigger] taken@[s]) is Some,
            forall|s: int|
                0 <= s < slots ==> settled(views, order@, s, #[trigger] taken@[s], rank as int),
            forall|s: int|
                0 <= s < i ==> (#[trigger] out@[s])@ == (SlotView {
                    time: slots_to_fill@[s],
                    human: pick(views, s),
                }),
            forall|s: int|
                0 <= s < i && (#[trigger] out@[s])@.human is Some ==> exists|k: int|
                    0 <= k < candidates@.len() && (#[trigger] candidates@[k])@.can_take(s)
                        && candidates@[k]@.human == out@[s]@.human->0,
            forall|s: int|
                0 <= s < i && (#[trigger] out@[s])@.human is None ==> forall|k: int|
                    0 <= k < candidates@.len() ==> !(#[trigger] candidates@[k])@.can_take(s),
        decreases slots - i,
    {
        assert(settled(views, order@, i as int, taken@[i as int], rank as int));
        let human = match taken[i] {
            Some(r) => {
                let winner = order[r];
                proof {
                    let w = winner as int;
                    assert(views[w] == candidates@[w]@);
                    assert forall|j: int|
                        0 <= j < views.len() && (#[trigger] views[j]).can_take(
                            i as int,
                        ) implies views[w].outranks(views[j]) by {
                        assert(ranked(order@, j));
                        let q = choose|q: int| 0 <= q < order@.len() && #[trigger] order@[q] == j;
                        if q < r {
                            assert(!views[order@[q] as int].can_take(i as int));
                        } else if q == r {
                            lemma_outranks(views[w], views[w], views[w]);
                        } else {
                            assert(views[order@[r as int] as int].outranks(
                                views[order@[q] as int],
                            ));
                        }
                    }
                    assert(picks(views, i as int, w));
                    lemma_pick(views, i as int, w);
                }
                Some(candidates[winner].human.to_owned())
            },
            None => {
                proof {
                    assert(rank == order@.len());
                    assert forall|j: int| 0 <= j < views.len() implies !(
                    #[trigger] views[j]).can_take(i as int) by {
                        assert(ranked(order@, j));
                        let q = choose|q: int| 0 <= q < order@.len() && #[trigger] order@[q] == j;
                        assert(!views[order@[q] as int].can_take(i as int));
                    }
                    assert(forall|k: int| !picks(views, i as int, k));
                    assert forall|k: int| 0 <= k < candidates@.len() implies !(
                    #[trigger] candidates@[k])@.can_take(i as int) by {
                        assert(views[k] == candidates@[k]@);
                    }
                }
                None
            },
        };
        out.push(ScheduleSlot { time: slots_to_fill[i], human });
        i = i + 1;
    }
    out
}

} // verus!
