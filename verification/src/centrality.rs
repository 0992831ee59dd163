//! The most and the least central participant of a connected group, and
//! the largest group.

use vstd::prelude::*;
use std::collections::HashMap;
use crate::error::GraphError;
use crate::model::rows;
use crate::score::lemma_at_most_then_below;
use crate::score::lemma_below_then_at_most;
use crate::score::Score;

verus! {

/// Score `a` is more extreme than score `b`: higher where the most central
/// participant is sought, lower where the least central one is.
pub open spec fn beats(a: Score, b: Score, most: bool) -> bool {
    if most {
        b.below(a)
    } else {
        a.below(b)
    }
}

/// What is wrong with a component, if anything: it is empty, or one of its
/// participants has no score.
pub open spec fn fault(component: Seq<u32>, scores: Map<u32, Score>) -> Option<GraphError> {
    if component.len() == 0 {
        Some(GraphError::EmptyComponent)
    } else if exists|i: int| 0 <= i < component.len() && !scores.contains_key(component[i]) {
        Some(GraphError::MissingScore)
    } else {
        None
    }
}

/// Position `k` of the component holds the participant to pick: no score
/// in the component is more extreme, and every score before it is less so.
pub open spec fn is_pick(component: Seq<u32>, scores: Map<u32, Score>, most: bool, k: int) -> bool {
    &&& 0 <= k < component.len()
    &&& forall|j: int|
        0 <= j < component.len() ==> !beats(
            scores[#[trigger] component[j]],
            scores[component[k]],
            most,
        )
    &&& forall|j: int|
        0 <= j < k ==> beats(scores[component[k]], scores[#[trigger] component[j]], most)
}

/// The participant to pick from a component without fault: the first
/// among those with the most extreme score.
pub open spec fn picked(component: Seq<u32>, scores: Map<u32, Score>, most: bool) -> u32 {
    component[choose|k: int| is_pick(component, scores, most, k)]
}

/// A component has one position to pick at most.
pub proof fn lemma_pick_unique(component: Seq<u32>, scores: Map<u32, Score>, most: bool, k: int)
    requires
        is_pick(component, scores, most, k),
    ensures
        picked(component, scores, most) == component[k],
{
    let other = choose|k: int| is_pick(component, scores, most, k);
    if other < k {
        assert(beats(scores[component[k]], scores[component[other]], most));
    } else if k < other {
        assert(beats(scores[component[other]], scores[component[k]], most));
    }
}

/// A score that is more extreme than the pick among the first `i`
/// positions makes position `i` the pick among the first `i + 1`.
proof fn lemma_next_pick(
    component: Seq<u32>,
    scores: Map<u32, Score>,
    most: bool,
    best: int,
    i: int,
)
    requires
        0 <= best < i < component.len(),
        is_pick(component.take(i), scores, most, best),
        beats(scores[component[i]], scores[component[best]], most),
    ensures
        is_pick(component.take(i + 1), scores, most, i),
{
    let head = component.take(i);
    let next = component.take(i + 1);
    let new = scores[component[i]];
    let old = scores[component[best]];
    assert(head[best] == component[best]);
    assert(next[i] == component[i]);
    assert forall|j: int| 0 <= j < i implies !beats(scores[#[trigger] next[j]], new, most) && beats(
        new,
        scores[next[j]],
        most,
    ) by {
        let other = scores[next[j]];
        assert(next[j] == head[j]);
        assert(!beats(scores[head[j]], old, most));
        if most {
            lemma_at_most_then_below(other, old, new);
        } else {
            lemma_below_then_at_most(new, old, other);
        }
    }
}

/// The pick among the first `i` positions stays the pick among the first
/// `i + 1` where the score at position `i` is not more extreme.
proof fn lemma_keep_pick(
    component: Seq<u32>,
    scores: Map<u32, Score>,
    most: bool,
    best: int,
    i: int,
)
    requires
        0 <= best < i < component.len(),
        is_pick(component.take(i), scores, most, best),
        !beats(scores[component[i]], scores[component[best]], most),
    ensures
        is_pick(component.take(i + 1), scores, most, best),
{
    let head = component.take(i);
    let next = component.take(i + 1);
    assert(head[best] == component[best]);
    assert(next[best] == component[best]);
    assert forall|j: int| 0 <= j < next.len() implies !beats(
        scores[#[trigger] next[j]],
        scores[next[best]],
        most,
    ) by {
        if j < i {
            assert(next[j] == head[j]);
        }
    }
    assert forall|j: int| 0 <= j < best implies beats(
        scores[next[best]],
        scores[#[trigger] next[j]],
        most,
    ) by {
        assert(next[j] == head[j]);
    }
}

/// The position of the participant to pick from a component, or what is
/// wrong with the component.
pub fn pick(component: &Vec<u32>, scores: &HashMap<u32, Score>, most: bool) -> (out: Result<
    usize,
    GraphError,
>)
    ensures
        match out {
            Ok(k) => fault(component@, scores@) is None && is_pick(
                component@,
                scores@,
                most,
                k as int,
            ),
            Err(e) => fault(component@, scores@) == Some(e),
        },
{
    broadcast use vstd::std_specs::hash::group_hash_axioms;

    if component.len() == 0 {
        return Err(GraphError::EmptyComponent);
    }
    let mut best: usize = 0;
    let mut best_score = match scores.get(&component[0]) {
        Some(score) => *score,
        None => {
            return Err(GraphError::MissingScore);
        },
    };
    let mut i: usize = 1;
    proof {
        assert(component@.take(1)[0] == component@[0]);
    }
    while i < component.len()
        invariant
            0 <= best < i <= component@.len(),
            forall|j: int| 0 <= j < i ==> scores@.contains_key(#[trigger] component@[j]),
            best_score == scores@[component@[best as int]],
            is_pick(component@.take(i as int), scores@, most, best as int),
        decreases component@.len() - i,
    {
        match scores.get(&component[i]) {
            Some(score) => {
                let better = if most {
                    best_score.less_than(score)
                } else {
                    score.less_than(&best_score)
                };
                if better {
                    proof {
                        lemma_next_pick(component@, scores@, most, best as int, i as int);
                    }
                    best = i;
                    best_score = *score;
                } else {
                    proof {
                        lemma_keep_pick(component@, scores@, most, best as int, i as int);
                    }
                }
            },
            None => {
                return Err(GraphError::MissingScore);
            },
        }
        i += 1;
    }
    proof {
        assert(component@.take(i as int) =~= component@);
    }
    Ok(best)
}

/// The participant with the highest score in one component, the first of
/// them where several share it. Fails with `EmptyComponent` on a component
/// without participants, and else with `MissingScore` where one of them
/// has no score.
pub fn most_central_user(component: &Vec<u32>, closeness_map: &HashMap<u32, Score>) -> (out: Result<
    u32,
    GraphError,
>)
    ensures
        match out {
            Ok(id) => fault(component@, closeness_map@) is None && id == picked(
                component@,
                closeness_map@,
                true,
            ),
            Err(e) => fault(component@, closeness_map@) == Some(e),
        },
{
    match pick(component, closeness_map, true) {
        Ok(k) => {
            proof {
                lemma_pick_unique(component@, closeness_map@, true, k as int);
            }
            Ok(component[k])
        },
        Err(e) => Err(e),
    }
}

/// The participant with the lowest score in one component, the first of
/// them where several share it. Fails as `most_central_user` does.
pub fn least_central_user(component: &Vec<u32>, closeness_map: &HashMap<u32, Score>) -> (out:
    Result<u32, GraphError>)
    ensures
        match out {
            Ok(id) => fault(component@, closeness_map@) is None && id == picked(
                component@,
                closeness_map@,
                false,
            ),
            Err(e) => fault(component@, closeness_map@) == Some(e),
        },
{
    match pick(component, closeness_map, false) {
        Ok(k) => {
            proof {
                lemma_pick_unique(component@, closeness_map@, false, k as int);
            }
            Ok(component[k])
        },
        Err(e) => Err(e),
    }
}

/// Component `c` is the first one with a fault.
pub open spec fn first_fault(components: Seq<Seq<u32>>, scores: Map<u32, Score>, c: int) -> bool {
    &&& 0 <= c < components.len()
    &&& fault(components[c], scores) is Some
    &&& forall|e: int| 0 <= e < c ==> fault(#[trigger] components[e], scores) is None
}

/// No component has a fault.
pub open spec fn faultless(components: Seq<Seq<u32>>, scores: Map<u32, Score>) -> bool {
    forall|c: int| 0 <= c < components.len() ==> fault(#[trigger] components[c], scores) is None
}

/// The pick of every component, in the order of the components, or the
/// fault of the first component that has one.
pub fn pick_each(components: &Vec<Vec<u32>>, scores: &HashMap<u32, Score>, most: bool) -> (out:
    Result<Vec<u32>, GraphError>)
    ensures
        match out {
            Ok(picks) => faultless(rows(components@), scores@) && picks@.len() == components@.len()
                && forall|c: int|
                0 <= c < picks@.len() ==> #[trigger] picks@[c] == picked(
                    components@[c]@,
                    scores@,
                    most,
                ),
            Err(e) => exists|c: int| #[trigger]
                first_fault(rows(components@), scores@, c) && fault(components@[c]@, scores@)
                    == Some(e),
        },
{
    let mut picks: Vec<u32> = Vec::new();
    let mut c: usize = 0;
    while c < components.len()
        invariant
            c <= components@.len(),
            picks@.len() == c,
            forall|e: int| 0 <= e < c ==> fault(#[trigger] rows(components@)[e], scores@) is None,
            forall|e: int|
                0 <= e < c ==> #[trigger] picks@[e] == picked(components@[e]@, scores@, most),
        decreases components@.len() - c,
    {
        let pick = if most {
            most_central_user(&components[c], scores)
        } else {
            least_central_user(&components[c], scores)
        };
        assert(rows(components@)[c as int] == components@[c as int]@);
        match pick {
            Ok(id) => {
                picks.push(id);
            },
            Err(e) => {
                assert(first_fault(rows(components@), scores@, c as int));
                return Err(e);
            },
        }
        c += 1;
    }
    Ok(picks)
}

/// The most central participant of each component, in the order of the
/// components. Fails with the fault of the first component that has one:
/// `EmptyComponent`, or `MissingScore`.
pub fn central_finder(components: &Vec<Vec<u32>>, closeness_map: &HashMap<u32, Score>) -> (out:
    Result<Vec<u32>, GraphError>)
    ensures
        match out {
            Ok(picks) => faultless(rows(components@), closeness_map@) && picks@.len()
                == components@.len() && forall|c: int|
                0 <= c < picks@.len() ==> #[trigger] picks@[c] == picked(
                    components@[c]@,
                    closeness_map@,
                    true,
                ),
            Err(e) => exists|c: int| #[trigger]
                first_fault(rows(components@), closeness_map@, c) && fault(
                    components@[c]@,
                    closeness_map@,
                ) == Some(e),
        },
{
    pick_each(components, closeness_map, true)
}

/// The least central participant of each component, in the order of the
/// components. Fails as `central_finder` does.
pub fn least_central_finder(components: &Vec<Vec<u32>>, closeness_map: &HashMap<u32, Score>) -> (out:
    Result<Vec<u32>, GraphError>)
    ensures
        match out {
            Ok(picks) => faultless(rows(components@), closeness_map@) && picks@.len()
                == components@.len() && forall|c: int|
                0 <= c < picks@.len() ==> #[trigger] picks@[c] == picked(
                    components@[c]@,
                    closeness_map@,
                    false,
                ),
            Err(e) => exists|c: int| #[trigger]
                first_fault(rows(components@), closeness_map@, c) && fault(
                    components@[c]@,
                    closeness_map@,
                ) == Some(e),
        },
{
    pick_each(components, closeness_map, false)
}

/// Component `k` is the largest: none is longer, and every one before it
/// is shorter.
pub open spec fn is_largest(components: Seq<Seq<u32>>, k: int) -> bool {
    &&& 0 <= k < components.len()
    &&& forall|j: int|
        0 <= j < components.len() ==> (#[trigger] components[j]).len() <= components[k].len()
    &&& forall|j: int| 0 <= j < k ==> (#[trigger] components[j]).len() < components[k].len()
}

/// The component with the most participants, the first of them where
/// several are as large.
pub fn largest_component(components: &Vec<Vec<u32>>) -> (largest: Vec<u32>)
    requires
        components@.len() > 0,
    ensures
        exists|k: int| #[trigger] is_largest(rows(components@), k) && largest@ == components@[k]@,
{
    let mut best: usize = 0;
    let mut i: usize = 1;
    while i < components.len()
        invariant
            0 <= best < i <= components@.len(),
            forall|j: int|
                0 <= j < i ==> (#[trigger] components@[j])@.len() <= components@[best as int]@.len(),
            forall|j: int|
                0 <= j < best ==> (#[trigger] components@[j])@.len() < components@[best as int]@.len(),
        decreases components@.len() - i,
    {
        if components[i].len() > components[best].len() {
            best = i;
        }
        i += 1;
    }
    let largest = components[best].clone();
    proof {
        assert(largest@ =~= components@[best as int]@);
        assert(is_largest(rows(components@), best as int));
    }
    largest
}

} // verus!
