//! The order in which a traversal visits, as the frontier decides it.

use vstd::prelude::*;

use super::laws::lemma_goals_are_goals;
use super::progress::lemma_opens_is_step;
use super::record::{child_at, family, goals, measured};
use super::space::{level_is, level_of, ranked, step};
use super::{Action, State, StateHeuristic};
use crate::openlist::{lemma_place_found, place};

verus! {

/// Of two origins the first is the earlier: a state with the first origin was
/// generated before a state with the second, from an earlier parent or from
/// the same parent by an earlier action.
pub open spec fn earlier(a: (int, int), b: (int, int)) -> bool {
    a.0 < b.0 || (a.0 == b.0 && a.1 < b.1)
}

/// Breadth first: the states were visited in the order in which they were
/// generated.
pub open spec fn arrival_order(born: Seq<(int, int)>) -> bool {
    forall|i: int, j: int| 0 <= i < j < born.len() ==> earlier(born[i], born[j])
}

/// Depth first: when a state was visited, every state that waited had been
/// generated before it.
pub open spec fn newest_first(born: Seq<(int, int)>) -> bool {
    forall|i: int, j: int| 0 <= i < j < born.len() && born[j].0 < i ==> earlier(born[j], born[i])
}

/// If the state at `j` waited when the state at `i` was visited, the state
/// at `i` had the lower rank, or the same rank and was generated later.
pub open spec fn left_in_turn(born: Seq<(int, int)>, ranks: Seq<u128>, i: int, j: int) -> bool {
    born[j].0 < i ==> ranks[i] < ranks[j] || (ranks[i] == ranks[j] && earlier(born[j], born[i]))
}

/// Best first: when a state was visited, no state that waited had a lower
/// rank, and those of its own rank had been generated before it.
pub open spec fn least_first(born: Seq<(int, int)>, ranks: Seq<u128>) -> bool {
    &&& ranks.len() == born.len()
    &&& forall|i: int, j: int|
        0 <= i < j < born.len() ==> #[trigger] left_in_turn(born, ranks, i, j)
}

/// The states were visited breadth first.
pub open spec fn breadth_first_order<T: State<A>, A: Action>(
    init: T,
    limit: usize,
    fresh: Seq<T>,
) -> bool {
    exists|born: Seq<(int, int)>| #[trigger]
        family::<T, A>(init, limit, fresh, born) && arrival_order(born)
}

/// The states were visited depth first.
pub open spec fn depth_first_order<T: State<A>, A: Action>(
    init: T,
    limit: usize,
    fresh: Seq<T>,
) -> bool {
    exists|born: Seq<(int, int)>| #[trigger]
        family::<T, A>(init, limit, fresh, born) && newest_first(born)
}

/// Each of `states` has the weight at its position as a rank.
pub open spec fn weighed<T: State<A> + StateHeuristic, A: Action>(
    states: Seq<T>,
    weights: Seq<u128>,
) -> bool {
    &&& weights.len() == states.len()
    &&& forall|k: int| 0 <= k < states.len() ==> #[trigger] ranked::<T, A>(states[k], weights[k])
}

/// The first of the states leaves, and its weight with it.
pub(crate) proof fn lemma_weighed_take<T: State<A> + StateHeuristic, A: Action>(
    states: Seq<T>,
    weights: Seq<u128>,
)
    requires
        weighed::<T, A>(states, weights),
        states.len() > 0,
    ensures
        ranked::<T, A>(states[0], weights[0]),
        weighed::<T, A>(states.remove(0), weights.remove(0)),
{
    assert(ranked::<T, A>(states[0], weights[0]));
    assert forall|k: int| 0 <= k < states.remove(0).len() implies #[trigger] ranked::<T, A>(
        states.remove(0)[k],
        weights.remove(0)[k],
    ) by {
        assert(ranked::<T, A>(states[k + 1], weights[k + 1]));
    }
}

/// A state joins at `at`, and its rank with it.
pub(crate) proof fn lemma_weighed_insert<T: State<A> + StateHeuristic, A: Action>(
    states: Seq<T>,
    weights: Seq<u128>,
    at: int,
    x: T,
    weight: u128,
)
    requires
        weighed::<T, A>(states, weights),
        0 <= at <= states.len(),
        ranked::<T, A>(x, weight),
    ensures
        weighed::<T, A>(states.insert(at, x), weights.insert(at, weight)),
{
    assert forall|k: int| 0 <= k < states.insert(at, x).len() implies #[trigger] ranked::<T, A>(
        states.insert(at, x)[k],
        weights.insert(at, weight)[k],
    ) by {
        if k < at {
            assert(ranked::<T, A>(states[k], weights[k]));
        } else if k > at {
            assert(ranked::<T, A>(states[k - 1], weights[k - 1]));
        }
    }
}

/// The states were visited best first.
pub open spec fn best_first_order<T: State<A> + StateHeuristic, A: Action>(
    init: T,
    limit: usize,
    fresh: Seq<T>,
) -> bool {
    exists|born: Seq<(int, int)>, ranks: Seq<u128>|
        #![trigger family::<T, A>(init, limit, fresh, born), weighed::<T, A>(fresh, ranks)]
        family::<T, A>(init, limit, fresh, born) && weighed::<T, A>(fresh, ranks) && least_first(
            born,
            ranks,
        )
}

/// What holds of the origins of the states visited (`born`) and of the
/// states waiting (`from`), whatever the frontier: a parent was visited
/// before its child.
pub(crate) open spec fn in_line(born: Seq<(int, int)>, from: Seq<(int, int)>) -> bool {
    &&& forall|i: int| 0 <= i < born.len() ==> born[i].0 < i
    &&& forall|k: int| 0 <= k < from.len() ==> from[k].0 < born.len()
}

/// The parent of every waiting state lies before position `n`.
pub(crate) open spec fn parents_below(from: Seq<(int, int)>, n: int) -> bool {
    forall|k: int| 0 <= k < from.len() ==> (#[trigger] from[k]).0 < n
}

/// Every waiting state was generated before a state of the origin `origin`.
pub(crate) open spec fn latest(from: Seq<(int, int)>, origin: (int, int)) -> bool {
    forall|k: int| 0 <= k < from.len() ==> earlier(#[trigger] from[k], origin)
}

/// Every waiting state was generated before those that the actions at
/// `picks`, from position `i` on, lead to from the state visited last.
pub(crate) open spec fn ahead(
    born: Seq<(int, int)>,
    from: Seq<(int, int)>,
    picks: Seq<int>,
    i: int,
) -> bool {
    forall|j: int| i <= j < picks.len() ==> latest(from, (born.len() - 1, #[trigger] picks[j]))
}

/// What a first-in-first-out frontier keeps true.
pub(crate) open spec fn queued(born: Seq<(int, int)>, from: Seq<(int, int)>) -> bool {
    &&& in_line(born, from)
    &&& arrival_order(born)
    &&& forall|k: int, m: int| 0 <= k < m < from.len() ==> earlier(from[k], from[m])
    &&& forall|i: int, k: int|
        0 <= i < born.len() && 0 <= k < from.len() ==> earlier(born[i], from[k])
}

/// What a last-in-first-out frontier keeps true.
pub(crate) open spec fn stacked(born: Seq<(int, int)>, from: Seq<(int, int)>) -> bool {
    &&& in_line(born, from)
    &&& newest_first(born)
    &&& forall|k: int, m: int| 0 <= k < m < from.len() ==> earlier(from[k], from[m])
    &&& forall|i: int, k: int|
        0 <= i < born.len() && 0 <= k < from.len() && from[k].0 < i ==> earlier(from[k], born[i])
}

/// The waiting state at `k` leaves before the one at `m`: it is lighter,
/// or as heavy and generated later.
pub(crate) open spec fn in_turn(from: Seq<(int, int)>, weights: Seq<u128>, k: int, m: int) -> bool {
    weights[k] < weights[m] || (weights[k] == weights[m] && earlier(from[m], from[k]))
}

/// If the waiting state at `k` waited already when the state at `i` was
/// visited, that one left in turn.
pub(crate) open spec fn outranked(
    born: Seq<(int, int)>,
    from: Seq<(int, int)>,
    ranks: Seq<u128>,
    weights: Seq<u128>,
    i: int,
    k: int,
) -> bool {
    from[k].0 < i ==> ranks[i] < weights[k] || (ranks[i] == weights[k] && earlier(
        from[k],
        born[i],
    ))
}

/// What a frontier in order of weight keeps true.
pub(crate) open spec fn sifted(
    born: Seq<(int, int)>,
    from: Seq<(int, int)>,
    ranks: Seq<u128>,
    weights: Seq<u128>,
) -> bool {
    &&& in_line(born, from)
    &&& least_first(born, ranks)
    &&& weights.len() == from.len()
    &&& forall|k: int, m: int| 0 <= k < m < from.len() ==> #[trigger] in_turn(from, weights, k, m)
    &&& forall|i: int, k: int|
        0 <= i < born.len() && 0 <= k < from.len() ==> #[trigger] outranked(
            born,
            from,
            ranks,
            weights,
            i,
            k,
        )
}

pub(crate) proof fn lemma_queued_take(born: Seq<(int, int)>, from: Seq<(int, int)>)
    requires
        queued(born, from),
        from.len() > 0,
    ensures
        queued(born, from.remove(0)),
        queued(born.push(from[0]), from.remove(0)),
        parents_below(from.remove(0), born.len() as int),
{
    let rest = from.remove(0);
    assert forall|k: int| 0 <= k < rest.len() implies rest[k] == from[k + 1] by {}
}

pub(crate) proof fn lemma_queued_push(born: Seq<(int, int)>, from: Seq<(int, int)>, pick: int)
    requires
        queued(born, from),
        born.len() > 0,
        latest(from, (born.len() - 1, pick)),
    ensures
        queued(born, from.push((born.len() - 1, pick))),
{
}

pub(crate) proof fn lemma_stacked_take(born: Seq<(int, int)>, from: Seq<(int, int)>)
    requires
        stacked(born, from),
        from.len() > 0,
    ensures
        stacked(born, from.remove(from.len() - 1)),
        stacked(born.push(from[from.len() - 1]), from.remove(from.len() - 1)),
        parents_below(from.remove(from.len() - 1), born.len() as int),
{
    let rest = from.remove(from.len() - 1);
    assert forall|k: int| 0 <= k < rest.len() implies rest[k] == from[k] by {}
}

pub(crate) proof fn lemma_stacked_push(born: Seq<(int, int)>, from: Seq<(int, int)>, pick: int)
    requires
        stacked(born, from),
        born.len() > 0,
        latest(from, (born.len() - 1, pick)),
    ensures
        stacked(born, from.push((born.len() - 1, pick))),
{
}

pub(crate) proof fn lemma_sifted_take(
    born: Seq<(int, int)>,
    from: Seq<(int, int)>,
    ranks: Seq<u128>,
    weights: Seq<u128>,
)
    requires
        sifted(born, from, ranks, weights),
        from.len() > 0,
    ensures
        sifted(born, from.remove(0), ranks, weights.remove(0)),
        sifted(born.push(from[0]), from.remove(0), ranks.push(weights[0]), weights.remove(0)),
        parents_below(from.remove(0), born.len() as int),
{
    let rest = from.remove(0);
    let lighter = weights.remove(0);
    let parents = born.push(from[0]);
    let visited = ranks.push(weights[0]);
    assert forall|k: int, m: int| 0 <= k < m < rest.len() implies #[trigger] in_turn(
        rest,
        lighter,
        k,
        m,
    ) by {
        assert(in_turn(from, weights, k + 1, m + 1));
    }
    assert forall|i: int, k: int| 0 <= i < parents.len() && 0 <= k < rest.len() implies (
    #[trigger] outranked(parents, rest, visited, lighter, i, k)) && (i < born.len()
        ==> outranked(born, rest, ranks, lighter, i, k)) by {
        if i < born.len() {
            assert(outranked(born, from, ranks, weights, i, k + 1));
        } else {
            assert(in_turn(from, weights, 0, k + 1));
        }
    }
    assert forall|i: int, k: int|
        0 <= i < born.len() && 0 <= k < rest.len() implies #[trigger] outranked(
        born,
        rest,
        ranks,
        lighter,
        i,
        k,
    ) by {
        assert(outranked(parents, rest, visited, lighter, i, k));
    }
    assert forall|i: int, j: int| 0 <= i < j < parents.len() implies #[trigger] left_in_turn(
        parents,
        visited,
        i,
        j,
    ) by {
        if j == born.len() {
            assert(outranked(born, from, ranks, weights, i, 0));
        } else {
            assert(left_in_turn(born, ranks, i, j));
        }
    }
}

pub(crate) proof fn lemma_sifted_insert(
    born: Seq<(int, int)>,
    from: Seq<(int, int)>,
    ranks: Seq<u128>,
    weights: Seq<u128>,
    weight: u128,
    pick: int,
)
    requires
        sifted(born, from, ranks, weights),
        born.len() > 0,
        latest(from, (born.len() - 1, pick)),
    ensures
        sifted(
            born,
            from.insert(place(weights, weight), (born.len() - 1, pick)),
            ranks,
            weights.insert(place(weights, weight), weight),
        ),
{
    lemma_place_found(weights, weight);
    let at = place(weights, weight);
    let origin = (born.len() - 1, pick);
    let more = from.insert(at, origin);
    let heavier = weights.insert(at, weight);
    assert forall|k: int| at <= k < weights.len() implies weights[k] >= weight by {
        if k > at {
            assert(in_turn(from, weights, at, k));
        }
    }
    assert forall|k: int, m: int| 0 <= k < m < more.len() implies #[trigger] in_turn(
        more,
        heavier,
        k,
        m,
    ) by {
        if k != at && m != at {
            let a = if k < at {
                k
            } else {
                k - 1
            };
            let b = if m < at {
                m
            } else {
                m - 1
            };
            assert(in_turn(from, weights, a, b));
        } else if k == at {
            assert(earlier(from[m - 1], origin));
            assert(weights[m - 1] >= weight);
        } else {
            assert(weights[k] < weight);
        }
    }
    assert forall|i: int, k: int|
        0 <= i < born.len() && 0 <= k < more.len() implies #[trigger] outranked(
        born,
        more,
        ranks,
        heavier,
        i,
        k,
    ) by {
        if k < at {
            assert(outranked(born, from, ranks, weights, i, k));
        } else if k > at {
            assert(outranked(born, from, ranks, weights, i, k - 1));
        }
    }
}

/// Once the successor at `i` has joined the frontier, the waiting states
/// are still ahead of the successors that follow.
pub(crate) proof fn lemma_ahead_next(
    born: Seq<(int, int)>,
    from: Seq<(int, int)>,
    picks: Seq<int>,
    i: int,
    at: int,
)
    requires
        ahead(born, from, picks, i),
        0 <= i < picks.len(),
        0 <= at <= from.len(),
        forall|k: int, m: int| 0 <= k < m < picks.len() ==> picks[k] < picks[m],
    ensures
        latest(from, (born.len() - 1, picks[i])),
        ahead(born, from.insert(at, (born.len() - 1, picks[i])), picks, i + 1),
{
    let more = from.insert(at, (born.len() - 1, picks[i]));
    assert forall|j: int| i + 1 <= j < picks.len() implies latest(
        more,
        (born.len() - 1, #[trigger] picks[j]),
    ) by {
        assert(latest(from, (born.len() - 1, picks[j])));
        assert forall|k: int| 0 <= k < more.len() implies earlier(
            #[trigger] more[k],
            (born.len() - 1, picks[j]),
        ) by {
            if k < at {
                assert(more[k] == from[k]);
            } else if k > at {
                assert(more[k] == from[k - 1]);
            }
        }
    }
}

/// When a state has just been visited, the waiting states are ahead of all
/// its successors.
pub(crate) proof fn lemma_ahead_start(born: Seq<(int, int)>, from: Seq<(int, int)>, picks: Seq<int>)
    requires
        born.len() > 0,
        parents_below(from, born.len() - 1),
    ensures
        ahead(born, from, picks, 0),
{
    assert forall|j: int| 0 <= j < picks.len() implies latest(
        from,
        (born.len() - 1, #[trigger] picks[j]),
    ) by {}
}

/// The level of a state counts the actions that led to it: a successor lies
/// one level below the state that it comes from.
pub open spec fn levels_count_actions<T: State<A>, A: Action>() -> bool {
    forall|s: T, t: T, n: usize, m: usize|
        #![trigger step::<T, A>(s, t), level_is::<T, A>(s, n), level_is::<T, A>(t, m)]
        step::<T, A>(s, t) && level_is::<T, A>(s, n) && level_is::<T, A>(t, m) ==> m == n + 1
}

/// The states come in order of level, the shallowest first.
pub open spec fn level_ordered<T: State<A>, A: Action>(states: Seq<T>) -> bool {
    forall|i: int, j: int|
        0 <= i <= j < states.len() ==> level_of::<T, A>(#[trigger] states[i]) <= level_of::<T, A>(
            #[trigger] states[j],
        )
}

/// In a tree of visited states, a child lies one level below its parent,
/// and the state that the search began with lies above all.
proof fn lemma_levels_descend<T: State<A>, A: Action>(
    init: T,
    limit: usize,
    fresh: Seq<T>,
    born: Seq<(int, int)>,
    i: int,
)
    requires
        levels_count_actions::<T, A>(),
        family::<T, A>(init, limit, fresh, born),
        measured::<T, A>(fresh),
        0 <= i < fresh.len(),
    ensures
        born[i].0 < 0 ==> fresh[i] == init,
        born[i].0 >= 0 ==> level_of::<T, A>(fresh[i]) == level_of::<T, A>(fresh[born[i].0]) + 1,
        fresh[0] == init,
        level_of::<T, A>(init) <= level_of::<T, A>(fresh[i]),
    decreases i,
{
    assert(child_at::<T, A>(init, limit, fresh, born, i));
    assert(child_at::<T, A>(init, limit, fresh, born, 0));
    let parent = born[i].0;
    if parent >= 0 {
        lemma_levels_descend::<T, A>(init, limit, fresh, born, parent);
        lemma_opens_is_step::<T, A>(fresh[parent], born[i].1, fresh[i]);
        assert(level_is::<T, A>(fresh[i], level_of::<T, A>(fresh[i])));
        assert(level_is::<T, A>(fresh[parent], level_of::<T, A>(fresh[parent])));
    }
}

/// Where levels count actions, states visited in the order of their parents
/// were visited in order of level.
proof fn lemma_arrival_by_level<T: State<A>, A: Action>(
    init: T,
    limit: usize,
    fresh: Seq<T>,
    born: Seq<(int, int)>,
    i: int,
    j: int,
)
    requires
        levels_count_actions::<T, A>(),
        family::<T, A>(init, limit, fresh, born),
        measured::<T, A>(fresh),
        arrival_order(born),
        0 <= i <= j < fresh.len(),
    ensures
        level_of::<T, A>(fresh[i]) <= level_of::<T, A>(fresh[j]),
    decreases j,
{
    lemma_levels_descend::<T, A>(init, limit, fresh, born, i);
    lemma_levels_descend::<T, A>(init, limit, fresh, born, j);
    assert(child_at::<T, A>(init, limit, fresh, born, i));
    assert(child_at::<T, A>(init, limit, fresh, born, j));
    if i < j {
        assert(earlier(born[i], born[j]));
        if born[i].0 >= 0 {
            lemma_arrival_by_level::<T, A>(init, limit, fresh, born, born[i].0, born[j].0);
        }
    }
}

/// Breadth-first search visits the shallowest states first.
pub proof fn lemma_breadth_first_by_level<T: State<A>, A: Action>(
    init: T,
    limit: usize,
    fresh: Seq<T>,
    born: Seq<(int, int)>,
)
    requires
        levels_count_actions::<T, A>(),
        family::<T, A>(init, limit, fresh, born),
        measured::<T, A>(fresh),
        arrival_order(born),
    ensures
        level_ordered::<T, A>(fresh),
{
    assert forall|i: int, j: int| 0 <= i <= j < fresh.len() implies level_of::<T, A>(
        #[trigger] fresh[i],
    ) <= level_of::<T, A>(#[trigger] fresh[j]) by {
        lemma_arrival_by_level::<T, A>(init, limit, fresh, born, i, j);
    }
}

/// The goals among states that come in order of level come in that order.
pub proof fn lemma_goals_ordered<T: State<A>, A: Action>(states: Seq<T>)
    requires
        level_ordered::<T, A>(states),
    ensures
        level_ordered::<T, A>(goals::<T, A>(states)),
    decreases states.len(),
{
    if states.len() > 0 {
        let earlier = states.drop_last();
        assert forall|i: int, j: int| 0 <= i <= j < earlier.len() implies level_of::<T, A>(
            #[trigger] earlier[i],
        ) <= level_of::<T, A>(#[trigger] earlier[j]) by {
            assert(level_of::<T, A>(states[i]) <= level_of::<T, A>(states[j]));
        }
        lemma_goals_ordered::<T, A>(earlier);
        let found = goals::<T, A>(states);
        let before = goals::<T, A>(earlier);
        assert forall|i: int, j: int| 0 <= i <= j < found.len() implies level_of::<T, A>(
            #[trigger] found[i],
        ) <= level_of::<T, A>(#[trigger] found[j]) by {
            if j < before.len() {
                assert(level_of::<T, A>(before[i]) <= level_of::<T, A>(before[j]));
            } else if i < before.len() {
                lemma_goals_are_goals::<T, A>(earlier, i);
                let k = choose|k: int| 0 <= k < earlier.len() && #[trigger] earlier[k] == before[i];
                assert(level_of::<T, A>(states[k]) <= level_of::<T, A>(states[states.len() - 1]));
            }
        }
    }
}

} // verus!
