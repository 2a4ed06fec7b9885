//! What follows from the record of a traversal: that the goals it found can
//! be reached, and that an exhausted search has missed none.

use vstd::prelude::*;

use super::space::{
    arrives, goal_in_reach, hop, is_goal, is_route, is_trail, lawful, lemma_goal_shared, link,
    same, seen_in, within,
};
use super::space::{
    covers, follows, follows_through, leads, lemma_unseen_bound, lemma_visit_counts, level_of,
    offers, taken, unseen_count,
};
use super::record::{
    child_at, closed, deepest, discovered, expanded, extends, family, goals, held, new_at,
    settled_at,
};
use super::{Action, State};

verus! {

/// A sequence without goals yields none.
pub proof fn lemma_no_goals<T: State<A>, A: Action>(states: Seq<T>)
    requires
        forall|i: int| 0 <= i < states.len() ==> !is_goal::<T, A>(#[trigger] states[i]),
    ensures
        goals::<T, A>(states).len() == 0,
    decreases states.len(),
{
    if states.len() > 0 {
        let earlier = states.drop_last();
        assert forall|i: int| 0 <= i < earlier.len() implies !is_goal::<T, A>(
            #[trigger] earlier[i],
        ) by {
            assert(earlier[i] == states[i]);
        }
        lemma_no_goals::<T, A>(earlier);
        assert(!is_goal::<T, A>(states[states.len() - 1]));
    }
}

/// A goal among the states is among their goals.
pub proof fn lemma_goal_counted<T: State<A>, A: Action>(states: Seq<T>, i: int)
    requires
        0 <= i < states.len(),
        is_goal::<T, A>(states[i]),
    ensures
        goals::<T, A>(states).len() > 0,
    decreases states.len(),
{
    if i < states.len() - 1 {
        lemma_goal_counted::<T, A>(states.drop_last(), i);
    }
}

/// Each of the goals of a sequence is a goal, and one of its states.
pub proof fn lemma_goals_are_goals<T: State<A>, A: Action>(states: Seq<T>, k: int)
    requires
        0 <= k < goals::<T, A>(states).len(),
    ensures
        is_goal::<T, A>(goals::<T, A>(states)[k]),
        exists|i: int| 0 <= i < states.len() && #[trigger] states[i] == goals::<T, A>(states)[k],
    decreases states.len(),
{
    let earlier = goals::<T, A>(states.drop_last());
    if k < earlier.len() {
        lemma_goals_are_goals::<T, A>(states.drop_last(), k);
        let i = choose|i: int|
            0 <= i < states.drop_last().len() && #[trigger] states.drop_last()[i] == earlier[k];
        assert(states[i] == goals::<T, A>(states)[k]);
    } else {
        assert(states[states.len() - 1] == goals::<T, A>(states)[k]);
    }
}

/// A goal that a search visited can be reached: the states through which
/// the search came to it form a route.
pub proof fn lemma_visited_goal_in_reach<T: State<A> + PartialEq, A: Action>(
    avoid: Seq<T>,
    init: T,
    visited: Seq<T>,
    i: int,
)
    requires
        discovered::<T, A>(avoid, init, visited),
        avoid.len() <= i < visited.len(),
        is_goal::<T, A>(visited[i]),
    ensures
        goal_in_reach::<T, A>(avoid, init),
{
    assert(new_at::<T, A>(avoid, init, visited, i));
    let w = choose|w: Seq<T>| #[trigger]
        is_trail::<T, A>(avoid, w) && w[0] == init && w.last() == visited[i];
    assert forall|j: int| 0 <= j < w.len() implies !seen_in(avoid, #[trigger] w[j]) by {
        if j < w.len() - 1 {
            assert(hop::<T, A>(avoid, w, j));
        } else if seen_in(avoid, w[j]) {
            let m = choose|m: int| 0 <= m < avoid.len() && #[trigger] same(avoid[m], w[j]);
            assert(same(visited.take(i)[m], visited[i]));
        }
    }
    assert forall|j: int| 0 <= j < w.len() - 1 implies #[trigger] link::<T, A>(w, j) by {
        assert(hop::<T, A>(avoid, w, j));
    }
    assert(is_route::<T, A>(avoid, w));
}

/// An exhausted search has followed every route: it has visited a goal, or
/// a state that is the same node as the one at `n`.
proof fn lemma_route_followed<T: State<A> + PartialEq, A: Action>(
    avoid: Seq<T>,
    init: T,
    limit: usize,
    visited: Seq<T>,
    w: Seq<T>,
    n: int,
) -> (i: int)
    requires
        lawful::<T, A>(),
        extends(avoid, visited),
        closed::<T, A>(avoid, init, limit, visited),
        forall|i: int| avoid.len() <= i < visited.len() ==> within::<T, A>(limit, visited[i]),
        is_route::<T, A>(avoid, w),
        w[0] == init,
        0 <= n < w.len(),
    ensures
        avoid.len() <= i < visited.len(),
        is_goal::<T, A>(visited[i]) || same(visited[i], w[n]),
    decreases n,
{
    let nothing = Seq::<T>::empty();
    if n == 0 {
        assert(held(visited, nothing, init));
        let j = choose|j: int| 0 <= j < visited.len() && #[trigger] same(visited[j], init);
        if j < avoid.len() {
            assert(same(avoid[j], w[0]));
            assert(seen_in(avoid, w[0]));
        }
        j
    } else {
        let i = lemma_route_followed::<T, A>(avoid, init, limit, visited, w, n - 1);
        if is_goal::<T, A>(visited[i]) {
            i
        } else {
            assert(settled_at::<T, A>(limit, visited, nothing, i));
            assert(expanded::<T, A>(visited, nothing, visited[i]));
            assert(link::<T, A>(w, n - 1));
            assert(held(visited, nothing, w[n]));
            let j = choose|j: int| 0 <= j < visited.len() && #[trigger] same(visited[j], w[n]);
            if j < avoid.len() {
                assert(same(avoid[j], w[n]));
                assert(seen_in(avoid, w[n]));
            }
            j
        }
    }
}

/// Where a goal is in reach, an exhausted search that no depth limit cut
/// short has visited a goal.
pub proof fn lemma_closed_finds_goal<T: State<A> + PartialEq, A: Action>(
    avoid: Seq<T>,
    init: T,
    limit: usize,
    visited: Seq<T>,
) -> (i: int)
    requires
        lawful::<T, A>(),
        extends(avoid, visited),
        closed::<T, A>(avoid, init, limit, visited),
        forall|i: int| avoid.len() <= i < visited.len() ==> within::<T, A>(limit, visited[i]),
        goal_in_reach::<T, A>(avoid, init),
    ensures
        avoid.len() <= i < visited.len(),
        is_goal::<T, A>(visited[i]),
{
    let w = choose|w: Seq<T>| #[trigger]
        is_route::<T, A>(avoid, w) && w[0] == init && is_goal::<T, A>(w.last());
    let i = lemma_route_followed::<T, A>(avoid, init, limit, visited, w, w.len() - 1);
    if !is_goal::<T, A>(visited[i]) {
        super::space::lemma_same_symmetric::<T, A>(visited[i], w.last());
        lemma_goal_shared::<T, A>(w.last(), visited[i]);
    }
    i
}

/// A search from a state that is already visited visits nothing.
pub proof fn lemma_nothing_new<T: State<A> + PartialEq, A: Action>(
    avoid: Seq<T>,
    init: T,
    visited: Seq<T>,
)
    requires
        discovered::<T, A>(avoid, init, visited),
        seen_in(avoid, init),
    ensures
        visited == avoid,
{
    if visited.len() > avoid.len() {
        let i = avoid.len() as int;
        assert(new_at::<T, A>(avoid, init, visited, i));
        let w = choose|w: Seq<T>| #[trigger]
            is_trail::<T, A>(avoid, w) && w[0] == init && w.last() == visited[i];
        if w.len() == 1 {
            let m = choose|m: int| 0 <= m < avoid.len() && #[trigger] same(avoid[m], init);
            assert(same(visited.take(i)[m], visited[i]));
        } else {
            assert(hop::<T, A>(avoid, w, 0));
        }
    }
    assert(visited =~= avoid);
}

/// What a search may generate while it avoids some states, it may generate
/// while it avoids none.
pub proof fn lemma_arrives_anyway<T: State<A> + PartialEq, A: Action>(
    avoid: Seq<T>,
    init: T,
    t: T,
)
    requires
        arrives::<T, A>(avoid, init, t),
    ensures
        arrives::<T, A>(Seq::<T>::empty(), init, t),
{
    let w = choose|w: Seq<T>| #[trigger]
        is_trail::<T, A>(avoid, w) && w[0] == init && w.last() == t;
    assert forall|i: int| 0 <= i < w.len() - 1 implies #[trigger] hop::<T, A>(
        Seq::<T>::empty(),
        w,
        i,
    ) by {
        assert(hop::<T, A>(avoid, w, i));
    }
    assert(is_trail::<T, A>(Seq::<T>::empty(), w));
}

/// States that cover a search which avoids nothing cover every search.
pub proof fn lemma_covers_anyway<T: State<A> + PartialEq, A: Action>(
    avoid: Seq<T>,
    init: T,
    universe: Seq<T>,
)
    requires
        covers::<T, A>(Seq::<T>::empty(), init, universe),
    ensures
        covers::<T, A>(avoid, init, universe),
{
    assert forall|t: T| #[trigger] arrives::<T, A>(avoid, init, t) implies seen_in(universe, t) by {
        lemma_arrives_anyway::<T, A>(avoid, init, t);
    }
}

/// A goal in reach by a route that avoids some states is in reach.
pub proof fn lemma_reach_anyway<T: State<A> + PartialEq, A: Action>(avoid: Seq<T>, init: T)
    requires
        goal_in_reach::<T, A>(avoid, init),
    ensures
        goal_in_reach::<T, A>(Seq::<T>::empty(), init),
{
    let w = choose|w: Seq<T>| #[trigger]
        is_route::<T, A>(avoid, w) && w[0] == init && is_goal::<T, A>(w.last());
    assert(is_route::<T, A>(Seq::<T>::empty(), w));
}

/// No state lies deeper than the deepest.
pub proof fn lemma_deepest_bounds<T: State<A>, A: Action>(states: Seq<T>, i: int)
    requires
        0 <= i < states.len(),
    ensures
        level_of::<T, A>(states[i]) <= deepest::<T, A>(states),
    decreases states.len(),
{
    if i < states.len() - 1 {
        lemma_deepest_bounds::<T, A>(states.drop_last(), i);
    }
}

/// The deepest of states that all lie within a depth lies within it.
pub proof fn lemma_deepest_limited<T: State<A>, A: Action>(states: Seq<T>, depth: usize)
    requires
        forall|i: int| 0 <= i < states.len() ==> level_of::<T, A>(#[trigger] states[i]) <= depth,
    ensures
        deepest::<T, A>(states) <= depth,
    decreases states.len(),
{
    if states.len() > 0 {
        let earlier = states.drop_last();
        assert forall|i: int| 0 <= i < earlier.len() implies level_of::<T, A>(
            #[trigger] earlier[i],
        ) <= depth by {
            assert(earlier[i] == states[i]);
        }
        lemma_deepest_limited::<T, A>(earlier, depth);
        assert(level_of::<T, A>(states[states.len() - 1]) <= depth);
    }
}

/// Of the states that a search visits, the first `n` leave that many fewer
/// nodes of the space unvisited.
proof fn lemma_fresh_counted<T: State<A> + PartialEq, A: Action>(
    avoid: Seq<T>,
    init: T,
    universe: Seq<T>,
    visited: Seq<T>,
    n: int,
)
    requires
        lawful::<T, A>(),
        covers::<T, A>(avoid, init, universe),
        discovered::<T, A>(avoid, init, visited),
        avoid.len() <= n <= visited.len(),
    ensures
        n - avoid.len() + unseen_count(universe, visited.take(n)) <= universe.len(),
    decreases n,
{
    if n == avoid.len() {
        lemma_unseen_bound(universe, visited.take(n));
    } else {
        lemma_fresh_counted::<T, A>(avoid, init, universe, visited, n - 1);
        assert(new_at::<T, A>(avoid, init, visited, n - 1));
        assert(visited.take(n) =~= visited.take(n - 1).push(visited[n - 1]));
        lemma_visit_counts::<T, A>(avoid, init, universe, visited.take(n - 1), visited[n - 1]);
    }
}

/// A search visits no more states than the space that it can enter has
/// nodes.
pub proof fn lemma_fresh_bounded<T: State<A> + PartialEq, A: Action>(
    avoid: Seq<T>,
    init: T,
    universe: Seq<T>,
    visited: Seq<T>,
)
    requires
        lawful::<T, A>(),
        covers::<T, A>(avoid, init, universe),
        discovered::<T, A>(avoid, init, visited),
    ensures
        visited.len() - avoid.len() <= universe.len(),
{
    lemma_fresh_counted::<T, A>(avoid, init, universe, visited, visited.len() as int);
}

/// Each state that a search visited is where some actions lead from the
/// state that it began with: those along its branch of the tree.
pub proof fn lemma_visited_follows<T: State<A>, A: Action>(
    init: T,
    limit: usize,
    fresh: Seq<T>,
    born: Seq<(int, int)>,
    i: int,
) -> (actions: Seq<A>)
    requires
        family::<T, A>(init, limit, fresh, born),
        0 <= i < fresh.len(),
    ensures
        follows::<T, A>(init, actions, fresh[i]),
    decreases i,
{
    assert(child_at::<T, A>(init, limit, fresh, born, i));
    let j = born[i].0;
    if j < 0 {
        let actions = Seq::<A>::empty();
        assert(follows_through::<T, A>(init, actions, seq![init], fresh[i]));
        actions
    } else {
        let earlier = lemma_visited_follows::<T, A>(init, limit, fresh, born, j);
        let through = choose|w: Seq<T>| #[trigger]
            follows_through::<T, A>(init, earlier, w, fresh[j]);
        let k = born[i].1;
        let v = choose|v: Vec<A>| #[trigger]
            offers::<T, A>(fresh[j], v) && 0 <= k < v@.len() && leads::<T, A>(
                fresh[j],
                v@[k],
                fresh[i],
            );
        let actions = earlier.push(v@[k]);
        let w = through.push(fresh[i]);
        assert forall|n: int| 0 <= n < actions.len() implies #[trigger] taken::<T, A>(
            w,
            actions,
            n,
        ) by {
            if n < earlier.len() {
                assert(taken::<T, A>(through, earlier, n));
            }
        }
        assert(follows_through::<T, A>(init, actions, w, fresh[i]));
        actions
    }
}

} // verus!
