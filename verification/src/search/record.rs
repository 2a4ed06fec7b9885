//! The record of a traversal: the states that it visited, the tree that
//! they form, and what it means that it has missed nothing.

use vstd::prelude::*;

use super::space::{
    arrives, is_goal, level_is, level_of, opens, path_is, same, seen_in, step, within,
};
use super::{Action, State};

verus! {

/// The goals among `states`, in their order.
pub open spec fn goals<T: State<A>, A: Action>(states: Seq<T>) -> Seq<T>
    decreases states.len(),
{
    if states.len() == 0 {
        Seq::empty()
    } else {
        let earlier = goals::<T, A>(states.drop_last());
        if is_goal::<T, A>(states.last()) {
            earlier.push(states.last())
        } else {
            earlier
        }
    }
}

/// The highest level among `states`, 0 if there is none.
pub open spec fn deepest<T: State<A>, A: Action>(states: Seq<T>) -> usize
    decreases states.len(),
{
    if states.len() == 0 {
        0
    } else {
        let earlier = deepest::<T, A>(states.drop_last());
        let level = level_of::<T, A>(states.last());
        if level > earlier {
            level
        } else {
            earlier
        }
    }
}

/// `solutions` holds, one for one and in order, what the states of `found`
/// report as the actions that led to them.
pub open spec fn paths_match<T: State<A>, A: Action>(
    solutions: Seq<Vec<A>>,
    found: Seq<T>,
) -> bool {
    &&& solutions.len() == found.len()
    &&& forall|k: int| 0 <= k < found.len() ==> #[trigger] path_is::<T, A>(found[k], solutions[k])
}

/// Each of `states` reports the level that `level_of` gives.
pub open spec fn measured<T: State<A>, A: Action>(states: Seq<T>) -> bool {
    forall|i: int|
        0 <= i < states.len() ==> level_is::<T, A>(
            #[trigger] states[i],
            level_of::<T, A>(states[i]),
        )
}

/// What a search that stops at the first goal returns: that one solution,
/// or none.
pub open spec fn found<A>(solution: Option<Vec<A>>) -> Seq<Vec<A>> {
    match solution {
        Some(path) => seq![path],
        None => Seq::empty(),
    }
}

/// `visited` begins with the states of `avoid`, which a search found there.
pub open spec fn extends<T>(avoid: Seq<T>, visited: Seq<T>) -> bool {
    &&& avoid.len() <= visited.len()
    &&& forall|i: int| 0 <= i < avoid.len() ==> visited[i] == avoid[i]
}

/// The state at `i` was generated from `init` and was no node of those
/// visited before it.
pub open spec fn new_at<T: State<A> + PartialEq, A: Action>(
    avoid: Seq<T>,
    init: T,
    visited: Seq<T>,
    i: int,
) -> bool {
    &&& arrives::<T, A>(avoid, init, visited[i])
    &&& !seen_in(visited.take(i), visited[i])
}

/// What a search from `init` has added to `avoid`: states that it generated,
/// each a node of its own.
pub open spec fn discovered<T: State<A> + PartialEq, A: Action>(
    avoid: Seq<T>,
    init: T,
    visited: Seq<T>,
) -> bool {
    &&& extends(avoid, visited)
    &&& forall|i: int|
        avoid.len() <= i < visited.len() ==> #[trigger] new_at::<T, A>(avoid, init, visited, i)
}

/// `t` is visited, or a state of the same node waits in the frontier.
pub open spec fn held<T: PartialEq>(visited: Seq<T>, waiting: Seq<T>, t: T) -> bool {
    seen_in(visited, t) || seen_in(waiting, t)
}

/// Every successor of `s`, and of each state that is the same node, is
/// visited or waits in the frontier.
pub open spec fn expanded<T: State<A> + PartialEq, A: Action>(
    visited: Seq<T>,
    waiting: Seq<T>,
    s: T,
) -> bool {
    forall|o: T, t: T| same(s, o) && #[trigger] step::<T, A>(o, t) ==> held(visited, waiting, t)
}

/// The visited state at `i` is a goal, lies at the depth limit, or is
/// expanded.
pub open spec fn settled_at<T: State<A> + PartialEq, A: Action>(
    limit: usize,
    visited: Seq<T>,
    waiting: Seq<T>,
    i: int,
) -> bool {
    !is_goal::<T, A>(visited[i]) && within::<T, A>(limit, visited[i]) ==> expanded::<T, A>(
        visited,
        waiting,
        visited[i],
    )
}

/// Nothing is lost: `init` and the successors of the states visited before
/// position `n` are visited or wait in the frontier.
pub open spec fn closed_up_to<T: State<A> + PartialEq, A: Action>(
    avoid: Seq<T>,
    init: T,
    limit: usize,
    visited: Seq<T>,
    waiting: Seq<T>,
    n: int,
) -> bool {
    &&& held(visited, waiting, init)
    &&& forall|i: int|
        avoid.len() <= i < n ==> #[trigger] settled_at::<T, A>(limit, visited, waiting, i)
}

/// The search is exhausted: with an empty frontier, nothing is lost.
pub open spec fn closed<T: State<A> + PartialEq, A: Action>(
    avoid: Seq<T>,
    init: T,
    limit: usize,
    visited: Seq<T>,
) -> bool {
    closed_up_to::<T, A>(avoid, init, limit, visited, Seq::<T>::empty(), visited.len() as int)
}

/// The search expanded `s` and so generated `t`, to which the action at
/// `pick` of those that `s` offers leads.
pub open spec fn parent_of<T: State<A>, A: Action>(limit: usize, s: T, pick: int, t: T) -> bool {
    &&& !is_goal::<T, A>(s)
    &&& within::<T, A>(limit, s)
    &&& opens::<T, A>(s, pick, t)
}

/// `t` came about as `origin` says. The search began with it if the first
/// number is negative. If not, the search generated it from the state at
/// that position of `fresh`, by the action at the position that the second
/// number gives.
pub open spec fn sprung<T: State<A>, A: Action>(
    init: T,
    limit: usize,
    fresh: Seq<T>,
    t: T,
    origin: (int, int),
) -> bool {
    if origin.0 < 0 {
        t == init
    } else {
        origin.0 < fresh.len() && parent_of::<T, A>(limit, fresh[origin.0], origin.1, t)
    }
}

/// The state at `i` came about as `born[i]` says, from a state before it.
pub open spec fn child_at<T: State<A>, A: Action>(
    init: T,
    limit: usize,
    fresh: Seq<T>,
    born: Seq<(int, int)>,
    i: int,
) -> bool {
    born[i].0 < i && sprung::<T, A>(init, limit, fresh, fresh[i], born[i])
}

/// The states that a search visited form a tree, and `born` gives the
/// origin of each: the position of its parent, the state that it was
/// generated from, and the position of the action that led to it among
/// those that the parent offers. The parent of the state that the search
/// began with is negative.
pub open spec fn family<T: State<A>, A: Action>(
    init: T,
    limit: usize,
    fresh: Seq<T>,
    born: Seq<(int, int)>,
) -> bool {
    &&& born.len() == fresh.len()
    &&& forall|i: int|
        0 <= i < fresh.len() ==> #[trigger] child_at::<T, A>(init, limit, fresh, born, i)
}

/// The states that a search visited form a tree.
pub open spec fn descended<T: State<A>, A: Action>(init: T, limit: usize, fresh: Seq<T>) -> bool {
    exists|born: Seq<(int, int)>| #[trigger] family::<T, A>(init, limit, fresh, born)
}

} // verus!
