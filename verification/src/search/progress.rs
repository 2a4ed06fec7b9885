//! Where a traversal stands between two steps, and how each step carries
//! it on.

use std::rc::Rc;
use vstd::prelude::*;

use super::record::{
    child_at, closed_up_to, discovered, expanded, extends, family, goals, held, new_at, parent_of,
    settled_at, sprung,
};
use super::space::{
    arrives, covers, is_goal, lawful, leads, lemma_arrives_at_start, lemma_arrives_step,
    lemma_same_reflexive, lemma_same_transitive, lemma_unseen_bound, lemma_visit_counts, offers,
    opens, same, seen_in, step, unseen_count, within,
};
use super::{Action, State};

verus! {

/// The state behind a shared handle.
pub(crate) open spec fn state_of<T>(handle: &Rc<T>) -> T {
    **handle
}

/// The states behind a sequence of shared handles.
pub(crate) open spec fn states<T>(handles: Seq<Rc<T>>) -> Seq<T> {
    handles.map_values(|handle: Rc<T>| *handle)
}

pub(crate) proof fn lemma_goals_bound<T: State<A>, A: Action>(states: Seq<T>)
    ensures
        goals::<T, A>(states).len() <= states.len(),
    decreases states.len(),
{
    if states.len() > 0 {
        lemma_goals_bound::<T, A>(states.drop_last());
    }
}

/// What holds between two steps of a traversal. While the successors of the
/// state visited last are being added (`pending`), that state is exempt.
pub(crate) open spec fn progress<T: State<A> + PartialEq, A: Action>(
    avoid: Seq<T>,
    init: T,
    limit: usize,
    visited: Seq<T>,
    waiting: Seq<T>,
    pending: bool,
) -> bool {
    &&& discovered::<T, A>(avoid, init, visited)
    &&& forall|k: int|
        0 <= k < waiting.len() ==> arrives::<T, A>(avoid, init, #[trigger] waiting[k])
    &&& closed_up_to::<T, A>(
        avoid,
        init,
        limit,
        visited,
        waiting,
        if pending {
            visited.len() - 1
        } else {
            visited.len() as int
        },
    )
}

/// Closure carries over to a later moment at which nothing that was held
/// has been dropped.
pub(crate) proof fn lemma_closed_carries<T: State<A> + PartialEq, A: Action>(
    avoid: Seq<T>,
    init: T,
    limit: usize,
    visited: Seq<T>,
    waiting: Seq<T>,
    later_visited: Seq<T>,
    later_waiting: Seq<T>,
    n: int,
)
    requires
        closed_up_to::<T, A>(avoid, init, limit, visited, waiting, n),
        n <= visited.len(),
        extends(visited, later_visited),
        forall|t: T| #[trigger] held(visited, waiting, t) ==> held(later_visited, later_waiting, t),
    ensures
        closed_up_to::<T, A>(avoid, init, limit, later_visited, later_waiting, n),
{
    assert forall|i: int| avoid.len() <= i < n implies #[trigger] settled_at::<T, A>(
        limit,
        later_visited,
        later_waiting,
        i,
    ) by {
        assert(settled_at::<T, A>(limit, visited, waiting, i));
        assert(later_visited[i] == visited[i]);
        if !is_goal::<T, A>(visited[i]) && within::<T, A>(limit, visited[i]) {
            assert forall|o: T, t: T| same(later_visited[i], o) && #[trigger] step::<T, A>(
                o,
                t,
            ) implies held(later_visited, later_waiting, t) by {
                assert(held(visited, waiting, t));
            }
        }
    }
}

pub(crate) proof fn lemma_discovered_carries<T: State<A> + PartialEq, A: Action>(
    avoid: Seq<T>,
    init: T,
    visited: Seq<T>,
    c: T,
)
    requires
        discovered::<T, A>(avoid, init, visited),
        arrives::<T, A>(avoid, init, c),
        !seen_in(visited, c),
    ensures
        discovered::<T, A>(avoid, init, visited.push(c)),
{
    let later = visited.push(c);
    assert forall|i: int| avoid.len() <= i < later.len() implies #[trigger] new_at::<T, A>(
        avoid,
        init,
        later,
        i,
    ) by {
        if i < visited.len() {
            assert(new_at::<T, A>(avoid, init, visited, i));
            assert(later.take(i) =~= visited.take(i));
        } else {
            assert(later.take(i) =~= visited);
        }
    }
}

/// Before the first step only `init` waits.
pub(crate) proof fn lemma_progress_start<T: State<A> + PartialEq, A: Action>(
    avoid: Seq<T>,
    init: T,
    limit: usize,
)
    requires
        lawful::<T, A>(),
    ensures
        progress::<T, A>(avoid, init, limit, avoid, seq![init], false),
{
    lemma_arrives_at_start::<T, A>(avoid, init);
    lemma_same_reflexive::<T, A>(init);
    assert(same(seq![init][0], init));
}

/// A candidate that is already visited is dropped.
pub(crate) proof fn lemma_progress_skip<T: State<A> + PartialEq, A: Action>(
    avoid: Seq<T>,
    init: T,
    limit: usize,
    visited: Seq<T>,
    waiting: Seq<T>,
    k: int,
)
    requires
        lawful::<T, A>(),
        progress::<T, A>(avoid, init, limit, visited, waiting, false),
        0 <= k < waiting.len(),
        seen_in(visited, waiting[k]),
    ensures
        progress::<T, A>(avoid, init, limit, visited, waiting.remove(k), false),
{
    let rest = waiting.remove(k);
    assert forall|t: T| #[trigger] held(visited, waiting, t) implies held(visited, rest, t) by {
        if !seen_in(visited, t) {
            let m = choose|m: int| 0 <= m < waiting.len() && #[trigger] same(waiting[m], t);
            if m == k {
                let j = choose|j: int|
                    0 <= j < visited.len() && #[trigger] same(visited[j], waiting[k]);
                lemma_same_transitive::<T, A>(visited[j], waiting[k], t);
            } else if m < k {
                assert(same(rest[m], t));
            } else {
                assert(same(rest[m - 1], t));
            }
        }
    }
    lemma_closed_carries::<T, A>(
        avoid,
        init,
        limit,
        visited,
        waiting,
        visited,
        rest,
        visited.len() as int,
    );
    assert forall|m: int| 0 <= m < rest.len() implies arrives::<T, A>(
        avoid,
        init,
        #[trigger] rest[m],
    ) by {
        if m < k {
            assert(rest[m] == waiting[m]);
        } else {
            assert(rest[m] == waiting[m + 1]);
        }
    }
}

/// A candidate that is new is visited.
pub(crate) proof fn lemma_progress_visit<T: State<A> + PartialEq, A: Action>(
    avoid: Seq<T>,
    init: T,
    limit: usize,
    visited: Seq<T>,
    waiting: Seq<T>,
    k: int,
)
    requires
        lawful::<T, A>(),
        progress::<T, A>(avoid, init, limit, visited, waiting, false),
        0 <= k < waiting.len(),
        !seen_in(visited, waiting[k]),
    ensures
        progress::<T, A>(
            avoid,
            init,
            limit,
            visited.push(waiting[k]),
            waiting.remove(k),
            true,
        ),
{
    let c = waiting[k];
    let later = visited.push(c);
    let rest = waiting.remove(k);
    assert forall|t: T| #[trigger] held(visited, waiting, t) implies held(later, rest, t) by {
        if seen_in(visited, t) {
            let j = choose|j: int| 0 <= j < visited.len() && #[trigger] same(visited[j], t);
            assert(same(later[j], t));
        } else {
            let m = choose|m: int| 0 <= m < waiting.len() && #[trigger] same(waiting[m], t);
            if m == k {
                assert(same(later[visited.len() as int], t));
            } else if m < k {
                assert(same(rest[m], t));
            } else {
                assert(same(rest[m - 1], t));
            }
        }
    }
    lemma_closed_carries::<T, A>(
        avoid,
        init,
        limit,
        visited,
        waiting,
        later,
        rest,
        visited.len() as int,
    );
    lemma_discovered_carries::<T, A>(avoid, init, visited, c);
    assert forall|m: int| 0 <= m < rest.len() implies arrives::<T, A>(
        avoid,
        init,
        #[trigger] rest[m],
    ) by {
        if m < k {
            assert(rest[m] == waiting[m]);
        } else {
            assert(rest[m] == waiting[m + 1]);
        }
    }
}

/// A state that was generated joins the frontier, at any place.
pub(crate) proof fn lemma_progress_insert<T: State<A> + PartialEq, A: Action>(
    avoid: Seq<T>,
    init: T,
    limit: usize,
    visited: Seq<T>,
    waiting: Seq<T>,
    pending: bool,
    at: int,
    x: T,
)
    requires
        progress::<T, A>(avoid, init, limit, visited, waiting, pending),
        arrives::<T, A>(avoid, init, x),
        0 <= at <= waiting.len(),
    ensures
        progress::<T, A>(avoid, init, limit, visited, waiting.insert(at, x), pending),
        forall|t: T| #[trigger] seen_in(waiting, t) ==> seen_in(waiting.insert(at, x), t),
{
    let more = waiting.insert(at, x);
    assert forall|t: T| #[trigger] seen_in(waiting, t) implies seen_in(more, t) by {
        let m = choose|m: int| 0 <= m < waiting.len() && #[trigger] same(waiting[m], t);
        if m < at {
            assert(same(more[m], t));
        } else {
            assert(same(more[m + 1], t));
        }
    }
    assert forall|t: T| #[trigger] held(visited, waiting, t) implies held(visited, more, t) by {
        if seen_in(waiting, t) {
            assert(seen_in(more, t));
        }
    }
    let n = if pending {
        visited.len() - 1
    } else {
        visited.len() as int
    };
    if n >= 0 {
        lemma_closed_carries::<T, A>(avoid, init, limit, visited, waiting, visited, more, n);
    } else {
        assert(held(visited, more, init));
    }
    assert forall|m: int| 0 <= m < more.len() implies arrives::<T, A>(
        avoid,
        init,
        #[trigger] more[m],
    ) by {
        if m < at {
            assert(more[m] == waiting[m]);
        } else if m > at {
            assert(more[m] == waiting[m - 1]);
        }
    }
}

/// `from` gives each waiting state its origin among the states visited.
pub(crate) open spec fn pending<T: State<A>, A: Action>(
    init: T,
    limit: usize,
    fresh: Seq<T>,
    waiting: Seq<T>,
    from: Seq<(int, int)>,
) -> bool {
    &&& from.len() == waiting.len()
    &&& forall|k: int|
        0 <= k < waiting.len() ==> #[trigger] sprung::<T, A>(
            init,
            limit,
            fresh,
            waiting[k],
            from[k],
        )
}

pub(crate) proof fn lemma_family_start<T: State<A>, A: Action>(init: T, limit: usize)
    ensures
        family::<T, A>(init, limit, Seq::<T>::empty(), Seq::<(int, int)>::empty()),
        pending::<T, A>(init, limit, Seq::<T>::empty(), seq![init], seq![(-1int, 0int)]),
{
}

pub(crate) proof fn lemma_family_skip<T: State<A>, A: Action>(
    init: T,
    limit: usize,
    fresh: Seq<T>,
    waiting: Seq<T>,
    from: Seq<(int, int)>,
    k: int,
)
    requires
        pending::<T, A>(init, limit, fresh, waiting, from),
        0 <= k < waiting.len(),
    ensures
        pending::<T, A>(init, limit, fresh, waiting.remove(k), from.remove(k)),
{
    let rest = waiting.remove(k);
    assert forall|m: int| 0 <= m < rest.len() implies #[trigger] sprung::<T, A>(
        init,
        limit,
        fresh,
        rest[m],
        from.remove(k)[m],
    ) by {
        let at = if m < k {
            m
        } else {
            m + 1
        };
        assert(sprung::<T, A>(init, limit, fresh, waiting[at], from[at]));
    }
}

pub(crate) proof fn lemma_family_visit<T: State<A>, A: Action>(
    init: T,
    limit: usize,
    fresh: Seq<T>,
    born: Seq<(int, int)>,
    waiting: Seq<T>,
    from: Seq<(int, int)>,
    k: int,
)
    requires
        family::<T, A>(init, limit, fresh, born),
        pending::<T, A>(init, limit, fresh, waiting, from),
        0 <= k < waiting.len(),
    ensures
        family::<T, A>(init, limit, fresh.push(waiting[k]), born.push(from[k])),
        pending::<T, A>(
            init,
            limit,
            fresh.push(waiting[k]),
            waiting.remove(k),
            from.remove(k),
        ),
{
    let later = fresh.push(waiting[k]);
    let parents = born.push(from[k]);
    let rest = waiting.remove(k);
    assert forall|i: int| 0 <= i < later.len() implies #[trigger] child_at::<T, A>(
        init,
        limit,
        later,
        parents,
        i,
    ) by {
        if i < fresh.len() {
            assert(child_at::<T, A>(init, limit, fresh, born, i));
            if born[i].0 >= 0 {
                assert(later[born[i].0] == fresh[born[i].0]);
            }
        } else {
            assert(sprung::<T, A>(init, limit, fresh, waiting[k], from[k]));
            if from[k].0 >= 0 {
                assert(later[from[k].0] == fresh[from[k].0]);
            }
        }
    }
    assert forall|m: int| 0 <= m < rest.len() implies #[trigger] sprung::<T, A>(
        init,
        limit,
        later,
        rest[m],
        from.remove(k)[m],
    ) by {
        let at = if m < k {
            m
        } else {
            m + 1
        };
        assert(sprung::<T, A>(init, limit, fresh, waiting[at], from[at]));
        if from[at].0 >= 0 {
            assert(later[from[at].0] == fresh[from[at].0]);
        }
    }
}

pub(crate) proof fn lemma_family_insert<T: State<A>, A: Action>(
    init: T,
    limit: usize,
    fresh: Seq<T>,
    waiting: Seq<T>,
    from: Seq<(int, int)>,
    at: int,
    x: T,
    pick: int,
)
    requires
        pending::<T, A>(init, limit, fresh, waiting, from),
        0 <= at <= waiting.len(),
        fresh.len() > 0,
        parent_of::<T, A>(limit, fresh.last(), pick, x),
    ensures
        pending::<T, A>(
            init,
            limit,
            fresh,
            waiting.insert(at, x),
            from.insert(at, (fresh.len() - 1, pick)),
        ),
{
    let more = waiting.insert(at, x);
    let parents = from.insert(at, (fresh.len() - 1, pick));
    assert forall|m: int| 0 <= m < more.len() implies #[trigger] sprung::<T, A>(
        init,
        limit,
        fresh,
        more[m],
        parents[m],
    ) by {
        if m < at {
            assert(sprung::<T, A>(init, limit, fresh, waiting[m], from[m]));
        } else if m > at {
            assert(sprung::<T, A>(init, limit, fresh, waiting[m - 1], from[m - 1]));
        }
    }
}

/// What an action of a state leads to is one of its successors.
pub proof fn lemma_opens_is_step<T: State<A>, A: Action>(s: T, pick: int, t: T)
    requires
        opens::<T, A>(s, pick, t),
    ensures
        step::<T, A>(s, t),
{
    let v = choose|v: Vec<A>| #[trigger]
        offers::<T, A>(s, v) && 0 <= pick < v@.len() && leads::<T, A>(s, v@[pick], t);
    assert(offers::<T, A>(s, v) && leads::<T, A>(s, v@[pick], t));
}

/// Where a traversal stands between two steps: what it has visited since
/// `avoid`, what waits in its frontier, and how each state came about.
pub(crate) open spec fn underway<T: State<A> + PartialEq, A: Action>(
    avoid: Seq<T>,
    init: T,
    limit: usize,
    universe: Seq<T>,
    visited: Seq<T>,
    waiting: Seq<T>,
    pending_last: bool,
    born: Seq<(int, int)>,
    from: Seq<(int, int)>,
) -> bool {
    let fresh = visited.skip(avoid.len() as int);
    &&& lawful::<T, A>()
    &&& covers::<T, A>(avoid, init, universe)
    &&& progress::<T, A>(avoid, init, limit, visited, waiting, pending_last)
    &&& family::<T, A>(init, limit, fresh, born)
    &&& pending::<T, A>(init, limit, fresh, waiting, from)
    &&& fresh.len() + unseen_count(universe, visited) <= universe.len()
}

pub(crate) proof fn lemma_underway_start<T: State<A> + PartialEq, A: Action>(
    avoid: Seq<T>,
    init: T,
    limit: usize,
    universe: Seq<T>,
)
    requires
        lawful::<T, A>(),
        covers::<T, A>(avoid, init, universe),
    ensures
        underway::<T, A>(
            avoid,
            init,
            limit,
            universe,
            avoid,
            seq![init],
            false,
            Seq::<(int, int)>::empty(),
            seq![(-1int, 0int)],
        ),
{
    lemma_progress_start::<T, A>(avoid, init, limit);
    lemma_family_start::<T, A>(init, limit);
    lemma_unseen_bound(universe, avoid);
    assert(avoid.skip(avoid.len() as int) =~= Seq::<T>::empty());
}

/// The candidate at `k` is visited already and is dropped.
pub(crate) proof fn lemma_underway_skip<T: State<A> + PartialEq, A: Action>(
    avoid: Seq<T>,
    init: T,
    limit: usize,
    universe: Seq<T>,
    visited: Seq<T>,
    waiting: Seq<T>,
    born: Seq<(int, int)>,
    from: Seq<(int, int)>,
    k: int,
)
    requires
        underway::<T, A>(avoid, init, limit, universe, visited, waiting, false, born, from),
        0 <= k < waiting.len(),
        seen_in(visited, waiting[k]),
    ensures
        underway::<T, A>(
            avoid,
            init,
            limit,
            universe,
            visited,
            waiting.remove(k),
            false,
            born,
            from.remove(k),
        ),
{
    let fresh = visited.skip(avoid.len() as int);
    lemma_progress_skip::<T, A>(avoid, init, limit, visited, waiting, k);
    lemma_family_skip::<T, A>(init, limit, fresh, waiting, from, k);
}

/// The candidate at `k` is new and is visited: one node fewer is left.
pub(crate) proof fn lemma_underway_visit<T: State<A> + PartialEq, A: Action>(
    avoid: Seq<T>,
    init: T,
    limit: usize,
    universe: Seq<T>,
    visited: Seq<T>,
    waiting: Seq<T>,
    born: Seq<(int, int)>,
    from: Seq<(int, int)>,
    k: int,
)
    requires
        underway::<T, A>(avoid, init, limit, universe, visited, waiting, false, born, from),
        0 <= k < waiting.len(),
        !seen_in(visited, waiting[k]),
    ensures
        underway::<T, A>(
            avoid,
            init,
            limit,
            universe,
            visited.push(waiting[k]),
            waiting.remove(k),
            true,
            born.push(from[k]),
            from.remove(k),
        ),
        unseen_count(universe, visited.push(waiting[k])) < unseen_count(universe, visited),
        visited.len() - avoid.len() < universe.len(),
{
    let fresh = visited.skip(avoid.len() as int);
    let later = visited.push(waiting[k]);
    lemma_progress_visit::<T, A>(avoid, init, limit, visited, waiting, k);
    lemma_family_visit::<T, A>(init, limit, fresh, born, waiting, from, k);
    lemma_visit_counts::<T, A>(avoid, init, universe, visited, waiting[k]);
    assert(later.skip(avoid.len() as int) =~= fresh.push(waiting[k]));
}

/// A successor of the state visited last joins the frontier at `at`.
pub(crate) proof fn lemma_underway_add<T: State<A> + PartialEq, A: Action>(
    avoid: Seq<T>,
    init: T,
    limit: usize,
    universe: Seq<T>,
    visited: Seq<T>,
    waiting: Seq<T>,
    born: Seq<(int, int)>,
    from: Seq<(int, int)>,
    at: int,
    x: T,
    pick: int,
)
    requires
        underway::<T, A>(avoid, init, limit, universe, visited, waiting, true, born, from),
        visited.len() > avoid.len(),
        parent_of::<T, A>(limit, visited.last(), pick, x),
        0 <= at <= waiting.len(),
    ensures
        underway::<T, A>(
            avoid,
            init,
            limit,
            universe,
            visited,
            waiting.insert(at, x),
            true,
            born,
            from.insert(at, (visited.len() - avoid.len() - 1, pick)),
        ),
{
    lemma_opens_is_step::<T, A>(visited.last(), pick, x);
    let fresh = visited.skip(avoid.len() as int);
    let last = visited.len() - 1;
    assert(new_at::<T, A>(avoid, init, visited, last));
    if seen_in(avoid, visited[last]) {
        let m = choose|m: int| 0 <= m < avoid.len() && #[trigger] same(avoid[m], visited[last]);
        assert(same(visited.take(last)[m], visited[last]));
    }
    lemma_arrives_step::<T, A>(avoid, init, visited[last], x);
    lemma_progress_insert::<T, A>(avoid, init, limit, visited, waiting, true, at, x);
    assert(fresh.last() == visited.last());
    lemma_family_insert::<T, A>(init, limit, fresh, waiting, from, at, x, pick);
}

/// The state visited last is done with: it is a goal, lies at the depth
/// limit, or every successor of it is held.
pub(crate) proof fn lemma_underway_settle<T: State<A> + PartialEq, A: Action>(
    avoid: Seq<T>,
    init: T,
    limit: usize,
    universe: Seq<T>,
    visited: Seq<T>,
    waiting: Seq<T>,
    born: Seq<(int, int)>,
    from: Seq<(int, int)>,
)
    requires
        underway::<T, A>(avoid, init, limit, universe, visited, waiting, true, born, from),
        visited.len() > avoid.len(),
        settled_at::<T, A>(limit, visited, waiting, visited.len() - 1),
    ensures
        underway::<T, A>(avoid, init, limit, universe, visited, waiting, false, born, from),
{
}

/// Each node of `part` has a state in `waiting`.
pub(crate) open spec fn carried<T: PartialEq>(part: Seq<T>, waiting: Seq<T>) -> bool {
    forall|t: T| #[trigger] seen_in(part, t) ==> seen_in(waiting, t)
}

pub(crate) proof fn lemma_carried_add<T: PartialEq>(part: Seq<T>, waiting: Seq<T>, at: int, x: T)
    requires
        carried(part, waiting),
        0 <= at <= waiting.len(),
    ensures
        carried(part.push(x), waiting.insert(at, x)),
{
    let more = waiting.insert(at, x);
    assert forall|t: T| #[trigger] seen_in(part.push(x), t) implies seen_in(more, t) by {
        let m = choose|m: int| 0 <= m < part.push(x).len() && #[trigger] same(part.push(x)[m], t);
        if m < part.len() {
            assert(same(part[m], t));
            assert(seen_in(part, t));
            let n = choose|n: int| 0 <= n < waiting.len() && #[trigger] same(waiting[n], t);
            if n < at {
                assert(same(more[n], t));
            } else {
                assert(same(more[n + 1], t));
            }
        } else {
            assert(same(more[at], t));
        }
    }
}

/// What visiting a state yields: `next` holds successors of the state
/// visited last that are no node visited, and none unless it is expanded;
/// where it is expanded, every successor of it is visited or among `next`.
pub(crate) open spec fn yielded<T: State<A> + PartialEq, A: Action>(
    limit: usize,
    visited: Seq<T>,
    goal: bool,
    next: Seq<T>,
    picks: Seq<int>,
) -> bool {
    &&& visited.len() > 0
    &&& goal == is_goal::<T, A>(visited.last())
    &&& picks.len() == next.len()
    &&& forall|k: int, m: int| 0 <= k < m < picks.len() ==> picks[k] < picks[m]
    &&& forall|k: int|
        0 <= k < next.len() ==> #[trigger] parent_of::<T, A>(
            limit,
            visited.last(),
            picks[k],
            next[k],
        ) && !seen_in(visited, next[k])
    &&& !goal && within::<T, A>(limit, visited.last()) ==> forall|o: T, t: T|
        same(visited.last(), o) && #[trigger] step::<T, A>(o, t) ==> held(visited, next, t)
}

/// Once what a visit yielded waits in the frontier, the state visited is
/// done with.
pub(crate) proof fn lemma_yield_settles<T: State<A> + PartialEq, A: Action>(
    limit: usize,
    visited: Seq<T>,
    waiting: Seq<T>,
    goal: bool,
    next: Seq<T>,
    picks: Seq<int>,
)
    requires
        yielded::<T, A>(limit, visited, goal, next, picks),
        carried(next, waiting),
    ensures
        settled_at::<T, A>(limit, visited, waiting, visited.len() - 1),
{
    let last = visited.len() - 1;
    if !goal && within::<T, A>(limit, visited[last]) {
        assert forall|o: T, t: T| same(visited[last], o) && #[trigger] step::<T, A>(
            o,
            t,
        ) implies held(visited, waiting, t) by {
            assert(held(visited, next, t));
        }
    }
}

} // verus!
