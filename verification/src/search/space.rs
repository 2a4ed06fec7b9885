//! The state space of a problem, as the engine sees it.
//!
//! The space is spanned by what the methods of a state may return: `leads`,
//! `offers`, `goal_is` and the like say that a call of the method on these
//! arguments may give this result. States that compare equal count as one
//! node. On these relations rest the notions of a walk, of a goal in reach
//! and of the laws that a problem has to obey.

use vstd::prelude::*;
use vstd::std_specs::cmp::PartialEqSpec;

use super::{Action, State, StateHeuristic};

verus! {

/// `s` and `t` are one node of the space: `s == t` holds in executable code.
pub open spec fn same<T: PartialEq>(s: T, t: T) -> bool {
    s.eq_spec(&t)
}

/// In executable code `==` on `T` returns what `same` says.
pub open spec fn equality_decides<T: PartialEq>() -> bool {
    T::obeys_eq_spec()
}

/// The goal test may answer `b` on `s`.
pub open spec fn goal_is<T: State<A>, A: Action>(s: T, b: bool) -> bool {
    call_ensures(T::is_solution, (&s,), b)
}

/// `s` is a goal.
pub open spec fn is_goal<T: State<A>, A: Action>(s: T) -> bool {
    goal_is::<T, A>(s, true)
}

/// `s` may report `n` as its level.
pub open spec fn level_is<T: State<A>, A: Action>(s: T, n: usize) -> bool {
    call_ensures(T::get_state_level, (&s,), n)
}

/// `s` may report `p` as the actions that led to it.
pub open spec fn path_is<T: State<A>, A: Action>(s: T, p: Vec<A>) -> bool {
    call_ensures(T::get_partial_solution, (&s,), p)
}

/// `s` may offer `v` as its applicable actions.
pub open spec fn offers<T: State<A>, A: Action>(s: T, v: Vec<A>) -> bool {
    call_ensures(T::get_applicable_actions, (&s,), v)
}

/// Applying `a` to `s` may give `t`.
pub open spec fn leads<T: State<A>, A: Action>(s: T, a: A, t: T) -> bool {
    call_ensures(T::apply_action, (&s, &a), t)
}

/// `s` may report `c` as the cost of the actions that led to it.
pub open spec fn cost_is<T: State<A>, A: Action>(s: T, c: u64) -> bool {
    call_ensures(T::get_solution_cost, (&s,), c)
}

/// `s` may estimate `h` as the cost that is left to a goal.
pub open spec fn heuristic_is<T: StateHeuristic>(s: T, h: u64) -> bool {
    call_ensures(T::heuristic, (&s,), h)
}

/// `weight` is a rank of `s` in best-first search: a cost that it reports
/// and an estimate that it gives, added up.
pub open spec fn ranked<T: State<A> + StateHeuristic, A: Action>(s: T, weight: u128) -> bool {
    exists|c: u64, h: u64|
        #![trigger cost_is::<T, A>(s, c), heuristic_is::<T>(s, h)]
        cost_is::<T, A>(s, c) && heuristic_is::<T>(s, h) && weight == c + h
}

/// `t` is a successor of `s`: one of the actions that `s` offers leads to it.
pub open spec fn step<T: State<A>, A: Action>(s: T, t: T) -> bool {
    exists|v: Vec<A>, i: int|
        #![trigger offers::<T, A>(s, v), leads::<T, A>(s, v@[i], t)]
        offers::<T, A>(s, v) && 0 <= i < v@.len() && leads::<T, A>(s, v@[i], t)
}

/// Of the actions that `s` offers, the one at `pick` leads to `t`.
pub open spec fn opens<T: State<A>, A: Action>(s: T, pick: int, t: T) -> bool {
    exists|v: Vec<A>| #[trigger]
        offers::<T, A>(s, v) && 0 <= pick < v@.len() && leads::<T, A>(s, v@[pick], t)
}

/// Action `i` of `actions` leads from state `i` of `w` to the next.
pub open spec fn taken<T: State<A>, A: Action>(w: Seq<T>, actions: Seq<A>, i: int) -> bool {
    leads::<T, A>(w[i], actions[i], w[i + 1])
}

/// Taking the actions of `actions` in order, from `init`, may lead through
/// the states of `w` to `end`.
pub open spec fn follows_through<T: State<A>, A: Action>(
    init: T,
    actions: Seq<A>,
    w: Seq<T>,
    end: T,
) -> bool {
    &&& w.len() == actions.len() + 1
    &&& w[0] == init
    &&& w.last() == end
    &&& forall|i: int| 0 <= i < actions.len() ==> #[trigger] taken::<T, A>(w, actions, i)
}

/// Taking the actions of `actions` in order, from `init`, may lead to `end`.
pub open spec fn follows<T: State<A>, A: Action>(init: T, actions: Seq<A>, end: T) -> bool {
    exists|w: Seq<T>| #[trigger] follows_through::<T, A>(init, actions, w, end)
}

/// `s` reports that no action led to it.
pub open spec fn blank<T: State<A>, A: Action>(s: T) -> bool {
    exists|p: Vec<A>| #[trigger] path_is::<T, A>(s, p) && p@.len() == 0
}

/// Taking the actions of `actions` in order, from `init`, may lead to a
/// goal.
pub open spec fn leads_to_goal<T: State<A>, A: Action>(init: T, actions: Seq<A>) -> bool {
    exists|g: T| #[trigger] follows::<T, A>(init, actions, g) && is_goal::<T, A>(g)
}

/// Each of `solutions` leads from `init` to a goal.
pub open spec fn all_lead_to_goal<T: State<A>, A: Action>(
    init: T,
    solutions: Seq<Vec<A>>,
) -> bool {
    forall|k: int|
        0 <= k < solutions.len() ==> leads_to_goal::<T, A>(init, #[trigger] solutions[k]@)
}

/// A state records the actions that led to it: what a state reports after
/// some actions is what the state that they were taken from reports, and
/// then those actions.
pub open spec fn paths_record_actions<T: State<A>, A: Action>() -> bool {
    forall|init: T, actions: Seq<A>, end: T, before: Vec<A>, after: Vec<A>|
        #![trigger
            follows::<T, A>(init, actions, end),
            path_is::<T, A>(init, before),
            path_is::<T, A>(end, after)
        ]
        follows::<T, A>(init, actions, end) && path_is::<T, A>(init, before) && path_is::<T, A>(
            end,
            after,
        ) ==> after@ == before@ + actions
}

/// Some state of `states` is the same node as `t`.
pub open spec fn seen_in<T: PartialEq>(states: Seq<T>, t: T) -> bool {
    exists|j: int| 0 <= j < states.len() && #[trigger] same(states[j], t)
}

/// What the engine asks of a problem: `==` is an equivalence, and states
/// that are one node answer alike. The goal test, the offered actions and the
/// node an action leads to depend on the node alone; the level and the
/// recorded actions on the state alone.
#[verifier::opaque]
pub open spec fn lawful<T: State<A> + PartialEq, A: Action>() -> bool {
    &&& T::obeys_eq_spec()
    &&& forall|s: T| #[trigger] same(s, s)
    &&& forall|s: T, t: T| #[trigger] same(s, t) ==> same(t, s)
    &&& forall|s: T, t: T, u: T| #[trigger] same(s, t) && #[trigger] same(t, u) ==> same(s, u)
    &&& forall|s: T| !(#[trigger] goal_is::<T, A>(s, true) && goal_is::<T, A>(s, false))
    &&& forall|s: T, t: T| #[trigger] same(s, t) && is_goal::<T, A>(s) ==> is_goal::<T, A>(t)
    &&& forall|s: T, n: usize, m: usize| #[trigger]
        level_is::<T, A>(s, n) && #[trigger] level_is::<T, A>(s, m) ==> n == m
    &&& forall|s: T, p: Vec<A>, q: Vec<A>| #[trigger]
        path_is::<T, A>(s, p) && #[trigger] path_is::<T, A>(s, q) ==> p@ == q@
    &&& forall|s: T, t: T, v: Vec<A>, w: Vec<A>|
        same(s, t) && #[trigger] offers::<T, A>(s, v) && #[trigger] offers::<T, A>(t, w) ==> v@
            == w@
    &&& forall|s: T, t: T, a: A, x: T, y: T|
        same(s, t) && #[trigger] leads::<T, A>(s, a, x) && #[trigger] leads::<T, A>(t, a, y)
            ==> same(x, y)
}

pub proof fn lemma_same_reflexive<T: State<A> + PartialEq, A: Action>(s: T)
    requires
        lawful::<T, A>(),
    ensures
        same(s, s),
{
    reveal(lawful);
}

pub proof fn lemma_same_symmetric<T: State<A> + PartialEq, A: Action>(s: T, t: T)
    requires
        lawful::<T, A>(),
        same(s, t),
    ensures
        same(t, s),
{
    reveal(lawful);
}

pub proof fn lemma_same_transitive<T: State<A> + PartialEq, A: Action>(s: T, t: T, u: T)
    requires
        lawful::<T, A>(),
        same(s, t),
        same(t, u),
    ensures
        same(s, u),
{
    reveal(lawful);
}

/// The level that `s` reports.
pub open spec fn level_of<T: State<A>, A: Action>(s: T) -> usize {
    choose|n: usize| level_is::<T, A>(s, n)
}

/// A state at this level is expanded under the depth limit `limit`, where 0
/// stands for no limit.
pub open spec fn within<T: State<A>, A: Action>(limit: usize, s: T) -> bool {
    limit == 0 || level_of::<T, A>(s) < limit
}

/// Link `i` of the walk `w` is one that a search takes: it leaves a state
/// that is no goal and is none of `avoid`, for one of its successors.
pub open spec fn hop<T: State<A> + PartialEq, A: Action>(avoid: Seq<T>, w: Seq<T>, i: int) -> bool {
    &&& step::<T, A>(w[i], w[i + 1])
    &&& !is_goal::<T, A>(w[i])
    &&& !seen_in(avoid, w[i])
}

/// `w` is a walk that a search may take while the states of `avoid` count as
/// visited. Nothing is asked of its last state.
pub open spec fn is_trail<T: State<A> + PartialEq, A: Action>(avoid: Seq<T>, w: Seq<T>) -> bool {
    &&& w.len() > 0
    &&& forall|i: int| 0 <= i < w.len() - 1 ==> #[trigger] hop::<T, A>(avoid, w, i)
}

/// A search from `init` may come to generate `t`.
pub open spec fn arrives<T: State<A> + PartialEq, A: Action>(avoid: Seq<T>, init: T, t: T) -> bool {
    exists|w: Seq<T>| #[trigger] is_trail::<T, A>(avoid, w) && w[0] == init && w.last() == t
}

/// Link `i` of the walk `w` goes from a state to one of its successors.
pub open spec fn link<T: State<A>, A: Action>(w: Seq<T>, i: int) -> bool {
    step::<T, A>(w[i], w[i + 1])
}

/// `w` is a walk through successors, none of whose states is one of `avoid`.
pub open spec fn is_route<T: State<A> + PartialEq, A: Action>(avoid: Seq<T>, w: Seq<T>) -> bool {
    &&& w.len() > 0
    &&& forall|i: int| 0 <= i < w.len() ==> !seen_in(avoid, #[trigger] w[i])
    &&& forall|i: int| 0 <= i < w.len() - 1 ==> #[trigger] link::<T, A>(w, i)
}

/// A goal can be reached from `init` without passing through a state of
/// `avoid`.
pub open spec fn goal_in_reach<T: State<A> + PartialEq, A: Action>(avoid: Seq<T>, init: T) -> bool {
    exists|w: Seq<T>| #[trigger]
        is_route::<T, A>(avoid, w) && w[0] == init && is_goal::<T, A>(w.last())
}

/// Every state that a search from `init` may generate is the same node as a
/// state of `universe`: the part of the space that the search can enter is
/// finite.
pub open spec fn covers<T: State<A> + PartialEq, A: Action>(
    avoid: Seq<T>,
    init: T,
    universe: Seq<T>,
) -> bool {
    forall|t: T| #[trigger] arrives::<T, A>(avoid, init, t) ==> seen_in(universe, t)
}

/// How many states of `universe` are no node of `visited`.
pub(crate) open spec fn unseen_count<T: PartialEq>(universe: Seq<T>, visited: Seq<T>) -> nat
    decreases universe.len(),
{
    if universe.len() == 0 {
        0
    } else {
        unseen_count(universe.drop_last(), visited) + if seen_in(visited, universe.last()) {
            0nat
        } else {
            1nat
        }
    }
}

pub proof fn lemma_equality_obeys<T: State<A> + PartialEq, A: Action>()
    requires
        lawful::<T, A>(),
    ensures
        equality_decides::<T>(),
{
    reveal(lawful);
}

pub proof fn lemma_goal_decided<T: State<A> + PartialEq, A: Action>(s: T)
    requires
        lawful::<T, A>(),
    ensures
        !(goal_is::<T, A>(s, true) && goal_is::<T, A>(s, false)),
{
    reveal(lawful);
}

pub proof fn lemma_goal_shared<T: State<A> + PartialEq, A: Action>(s: T, t: T)
    requires
        lawful::<T, A>(),
        same(s, t),
        is_goal::<T, A>(s),
    ensures
        is_goal::<T, A>(t),
{
    reveal(lawful);
}

pub proof fn lemma_level_agrees<T: State<A> + PartialEq, A: Action>(s: T, n: usize)
    requires
        lawful::<T, A>(),
        level_is::<T, A>(s, n),
    ensures
        level_of::<T, A>(s) == n,
{
    reveal(lawful);
}

pub proof fn lemma_offers_agree<T: State<A> + PartialEq, A: Action>(
    s: T,
    t: T,
    v: Vec<A>,
    w: Vec<A>,
)
    requires
        lawful::<T, A>(),
        same(s, t),
        offers::<T, A>(s, v),
        offers::<T, A>(t, w),
    ensures
        v@ == w@,
{
    reveal(lawful);
}

pub proof fn lemma_leads_agree<T: State<A> + PartialEq, A: Action>(s: T, t: T, a: A, x: T, y: T)
    requires
        lawful::<T, A>(),
        same(s, t),
        leads::<T, A>(s, a, x),
        leads::<T, A>(t, a, y),
    ensures
        same(x, y),
{
    reveal(lawful);
}

pub proof fn lemma_arrives_at_start<T: State<A> + PartialEq, A: Action>(avoid: Seq<T>, init: T)
    ensures
        arrives::<T, A>(avoid, init, init),
{
    let w = seq![init];
    assert(is_trail::<T, A>(avoid, w));
}

/// A successor of an expanded state is generated in turn.
pub proof fn lemma_arrives_step<T: State<A> + PartialEq, A: Action>(
    avoid: Seq<T>,
    init: T,
    s: T,
    t: T,
)
    requires
        arrives::<T, A>(avoid, init, s),
        !is_goal::<T, A>(s),
        !seen_in(avoid, s),
        step::<T, A>(s, t),
    ensures
        arrives::<T, A>(avoid, init, t),
{
    let w = choose|w: Seq<T>| #[trigger]
        is_trail::<T, A>(avoid, w) && w[0] == init && w.last() == s;
    let longer = w.push(t);
    assert forall|i: int| 0 <= i < longer.len() - 1 implies #[trigger] hop::<T, A>(
        avoid,
        longer,
        i,
    ) by {
        if i < w.len() - 1 {
            assert(hop::<T, A>(avoid, w, i));
        }
    }
    assert(is_trail::<T, A>(avoid, longer));
}

pub(crate) proof fn lemma_seen_after_push<T: PartialEq>(visited: Seq<T>, c: T, t: T)
    requires
        seen_in(visited, t),
    ensures
        seen_in(visited.push(c), t),
{
    let j = choose|j: int| 0 <= j < visited.len() && #[trigger] same(visited[j], t);
    assert(same(visited.push(c)[j], t));
}

pub(crate) proof fn lemma_unseen_bound<T: PartialEq>(universe: Seq<T>, visited: Seq<T>)
    ensures
        unseen_count(universe, visited) <= universe.len(),
    decreases universe.len(),
{
    if universe.len() > 0 {
        lemma_unseen_bound(universe.drop_last(), visited);
    }
}

pub(crate) proof fn lemma_unseen_shrinks<T: PartialEq>(universe: Seq<T>, visited: Seq<T>, c: T)
    ensures
        unseen_count(universe, visited.push(c)) <= unseen_count(universe, visited),
    decreases universe.len(),
{
    if universe.len() > 0 {
        lemma_unseen_shrinks(universe.drop_last(), visited, c);
        if seen_in(visited, universe.last()) {
            lemma_seen_after_push(visited, c, universe.last());
        }
    }
}

pub(crate) proof fn lemma_unseen_drops<T: PartialEq>(
    universe: Seq<T>,
    visited: Seq<T>,
    c: T,
    j: int,
)
    requires
        0 <= j < universe.len(),
        !seen_in(visited, universe[j]),
        seen_in(visited.push(c), universe[j]),
    ensures
        unseen_count(universe, visited.push(c)) < unseen_count(universe, visited),
    decreases universe.len(),
{
    if j == universe.len() - 1 {
        lemma_unseen_shrinks(universe.drop_last(), visited, c);
    } else {
        lemma_unseen_drops(universe.drop_last(), visited, c, j);
        if seen_in(visited, universe.last()) {
            lemma_seen_after_push(visited, c, universe.last());
        }
    }
}

/// Visiting a state that was generated and is new leaves fewer nodes of the
/// space unvisited.
pub(crate) proof fn lemma_visit_counts<T: State<A> + PartialEq, A: Action>(
    avoid: Seq<T>,
    init: T,
    universe: Seq<T>,
    visited: Seq<T>,
    c: T,
)
    requires
        lawful::<T, A>(),
        covers::<T, A>(avoid, init, universe),
        arrives::<T, A>(avoid, init, c),
        !seen_in(visited, c),
    ensures
        unseen_count(universe, visited.push(c)) < unseen_count(universe, visited),
{
    let j = choose|j: int| 0 <= j < universe.len() && #[trigger] same(universe[j], c);
    if seen_in(visited, universe[j]) {
        let k = choose|k: int| 0 <= k < visited.len() && #[trigger] same(visited[k], universe[j]);
        lemma_same_transitive::<T, A>(visited[k], universe[j], c);
        assert(false);
    }
    lemma_same_symmetric::<T, A>(universe[j], c);
    assert(same(visited.push(c)[visited.len() as int], universe[j]));
    lemma_unseen_drops(universe, visited, c, j);
}

} // verus!
