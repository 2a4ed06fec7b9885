//! The engine: one traversal, run with a frontier of choice.
//!
//! A problem gives its states and actions by implementing [`State`] and
//! [`Action`]. The engine asks nothing of these methods in their signatures.
//! What it proves is stated over what the methods themselves promise, through
//! the relations of [`space`], and holds for a problem that is lawful in the
//! sense defined there.

use std::marker::PhantomData;
use std::rc::Rc;
use vstd::prelude::*;

use crate::openlist::queue::{lemma_queue_discipline, Queue};
use crate::openlist::stack::{lemma_stack_discipline, Stack};
use crate::openlist::{first_in_first_out, last_in_first_out, OpenList};
use laws::{
    lemma_arrives_anyway, lemma_closed_finds_goal, lemma_covers_anyway, lemma_deepest_bounds,
    lemma_deepest_limited, lemma_fresh_bounded, lemma_goal_counted, lemma_goals_are_goals,
    lemma_no_goals, lemma_nothing_new, lemma_reach_anyway, lemma_visited_follows,
    lemma_visited_goal_in_reach,
};
use order::{
    ahead, arrival_order, breadth_first_order, depth_first_order, lemma_ahead_next,
    lemma_ahead_start, lemma_breadth_first_by_level, lemma_goals_ordered, lemma_queued_push,
    lemma_queued_take, lemma_stacked_push, lemma_stacked_take, level_ordered,
    levels_count_actions, queued, stacked,
};
use space::{
    all_lead_to_goal, arrives, blank, covers, equality_decides, follows, goal_in_reach, is_goal,
    lawful, leads, leads_to_goal, lemma_equality_obeys, lemma_goal_decided, lemma_leads_agree,
    lemma_level_agrees, lemma_offers_agree, lemma_same_transitive, lemma_seen_after_push,
    level_is, level_of, offers, opens, path_is, paths_record_actions, same, seen_in, step,
    unseen_count, within,
};
use progress::{
    carried, lemma_carried_add, lemma_goals_bound, lemma_underway_add, lemma_underway_settle,
    lemma_underway_skip, lemma_underway_start, lemma_underway_visit, lemma_yield_settles,
    state_of, states, underway, yielded,
};
use record::{
    closed, deepest, descended, discovered, family, found, goals, held, measured, new_at,
    paths_match,
};

pub mod best_first;
pub mod laws;
pub mod order;
mod progress;
pub mod record;
pub mod report;
pub mod space;

verus! {

/// An action that takes one state to another.
pub trait Action {
    /// What taking the action costs.
    fn cost(&self) -> u64;
}

/// A node of the state space, as the problem at hand describes it.
///
/// The engine only observes a state through these methods and through `==`.
/// What it promises is stated over what the methods themselves promise: see
/// the relations of [`space`].
pub trait State<A: Action>: Sized {
    /// The state that `action` leads to. `self` stays as it is.
    fn apply_action(&self, action: &A) -> Self;

    /// The actions that led from the initial state to this one, in order.
    fn get_partial_solution(&self) -> Vec<A>;

    /// What the actions taken so far have cost together.
    fn get_solution_cost(&self) -> u64;

    /// Every action that may be taken from this state. Successors are explored
    /// in this order.
    fn get_applicable_actions(&self) -> Vec<A>;

    /// The goal test.
    fn is_solution(&self) -> bool;

    /// How many actions were taken to reach this state.
    fn get_state_level(&self) -> usize;
}

/// A state that can estimate what is left to pay before a goal is reached.
pub trait StateHeuristic {
    fn heuristic(&self) -> u64;
}

/// Running totals of one engine. They only ever grow.
#[derive(Debug)]
pub struct Statistics {
    /// States taken from the frontier and processed, duplicates not counted.
    pub nodes_explored: usize,
    /// The highest level of a processed state.
    pub max_depth: usize,
    /// Goal states found.
    pub solutions: usize,
}

#[derive(Debug)]
pub struct Search<T: State<A>, A: Action> {
    pub statistics: Statistics,
    visited: Vec<Rc<T>>,
    _marker: PhantomData<A>,
}

impl<T: State<A>, A: Action> Search<T, A> {
    /// The states processed so far, in the order in which they were processed.
    pub closed spec fn visited(&self) -> Seq<T> {
        self.visited@.map_values(|state: Rc<T>| *state)
    }

    /// The running totals, as the field `statistics` holds them.
    pub closed spec fn totals(&self) -> Statistics {
        self.statistics
    }

    /// The states processed since the engine was `before`.
    pub open spec fn since(&self, before: Self) -> Seq<T> {
        self.visited().skip(before.visited().len() as int)
    }
}

/// Another handle to the state that `state` shares: `Rc::clone`, which copies
/// the handle and leaves the state where it is.
#[verifier::external_body]
fn share<T>(state: &Rc<T>) -> (other: Rc<T>)
    ensures
        other == *state,
{
    Rc::clone(state)
}

impl<T, A> Search<T, A> where T: State<A> + PartialEq, A: Action {
    /// A search from `init` comes to an end and its totals fit: the problem
    /// is lawful, and the part of the space that the search can enter is
    /// finite, with no more nodes than the counters have room for.
    pub open spec fn can_search(&self, init: T) -> bool {
        &&& lawful::<T, A>()
        &&& exists|universe: Seq<T>| #[trigger] self.has_room(init, universe)
    }

    /// The states of `universe` cover what a search from `init` can enter,
    /// and the counters have room for as many nodes.
    pub open spec fn has_room(&self, init: T, universe: Seq<T>) -> bool {
        &&& covers::<T, A>(self.visited(), init, universe)
        &&& self.totals().nodes_explored + universe.len() <= usize::MAX
        &&& self.totals().solutions + universe.len() <= usize::MAX
    }

    /// What one traversal from `init` has done to the engine that was
    /// `before`, and what it returned.
    pub open spec fn traversed(
        &self,
        before: Self,
        init: T,
        limit: usize,
        all_solutions: bool,
        solutions: Seq<Vec<A>>,
    ) -> bool {
        let avoid = before.visited();
        let fresh = self.since(before);
        &&& discovered::<T, A>(avoid, init, self.visited())
        &&& descended::<T, A>(init, limit, fresh)
        &&& measured::<T, A>(fresh)
        &&& paths_match::<T, A>(solutions, goals::<T, A>(fresh))
        &&& self.totals().nodes_explored == before.totals().nodes_explored + fresh.len()
        &&& self.totals().solutions == before.totals().solutions + solutions.len()
        &&& self.totals().max_depth == if deepest::<T, A>(fresh) > before.totals().max_depth {
            deepest::<T, A>(fresh)
        } else {
            before.totals().max_depth
        }
        &&& all_solutions || solutions.len() == 0 ==> closed::<T, A>(
            avoid,
            init,
            limit,
            self.visited(),
        )
        &&& !all_solutions ==> {
            &&& solutions.len() <= 1
            &&& forall|i: int|
                avoid.len() <= i < self.visited().len() - 1 ==> !is_goal::<T, A>(
                    #[trigger] self.visited()[i],
                )
        }
    }

    /// The totals and the solutions collected say what the states visited
    /// since `avoid` are: how many, how many goals, how deep.
    spec fn tallied(
        &self,
        avoid: Seq<T>,
        before: Statistics,
        max_level: usize,
        solutions: Seq<Vec<A>>,
    ) -> bool {
        let fresh = self.visited().skip(avoid.len() as int);
        &&& avoid.len() <= self.visited().len()
        &&& measured::<T, A>(fresh)
        &&& paths_match::<T, A>(solutions, goals::<T, A>(fresh))
        &&& self.totals().nodes_explored == before.nodes_explored + fresh.len()
        &&& self.totals().solutions == before.solutions + solutions.len()
        &&& max_level == deepest::<T, A>(fresh)
        &&& self.totals().max_depth == if max_level > before.max_depth {
            max_level
        } else {
            before.max_depth
        }
    }

    fn is_visited(&self, state: &T) -> (hit: bool)
        requires
            lawful::<T, A>(),
        ensures
            hit == seen_in(self.visited(), *state),
    {
        proof {
            lemma_equality_obeys::<T, A>();
        }
        let mut i: usize = 0;
        while i < self.visited.len()
            invariant
                i <= self.visited.len(),
                equality_decides::<T>(),
                forall|j: int| 0 <= j < i ==> !#[trigger] same(self.visited()[j], *state),
            decreases self.visited.len() - i,
        {
            if *self.visited[i] == *state {
                assert(same(self.visited()[i as int], *state));
                return true;
            }
            i += 1;
        }
        false
    }

    /// The successors of `state` that are no node visited so far, in the
    /// order of the actions that lead to them, and the positions of those
    /// actions.
    fn survivors(&self, state: &T) -> (result: (Vec<Rc<T>>, Ghost<Seq<int>>))
        requires
            lawful::<T, A>(),
        ensures
            result.1@.len() == result.0@.len(),
            forall|k: int, m: int| 0 <= k < m < result.1@.len() ==> result.1@[k] < result.1@[m],
            forall|k: int|
                0 <= k < result.0@.len() ==> #[trigger] opens::<T, A>(
                    *state,
                    result.1@[k],
                    *result.0@[k],
                ) && !seen_in(self.visited(), *result.0@[k]),
            forall|o: T, t: T|
                same(*state, o) && #[trigger] step::<T, A>(o, t) ==> held(
                    self.visited(),
                    states(result.0@),
                    t,
                ),
    {
        let actions = state.get_applicable_actions();
        let mut next: Vec<Rc<T>> = Vec::new();
        let ghost mut picks = Seq::<int>::empty();
        let mut i: usize = 0;
        while i < actions.len()
            invariant
                lawful::<T, A>(),
                offers::<T, A>(*state, actions),
                i <= actions.len(),
                picks.len() == next@.len(),
                forall|k: int| 0 <= k < picks.len() ==> picks[k] < i,
                forall|k: int, m: int| 0 <= k < m < picks.len() ==> picks[k] < picks[m],
                forall|k: int|
                    0 <= k < next@.len() ==> #[trigger] opens::<T, A>(*state, picks[k], *next@[k])
                        && !seen_in(self.visited(), *next@[k]),
                forall|j: int, o: T, t: T|
                    0 <= j < i && same(*state, o) && #[trigger] leads::<T, A>(o, actions@[j], t)
                        ==> held(self.visited(), states(next@), t),
            decreases actions.len() - i,
        {
            let successor = state.apply_action(&actions[i]);
            let ghost earlier = states(next@);
            let ghost reached = successor;
            let known = self.is_visited(&successor);
            if !known {
                next.push(Rc::new(successor));
                proof {
                    picks = picks.push(i as int);
                }
            }
            proof {
                let later = states(next@);
                assert(leads::<T, A>(*state, actions@[i as int], reached));
                assert(opens::<T, A>(*state, i as int, reached));
                assert forall|j: int, o: T, t: T|
                    0 <= j < i + 1 && same(*state, o) && #[trigger] leads::<T, A>(
                        o,
                        actions@[j],
                        t,
                    ) implies held(self.visited(), later, t) by {
                    if j < i {
                        assert(held(self.visited(), earlier, t));
                        if !known && seen_in(earlier, t) {
                            assert(later =~= earlier.push(reached));
                            lemma_seen_after_push(earlier, reached, t);
                        }
                    } else {
                        lemma_leads_agree::<T, A>(*state, o, actions@[j], reached, t);
                        if known {
                            let m = choose|m: int|
                                0 <= m < self.visited().len() && #[trigger] same(
                                    self.visited()[m],
                                    reached,
                                );
                            lemma_same_transitive::<T, A>(self.visited()[m], reached, t);
                        } else {
                            assert(same(later[later.len() - 1], t));
                        }
                    }
                }
            }
            i += 1;
        }
        proof {
            assert forall|o: T, t: T| same(*state, o) && #[trigger] step::<T, A>(o, t) implies held(
                self.visited(),
                states(next@),
                t,
            ) by {
                let (w, j) = choose|w: Vec<A>, j: int|
                    #![trigger offers::<T, A>(o, w), leads::<T, A>(o, w@[j], t)]
                    offers::<T, A>(o, w) && 0 <= j < w@.len() && leads::<T, A>(o, w@[j], t);
                lemma_offers_agree::<T, A>(*state, o, actions, w);
            }
        }
        (next, Ghost(picks))
    }

    /// Takes in a candidate that is new: marks it visited, counts it and, if
    /// it is a goal, records its solution. Returns whether it is a goal and,
    /// if it is none and lies within the depth limit, its successors that are
    /// not visited yet.
    fn visit(
        &mut self,
        current: &Rc<T>,
        limit: usize,
        max_level: &mut usize,
        solutions: &mut Vec<Vec<A>>,
        Ghost(avoid): Ghost<Seq<T>>,
        Ghost(before): Ghost<Statistics>,
    ) -> (result: (bool, Vec<Rc<T>>, Ghost<Seq<int>>))
        requires
            lawful::<T, A>(),
            old(self).tallied(avoid, before, *old(max_level), old(solutions)@),
            old(self).totals().nodes_explored < usize::MAX,
            old(self).totals().solutions < usize::MAX,
        ensures
            final(self).visited() == old(self).visited().push(**current),
            final(self).tallied(avoid, before, *final(max_level), final(solutions)@),
            result.0 == is_goal::<T, A>(**current),
            !result.0 ==> final(solutions)@ == old(solutions)@,
            result.0 ==> final(solutions)@.len() == old(solutions)@.len() + 1,
            yielded::<T, A>(
                limit,
                final(self).visited(),
                result.0,
                states(result.1@),
                result.2@,
            ),
    {
        let ghost earlier = self.visited();
        let ghost fresh = earlier.skip(avoid.len() as int);
        self.visited.push(share(current));
        assert(self.visited() =~= earlier.push(**current));
        let ghost later = self.visited().skip(avoid.len() as int);
        assert(later =~= fresh.push(**current));
        assert(later.drop_last() =~= fresh);
        let level = current.get_state_level();
        proof {
            lemma_level_agrees::<T, A>(state_of(current), level);
        }
        if level > *max_level {
            *max_level = level;
        }
        self.statistics.nodes_explored = self.statistics.nodes_explored + 1;
        if *max_level > self.statistics.max_depth {
            self.statistics.max_depth = *max_level;
        }
        let goal = current.is_solution();
        proof {
            lemma_goal_decided::<T, A>(state_of(current));
        }
        if goal {
            self.statistics.solutions = self.statistics.solutions + 1;
            let ghost collected = solutions@;
            let path = current.get_partial_solution();
            solutions.push(path);
            assert(goals::<T, A>(later) == goals::<T, A>(fresh).push(**current));
            (true, Vec::new(), Ghost(Seq::empty()))
        } else if limit == 0 || level < limit {
            assert(goals::<T, A>(later) == goals::<T, A>(fresh));
            let (next, picks) = self.survivors(current);
            assert forall|k: int| 0 <= k < next@.len() implies #[trigger] states(next@)[k]
                == *next@[k] by {}
            (false, next, picks)
        } else {
            assert(goals::<T, A>(later) == goals::<T, A>(fresh));
            (false, Vec::new(), Ghost(Seq::empty()))
        }
    }

    /// The traversal that breadth-first and depth-first search share: the
    /// frontier decides which candidate is next.
    fn find_solutions<L: OpenList<Rc<T>>>(
        &mut self,
        state: Rc<T>,
        open_list: &mut L,
        all_solutions: bool,
        limit: usize,
    ) -> (solutions: Vec<Vec<A>>)
        requires
            old(self).can_search(*state),
        ensures
            final(self).traversed(*old(self), *state, limit, all_solutions, solutions@),
            first_in_first_out::<Rc<T>, L>()
                ==> breadth_first_order::<T, A>(*state, limit, final(self).since(*old(self))),
            last_in_first_out::<Rc<T>, L>()
                ==> depth_first_order::<T, A>(*state, limit, final(self).since(*old(self))),
    {
        let ghost avoid = self.visited();
        let ghost before = self.totals();
        let ghost init = state_of(&state);
        let ghost universe = choose|universe: Seq<T>| #[trigger] self.has_room(init, universe);
        let ghost fifo = first_in_first_out::<Rc<T>, L>();
        let ghost lifo = last_in_first_out::<Rc<T>, L>();
        let ghost mut born = Seq::<(int, int)>::empty();
        let ghost mut from = seq![(-1int, 0int)];
        let mut max_level: usize = 0;
        let mut solutions: Vec<Vec<A>> = Vec::new();

        open_list.clear();
        open_list.add(state);
        proof {
            lemma_underway_start::<T, A>(avoid, init, limit, universe);
            assert(states(open_list.items()) =~= seq![init]);
            assert(self.visited().skip(avoid.len() as int) =~= Seq::<T>::empty());
        }
        while !open_list.is_empty()
            invariant
                underway::<T, A>(
                    avoid,
                    init,
                    limit,
                    universe,
                    self.visited(),
                    states(open_list.items()),
                    false,
                    born,
                    from,
                ),
                self.tallied(avoid, before, max_level, solutions@),
                before.nodes_explored + universe.len() <= usize::MAX,
                before.solutions + universe.len() <= usize::MAX,
                !all_solutions ==> forall|i: int|
                    avoid.len() <= i < self.visited().len() ==> !is_goal::<T, A>(
                        #[trigger] self.visited()[i],
                    ),
                fifo ==> queued(born, from),
                lifo ==> stacked(born, from),
                fifo == first_in_first_out::<Rc<T>, L>(),
                lifo == last_in_first_out::<Rc<T>, L>(),
                avoid == old(self).visited(),
                before == old(self).totals(),
                init == *state,
            decreases unseen_count(universe, self.visited()), open_list.items().len(),
        {
            let ghost visited = self.visited();
            let ghost fresh = visited.skip(avoid.len() as int);
            let ghost waiting = states(open_list.items());
            let ghost k = L::next_index(open_list.items().len() as int);
            match open_list.get() {
                None => {
                    return solutions;
                },
                Some(current) => {
                    assert(states(open_list.items()) =~= waiting.remove(k));
                    assert(waiting[k] == *current);
                    if !self.is_visited(&current) {
                        proof {
                            lemma_underway_visit::<T, A>(
                                avoid,
                                init,
                                limit,
                                universe,
                                visited,
                                waiting,
                                born,
                                from,
                                k,
                            );
                            lemma_goals_bound::<T, A>(fresh);
                            if !all_solutions {
                                lemma_no_goals::<T, A>(fresh);
                            }
                            if fifo {
                                lemma_queued_take(born, from);
                            }
                            if lifo {
                                lemma_stacked_take(born, from);
                            }
                            born = born.push(from[k]);
                            from = from.remove(k);
                        }
                        let (goal, next, picks) = self.visit(
                            &current,
                            limit,
                            &mut max_level,
                            &mut solutions,
                            Ghost(avoid),
                            Ghost(before),
                        );
                        proof {
                            if fifo || lifo {
                                lemma_ahead_start(born, from, picks@);
                            }
                        }
                        if goal && !all_solutions {
                            assert(family::<T, A>(
                                init,
                                limit,
                                self.visited().skip(avoid.len() as int),
                                born,
                            ));
                            return solutions;
                        }
                        let mut i: usize = 0;
                        while i < next.len()
                            invariant
                                i <= next.len(),
                                underway::<T, A>(
                                    avoid,
                                    init,
                                    limit,
                                    universe,
                                    self.visited(),
                                    states(open_list.items()),
                                    true,
                                    born,
                                    from,
                                ),
                                self.visited().len() > avoid.len(),
                                self.visited().last() == *current,
                                yielded::<T, A>(
                                    limit,
                                    self.visited(),
                                    goal,
                                    states(next@),
                                    picks@,
                                ),
                                carried(states(next@.take(i as int)), states(open_list.items())),
                                fifo ==> queued(born, from),
                                lifo ==> stacked(born, from),
                                fifo || lifo ==> ahead(born, from, picks@, i as int),
                                born.len() == self.visited().len() - avoid.len(),
                            decreases next.len() - i,
                        {
                            let ghost held_back = states(open_list.items());
                            open_list.add(share(&next[i]));
                            proof {
                                let x = state_of(&next@[i as int]);
                                let at = held_back.len() as int;
                                assert(states(open_list.items()) =~= held_back.insert(at, x));
                                assert(states(next@)[i as int] == x);
                                let origin = (born.len() - 1, picks@[i as int]);
                                lemma_underway_add::<T, A>(
                                    avoid,
                                    init,
                                    limit,
                                    universe,
                                    self.visited(),
                                    held_back,
                                    born,
                                    from,
                                    at,
                                    x,
                                    picks@[i as int],
                                );
                                lemma_carried_add(states(next@.take(i as int)), held_back, at, x);
                                assert(states(next@.take(i + 1)) =~= states(
                                    next@.take(i as int),
                                ).push(x));
                                assert(from.insert(at, origin) =~= from.push(origin));
                                if fifo || lifo {
                                    lemma_ahead_next(born, from, picks@, i as int, at);
                                }
                                if fifo {
                                    lemma_queued_push(born, from, picks@[i as int]);
                                }
                                if lifo {
                                    lemma_stacked_push(born, from, picks@[i as int]);
                                }
                                from = from.push(origin);
                            }
                            i += 1;
                        }
                        proof {
                            assert(next@.take(next@.len() as int) =~= next@);
                            lemma_yield_settles::<T, A>(
                                limit,
                                self.visited(),
                                states(open_list.items()),
                                goal,
                                states(next@),
                                picks@,
                            );
                            lemma_underway_settle::<T, A>(
                                avoid,
                                init,
                                limit,
                                universe,
                                self.visited(),
                                states(open_list.items()),
                                born,
                                from,
                            );
                        }
                    } else {
                        proof {
                            lemma_underway_skip::<T, A>(
                                avoid,
                                init,
                                limit,
                                universe,
                                visited,
                                waiting,
                                born,
                                from,
                                k,
                            );
                            if fifo {
                                lemma_queued_take(born, from);
                            }
                            if lifo {
                                lemma_stacked_take(born, from);
                            }
                            from = from.remove(k);
                        }
                    }
                },
            }
        }
        proof {
            assert(states(open_list.items()) =~= Seq::<T>::empty());
            if !all_solutions {
                lemma_no_goals::<T, A>(self.visited().skip(avoid.len() as int));
            }
            assert(family::<T, A>(init, limit, self.visited().skip(avoid.len() as int), born));
        }
        solutions
    }

    /// What an unlimited traversal decides. It returns a solution if and only
    /// if a goal is in reach of `init` by a route that avoids what was
    /// visited before, and from a state that was visited before it explores
    /// nothing.
    pub proof fn lemma_search_decides(
        self,
        before: Self,
        init: T,
        all_solutions: bool,
        solutions: Seq<Vec<A>>,
    )
        requires
            lawful::<T, A>(),
            self.traversed(before, init, 0, all_solutions, solutions),
        ensures
            solutions.len() > 0 <==> goal_in_reach::<T, A>(before.visited(), init),
            seen_in(before.visited(), init) ==> self.visited() == before.visited()
                && self.totals() == before.totals() && solutions.len() == 0,
    {
        let avoid = before.visited();
        let visited = self.visited();
        let fresh = visited.skip(avoid.len() as int);
        if solutions.len() > 0 {
            lemma_goals_are_goals::<T, A>(fresh, 0);
            let i = choose|i: int|
                0 <= i < fresh.len() && #[trigger] fresh[i] == goals::<T, A>(fresh)[0];
            lemma_visited_goal_in_reach::<T, A>(avoid, init, visited, avoid.len() + i);
        }
        if goal_in_reach::<T, A>(avoid, init) && solutions.len() == 0 {
            let i = lemma_closed_finds_goal::<T, A>(avoid, init, 0, visited);
            assert(fresh[i - avoid.len()] == visited[i]);
            lemma_goal_counted::<T, A>(fresh, i - avoid.len());
        }
        if seen_in(avoid, init) {
            lemma_nothing_new::<T, A>(avoid, init, visited);
            assert(fresh =~= Seq::<T>::empty());
        }
    }

    /// Where states record the actions that led to them and the search began
    /// with a state that records none, the actions of each solution lead
    /// from that state to a goal.
    pub proof fn lemma_solutions_lead_to_goals(
        self,
        before: Self,
        init: T,
        limit: usize,
        all_solutions: bool,
        solutions: Seq<Vec<A>>,
    )
        requires
            paths_record_actions::<T, A>(),
            blank::<T, A>(init),
            self.traversed(before, init, limit, all_solutions, solutions),
        ensures
            all_lead_to_goal::<T, A>(init, solutions),
    {
        let avoid = before.visited();
        let visited = self.visited();
        let fresh = visited.skip(avoid.len() as int);
        let nothing = choose|p: Vec<A>| #[trigger] path_is::<T, A>(init, p) && p@.len() == 0;
        let born = choose|born: Seq<(int, int)>| #[trigger]
            family::<T, A>(init, limit, fresh, born);
        assert forall|k: int| 0 <= k < solutions.len() implies leads_to_goal::<T, A>(
            init,
            #[trigger] solutions[k]@,
        ) by {
            let g = goals::<T, A>(fresh)[k];
            lemma_goals_are_goals::<T, A>(fresh, k);
            let i = choose|i: int| 0 <= i < fresh.len() && #[trigger] fresh[i] == g;
            let actions = lemma_visited_follows::<T, A>(init, limit, fresh, born, i);
            assert(path_is::<T, A>(g, solutions[k]));
            assert(follows::<T, A>(init, actions, g) && path_is::<T, A>(init, nothing));
            assert(solutions[k]@ =~= actions);
        }
    }

    fn search_breadth(&mut self, initial_state: T, all_solutions: bool) -> (solutions: Vec<Vec<A>>)
        requires
            old(self).can_search(initial_state),
        ensures
            final(self).traversed(*old(self), initial_state, 0, all_solutions, solutions@),
            breadth_first_order::<T, A>(initial_state, 0, final(self).since(*old(self))),
            levels_count_actions::<T, A>()
                ==> level_ordered::<T, A>(final(self).since(*old(self))),
    {
        let mut open_list: Queue<Rc<T>> = Queue::new();
        let solutions = self.find_solutions(
            Rc::new(initial_state),
            &mut open_list,
            all_solutions,
            0,
        );
        proof {
            lemma_queue_discipline::<Rc<T>>();
            if levels_count_actions::<T, A>() {
                let fresh = self.since(*old(self));
                let born = choose|born: Seq<(int, int)>| #[trigger]
                    family::<T, A>(initial_state, 0, fresh, born) && arrival_order(born);
                lemma_breadth_first_by_level::<T, A>(initial_state, 0, fresh, born);
            }
        }
        solutions
    }

    fn search_depth(&mut self, state: Rc<T>, all_solutions: bool, limit: usize) -> (solutions:
        Vec<Vec<A>>)
        requires
            old(self).can_search(*state),
        ensures
            final(self).traversed(*old(self), *state, limit, all_solutions, solutions@),
            depth_first_order::<T, A>(*state, limit, final(self).since(*old(self))),
    {
        let mut open_list: Stack<Rc<T>> = Stack::new();
        proof {
            lemma_stack_discipline::<Rc<T>>();
        }
        self.find_solutions(state, &mut open_list, all_solutions, limit)
    }

    /// Breadth-first search for every solution.
    pub fn search_breadth_all(&mut self, initial_state: T) -> (solutions: Vec<Vec<A>>)
        requires
            old(self).can_search(initial_state),
        ensures
            final(self).traversed(*old(self), initial_state, 0, true, solutions@),
            solutions@.len() > 0 <==> goal_in_reach::<T, A>(old(self).visited(), initial_state),
            paths_record_actions::<T, A>() && blank::<T, A>(initial_state)
                ==> all_lead_to_goal::<T, A>(initial_state, solutions@),
            solutions@.len() == 0
                ==> final(self).totals().solutions == old(self).totals().solutions,
            seen_in(old(self).visited(), initial_state)
                ==> final(self).visited() == old(self).visited()
                && final(self).totals() == old(self).totals(),
            breadth_first_order::<T, A>(initial_state, 0, final(self).since(*old(self))),
            levels_count_actions::<T, A>()
                ==> level_ordered::<T, A>(final(self).since(*old(self)))
                && level_ordered::<T, A>(goals::<T, A>(final(self).since(*old(self)))),
    {
        let solutions = self.search_breadth(initial_state, true);
        proof {
            self.lemma_search_decides(*old(self), initial_state, true, solutions@);
            if paths_record_actions::<T, A>() && blank::<T, A>(initial_state) {
                self.lemma_solutions_lead_to_goals(*old(self), initial_state, 0, true, solutions@);
            }
            if levels_count_actions::<T, A>() {
                lemma_goals_ordered::<T, A>(self.since(*old(self)));
            }
        }
        solutions
    }

    /// Breadth-first search for the first solution.
    pub fn search_breadth_first(&mut self, initial_state: T) -> (solution: Option<Vec<A>>)
        requires
            old(self).can_search(initial_state),
        ensures
            final(self).traversed(*old(self), initial_state, 0, false, found(solution)),
            solution is Some <==> goal_in_reach::<T, A>(old(self).visited(), initial_state),
            paths_record_actions::<T, A>() && blank::<T, A>(initial_state)
                ==> all_lead_to_goal::<T, A>(initial_state, found(solution)),
            solution is None ==> final(self).totals().solutions == old(self).totals().solutions,
            seen_in(old(self).visited(), initial_state)
                ==> final(self).visited() == old(self).visited()
                && final(self).totals() == old(self).totals(),
            breadth_first_order::<T, A>(initial_state, 0, final(self).since(*old(self))),
            levels_count_actions::<T, A>()
                ==> level_ordered::<T, A>(final(self).since(*old(self))),
    {
        let mut solutions = self.search_breadth(initial_state, false);
        let ghost all = solutions@;
        let solution = solutions.pop();
        proof {
            assert(found(solution) =~= all);
            self.lemma_search_decides(*old(self), initial_state, false, all);
            if paths_record_actions::<T, A>() && blank::<T, A>(initial_state) {
                self.lemma_solutions_lead_to_goals(*old(self), initial_state, 0, false, all);
            }
        }
        solution
    }

    /// Depth-first search for every solution.
    pub fn search_depth_all(&mut self, initial_state: T) -> (solutions: Vec<Vec<A>>)
        requires
            old(self).can_search(initial_state),
        ensures
            final(self).traversed(*old(self), initial_state, 0, true, solutions@),
            solutions@.len() > 0 <==> goal_in_reach::<T, A>(old(self).visited(), initial_state),
            paths_record_actions::<T, A>() && blank::<T, A>(initial_state)
                ==> all_lead_to_goal::<T, A>(initial_state, solutions@),
            solutions@.len() == 0
                ==> final(self).totals().solutions == old(self).totals().solutions,
            seen_in(old(self).visited(), initial_state)
                ==> final(self).visited() == old(self).visited()
                && final(self).totals() == old(self).totals(),
            depth_first_order::<T, A>(initial_state, 0, final(self).since(*old(self))),
    {
        let solutions = self.search_depth(Rc::new(initial_state), true, 0);
        proof {
            self.lemma_search_decides(*old(self), initial_state, true, solutions@);
            if paths_record_actions::<T, A>() && blank::<T, A>(initial_state) {
                self.lemma_solutions_lead_to_goals(*old(self), initial_state, 0, true, solutions@);
            }
        }
        solutions
    }

    /// Depth-first search for the first solution.
    pub fn search_depth_first(&mut self, initial_state: T) -> (solution: Option<Vec<A>>)
        requires
            old(self).can_search(initial_state),
        ensures
            final(self).traversed(*old(self), initial_state, 0, false, found(solution)),
            solution is Some <==> goal_in_reach::<T, A>(old(self).visited(), initial_state),
            paths_record_actions::<T, A>() && blank::<T, A>(initial_state)
                ==> all_lead_to_goal::<T, A>(initial_state, found(solution)),
            solution is None ==> final(self).totals().solutions == old(self).totals().solutions,
            seen_in(old(self).visited(), initial_state)
                ==> final(self).visited() == old(self).visited()
                && final(self).totals() == old(self).totals(),
            depth_first_order::<T, A>(initial_state, 0, final(self).since(*old(self))),
    {
        let mut solutions = self.search_depth(Rc::new(initial_state), false, 0);
        let ghost all = solutions@;
        let solution = solutions.pop();
        proof {
            assert(found(solution) =~= all);
            self.lemma_search_decides(*old(self), initial_state, false, all);
            if paths_record_actions::<T, A>() && blank::<T, A>(initial_state) {
                self.lemma_solutions_lead_to_goals(*old(self), initial_state, 0, false, all);
            }
        }
        solution
    }

    /// How many rounds of iterative deepening it takes at most until the
    /// limit has passed `deepest`.
    pub open spec fn rounds(deepest: usize, limit_step: usize) -> int {
        if limit_step == 0 {
            1
        } else {
            deepest / limit_step + 1
        }
    }

    /// The space that a search from `init` can enter has no more nodes than
    /// `universe` and no level above `depth`, and neither the limit nor the
    /// totals of iterative deepening can overflow in it.
    pub open spec fn has_depth_room(
        &self,
        init: T,
        limit_step: usize,
        universe: Seq<T>,
        depth: usize,
    ) -> bool {
        let deepest = if depth > self.totals().max_depth {
            depth
        } else {
            self.totals().max_depth
        };
        &&& covers::<T, A>(Seq::<T>::empty(), init, universe)
        &&& forall|t: T, n: usize|
            arrives::<T, A>(Seq::<T>::empty(), init, t) && #[trigger] level_is::<T, A>(t, n) ==> n
                <= depth
        &&& deepest + limit_step <= usize::MAX
        &&& self.totals().nodes_explored + Self::rounds(deepest, limit_step) * universe.len()
            <= usize::MAX
        &&& self.totals().solutions + universe.len() <= usize::MAX
    }

    /// Iterative deepening from `init` comes to an end and its totals fit.
    /// With a step of 0 the limit never grows, so a goal has to be in reach
    /// of the first round.
    pub open spec fn can_deepen(&self, init: T, limit_step: usize) -> bool {
        &&& lawful::<T, A>()
        &&& limit_step > 0 || goal_in_reach::<T, A>(self.visited(), init)
        &&& exists|universe: Seq<T>, depth: usize| #[trigger]
            self.has_depth_room(init, limit_step, universe, depth)
    }

    /// The depth limit of round `round` of iterative deepening, the first
    /// round being round 0.
    pub open spec fn limit_of(limit_step: usize, round: nat) -> int {
        limit_step * (round + 1)
    }

    /// What iterative deepening has done to the engine that was `start`: its
    /// last round was a depth-first traversal under the limit of that round,
    /// from what `start` had visited if it was the first round and from
    /// nothing if it was a later one, and it found a solution or met no
    /// state at its limit.
    pub open spec fn deepened(
        &self,
        start: Self,
        init: T,
        limit_step: usize,
        solution: Option<Vec<A>>,
    ) -> bool {
        exists|before: Self, limit: usize, round: nat|
            #![trigger
                self.traversed(before, init, limit, false, found(solution)),
                Self::limit_of(limit_step, round)
            ]
            {
                &&& self.traversed(before, init, limit, false, found(solution))
                &&& depth_first_order::<T, A>(init, limit, self.since(before))
                &&& limit == Self::limit_of(limit_step, round)
                &&& solution is None ==> limit > self.totals().max_depth
                &&& before.totals().solutions == start.totals().solutions
                &&& before.totals().nodes_explored >= start.totals().nodes_explored
                &&& before.totals().max_depth >= start.totals().max_depth
                &&& if round == 0 {
                    before.visited() == start.visited() && before.totals() == start.totals()
                } else {
                    before.visited() == Seq::<T>::empty()
                }
            }
    }

    /// Depth-first search under a depth limit that grows by `limit_step` from
    /// round to round, until a round finds a solution or meets no state at
    /// its limit.
    pub fn search_iter_depth_first(&mut self, initial_state: T, limit_step: usize) -> (solution:
        Option<Vec<A>>)
        requires
            old(self).can_deepen(initial_state, limit_step),
        ensures
            final(self).deepened(*old(self), initial_state, limit_step, solution),
            solution is Some ==> goal_in_reach::<T, A>(Seq::<T>::empty(), initial_state),
            paths_record_actions::<T, A>() && blank::<T, A>(initial_state)
                ==> all_lead_to_goal::<T, A>(initial_state, found(solution)),
            goal_in_reach::<T, A>(old(self).visited(), initial_state) ==> solution is Some,
            solution is None ==> final(self).totals().solutions == old(self).totals().solutions,
            solution is Some ==> final(self).totals().solutions == old(self).totals().solutions
                + 1,
            final(self).totals().nodes_explored >= old(self).totals().nodes_explored,
            final(self).totals().max_depth >= old(self).totals().max_depth,
    {
        let ghost avoid = self.visited();
        let ghost start = self.totals();
        let ghost (universe, depth) = choose|universe: Seq<T>, depth: usize| #[trigger]
            self.has_depth_room(initial_state, limit_step, universe, depth);
        let ghost deepest_ever = if depth > start.max_depth {
            depth
        } else {
            start.max_depth
        };
        let ghost nothing = Seq::<T>::empty();
        let root = Rc::new(initial_state);
        let mut limit = limit_step;
        let ghost mut round: nat = 0;
        assert(limit == limit_step * (round + 1)) by (nonlinear_arith)
            requires
                limit == limit_step,
                round == 0,
        ;
        loop
            invariant
                lawful::<T, A>(),
                *root == initial_state,
                limit_step > 0 || goal_in_reach::<T, A>(avoid, initial_state),
                covers::<T, A>(nothing, initial_state, universe),
                forall|t: T, n: usize|
                    arrives::<T, A>(nothing, initial_state, t) && #[trigger] level_is::<T, A>(t, n)
                        ==> n <= depth,
                deepest_ever == if depth > start.max_depth {
                    depth
                } else {
                    start.max_depth
                },
                deepest_ever + limit_step <= usize::MAX,
                start.nodes_explored + Self::rounds(deepest_ever, limit_step) * universe.len()
                    <= usize::MAX,
                start.solutions + universe.len() <= usize::MAX,
                limit == limit_step * (round + 1),
                round == 0 ==> limit == limit_step,
                round > 0 ==> limit > limit_step,
                round > 0 ==> limit_step > 0 && limit - limit_step <= deepest_ever,
                round == 0 ==> self.visited() == avoid && self.totals() == start,
                round > 0 ==> self.visited() == nothing,
                self.totals().solutions == start.solutions,
                start.nodes_explored <= self.totals().nodes_explored,
                self.totals().nodes_explored <= start.nodes_explored + round * universe.len(),
                start.max_depth <= self.totals().max_depth <= deepest_ever,
                nothing == Seq::<T>::empty(),
                avoid == old(self).visited(),
                start == old(self).totals(),
            decreases deepest_ever + limit_step - limit,
        {
            let ghost before = *self;
            proof {
                lemma_covers_anyway::<T, A>(self.visited(), initial_state, universe);
                if limit_step > 0 {
                    assert(round <= deepest_ever / limit_step) by (nonlinear_arith)
                        requires
                            round > 0 ==> limit_step * (round + 1) - limit_step <= deepest_ever,
                            limit_step > 0,
                            deepest_ever >= 0,
                    ;
                }
                assert((round + 1) * universe.len() <= Self::rounds(deepest_ever, limit_step)
                    * universe.len()) by (nonlinear_arith)
                    requires
                        round + 1 <= Self::rounds(deepest_ever, limit_step),
                ;
                assert((round + 1) * universe.len() == round * universe.len() + universe.len())
                    by (nonlinear_arith);
                assert(self.has_room(initial_state, universe));
            }
            let mut solutions = self.search_depth(share(&root), false, limit);
            let ghost all = solutions@;
            let ghost fresh = self.since(before);
            let solution = solutions.pop();
            proof {
                assert(found(solution) =~= all);
                assert forall|i: int| 0 <= i < fresh.len() implies level_of::<T, A>(
                    #[trigger] fresh[i],
                ) <= depth by {
                    let at = before.visited().len() + i;
                    assert(new_at::<T, A>(before.visited(), initial_state, self.visited(), at));
                    lemma_arrives_anyway::<T, A>(before.visited(), initial_state, fresh[i]);
                }
                lemma_deepest_limited::<T, A>(fresh, depth);
                lemma_fresh_bounded::<T, A>(
                    before.visited(),
                    initial_state,
                    universe,
                    self.visited(),
                );
            }
            match solution {
                Some(solution) => {
                    proof {
                        lemma_goals_are_goals::<T, A>(fresh, 0);
                        let i = choose|i: int|
                            0 <= i < fresh.len() && #[trigger] fresh[i] == goals::<T, A>(fresh)[0];
                        lemma_visited_goal_in_reach::<T, A>(
                            before.visited(),
                            initial_state,
                            self.visited(),
                            before.visited().len() + i,
                        );
                        lemma_reach_anyway::<T, A>(before.visited(), initial_state);
                        let sole = found(Some(solution));
                        assert(self.traversed(before, initial_state, limit, false, sole)
                            && limit == Self::limit_of(limit_step, round));
                        if paths_record_actions::<T, A>() && blank::<T, A>(initial_state) {
                            self.lemma_solutions_lead_to_goals(
                                before,
                                initial_state,
                                limit,
                                false,
                                found(Some(solution)),
                            );
                        }
                    }
                    return Some(solution);
                },
                None => {
                    proof {
                        if limit == 0 || limit > self.statistics.max_depth {
                            assert forall|i: int|
                                before.visited().len() <= i < self.visited().len() implies within::<
                                T,
                                A,
                            >(limit, self.visited()[i]) by {
                                lemma_deepest_bounds::<T, A>(fresh, i - before.visited().len());
                            }
                            if goal_in_reach::<T, A>(before.visited(), initial_state) {
                                let i = lemma_closed_finds_goal::<T, A>(
                                    before.visited(),
                                    initial_state,
                                    limit,
                                    self.visited(),
                                );
                                assert(fresh[i - before.visited().len()] == self.visited()[i]);
                                lemma_goal_counted::<T, A>(fresh, i - before.visited().len());
                            }
                            if goal_in_reach::<T, A>(avoid, initial_state) {
                                lemma_reach_anyway::<T, A>(avoid, initial_state);
                            }
                        }
                    }
                    if limit > self.statistics.max_depth {
                        proof {
                            let none = found(None::<Vec<A>>);
                            assert(self.traversed(before, initial_state, limit, false, none)
                                && limit == Self::limit_of(limit_step, round));
                        }
                        return None;
                    }
                    proof {
                        assert(limit_step * (round + 2) == limit_step * (round + 1) + limit_step)
                            by (nonlinear_arith);
                        assert((round + 1) * universe.len() == round * universe.len()
                            + universe.len()) by (nonlinear_arith);
                        round = round + 1;
                    }
                    limit += limit_step;
                    self.visited.clear();
                    assert(self.visited() =~= nothing);
                },
            }
        }
    }

    /// The running totals, for a caller that reasons about them.
    pub fn statistics(&self) -> (totals: &Statistics)
        ensures
            *totals == self.totals(),
    {
        &self.statistics
    }

    pub fn new() -> (search: Self)
        ensures
            search.visited() == Seq::<T>::empty(),
            search.totals().nodes_explored == 0,
            search.totals().max_depth == 0,
            search.totals().solutions == 0,
    {
        let search = Search {
            statistics: Statistics { nodes_explored: 0, max_depth: 0, solutions: 0 },
            visited: Vec::new(),
            _marker: PhantomData,
        };
        assert(search.visited() =~= Seq::<T>::empty());
        search
    }
}

impl<T, A> Default for Search<T, A> where T: State<A> + PartialEq, A: Action {
    fn default() -> (search: Self)
        ensures
            search.visited() == Seq::<T>::empty(),
            search.totals().nodes_explored == 0,
            search.totals().max_depth == 0,
            search.totals().solutions == 0,
    {
        Self::new()
    }
}

} // verus!
