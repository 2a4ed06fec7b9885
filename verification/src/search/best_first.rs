//! Best-first search: the traversal over a frontier in order of rank.

use std::rc::Rc;
use vstd::prelude::*;

use super::laws::lemma_no_goals;
use super::order::{
    ahead, best_first_order, lemma_ahead_next, lemma_ahead_start, lemma_sifted_insert,
    lemma_sifted_take, lemma_weighed_insert, lemma_weighed_take, sifted, weighed,
};
use super::space::{
    all_lead_to_goal, blank, cost_is, goal_in_reach, heuristic_is, is_goal, paths_record_actions,
    ranked, seen_in, unseen_count,
};
use super::progress::{
    carried, lemma_carried_add, lemma_goals_bound, lemma_underway_add, lemma_underway_settle,
    lemma_underway_skip, lemma_underway_start, lemma_underway_visit, lemma_yield_settles,
    state_of, states, underway, yielded,
};
use super::record::{family, found};
use super::{share, Action, Search, State, StateHeuristic};
use crate::openlist::prio_list::PrioList;
use crate::openlist::{lemma_place_found, place, PriorityOpenList};

verus! {

impl<T, A> Search<T, A> where T: State<A> + StateHeuristic + PartialEq, A: Action {
    /// The rank of a state in the frontier of best-first search: what it
    /// has cost and what it estimates is left, added up.
    fn rank(state: &T) -> (weight: u128)
        ensures
            ranked::<T, A>(*state, weight),
    {
        let cost = state.get_solution_cost();
        let estimate = state.heuristic();
        assert(cost_is::<T, A>(*state, cost) && heuristic_is::<T>(*state, estimate));
        cost as u128 + estimate as u128
    }

    /// The traversal of best-first search: the candidate of least rank is
    /// next.
    fn find_solutions_a_start<L: PriorityOpenList<Rc<T>>>(
        &mut self,
        state: Rc<T>,
        open_list: &mut L,
        all_solutions: bool,
        limit: usize,
    ) -> (solutions: Vec<Vec<A>>)
        requires
            old(self).can_search(*state),
        ensures
            final(self).traversed(*old(self), *state, limit, all_solutions, solutions@),
            best_first_order::<T, A>(*state, limit, final(self).since(*old(self))),
    {
        let ghost avoid = self.visited();
        let ghost before = self.totals();
        let ghost init = state_of(&state);
        let ghost universe = choose|universe: Seq<T>| #[trigger] self.has_room(init, universe);
        let ghost mut born = Seq::<(int, int)>::empty();
        let ghost mut from = seq![(-1int, 0int)];
        let ghost mut ranks = Seq::<u128>::empty();
        let mut max_level: usize = 0;
        let mut solutions: Vec<Vec<A>> = Vec::new();

        open_list.clear();
        let weight = Self::rank(&state);
        open_list.add(state, weight);
        proof {
            lemma_underway_start::<T, A>(avoid, init, limit, universe);
            assert(states(open_list.items()) =~= seq![init]);
            assert(open_list.weights() =~= seq![weight]);
            assert(self.visited().skip(avoid.len() as int) =~= Seq::<T>::empty());
        }
        while !open_list.is_empty()
            invariant
                open_list.well_formed(),
                underway::<T, A>(
                    avoid,
                    init,
                    limit,
                    universe,
                    self.visited(),
                    states(open_list.items()),
                    false,
                    born,
                    from,
                ),
                self.tallied(avoid, before, max_level, solutions@),
                before.nodes_explored + universe.len() <= usize::MAX,
                before.solutions + universe.len() <= usize::MAX,
                !all_solutions ==> forall|i: int|
                    avoid.len() <= i < self.visited().len() ==> !is_goal::<T, A>(
                        #[trigger] self.visited()[i],
                    ),
                sifted(born, from, ranks, open_list.weights()),
                weighed::<T, A>(self.visited().skip(avoid.len() as int), ranks),
                weighed::<T, A>(states(open_list.items()), open_list.weights()),
                avoid == old(self).visited(),
                before == old(self).totals(),
                init == *state,
            decreases unseen_count(universe, self.visited()), open_list.items().len(),
        {
            let ghost visited = self.visited();
            let ghost fresh = visited.skip(avoid.len() as int);
            let ghost waiting = states(open_list.items());
            let ghost weights = open_list.weights();
            match open_list.get() {
                None => {
                    return solutions;
                },
                Some(current) => {
                    proof {
                        assert(states(open_list.items()) =~= waiting.remove(0));
                        assert(open_list.weights() =~= weights.remove(0));
                        assert(waiting[0] == *current);
                        lemma_sifted_take(born, from, ranks, weights);
                        lemma_weighed_take::<T, A>(waiting, weights);
                    }
                    if !self.is_visited(&current) {
                        proof {
                            lemma_underway_visit::<T, A>(
                                avoid,
                                init,
                                limit,
                                universe,
                                visited,
                                waiting,
                                born,
                                from,
                                0,
                            );
                            lemma_goals_bound::<T, A>(fresh);
                            if !all_solutions {
                                lemma_no_goals::<T, A>(fresh);
                            }
                            born = born.push(from[0]);
                            from = from.remove(0);
                        }
                        let (goal, next, picks) = self.visit(
                            &current,
                            limit,
                            &mut max_level,
                            &mut solutions,
                            Ghost(avoid),
                            Ghost(before),
                        );
                        proof {
                            let later = self.visited().skip(avoid.len() as int);
                            assert(later =~= fresh.insert(fresh.len() as int, waiting[0]));
                            assert(ranks.push(weights[0]) =~= ranks.insert(
                                ranks.len() as int,
                                weights[0],
                            ));
                            lemma_weighed_insert::<T, A>(
                                fresh,
                                ranks,
                                fresh.len() as int,
                                waiting[0],
                                weights[0],
                            );
                            ranks = ranks.push(weights[0]);
                            lemma_ahead_start(born, from, picks@);
                        }
                        if goal && !all_solutions {
                            assert(family::<T, A>(
                                init,
                                limit,
                                self.visited().skip(avoid.len() as int),
                                born,
                            ) && weighed::<T, A>(self.visited().skip(avoid.len() as int), ranks));
                            return solutions;
                        }
                        let mut i: usize = 0;
                        while i < next.len()
                            invariant
                                i <= next.len(),
                                open_list.well_formed(),
                                underway::<T, A>(
                                    avoid,
                                    init,
                                    limit,
                                    universe,
                                    self.visited(),
                                    states(open_list.items()),
                                    true,
                                    born,
                                    from,
                                ),
                                self.visited().len() > avoid.len(),
                                self.visited().last() == *current,
                                yielded::<T, A>(
                                    limit,
                                    self.visited(),
                                    goal,
                                    states(next@),
                                    picks@,
                                ),
                                carried(states(next@.take(i as int)), states(open_list.items())),
                                sifted(born, from, ranks, open_list.weights()),
                                ahead(born, from, picks@, i as int),
                                born.len() == self.visited().len() - avoid.len(),
                                weighed::<T, A>(states(open_list.items()), open_list.weights()),
                            decreases next.len() - i,
                        {
                            let ghost held_back = states(open_list.items());
                            let ghost weights = open_list.weights();
                            let weight = Self::rank(&next[i]);
                            let ghost at = place(weights, weight);
                            proof {
                                open_list.lemma_well_formed();
                                lemma_place_found(weights, weight);
                            }
                            open_list.add(share(&next[i]), weight);
                            proof {
                                let x = state_of(&next@[i as int]);
                                assert(states(open_list.items()) =~= held_back.insert(at, x));
                                assert(states(next@)[i as int] == x);
                                let origin = (born.len() - 1, picks@[i as int]);
                                lemma_underway_add::<T, A>(
                                    avoid,
                                    init,
                                    limit,
                                    universe,
                                    self.visited(),
                                    held_back,
                                    born,
                                    from,
                                    at,
                                    x,
                                    picks@[i as int],
                                );
                                lemma_ahead_next(born, from, picks@, i as int, at);
                                lemma_carried_add(states(next@.take(i as int)), held_back, at, x);
                                assert(states(next@.take(i + 1)) =~= states(
                                    next@.take(i as int),
                                ).push(x));
                                lemma_sifted_insert(
                                    born,
                                    from,
                                    ranks,
                                    weights,
                                    weight,
                                    picks@[i as int],
                                );
                                lemma_weighed_insert::<T, A>(held_back, weights, at, x, weight);
                                from = from.insert(at, origin);
                            }
                            i += 1;
                        }
                        proof {
                            assert(next@.take(next@.len() as int) =~= next@);
                            lemma_yield_settles::<T, A>(
                                limit,
                                self.visited(),
                                states(open_list.items()),
                                goal,
                                states(next@),
                                picks@,
                            );
                            lemma_underway_settle::<T, A>(
                                avoid,
                                init,
                                limit,
                                universe,
                                self.visited(),
                                states(open_list.items()),
                                born,
                                from,
                            );
                        }
                    } else {
                        proof {
                            lemma_underway_skip::<T, A>(
                                avoid,
                                init,
                                limit,
                                universe,
                                visited,
                                waiting,
                                born,
                                from,
                                0,
                            );
                            from = from.remove(0);
                        }
                    }
                },
            }
        }
        proof {
            assert(states(open_list.items()) =~= Seq::<T>::empty());
            if !all_solutions {
                lemma_no_goals::<T, A>(self.visited().skip(avoid.len() as int));
            }
            assert(family::<T, A>(init, limit, self.visited().skip(avoid.len() as int), born)
                && weighed::<T, A>(self.visited().skip(avoid.len() as int), ranks));
        }
        solutions
    }

    /// Best-first search for the first solution.
    pub fn search_a_start_first(&mut self, initial_state: T) -> (solution: Option<Vec<A>>)
        requires
            old(self).can_search(initial_state),
        ensures
            final(self).traversed(*old(self), initial_state, 0, false, found(solution)),
            solution is Some <==> goal_in_reach::<T, A>(old(self).visited(), initial_state),
            paths_record_actions::<T, A>() && blank::<T, A>(initial_state)
                ==> all_lead_to_goal::<T, A>(initial_state, found(solution)),
            solution is None ==> final(self).totals().solutions == old(self).totals().solutions,
            seen_in(old(self).visited(), initial_state)
                ==> final(self).visited() == old(self).visited()
                && final(self).totals() == old(self).totals(),
            best_first_order::<T, A>(initial_state, 0, final(self).since(*old(self))),
    {
        let mut open_list: PrioList<Rc<T>> = PrioList::new();
        let mut solutions = self.find_solutions_a_start(
            Rc::new(initial_state),
            &mut open_list,
            false,
            0,
        );
        let ghost all = solutions@;
        let solution = solutions.pop();
        proof {
            assert(found(solution) =~= all);
            self.lemma_search_decides(*old(self), initial_state, false, all);
            if paths_record_actions::<T, A>() && blank::<T, A>(initial_state) {
                self.lemma_solutions_lead_to_goals(*old(self), initial_state, 0, false, all);
            }
        }
        solution
    }
}

} // verus!
