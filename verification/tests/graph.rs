use rustsearch::search::{Action, Search, State, StateHeuristic};
use std::rc::Rc;

/// One edge of a directed graph, taken as an action.
#[derive(Clone, Copy, PartialEq, Eq, Debug)]
struct Hop {
    to: usize,
    toll: u64,
}

impl Action for Hop {
    fn cost(&self) -> u64 {
        self.toll
    }
}

/// The graph that the walkers move on.
#[derive(Debug)]
struct Graph {
    edges: Vec<Vec<(usize, u64)>>,
    goals: Vec<usize>,
    estimates: Vec<u64>,
}

/// A walker on a graph. Two walkers are one node when they stand on the
/// same vertex, whatever way they came.
#[derive(Clone, Debug)]
struct Walker {
    graph: Rc<Graph>,
    at: usize,
    way: Vec<Hop>,
}

impl PartialEq for Walker {
    fn eq(&self, other: &Self) -> bool {
        self.at == other.at
    }
}

impl State<Hop> for Walker {
    fn apply_action(&self, action: &Hop) -> Self {
        let mut way = self.way.clone();
        way.push(*action);
        Walker { graph: Rc::clone(&self.graph), at: action.to, way }
    }

    fn get_partial_solution(&self) -> Vec<Hop> {
        self.way.clone()
    }

    fn get_solution_cost(&self) -> u64 {
        self.way.iter().map(|hop| hop.cost()).sum()
    }

    fn get_applicable_actions(&self) -> Vec<Hop> {
        self.graph.edges[self.at].iter().map(|&(to, toll)| Hop { to, toll }).collect()
    }

    fn is_solution(&self) -> bool {
        self.graph.goals.contains(&self.at)
    }

    fn get_state_level(&self) -> usize {
        self.way.len()
    }
}

impl StateHeuristic for Walker {
    fn heuristic(&self) -> u64 {
        self.graph.estimates[self.at]
    }
}

fn walker(edges: Vec<Vec<(usize, u64)>>, goals: Vec<usize>) -> Walker {
    let estimates = vec![0; edges.len()];
    Walker { graph: Rc::new(Graph { edges, goals, estimates }), at: 0, way: vec![] }
}

fn vertices(way: &[Hop]) -> Vec<usize> {
    way.iter().map(|hop| hop.to).collect()
}

fn replay(start: &Walker, way: &[Hop]) -> Walker {
    let mut state = start.clone();
    for hop in way {
        assert!(state.get_applicable_actions().contains(hop));
        state = state.apply_action(hop);
    }
    state
}

/// 0 -> 1 -> 3 and 0 -> 2 -> 4 -> 3, with an edge back from 4 to 0; 3 is the
/// goal and 5 cannot be reached.
fn diamond() -> Walker {
    walker(
        vec![
            vec![(1, 1), (2, 1)],
            vec![(3, 1)],
            vec![(4, 1)],
            vec![],
            vec![(3, 1), (0, 1)],
            vec![(3, 1)],
        ],
        vec![3],
    )
}

/// A tree with goals at two depths: 0 -> {1, 2}, 1 -> {3, 4}, 2 -> {5}, 3 ->
/// {6}; the goals are 5, 6 and 4.
fn orchard() -> Walker {
    walker(
        vec![
            vec![(1, 1), (2, 1)],
            vec![(3, 1), (4, 1)],
            vec![(5, 1)],
            vec![(6, 1)],
            vec![],
            vec![],
            vec![],
        ],
        vec![5, 6, 4],
    )
}

/// A ring without a goal: 0 -> 1 -> 2 -> 0.
fn ring() -> Walker {
    walker(vec![vec![(1, 1)], vec![(2, 1)], vec![(0, 1)]], vec![])
}

#[test]
fn breadth_first_takes_the_short_way() {
    let mut search = Search::new();
    let solution = search.search_breadth_first(diamond());
    assert_eq!(Some(vec![1, 3]), solution.map(|way| vertices(&way)));
    assert_eq!(1, search.statistics.solutions);
    assert_eq!(2, search.statistics.max_depth);
    assert_eq!(4, search.statistics.nodes_explored);
}

#[test]
fn depth_first_takes_the_last_branch_first() {
    let mut search = Search::new();
    let solution = search.search_depth_first(diamond());
    assert_eq!(Some(vec![2, 4, 3]), solution.map(|way| vertices(&way)));
    assert_eq!(1, search.statistics.solutions);
    assert_eq!(3, search.statistics.max_depth);
    assert_eq!(4, search.statistics.nodes_explored);
}

#[test]
fn each_node_is_explored_once() {
    let mut search = Search::new();
    let solutions = search.search_breadth_all(diamond());
    assert_eq!(1, solutions.len());
    assert_eq!(vec![1, 3], vertices(&solutions[0]));
    assert_eq!(5, search.statistics.nodes_explored);
    assert_eq!(1, search.statistics.solutions);
    assert_eq!(2, search.statistics.max_depth);
}

#[test]
fn a_ring_is_left_after_one_turn() {
    let mut search = Search::new();
    assert!(search.search_breadth_all(ring()).is_empty());
    assert_eq!(3, search.statistics.nodes_explored);
    assert_eq!(2, search.statistics.max_depth);
    assert_eq!(0, search.statistics.solutions);

    let mut search = Search::new();
    assert!(search.search_depth_all(ring()).is_empty());
    assert_eq!(3, search.statistics.nodes_explored);

    let mut search = Search::new();
    assert!(search.search_depth_first(ring()).is_none());
    let mut search = Search::new();
    assert!(search.search_breadth_first(ring()).is_none());
    let mut search = Search::new();
    assert!(search.search_a_start_first(ring()).is_none());
    assert_eq!(0, search.statistics.solutions);
    let mut search = Search::new();
    assert!(search.search_iter_depth_first(ring(), 1).is_none());
    assert_eq!(0, search.statistics.solutions);
}

#[test]
fn every_strategy_finds_a_goal_in_reach() {
    let start = diamond();

    let mut search = Search::new();
    let way = search.search_breadth_first(diamond()).unwrap();
    assert!(replay(&start, &way).is_solution());

    let mut search = Search::new();
    let way = search.search_depth_first(diamond()).unwrap();
    assert!(replay(&start, &way).is_solution());

    let mut search = Search::new();
    let way = search.search_iter_depth_first(diamond(), 1).unwrap();
    assert!(replay(&start, &way).is_solution());

    let mut search = Search::new();
    let way = search.search_a_start_first(diamond()).unwrap();
    assert!(replay(&start, &way).is_solution());

    let mut search = Search::new();
    let ways = search.search_breadth_all(diamond());
    assert!(!ways.is_empty());
    for way in &ways {
        assert!(replay(&start, way).is_solution());
    }

    let mut search = Search::new();
    let ways = search.search_depth_all(diamond());
    assert!(!ways.is_empty());
    for way in &ways {
        assert!(replay(&start, way).is_solution());
    }
}

#[test]
fn breadth_first_returns_the_shallowest_first() {
    let mut search = Search::new();
    let solutions = search.search_breadth_all(orchard());
    let found: Vec<Vec<usize>> = solutions.iter().map(|way| vertices(way)).collect();
    assert_eq!(vec![vec![1, 4], vec![2, 5], vec![1, 3, 6]], found);
    for pair in solutions.windows(2) {
        assert!(pair[0].len() <= pair[1].len());
    }
    assert_eq!(3, search.statistics.solutions);
    assert_eq!(7, search.statistics.nodes_explored);
    assert_eq!(3, search.statistics.max_depth);
}

#[test]
fn depth_first_returns_the_latest_first() {
    let mut search = Search::new();
    let solutions = search.search_depth_all(orchard());
    let found: Vec<Vec<usize>> = solutions.iter().map(|way| vertices(way)).collect();
    assert_eq!(vec![vec![2, 5], vec![1, 4], vec![1, 3, 6]], found);
    assert_eq!(3, search.statistics.solutions);
    assert_eq!(7, search.statistics.nodes_explored);
}

#[test]
fn a_goal_is_not_expanded() {
    // 0 -> 1 -> 2, where both 1 and 2 are goals: 2 lies behind a goal.
    let start = walker(vec![vec![(1, 1)], vec![(2, 1)], vec![]], vec![1, 2]);
    let mut search = Search::new();
    let solutions = search.search_breadth_all(start);
    assert_eq!(1, solutions.len());
    assert_eq!(vec![1], vertices(&solutions[0]));
    assert_eq!(2, search.statistics.nodes_explored);
}

#[test]
fn an_initial_goal_has_the_empty_solution() {
    let start = walker(vec![vec![(1, 1)], vec![]], vec![0]);
    let mut search = Search::new();
    assert_eq!(Some(vec![]), search.search_breadth_first(start.clone()));
    assert_eq!(1, search.statistics.nodes_explored);
    assert_eq!(0, search.statistics.max_depth);
    let mut search = Search::new();
    assert_eq!(Some(vec![]), search.search_iter_depth_first(start.clone(), 1));
    let mut search = Search::new();
    assert_eq!(Some(vec![]), search.search_a_start_first(start));
}

#[test]
fn a_visited_state_is_not_explored_again() {
    let mut search = Search::new();
    assert_eq!(1, search.search_breadth_all(diamond()).len());
    let explored = search.statistics.nodes_explored;
    let depth = search.statistics.max_depth;

    assert!(search.search_breadth_all(diamond()).is_empty());
    assert!(search.search_depth_all(diamond()).is_empty());
    assert!(search.search_breadth_first(diamond()).is_none());
    assert!(search.search_depth_first(diamond()).is_none());
    assert!(search.search_a_start_first(diamond()).is_none());
    assert_eq!(explored, search.statistics.nodes_explored);
    assert_eq!(depth, search.statistics.max_depth);
    assert_eq!(1, search.statistics.solutions);
}

#[test]
fn totals_add_up_over_searches() {
    let mut search = Search::new();
    assert!(search.search_breadth_first(diamond()).is_some());
    assert_eq!(4, search.statistics.nodes_explored);
    // Vertex 5 was not visited: a search from it finds the goal visited already.
    let mut other = diamond();
    other.at = 5;
    assert!(search.search_breadth_first(other).is_none());
    assert_eq!(5, search.statistics.nodes_explored);
    assert_eq!(1, search.statistics.solutions);
    assert_eq!(2, search.statistics.max_depth);
}

#[test]
fn best_first_takes_the_cheap_way() {
    // 0 -> 1 -> 3 costs 10, 0 -> 2 -> 4 -> 3 costs 3.
    let start = walker(
        vec![
            vec![(1, 5), (2, 1)],
            vec![(3, 5)],
            vec![(4, 1)],
            vec![],
            vec![(3, 1)],
        ],
        vec![3],
    );
    let mut search = Search::new();
    let solution = search.search_a_start_first(start.clone()).unwrap();
    assert_eq!(vec![2, 4, 3], vertices(&solution));
    assert_eq!(3u64, solution.iter().map(|hop| hop.cost()).sum());

    let mut search = Search::new();
    let solution = search.search_breadth_first(start).unwrap();
    assert_eq!(vec![1, 3], vertices(&solution));
}

#[test]
fn best_first_follows_the_estimate() {
    // Equal tolls; the estimate tells that 2 is nearer to the goal than 1.
    let graph = Graph {
        edges: vec![vec![(1, 1), (2, 1)], vec![(3, 1)], vec![(3, 1)], vec![]],
        goals: vec![3],
        estimates: vec![2, 5, 1, 0],
    };
    let start = Walker { graph: Rc::new(graph), at: 0, way: vec![] };
    let mut search = Search::new();
    let solution = search.search_a_start_first(start).unwrap();
    assert_eq!(vec![2, 3], vertices(&solution));
    assert_eq!(3, search.statistics.nodes_explored);
}

#[test]
fn deepening_goes_on_until_the_limit_meets_nothing() {
    // A chain 0 -> 1 -> 2 -> 3 -> 4 with the goal at its end.
    let chain = walker(
        vec![vec![(1, 1)], vec![(2, 1)], vec![(3, 1)], vec![(4, 1)], vec![]],
        vec![4],
    );
    let mut search = Search::new();
    let solution = search.search_iter_depth_first(chain.clone(), 1).unwrap();
    assert_eq!(vec![1, 2, 3, 4], vertices(&solution));
    // Rounds under the limits 1, 2, 3 and 4 explore 2, 3, 4 and 5 states.
    assert_eq!(14, search.statistics.nodes_explored);
    assert_eq!(4, search.statistics.max_depth);
    assert_eq!(1, search.statistics.solutions);

    let mut search = Search::new();
    let solution = search.search_iter_depth_first(chain.clone(), 3).unwrap();
    assert_eq!(vec![1, 2, 3, 4], vertices(&solution));
    // Rounds under the limits 3 and 6 explore 4 and 5 states.
    assert_eq!(9, search.statistics.nodes_explored);

    let mut search = Search::new();
    let solution = search.search_iter_depth_first(chain, 0).unwrap();
    assert_eq!(vec![1, 2, 3, 4], vertices(&solution));
    assert_eq!(5, search.statistics.nodes_explored);
}

#[test]
fn deepening_gives_up_where_no_goal_is() {
    let chain = walker(vec![vec![(1, 1)], vec![(2, 1)], vec![]], vec![]);
    let mut search = Search::new();
    assert!(search.search_iter_depth_first(chain, 1).is_none());
    // Rounds under the limits 1, 2 and 3 explore 2, 3 and 3 states.
    assert_eq!(8, search.statistics.nodes_explored);
    assert_eq!(2, search.statistics.max_depth);
    assert_eq!(0, search.statistics.solutions);
}

#[test]
fn a_new_engine_has_no_totals() {
    let search: Search<Walker, Hop> = Search::new();
    assert_eq!(0, search.statistics.nodes_explored);
    assert_eq!(0, search.statistics.max_depth);
    assert_eq!(0, search.statistics.solutions);
    let search: Search<Walker, Hop> = Search::default();
    assert_eq!(0, search.statistics.nodes_explored);
    assert_eq!("[ nodes_explored: 0, max_depth: 0, solutions: 0 ]", search.statistics.to_string());
}
