use graph_mcts::arena::MctsNode;
use graph_mcts::game::{improves, Game, GameArena};
use graph_mcts::graph::Graph;
use graph_mcts::laplacian::{Eigensolver, LapGraph, Spectrum};
use graph_mcts::bogo::BogoArena;
use graph_mcts::mcts::{first_best, Heuristic, MctsArena, Priority};
use graph_mcts::playout::rollout;
use graph_mcts::tree_game::{TreeGame, SKIP, TAKE};
use nalgebra::DMatrix;

const EPSILON: f64 = 1e-6;

/// Reads the spectrum of a Laplacian with a dense float eigen-solver.
struct Dense;

impl Eigensolver for Dense {
    fn reported(cells: Vec<i64>, side: usize, order: usize) -> Spectrum {
        Self::spectrum(&cells, side, order)
    }

    fn spectrum(cells: &Vec<i64>, side: usize, order: usize) -> Spectrum {
        let matrix = DMatrix::<f64>::from_fn(side, side, |i, j| cells[i * side + j] as f64);
        let eigen = matrix.symmetric_eigenvalues();
        let mut product = 1.0;
        let mut near_zero = 0;
        for i in 0..eigen.len() {
            if eigen[i].abs() > EPSILON {
                product *= eigen[i];
            } else {
                near_zero += 1;
            }
        }
        let quotient = (product / order as f64).round() as usize;
        Spectrum { near_zero, quotient }
    }
}

type Lap = LapGraph<Dense>;

/// An integer that rises with the float, for floats that are numbers.
fn order_key(x: f64) -> i64 {
    let bits = x.to_bits() as i64;
    bits ^ ((((bits >> 63) as u64) >> 1) as i64)
}

/// Upper confidence bound for trees.
struct Uct {
    exploration: f64,
    num_rollouts: f64,
    mean_rollout: f64,
    best_rollout: f64,
    upper_bound: f64,
}

impl Uct {
    fn new(exploration: f64, upper_bound: f64) -> Self {
        Uct { exploration, num_rollouts: 0.0, mean_rollout: 0.0, best_rollout: 1.0, upper_bound }
    }

    fn value(&self, node: &MctsNode, parent: &MctsNode) -> f64 {
        node.best_rollout as f64 / self.upper_bound
            + self.exploration
                * ((parent.num_simulations as f64).ln() / node.num_simulations as f64).sqrt()
    }
}

impl Heuristic for Uct {
    fn heuristic(&self, node: &MctsNode, parent: &MctsNode) -> Priority {
        Priority::of(node, order_key(self.value(node, parent)))
    }

    fn update_heuristic(&mut self, rollout_sum: u64, best: u64, new_rollouts: usize) {
        self.mean_rollout *= self.num_rollouts / (self.num_rollouts + new_rollouts as f64);
        self.num_rollouts += new_rollouts as f64;
        self.mean_rollout += rollout_sum as f64 / self.num_rollouts;
        self.best_rollout = self.best_rollout.max(best as f64);
    }
}

fn play(m: usize, n: usize, actions: &[u64]) -> TreeGame<Lap> {
    let mut game = TreeGame::<Lap>::new(m, n);
    for &a in actions {
        assert!(game.act(a));
    }
    game
}

fn exhaust(m: usize, n: usize) -> MctsArena<TreeGame<Lap>, Uct> {
    let mut arena = MctsArena::new(TreeGame::<Lap>::new(m, n), Uct::new(3.0, 3.0));
    let mut rounds = 0;
    loop {
        arena.play_round();
        rounds += 1;
        if arena.prune() {
            break;
        }
        assert!(rounds < 10_000);
    }
    arena
}

#[test]
fn empty_graph_has_no_edges_and_no_trees() {
    for n in 1..6 {
        let g = Lap::empty(n);
        assert_eq!(g.size(), 0);
        assert_eq!(g.order(), 0);
        assert_eq!(g.lowest_free_vertex(), Some(0));
        assert_eq!(g.edge_list(), vec![]);
        assert_eq!(g.spanning_tree_count(), 0);
    }
    assert_eq!(Lap::empty(0).spanning_tree_count(), 0);
    assert_eq!(Lap::empty(0).lowest_free_vertex(), None);
}

#[test]
fn complete_graph_follows_cayley() {
    assert_eq!(Lap::complete(2).spanning_tree_count(), 1);
    assert_eq!(Lap::complete(3).spanning_tree_count(), 3);
    assert_eq!(Lap::complete(4).spanning_tree_count(), 16);
    assert_eq!(Lap::complete(5).spanning_tree_count(), 125);
    assert_eq!(Lap::complete(6).spanning_tree_count(), 1296);
}

#[test]
fn complete_graph_joins_every_pair() {
    let g = Lap::complete(4);
    assert_eq!(g.size(), 6);
    assert_eq!(g.order(), 4);
    assert_eq!(g.lowest_free_vertex(), None);
    for v in 0..4 {
        assert_eq!(g.degree(v), 3);
        assert_eq!(g.laplacian_entry(v, v), 3);
        for u in 0..4 {
            assert_eq!(g.has_edge(v, u), u != v);
        }
    }
    assert_eq!(g.edge_list(), vec![(1, 0), (2, 0), (2, 1), (3, 0), (3, 1), (3, 2)]);
}

#[test]
fn edges_count_and_degrees_follow_insertions() {
    let mut g = Lap::empty(5);
    let edges = [(1, 0), (0, 3), (3, 1), (4, 3)];
    for (k, &(i, j)) in edges.iter().enumerate() {
        g.add_edge(i, j);
        assert_eq!(g.size(), k + 1);
    }
    assert_eq!(g.degree(0), 2);
    assert_eq!(g.degree(1), 2);
    assert_eq!(g.degree(2), 0);
    assert_eq!(g.degree(3), 3);
    assert_eq!(g.degree(4), 1);
    assert_eq!(g.order(), 4);
    assert_eq!(g.lowest_free_vertex(), Some(2));
    assert_eq!(g.laplacian_entry(3, 0), -1);
    assert_eq!(g.laplacian_entry(0, 3), -1);
    assert_eq!(g.laplacian_entry(2, 0), 0);
    assert_eq!(g.edge_list(), vec![(1, 0), (3, 0), (3, 1), (4, 3)]);
    assert_eq!(g.spanning_tree_count(), 3);
    assert_eq!(g.vertex_count(), 5);
}

#[test]
fn copy_is_independent() {
    let mut g = Lap::empty(3);
    g.add_edge(1, 0);
    let mut h = g.duplicate();
    h.add_edge(2, 0);
    assert_eq!(g.size(), 1);
    assert_eq!(h.size(), 2);
    assert!(!g.has_edge(2, 0));
}

#[test]
fn disconnected_graph_has_no_spanning_tree() {
    let mut g = Lap::empty(4);
    g.add_edge(1, 0);
    g.add_edge(3, 2);
    assert_eq!(g.order(), 4);
    assert_eq!(g.spanning_tree_count(), 0);
    let mut h = Lap::empty(7);
    h.add_edge(1, 0);
    h.add_edge(2, 0);
    h.add_edge(2, 1);
    h.add_edge(5, 4);
    assert_eq!(h.spanning_tree_count(), 0);
}

#[test]
fn count_reads_the_spectrum() {
    let one = Spectrum { near_zero: 2, quotient: 1 };
    assert_eq!(Lap::count_from(3, 2, &one), 1);
    let split = Spectrum { near_zero: 3, quotient: 1 };
    assert_eq!(Lap::count_from(3, 2, &split), 0);
    let bare = Spectrum { near_zero: 3, quotient: 7 };
    assert_eq!(Lap::count_from(3, 0, &bare), 0);
    let full = Spectrum { near_zero: 1, quotient: 16 };
    assert_eq!(Lap::count_from(4, 4, &full), 16);
}

#[test]
fn triangle_scores_three() {
    let game = play(3, 3, &[TAKE, TAKE, TAKE]);
    assert!(game.is_terminal());
    assert_eq!(game.get_actions(), vec![]);
    assert_eq!(game.get_score(), 3);
    assert_eq!(game.print_graph(), vec![(1, 0), (2, 0), (2, 1)]);
}

#[test]
fn path_scores_one() {
    let first = play(3, 3, &[TAKE, TAKE, SKIP]);
    assert!(first.is_terminal());
    assert_eq!(first.get_score(), 1);
    let second = play(3, 3, &[TAKE, SKIP, TAKE]);
    assert!(second.is_terminal());
    assert_eq!(second.get_score(), 1);
}

#[test]
fn single_edge_is_its_own_tree() {
    let game = play(3, 3, &[TAKE, SKIP, SKIP]);
    assert!(game.is_terminal());
    assert_eq!(game.print_graph(), vec![(1, 0)]);
    assert_eq!(game.get_score(), 1);
}

#[test]
fn first_edge_is_forced() {
    let mut game = TreeGame::<Lap>::new(3, 3);
    assert_eq!(game.get_actions(), vec![TAKE]);
    assert!(!game.act(SKIP));
    assert_eq!(game.num_actions, 0);
    assert_eq!(game.current_edge, (1, 0));
    assert!(game.act(TAKE));
    assert_eq!(game.get_actions(), vec![SKIP, TAKE]);
}

#[test]
fn unknown_action_changes_nothing() {
    let mut game = play(4, 4, &[TAKE, SKIP]);
    for action in [2, 3, 17, u64::MAX] {
        assert!(!game.act(action));
        assert_eq!(game.num_actions, 2);
        assert_eq!(game.num_edges_added, 1);
        assert_eq!(game.current_edge, (2, 1));
        assert_eq!(game.print_graph(), vec![(1, 0)]);
    }
    let over = play(1, 3, &[TAKE]);
    let mut over = over;
    assert!(over.is_terminal());
    assert!(!over.act(SKIP));
    assert!(!over.act(TAKE));
    assert_eq!(over.num_actions, 1);
}

#[test]
fn candidates_come_row_by_row() {
    let mut game = TreeGame::<Lap>::new(10, 4);
    let mut seen = vec![];
    while !game.is_terminal() {
        seen.push(game.current_edge);
        assert!(game.act(TAKE));
    }
    assert_eq!(seen, vec![(1, 0), (2, 0), (2, 1), (3, 0), (3, 1), (3, 2)]);
    assert_eq!(game.num_actions, 6);
    assert_eq!(game.num_edges_added, 6);
    assert_eq!(game.max_actions, 6);
    assert_eq!(game.get_score(), 16);
}

#[test]
fn new_vertices_come_in_index_order() {
    let game = play(5, 4, &[TAKE, SKIP, SKIP]);
    assert_eq!(game.current_edge, (3, 0));
    assert_eq!(game.get_actions(), vec![SKIP]);
    let game = play(5, 4, &[TAKE, TAKE, SKIP]);
    assert_eq!(game.current_edge, (3, 0));
    assert_eq!(game.get_actions(), vec![SKIP, TAKE]);
    let game = play(5, 5, &[TAKE, SKIP, SKIP, SKIP, SKIP, SKIP]);
    assert_eq!(game.current_edge, (4, 0));
    assert_eq!(game.get_actions(), vec![SKIP]);
    let game = play(5, 5, &[TAKE, TAKE, SKIP, TAKE, SKIP, TAKE]);
    assert_eq!(game.current_edge, (4, 0));
    assert_eq!(game.get_actions(), vec![SKIP, TAKE]);
}

#[test]
fn budget_ends_the_game() {
    let game = play(2, 4, &[TAKE, TAKE]);
    assert!(game.is_terminal());
    assert_eq!(game.get_actions(), vec![]);
    assert_eq!(game.num_actions, 2);
    assert_eq!(game.get_score(), 1);
}

#[test]
fn degenerate_games_are_over_at_once() {
    let no_budget = TreeGame::<Lap>::new(0, 4);
    assert!(no_budget.is_terminal());
    assert_eq!(no_budget.get_actions(), vec![]);
    assert_eq!(no_budget.get_score(), 0);
    let no_vertices = TreeGame::<Lap>::new(3, 0);
    assert!(no_vertices.is_terminal());
    assert_eq!(no_vertices.max_actions, 0);
    assert_eq!(no_vertices.get_score(), 0);
    let one_vertex = TreeGame::<Lap>::new(3, 1);
    assert!(one_vertex.is_terminal());
    assert_eq!(one_vertex.get_score(), 0);
}

#[test]
fn start_is_fresh_and_idempotent() {
    let game = play(3, 4, &[TAKE, SKIP, TAKE]);
    let once = game.start();
    let twice = once.start();
    for fresh in [&once, &twice] {
        assert_eq!(fresh.num_actions, 0);
        assert_eq!(fresh.num_edges_added, 0);
        assert_eq!(fresh.max_edges, 3);
        assert_eq!(fresh.num_vertices, 4);
        assert_eq!(fresh.max_actions, 6);
        assert_eq!(fresh.current_edge, (1, 0));
        assert_eq!(fresh.print_graph(), vec![]);
        assert_eq!(fresh.get_actions(), vec![TAKE]);
    }
    assert_eq!(game.num_actions, 3);
}

#[test]
fn game_copy_is_independent() {
    let game = play(3, 3, &[TAKE]);
    let mut copy = game.duplicate();
    assert!(copy.act(TAKE));
    assert_eq!(game.num_actions, 1);
    assert_eq!(game.print_graph(), vec![(1, 0)]);
    assert_eq!(copy.print_graph(), vec![(1, 0), (2, 0)]);
}

#[test]
fn unvisited_child_comes_first() {
    let mut visited = MctsNode::fresh(1);
    visited.num_simulations = 50;
    let unvisited = MctsNode::fresh(0);
    let high = Priority::of(&visited, i64::MAX);
    let fresh = Priority::of(&unvisited, i64::MIN);
    assert!(fresh.outranks(high));
    assert!(!high.outranks(fresh));
    assert!(!fresh.outranks(fresh));
    assert!(Priority::Finite(2).outranks(Priority::Finite(1)));
    assert!(!Priority::Finite(1).outranks(Priority::Finite(1)));
    let uct = Uct::new(3.0, 3.0);
    let mut parent = MctsNode::fresh(0);
    parent.num_simulations = 100;
    assert!(uct.heuristic(&unvisited, &parent).outranks(uct.heuristic(&visited, &parent)));
}

#[test]
fn credit_adds_up_and_stops_at_the_top() {
    let node = MctsNode::fresh(7).credited(4, 90, 50);
    assert_eq!(node.action, 7);
    assert_eq!(node.best_rollout, 4);
    assert_eq!(node.total_accumulation, 90);
    assert_eq!(node.num_simulations, 50);
    let node = node.credited(3, u64::MAX, 50);
    assert_eq!(node.best_rollout, 4);
    assert_eq!(node.total_accumulation, u64::MAX);
    assert_eq!(node.num_simulations, 100);
    assert!(!node.is_expanded);
    assert!(!node.terminally_searched);
}

#[test]
fn only_a_higher_score_improves() {
    assert!(improves(None, 0));
    assert!(improves(None, 7));
    assert!(improves(Some(3), 4));
    assert!(!improves(Some(3), 3));
    assert!(!improves(Some(3), 2));
    assert!(!improves(Some(u64::MAX), u64::MAX));
}

#[test]
fn first_of_the_best_is_picked() {
    let one = vec![Priority::Finite(3)];
    assert_eq!(first_best(&one), 0);
    let tie = vec![Priority::Finite(1), Priority::Finite(5), Priority::Finite(5), Priority::Finite(2)];
    assert_eq!(first_best(&tie), 1);
    let fresh = vec![Priority::Finite(i64::MAX), Priority::Unvisited, Priority::Unvisited];
    assert_eq!(first_best(&fresh), 1);
    let falling = vec![Priority::Finite(-1), Priority::Finite(-2), Priority::Finite(-3)];
    assert_eq!(first_best(&falling), 0);
}

#[test]
fn playout_ends_the_game() {
    for _ in 0..50 {
        let mut game = TreeGame::<Lap>::new(4, 4);
        let score = rollout(&mut game);
        assert!(game.is_terminal());
        assert_eq!(score, game.get_score());
        assert!(score <= 4);
        assert!(game.num_edges_added <= 4);
        assert_eq!(game.print_graph().len(), game.num_edges_added);
    }
    let mut over = play(1, 3, &[TAKE]);
    assert_eq!(rollout(&mut over), 1);
    assert_eq!(over.num_actions, 1);
}

#[test]
fn baseline_keeps_the_best_playout() {
    let mut arena = BogoArena::new(TreeGame::<Lap>::new(3, 3));
    assert_eq!(arena.best(), None);
    arena.play_round();
    let first = arena.best().unwrap();
    assert!(first >= 1 && first <= 3);
    for _ in 0..200 {
        arena.play_round();
        assert!(arena.best().unwrap() >= first);
    }
    assert_eq!(arena.best(), Some(3));
}

#[test]
fn rounds_are_credited_to_the_root() {
    let mut arena = MctsArena::new(TreeGame::<Lap>::new(3, 3), Uct::new(3.0, 3.0));
    assert_eq!(arena.root().num_simulations, 0);
    assert!(!arena.root().is_expanded);
    arena.play_round();
    let root = arena.root();
    assert!(root.is_expanded);
    assert!(!root.terminally_searched);
    assert_eq!(root.num_simulations, 50);
    assert_eq!(root.best_rollout, arena.best().unwrap());
    assert!(root.total_accumulation >= 50 && root.total_accumulation <= 150);
    arena.play_round();
    assert_eq!(arena.root().num_simulations, 100);
    assert_eq!(arena.root().best_rollout, arena.best().unwrap());
}

#[test]
fn pruning_frees_the_searched_nodes() {
    let mut arena = MctsArena::new(TreeGame::<Lap>::new(3, 3), Uct::new(3.0, 3.0));
    let mut largest = 1;
    let mut rounds = 0;
    while !arena.prune() {
        arena.play_round();
        largest = largest.max(arena.tree_size());
        rounds += 1;
        assert!(rounds < 1000);
    }
    assert!(largest > 1);
    assert_eq!(arena.tree_size(), 1);
    assert!(!arena.root().terminally_searched);
    assert!(arena.root().is_expanded);
}

#[test]
fn new_arena_holds_the_root_only() {
    let arena = MctsArena::new(TreeGame::<Lap>::new(3, 3), Uct::new(3.0, 3.0));
    assert_eq!(arena.tree_size(), 1);
    assert_eq!(arena.best(), None);
    assert_eq!(arena.best_game().num_actions, 0);
}

#[test]
fn first_round_expands_the_root() {
    let mut arena = MctsArena::new(TreeGame::<Lap>::new(3, 3), Uct::new(3.0, 3.0));
    assert!(!arena.prune());
    arena.play_round();
    assert_eq!(arena.tree_size(), 2);
    let best = arena.best().unwrap();
    assert!(best >= 1 && best <= 3);
    let game = arena.best_game();
    assert!(game.is_terminal());
    assert_eq!(game.get_score(), best);
    arena.play_round();
    assert_eq!(arena.tree_size(), 4);
    assert!(arena.best().unwrap() >= best);
}

#[test]
fn exhausted_search_finds_the_triangle() {
    for _ in 0..20 {
        let arena = exhaust(3, 3);
        assert_eq!(arena.tree_size(), 1);
        assert_eq!(arena.best(), Some(3));
        assert_eq!(arena.best_game().get_score(), 3);
        assert_eq!(arena.best_game().print_graph(), vec![(1, 0), (2, 0), (2, 1)]);
    }
}

#[test]
fn exhausted_search_matches_enumeration() {
    let arena = exhaust(4, 4);
    assert_eq!(arena.tree_size(), 1);
    assert_eq!(arena.best(), Some(4));
    let arena = exhaust(5, 4);
    assert_eq!(arena.best(), Some(8));
}

#[test]
fn terminal_root_is_pruned_at_once() {
    let mut arena = MctsArena::new(TreeGame::<Lap>::new(0, 3), Uct::new(3.0, 1.0));
    assert!(arena.root().terminally_searched);
    assert!(arena.prune());
    assert_eq!(arena.tree_size(), 1);
    assert_eq!(arena.best(), None);
    arena.play_round();
    assert_eq!(arena.best(), Some(0));
    assert!(!arena.root().is_expanded);
    assert_eq!(arena.root().num_simulations, 50);
    assert!(arena.prune());
    assert_eq!(arena.tree_size(), 1);
    arena.play_round();
    assert!(arena.prune());
    assert_eq!(arena.tree_size(), 1);
    let mut empty = MctsArena::new(TreeGame::<Lap>::new(3, 0), Uct::new(3.0, 1.0));
    assert!(empty.prune());
    assert_eq!(empty.tree_size(), 1);
}

#[test]
fn pruning_ends_a_small_search() {
    let mut arena = MctsArena::new(TreeGame::<Lap>::new(2, 3), Uct::new(3.0, 1.0));
    let mut rounds = 0;
    while !arena.prune() {
        arena.play_round();
        rounds += 1;
        assert!(rounds < 1000);
    }
    assert_eq!(arena.best(), Some(1));
    assert_eq!(arena.tree_size(), 1);
}
