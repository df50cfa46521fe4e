//! Monte Carlo tree search over edge-by-edge graph construction, looking for
//! the simple graph with the most spanning trees under an edge budget.

pub mod arena;
pub mod bogo;
pub mod game;
pub mod graph;
pub mod laplacian;
pub mod mcts;
pub mod playout;
pub mod tree;
pub mod tree_game;
