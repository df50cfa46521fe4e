//! The baseline that the tree search is measured against: random playouts
//! from the start, without a tree.

use crate::game::{improves, Game, GameArena};
use crate::playout::rollout;
use vstd::prelude::*;

verus! {

/// An arena that plays one random playout a round and keeps the best score.
pub struct BogoArena<G: Game> {
    game: G,
    best_score: Option<u64>,
}

impl<G: Game> BogoArena<G> {
    /// An arena that plays from `game`, with no playout yet.
    pub fn new(game: G) -> (made: Self)
        requires
            game.valid(),
        ensures
            made.ready(),
            made.best_score() is None,
    {
        Self { game, best_score: None }
    }
}

impl<G: Game> GameArena<G> for BogoArena<G> {
    closed spec fn ready(&self) -> bool {
        self.game.valid()
    }

    closed spec fn best_score(&self) -> Option<u64> {
        self.best_score
    }

    /// One random playout from the arena's game; its score is kept if it
    /// beats the best so far.
    fn play_round(&mut self)
        ensures
            final(self).best_score() is Some,
    {
        let mut g = self.game.duplicate();
        let score = rollout(&mut g);
        if improves(self.best_score, score) {
            self.best_score = Some(score);
        }
    }

    fn best(&self) -> (r: Option<u64>) {
        self.best_score
    }
}

} // verus!
