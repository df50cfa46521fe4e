//! Random playouts: a game played to its end by uniformly random legal actions.

use crate::game::Game;
use rand::Rng;
use vstd::prelude::*;

verus! {

/// `Rng::gen_range` on the thread's generator: some index below `bound`.
#[verifier::external_body]
pub(crate) fn random_below(bound: usize) -> (index: usize)
    requires
        bound > 0,
    ensures
        index < bound,
{
    rand::thread_rng().gen_range(0..bound)
}

/// Plays `game` to its end, each time by one of the legal actions picked at
/// random, and returns the score; a game that is over is left as it is.
pub fn rollout<G: Game>(game: &mut G) -> (score: u64)
    requires
        old(game).valid(),
    ensures
        final(game).valid(),
        final(game).legal().len() == 0,
        score == final(game).value(),
        final(game).horizon() <= old(game).horizon(),
        old(game).legal().len() == 0 ==> *final(game) == *old(game),
{
    while !game.is_terminal()
        invariant
            game.valid(),
            game.horizon() <= old(game).horizon(),
            old(game).legal().len() == 0 ==> *game == *old(game),
        decreases game.horizon(),
    {
        let actions = game.get_actions();
        let pick = random_below(actions.len());
        proof {
            assert(game.legal()[pick as int] == actions@[pick as int]);
        }
        let _ = game.act(actions[pick]);
    }
    game.get_score()
}

} // verus!
