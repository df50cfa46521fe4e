//! The contract between a sequential decision game and an arena that plays it.

use vstd::prelude::*;

verus! {

/// A game played one action at a time, owned by value and copied freely.
///
/// An action is a number that only the game gives a meaning to.
pub trait Game: Sized {
    /// The representation invariant of the implementing type.
    spec fn valid(&self) -> bool;

    /// The legal actions in this state, in order; none once the game is over.
    spec fn legal(&self) -> Seq<u64>;

    /// A bound on the number of actions still to come.
    spec fn horizon(&self) -> nat;

    /// The score that `get_score` reports of this state.
    spec fn value(&self) -> u64;

    /// The legal actions of a fresh game with this configuration.
    spec fn opening(&self) -> Seq<u64>;

    /// Whether `first` is a fresh game with this configuration.
    spec fn begins(&self, first: Self) -> bool;

    /// Whether `next` is this state after the legal action `action`.
    spec fn leads(&self, action: u64, next: Self) -> bool;

    /// The legal actions, recomputed from the state.
    fn get_actions(&self) -> (r: Vec<u64>)
        requires
            self.valid(),
        ensures
            r@ == self.legal(),
    ;

    /// Whether the game is over: whether no action is legal.
    fn is_terminal(&self) -> (r: bool)
        requires
            self.valid(),
        ensures
            r == (self.legal().len() == 0),
    ;

    /// Plays `action` if it is legal; otherwise leaves the state as it was
    /// and returns `false`.
    fn act(&mut self, action: u64) -> (ok: bool)
        requires
            old(self).valid(),
        ensures
            final(self).valid(),
            ok == old(self).legal().contains(action),
            ok ==> final(self).horizon() < old(self).horizon(),
            ok ==> old(self).leads(action, *final(self)),
            !ok ==> *final(self) == *old(self),
    ;

    /// The score of this state, which means something once the game is over.
    fn get_score(&self) -> (r: u64)
        requires
            self.valid(),
        ensures
            r == self.value(),
    ;

    /// A fresh game with the configuration of this one.
    fn start(&self) -> (r: Self)
        requires
            self.valid(),
        ensures
            r.valid(),
            r.legal() == self.opening(),
            r.opening() == self.opening(),
            self.begins(r),
    ;

    /// An independent copy of this state.
    fn duplicate(&self) -> (r: Self)
        requires
            self.valid(),
        ensures
            r.valid(),
            r.legal() == self.legal(),
            r.horizon() == self.horizon(),
            r.opening() == self.opening(),
            r.value() == self.value(),
    ;
}

/// Whether `after` is `before` once `action` was tried on it: played if it
/// was legal, else nothing has changed.
pub open spec fn acted<G: Game>(before: G, action: u64, after: G) -> bool {
    if before.legal().contains(action) {
        before.leads(action, after)
    } else {
        after == before
    }
}

/// Whether `last` is `first` once each of `actions` was tried on it in turn.
pub open spec fn replayed<G: Game>(first: G, actions: Seq<u64>, last: G) -> bool
    decreases actions.len(),
{
    if actions.len() == 0 {
        last == first
    } else {
        exists|mid: G|
            replayed(first, actions.drop_last(), mid) && #[trigger] acted(
                mid,
                actions.last(),
                last,
            )
    }
}

/// Whether `after` is at least `before`, where nothing was found before
/// only if nothing counts as less.
pub open spec fn no_worse(before: Option<u64>, after: Option<u64>) -> bool {
    match before {
        Some(b) => after is Some && after->0 >= b,
        None => true,
    }
}

/// Whether `score` beats `best`: whether it is the first score or above the
/// best one so far.
pub fn improves(best: Option<u64>, score: u64) -> (r: bool)
    ensures
        r == (best is None || score > best->0),
        r ==> no_worse(best, Some(score)),
{
    match best {
        Some(b) => score > b,
        None => true,
    }
}

/// An arena that plays rounds of a game and remembers the best score seen.
pub trait GameArena<G: Game> {
    /// The representation invariant of the implementing type.
    spec fn ready(&self) -> bool;

    /// The best score of any finished playout so far.
    spec fn best_score(&self) -> Option<u64>;

    /// Plays one round; the best score never falls.
    fn play_round(&mut self)
        requires
            old(self).ready(),
        ensures
            final(self).ready(),
            no_worse(old(self).best_score(), final(self).best_score()),
    ;

    /// The best score so far, `None` before the first playout.
    fn best(&self) -> (r: Option<u64>)
        ensures
            r == self.best_score(),
    ;
}

} // verus!
