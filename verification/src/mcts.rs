//! The search engine: select, expand, simulate, backpropagate, prune.

use crate::arena::{
    arena_append, arena_children, arena_count, arena_live, arena_len, arena_new, arena_new_node,
    arena_parent, arena_read, arena_remove, arena_slots, arena_write, capped_sum, credit,
    fresh_node, without,
    MctsNode, Slot,
};
use crate::game::{acted, improves, no_worse, replayed, Game, GameArena};
use crate::tree::{
    credited_along, grown_at, lemma_append_keeps_tree, lemma_bare_root_alone,
    lemma_child_facts, lemma_path_actions_stable, path_actions,
    lemma_node_facts, lemma_pruned_deeper, lemma_pruned_removed, lemma_remove_keeps_tree,
    lemma_leaf_is_swept, lemma_path_climbs, lemma_path_grows, lemma_root_on_path,
    lemma_single_root, lemma_sweep_ends, lemma_sweep_starts, lemma_sweep_step, lemma_taller,
    lemma_write_keeps_tree, on_path, partly_swept, pruned_below, settled, swept, tree_wf,
};
use crate::playout::{random_below, rollout};
use indextree::Arena;
use vstd::prelude::*;

verus! {

/// How much a child deserves the next round.
#[derive(Clone, Copy, Debug)]
pub enum Priority {
    /// A child that was played through, with its score on a scale on which
    /// more is better.
    Finite(i64),
    /// A child that no round has entered yet.
    Unvisited,
}

/// The priority of `node`: `Unvisited` while nothing was played below it,
/// else its score `finite`.
pub open spec fn priority_of(node: MctsNode, finite: i64) -> Priority {
    if node.num_simulations == 0 {
        Priority::Unvisited
    } else {
        Priority::Finite(finite)
    }
}

impl Priority {
    /// The place of this priority in the order: the score, or one more than
    /// the largest score.
    pub open spec fn rank(self) -> int {
        match self {
            Priority::Finite(score) => score as int,
            Priority::Unvisited => i64::MAX + 1,
        }
    }

    /// Whether this priority is strictly above `other`.
    pub fn outranks(self, other: Priority) -> (r: bool)
        ensures
            r == (self.rank() > other.rank()),
    {
        match (self, other) {
            (Priority::Finite(a), Priority::Finite(b)) => a > b,
            (Priority::Unvisited, Priority::Finite(_)) => true,
            (_, Priority::Unvisited) => false,
        }
    }

    /// The priority of `node`, whose score is `finite` if it has one.
    pub fn of(node: &MctsNode, finite: i64) -> (p: Priority)
        ensures
            p == priority_of(*node, finite),
    {
        if node.num_simulations == 0 {
            Priority::Unvisited
        } else {
            Priority::Finite(finite)
        }
    }
}

/// The place of the highest priority, the first such place where several
/// are equally high.
pub fn first_best(priorities: &Vec<Priority>) -> (k: usize)
    requires
        priorities@.len() > 0,
    ensures
        k < priorities@.len(),
        forall|j: int|
            0 <= j < priorities@.len() ==> priorities@[j].rank() <= priorities@[k as int].rank(),
        forall|j: int| 0 <= j < k ==> priorities@[j].rank() < priorities@[k as int].rank(),
{
    let mut k: usize = 0;
    let mut i: usize = 1;
    while i < priorities.len()
        invariant
            1 <= i <= priorities@.len(),
            k < i,
            forall|j: int| 0 <= j < i ==> priorities@[j].rank() <= priorities@[k as int].rank(),
            forall|j: int| 0 <= j < k ==> priorities@[j].rank() < priorities@[k as int].rank(),
        decreases priorities@.len() - i,
    {
        if priorities[i].outranks(priorities[k]) {
            k = i;
        }
        i = i + 1;
    }
    k
}

/// A child that no round has entered outranks every sibling that has a score.
pub proof fn lemma_unvisited_first(unvisited: MctsNode, visited: MctsNode, a: i64, b: i64)
    requires
        unvisited.num_simulations == 0,
        visited.num_simulations != 0,
    ensures
        priority_of(unvisited, a).rank() > priority_of(visited, b).rank(),
{
}

/// The rule by which the engine picks among the children of a node.
pub trait Heuristic {
    /// The priority of `node` among the children of `parent`: `Unvisited`
    /// for a node below which nothing was played, and for no other.
    fn heuristic(&self, node: &MctsNode, parent: &MctsNode) -> (p: Priority)
        ensures
            (node.num_simulations == 0) == (p is Unvisited),
    ;

    /// Takes note of a round of `new_rollouts` playouts whose scores sum to
    /// `rollout_sum` and peak at `best`.
    fn update_heuristic(&mut self, rollout_sum: u64, best: u64, new_rollouts: usize);
}

/// Whether `parent` has one child for each of `actions`, in their order, each
/// reached by its action and with nothing played below it.
pub open spec fn children_match(slots: Map<usize, Slot>, parent: usize, actions: Seq<u64>) -> bool {
    &&& slots[parent].children.len() == actions.len()
    &&& forall|k: int|
        0 <= k < actions.len() ==> #[trigger] child_matches(slots, parent, actions, k)
}

/// Whether the child at place `k` of `parent` is live, reached by the action
/// at place `k` of `actions`, and has nothing played below it.
pub open spec fn child_matches(
    slots: Map<usize, Slot>,
    parent: usize,
    actions: Seq<u64>,
    k: int,
) -> bool {
    &&& slots.dom().contains(slots[parent].children[k])
    &&& slots[slots[parent].children[k]].payload == fresh_node(actions[k])
}

/// A search tree over the states of a game, with the best playout seen.
pub struct MctsArena<G: Game, H: Heuristic> {
    arena: Arena<MctsNode>,
    root: usize,
    num_rollouts: usize,
    best_game: G,
    best_score: Option<u64>,
    game: G,
    heuristic: H,
    height: Ghost<nat>,
}

impl<G: Game, H: Heuristic> MctsArena<G, H> {
    /// The live nodes of the tree, by index.
    pub closed spec fn slots(&self) -> Map<usize, Slot> {
        arena_slots(self.arena)
    }

    /// The index of the root.
    pub closed spec fn root_index(&self) -> usize {
        self.root
    }

    /// The number of slots in the arena, those of pruned nodes among them.
    pub closed spec fn slot_count(&self) -> nat {
        arena_len(self.arena)
    }

    /// The number of playouts in a round.
    pub closed spec fn rollouts(&self) -> usize {
        self.num_rollouts
    }

    /// A bound on the depth of the tree.
    pub closed spec fn depth_bound(&self) -> nat {
        self.height@
    }

    /// Whether expanding `parent` in the state `game` makes children: the
    /// game goes on there, the node was never expanded, and the arena has
    /// room for one node for each legal action.
    pub closed spec fn opens(&self, parent: usize, game: G) -> bool {
        &&& game.legal().len() > 0
        &&& !self.slots()[parent].payload.is_expanded
        &&& !self.slots()[parent].payload.terminally_searched
        &&& game.legal().len() + arena_len(self.arena) <= usize::MAX
    }

    /// Whether the game was found to be over at the root.
    pub open spec fn root_searched(&self) -> bool {
        self.slots()[self.root_index()].payload.terminally_searched
    }

    /// Whether the children of the root have been made.
    pub open spec fn root_expanded(&self) -> bool {
        self.slots()[self.root_index()].payload.is_expanded
    }

    /// Whether `first` is a fresh game of the game that the arena searches.
    pub closed spec fn starts_with(&self, first: G) -> bool {
        self.game.begins(first)
    }

    /// Whether `other` plays the same game from the same start with the same
    /// best game so far.
    pub closed spec fn same_games(&self, other: &Self) -> bool {
        &&& self.game == other.game
        &&& self.best_game == other.best_game
        &&& self.heuristic == other.heuristic
    }

    /// Whether `other` differs from this arena in its tree at most.
    pub closed spec fn same_setup(&self, other: &Self) -> bool {
        &&& self.root == other.root
        &&& self.num_rollouts == other.num_rollouts
        &&& self.best_game == other.best_game
        &&& self.best_score == other.best_score
        &&& self.game == other.game
        &&& self.heuristic == other.heuristic
        &&& arena_len(self.arena) == arena_len(other.arena)
    }

    /// An arena for `game` with the root as its only node and no playout yet;
    /// the root is marked where the game is over before its first action.
    pub fn new(game: G, heuristic: H) -> (made: Self)
        requires
            game.valid(),
        ensures
            made.ready(),
            made.best_score() is None,
            made.rollouts() == 50,
            made.slot_count() == 1,
            made.slots().dom() =~= set![made.root_index()],
            made.slots().dom().len() == 1,
            made.slots()[made.root_index()].payload == (MctsNode {
                terminally_searched: game.opening().len() == 0,
                ..fresh_node(0)
            }),
            made.root_searched() == (game.opening().len() == 0),
    {
        let mut arena = arena_new();
        let best_game = game.start();
        let over = best_game.is_terminal();
        let payload = MctsNode { terminally_searched: over, ..MctsNode::fresh(0) };
        let root = arena_new_node(&mut arena, payload);
        let made = Self {
            arena,
            root,
            num_rollouts: 50,
            best_game,
            best_score: None,
            game,
            heuristic,
            height: Ghost(0),
        };
        proof {
            lemma_single_root(made.slots(), root, payload);
        }
        made
    }

    /// Walks from the root to a node without children, at each node to the
    /// first child of the highest priority, replaying the actions on a fresh
    /// game; marks the node where the game is over there.
    fn select(&mut self) -> (r: (usize, G))
        requires
            old(self).ready(),
        ensures
            final(self).ready(),
            final(self).same_setup(old(self)),
            final(self).depth_bound() == old(self).depth_bound(),
            final(self).slots().dom() == old(self).slots().dom(),
            final(self).slots().dom().contains(r.0),
            final(self).slots()[r.0].children.len() == 0,
            old(self).slots()[old(self).root_index()].children.len() == 0 ==> r.0 == old(
                self,
            ).root_index(),
            r.1.valid(),
            exists|first: G| #[trigger]
                old(self).starts_with(first) && replayed(
                    first,
                    path_actions(final(self).slots(), r.0),
                    r.1,
                ),
            final(self).slots() == (if r.1.legal().len() == 0 {
                old(self).slots().insert(
                    r.0,
                    Slot {
                        payload: MctsNode {
                            terminally_searched: true,
                            ..old(self).slots()[r.0].payload
                        },
                        ..old(self).slots()[r.0]
                    },
                )
            } else {
                old(self).slots()
            }),
    {
        let mut node_id = self.root;
        let mut game = self.game.start();
        let ghost first = game;
        proof {
            lemma_node_facts(self.slots(), self.root, self.height@, self.root);
        }
        let mut at_leaf = false;
        while !at_leaf
            invariant
                self.ready(),
                *self == *old(self),
                self.game.begins(first),
                replayed(first, path_actions(self.slots(), node_id), game),
                node_id == self.root ==> game.legal() == self.game.opening(),
                node_id == self.root || self.slots()[node_id].depth
                    > self.slots()[self.root].depth,
                self.slots()[self.root].children.len() == 0 ==> node_id == self.root,
                self.slots().dom().contains(node_id),
                game.valid(),
                at_leaf ==> self.slots()[node_id].children.len() == 0,
            decreases
                    (if at_leaf {
                        0
                    } else {
                        self.height@ - self.slots()[node_id].depth + 1
                    }),
        {
            proof {
                lemma_node_facts(self.slots(), self.root, self.height@, node_id);
            }
            let node = arena_read(&self.arena, node_id);
            let kids = arena_children(&self.arena, node_id);
            if !node.is_expanded || kids.len() == 0 {
                at_leaf = true;
            } else {
                let mut priorities: Vec<Priority> = Vec::new();
                let mut i: usize = 0;
                while i < kids.len()
                    invariant
                        i <= kids.len(),
                        priorities@.len() == i,
                        self.ready(),
                        *self == *old(self),
                        self.slots().dom().contains(node_id),
                        kids@ == self.slots()[node_id].children,
                    decreases kids.len() - i,
                {
                    proof {
                        lemma_child_facts(
                            self.slots(),
                            self.root,
                            self.height@,
                            node_id,
                            i as int,
                        );
                    }
                    let child = arena_read(&self.arena, kids[i]);
                    priorities.push(self.heuristic.heuristic(&child, &node));
                    i = i + 1;
                }
                let next = first_best(&priorities);
                proof {
                    lemma_child_facts(self.slots(), self.root, self.height@, node_id, next as int);
                }
                let entered = arena_read(&self.arena, kids[next]);
                let ghost way = path_actions(self.slots(), node_id);
                let ghost before = game;
                node_id = kids[next];
                let _ = game.act(entered.action);
                proof {
                    let longer = path_actions(self.slots(), node_id);
                    assert(longer == way.push(entered.action));
                    assert(longer.drop_last() =~= way);
                    assert(acted(before, longer.last(), game));
                    assert(longer.len() > 0);
                    assert(replayed(first, longer.drop_last(), before) && acted(
                        before,
                        longer.last(),
                        game,
                    ));
                    assert(replayed(first, longer, game));
                }
            }
        }
        let node = arena_read(&self.arena, node_id);
        if !node.terminally_searched && game.is_terminal() {
            let marked = MctsNode { terminally_searched: true, ..node };
            proof {
                lemma_write_keeps_tree(self.slots(), self.root, self.height@, node_id, marked);
                let written = self.slots().insert(
                    node_id,
                    Slot { payload: marked, ..self.slots()[node_id] },
                );
                assert(written.dom() =~= self.slots().dom());
                lemma_path_actions_stable(self.slots(), written, node_id);
            }
            arena_write(&mut self.arena, node_id, marked);
        } else {
            proof {
                if game.legal().len() == 0 {
                    assert(self.slots().insert(node_id, self.slots()[node_id]) =~= self.slots());
                }
            }
        }
        proof {
            assert(old(self).starts_with(first) && replayed(
                first,
                path_actions(self.slots(), node_id),
                game,
            ));
        }
        (node_id, game)
    }

    /// Makes one child of `parent` for each legal action, in their order, and
    /// enters one of them at random; does nothing where the game is over or
    /// the children were made before.
    fn expand(&mut self, parent: usize, game: G) -> (r: (usize, G))
        requires
            old(self).ready(),
            old(self).slots().dom().contains(parent),
            game.valid(),
        ensures
            final(self).ready(),
            final(self).slots().dom().contains(r.0),
            r.1.valid(),
            final(self).root_index() == old(self).root_index(),
            final(self).best_score() == old(self).best_score(),
            final(self).rollouts() == old(self).rollouts(),
            old(self).slots().dom().subset_of(final(self).slots().dom()),
            old(self).slot_count() <= final(self).slot_count(),
            final(self).same_games(old(self)),
            grown_at(old(self).slots(), final(self).slots(), parent),
            forall|x: usize| #[trigger]
                old(self).slots().dom().contains(x) ==> final(self).slots()[x].payload == (if x
                    == parent && old(self).opens(parent, game) {
                    MctsNode { is_expanded: true, ..old(self).slots()[x].payload }
                } else {
                    old(self).slots()[x].payload
                }),
            old(self).opens(parent, game) ==> children_match(
                final(self).slots(),
                parent,
                game.legal(),
            ) && final(self).slots()[parent].children.contains(r.0),
            final(self).slots().dom().len() == old(self).slots().dom().len() + (if old(
                self,
            ).opens(parent, game) {
                game.legal().len()
            } else {
                0
            }),
            old(self).opens(parent, game) ==> game.leads(
                final(self).slots()[r.0].payload.action,
                r.1,
            ),
            !old(self).opens(parent, game) ==> r.0 == parent && r.1 == game
                && final(self).slots() == old(self).slots(),
    {
        let mut game = game;
        let node = arena_read(&self.arena, parent);
        let actions = game.get_actions();
        let count = arena_count(&self.arena);
        if actions.len() > usize::MAX - count {
            return (parent, game);
        }
        if game.is_terminal() || node.is_expanded || node.terminally_searched {
            return (parent, game);
        }
        let marked = MctsNode { is_expanded: true, ..node };
        proof {
            lemma_node_facts(self.slots(), self.root, self.height@, parent);
            lemma_write_keeps_tree(self.slots(), self.root, self.height@, parent, marked);
            assert(self.slots().insert(
                parent,
                Slot { payload: marked, ..self.slots()[parent] },
            ).dom() =~= self.slots().dom());
        }
        arena_write(&mut self.arena, parent, marked);
        proof {
            let level = self.slots()[parent].depth + 1;
            if level > self.height@ {
                lemma_taller(self.slots(), self.root, self.height@, level);
                self.height = Ghost(level);
            }
        }
        let chosen = random_below(actions.len());
        let mut selected = parent;
        let mut index: usize = 0;
        while index < actions.len()
            invariant
                index <= actions.len(),
                chosen < actions.len(),
                old(self).slots().dom().subset_of(self.slots().dom()),
                old(self).slot_count() <= arena_len(self.arena),
                old(self).slots().dom().contains(parent),
                self.same_games(old(self)),
                grown_at(old(self).slots(), self.slots(), parent),
                forall|x: usize| #[trigger]
                    old(self).slots().dom().contains(x) ==> self.slots()[x].payload == (if x
                        == parent {
                        marked
                    } else {
                        old(self).slots()[x].payload
                    }),
                marked == (MctsNode { is_expanded: true, ..old(self).slots()[parent].payload }),
                actions@.len() + old(self).slot_count() <= usize::MAX,
                children_match(self.slots(), parent, actions@.subrange(0, index as int)),
                self.slots().dom().len() == old(self).slots().dom().len() + index,
                index > chosen ==> self.slots()[parent].children[chosen as int] == selected,
                actions.len() <= usize::MAX - count,
                arena_len(self.arena) <= count + index,
                self.ready(),
                self.slots().dom().contains(parent),
                self.slots().dom().contains(selected),
                self.slots()[parent].payload == marked,
                marked.is_expanded,
                !marked.terminally_searched,
                self.slots()[parent].depth < self.height@,
                self.root == old(self).root,
                self.best_score == old(self).best_score,
                self.num_rollouts == old(self).num_rollouts,
            decreases actions.len() - index,
        {
            let child = MctsNode::fresh(actions[index]);
            let ghost before = self.slots();
            proof {
                lemma_append_keeps_tree_any(before, self.root, self.height@, parent, child);
            }
            let id = arena_append(&mut self.arena, parent, child);
            proof {
                let after = self.slots();
                let done = actions@.subrange(0, index as int);
                let more = actions@.subrange(0, index as int + 1);
                assert forall|k: int| 0 <= k < more.len() implies #[trigger] child_matches(
                    after,
                    parent,
                    more,
                    k,
                ) by {
                    assert(after[parent].children == before[parent].children.push(id));
                    if k < index {
                        let c = before[parent].children[k];
                        lemma_child_facts(before, self.root, self.height@, parent, k);
                        assert(child_matches(before, parent, done, k));
                        assert(after[parent].children[k] == c);
                        assert(c != id && c != parent);
                        assert(after[c] == before[c]);
                    } else {
                        assert(after[parent].children[k] == id);
                        assert(more[k] == actions@[index as int]);
                    }
                }
                assert(after[parent].children.len() == more.len());
            }
            if index == chosen {
                selected = id;
            }
            index = index + 1;
        }
        proof {
            assert(actions@.subrange(0, actions@.len() as int) =~= actions@);
            assert(child_matches(self.slots(), parent, actions@, chosen as int));
            assert(game.legal()[chosen as int] == actions@[chosen as int]);
        }
        let _ = game.act(actions[chosen]);
        (selected, game)
    }

    /// Credits the round to `selected` and to each of its ancestors.
    fn backpropagate(&mut self, selected: usize, best: u64, sum: u64)
        requires
            old(self).ready(),
            old(self).slots().dom().contains(selected),
        ensures
            final(self).ready(),
            final(self).same_setup(old(self)),
            credited_along(
                old(self).slots(),
                final(self).slots(),
                selected,
                best,
                sum,
                old(self).rollouts() as u64,
            ),
    {
        let mut node_id = selected;
        let mut climbing = true;
        let rounds = self.num_rollouts as u64;
        let ghost start = self.slots();
        while climbing
            invariant
                self.ready(),
                self.same_setup(old(self)),
                start == old(self).slots(),
                rounds == old(self).num_rollouts as u64,
                self.slots().dom() == start.dom(),
                self.slots().dom().contains(node_id),
                climbing ==> on_path(start, selected, node_id),
                forall|x: usize| #[trigger]
                    start.dom().contains(x) ==> self.slots()[x] == (if on_path(start, selected, x)
                        && !(climbing && on_path(start, node_id, x)) {
                        Slot { payload: credit(start[x].payload, best, sum, rounds), ..start[x] }
                    } else {
                        start[x]
                    }),
            decreases
                    (if climbing {
                        self.slots()[node_id].depth + 1
                    } else {
                        0
                    }),
        {
            let node = arena_read(&self.arena, node_id);
            let credited = node.credited(best, sum, rounds);
            let ghost before = self.slots();
            proof {
                lemma_node_facts(before, self.root, self.height@, node_id);
                lemma_write_keeps_tree(before, self.root, self.height@, node_id, credited);
                assert(before.insert(node_id, Slot { payload: credited, ..before[node_id] }).dom()
                    =~= before.dom());
                assert(before[node_id] == start[node_id]);
            }
            arena_write(&mut self.arena, node_id, credited);
            match arena_parent(&self.arena, node_id) {
                Some(next) => {
                    proof {
                        assert forall|x: usize| #[trigger] start.dom().contains(x) implies (
                        on_path(start, node_id, x) <==> x == node_id || on_path(start, next, x)) by {}
                        assert(on_path(start, selected, next)) by {
                            lemma_path_grows(start, selected, node_id);
                        }
                        assert(!on_path(start, next, node_id)) by {
                            lemma_path_climbs(start, next, node_id);
                        }
                    }
                    node_id = next;
                },
                None => {
                    climbing = false;
                },
            }
        }
    }

    /// Whether everything below `node_id` has been searched; on the way,
    /// takes out each child below which everything has.
    fn terminate_leaves(&mut self, node_id: usize) -> (done: bool)
        requires
            old(self).ready(),
            old(self).slots().dom().contains(node_id),
        ensures
            final(self).ready(),
            final(self).same_setup(old(self)),
            final(self).depth_bound() == old(self).depth_bound(),
            pruned_below(old(self).slots(), final(self).slots(), node_id),
            swept(old(self).slots(), final(self).slots(), node_id),
            done == settled(final(self).slots()[node_id]),
            done ==> final(self).slots()[node_id].children.len() == 0,
            old(self).slots()[node_id].payload.terminally_searched
                || !old(self).slots()[node_id].payload.is_expanded ==> final(self).slots()
                == old(self).slots(),
        decreases old(self).depth_bound() - old(self).slots()[node_id].depth,
    {
        proof {
            lemma_node_facts(self.slots(), self.root, self.height@, node_id);
            if self.slots()[node_id].children.len() == 0 {
                lemma_leaf_is_swept(self.slots(), self.root, self.height@, node_id);
            }
        }
        let node = arena_read(&self.arena, node_id);
        if node.terminally_searched {
            true
        } else if node.is_expanded {
            let ghost start = self.slots();
            proof {
                lemma_sweep_starts(start, node_id);
            }
            let ghost mut kept: Seq<usize> = Seq::empty();
            let kids = arena_children(&self.arena, node_id);
            let mut terminated = true;
            let mut k: usize = 0;
            while k < kids.len()
                invariant
                    k <= kids.len(),
                    self.ready(),
                    self.same_setup(old(self)),
                    self.height@ == old(self).height@,
                    start == old(self).slots(),
                    start.dom().contains(node_id),
                    kids@ == start[node_id].children,
                    self.slots().dom().contains(node_id),
                    self.slots()[node_id].children == kept + kids@.subrange(
                        k as int,
                        kids@.len() as int,
                    ),
                    terminated == (kept.len() == 0),
                    pruned_below(start, self.slots(), node_id),
                    tree_wf(start, self.root, self.height@),
                    partly_swept(start, self.slots(), node_id, kids@, k as int),
                decreases kids.len() - k,
            {
                let child = kids[k];
                let ghost before = self.slots();
                proof {
                    assert(before[node_id].children[kept.len() as int] == child);
                    lemma_child_facts(
                        before,
                        self.root,
                        self.height@,
                        node_id,
                        kept.len() as int,
                    );
                }
                let searched = self.terminate_leaves(child);
                let ghost middle = self.slots();
                proof {
                    lemma_pruned_deeper(start, before, middle, node_id, child);
                }
                if searched {
                    arena_remove(&mut self.arena, child);
                    proof {
                        lemma_remove_keeps_tree(
                            middle,
                            self.slots(),
                            self.root,
                            self.height@,
                            child,
                            kept.len() as int,
                        );
                        lemma_pruned_removed(start, middle, self.slots(), node_id, child);
                        assert(self.slots()[node_id].children == without(
                            middle[node_id].children,
                            kept.len() as int,
                        ));
                        assert(without(middle[node_id].children, kept.len() as int) =~= kept
                            + kids@.subrange(k as int + 1, kids@.len() as int));
                    }
                } else {
                    terminated = false;
                    proof {
                        assert(kept.push(child) + kids@.subrange(k as int + 1, kids@.len() as int)
                            =~= kept + kids@.subrange(k as int, kids@.len() as int));
                        kept = kept.push(child);
                    }
                }
                proof {
                    lemma_sweep_step(
                        start,
                        before,
                        middle,
                        self.slots(),
                        self.root,
                        self.height@,
                        node_id,
                        k as int,
                        searched,
                    );
                }
                k = k + 1;
            }
            proof {
                lemma_sweep_ends(start, self.slots(), self.root, self.height@, node_id);
            }
            terminated
        } else {
            false
        }
    }

    /// Takes out the children below which everything has been searched, and
    /// says whether that is the whole tree: whether the best score found is
    /// the best there is.
    pub fn prune(&mut self) -> (done: bool)
        requires
            old(self).ready(),
        ensures
            final(self).ready(),
            final(self).root_index() == old(self).root_index(),
            final(self).rollouts() == old(self).rollouts(),
            final(self).best_score() == old(self).best_score(),
            final(self).slot_count() == old(self).slot_count(),
            swept(old(self).slots(), final(self).slots(), old(self).root_index()),
            done == settled(final(self).slots()[final(self).root_index()]),
            forall|x: usize| #[trigger]
                final(self).slots().dom().contains(x) && x != final(self).root_index() ==> !settled(
                    final(self).slots()[x],
                ),
            done ==> final(self).slots().dom() =~= set![final(self).root_index()],
            done ==> final(self).slots().dom().len() == 1,
            final(self).root_searched() == old(self).root_searched(),
            old(self).root_searched() || !old(self).root_expanded() ==> final(self).slots()
                == old(self).slots(),
    {
        let ghost start = self.slots();
        let done = self.terminate_leaves(self.root);
        proof {
            assert forall|x: usize| #[trigger]
                self.slots().dom().contains(x) && x != self.root implies !settled(
                self.slots()[x],
            ) by {
                lemma_root_on_path(start, self.root, self.height@, x);
            }
            if done {
                assert forall|x: usize| self.slots().dom().contains(x) implies x == self.root by {
                    lemma_bare_root_alone(self.slots(), self.root, self.height@, x);
                }
                assert(self.slots().dom() =~= Set::<usize>::empty().insert(self.root));
            }
        }
        done
    }

    /// The root's node: what the rounds so far have credited to the tree.
    pub fn root(&self) -> (r: MctsNode)
        requires
            self.ready(),
        ensures
            r == self.slots()[self.root_index()].payload,
    {
        arena_read(&self.arena, self.root)
    }

    /// The number of nodes in the tree, the root among them.
    pub fn tree_size(&self) -> (r: usize)
        ensures
            r == self.slots().dom().len(),
    {
        arena_live(&self.arena)
    }

    /// A copy of the best finished game seen, or of a fresh game before the
    /// first playout.
    pub fn best_game(&self) -> (r: G)
        requires
            self.ready(),
        ensures
            r.valid(),
            self.best_score() matches Some(score) ==> r.legal().len() == 0 && r.value() == score,
    {
        self.best_game.duplicate()
    }
}

/// A new last child with a fresh payload keeps the tree.
proof fn lemma_append_keeps_tree_any(
    slots: Map<usize, Slot>,
    root: usize,
    height: nat,
    parent: usize,
    payload: MctsNode,
)
    requires
        tree_wf(slots, root, height),
        slots.dom().contains(parent),
        slots[parent].payload.is_expanded,
        !slots[parent].payload.terminally_searched,
        slots[parent].depth < height,
    ensures
        forall|child: usize|
            !slots.dom().contains(child) ==> tree_wf(
                #[trigger] crate::arena::appended(slots, parent, child, payload),
                root,
                height,
            ),
{
    assert forall|child: usize| !slots.dom().contains(child) implies tree_wf(
        #[trigger] crate::arena::appended(slots, parent, child, payload),
        root,
        height,
    ) by {
        lemma_append_keeps_tree(slots, root, height, parent, child, payload);
    }
}

impl<G: Game, H: Heuristic> GameArena<G> for MctsArena<G, H> {
    /// Each round plays at least once, the games are valid, the best game is
    /// over and has the best score once there is one, the live nodes form
    /// one tree under the root, and the root is marked exactly where the
    /// game is over before its first action.
    closed spec fn ready(&self) -> bool {
        &&& self.num_rollouts > 0
        &&& self.game.valid()
        &&& self.best_game.valid()
        &&& (self.best_score matches Some(score) ==> self.best_game.legal().len() == 0
            && self.best_game.value() == score)
        &&& tree_wf(arena_slots(self.arena), self.root, self.height@)
        &&& arena_slots(self.arena)[self.root].payload.terminally_searched == (
        self.game.opening().len() == 0)
    }

    closed spec fn best_score(&self) -> Option<u64> {
        self.best_score
    }

    /// One round: select a node, expand it, play the fixed number of random
    /// playouts from the child entered, keep the best finished game, and
    /// credit the round along the path back to the root.
    fn play_round(&mut self)
        ensures
            final(self).best_score() is Some,
            final(self).root_index() == old(self).root_index(),
            final(self).rollouts() == old(self).rollouts(),
            old(self).slots().dom().subset_of(final(self).slots().dom()),
            old(self).slot_count() <= final(self).slot_count(),
            final(self).root_searched() == old(self).root_searched(),
            old(self).root_searched() ==> final(self).slots().dom() == old(self).slots().dom(),
            final(self).slots().dom().len() >= old(self).slots().dom().len(),
            exists|n: usize| #[trigger] grown_at(old(self).slots(), final(self).slots(), n),
            final(self).slots()[final(self).root_index()].payload.num_simulations == capped_sum(
                old(self).slots()[old(self).root_index()].payload.num_simulations,
                old(self).rollouts() as u64,
            ),
            final(self).slots()[final(self).root_index()].payload.best_rollout >= old(
                self,
            ).slots()[old(self).root_index()].payload.best_rollout,
    {
        let ghost start = self.slots();
        let (node, game) = self.select();
        let ghost selected = self.slots();
        let (entered, game) = self.expand(node, game);
        let ghost expanded = self.slots();
        let ghost expanded_height = self.height@;
        proof {
            lemma_node_facts(start, self.root, old(self).height@, self.root);
            assert(grown_at(start, expanded, node));
            assert(start.dom().contains(self.root));
            assert(selected.dom().contains(self.root));
            assert(expanded[self.root].payload.num_simulations
                == start[self.root].payload.num_simulations);
            assert(expanded[self.root].payload.best_rollout
                == start[self.root].payload.best_rollout);
            lemma_root_on_path(expanded, self.root, self.height@, entered);
        }
        let mut best: u64 = 0;
        let mut sum: u64 = 0;
        let mut i: usize = 0;
        let ghost entry = self.best_score;
        while i < self.num_rollouts
            invariant
                self.ready(),
                game.valid(),
                self.slots().dom().contains(entered),
                self.root == old(self).root,
                self.num_rollouts == old(self).num_rollouts,
                self.game == old(self).game,
                self.height@ == expanded_height,
                self.slots() == expanded,
                old(self).slots().dom().subset_of(self.slots().dom()),
                old(self).slot_count() <= self.slot_count(),
                no_worse(entry, self.best_score),
                i > 0 ==> self.best_score is Some,
            decreases self.num_rollouts - i,
        {
            let mut g = game.duplicate();
            let val = rollout(&mut g);
            if val > best {
                best = val;
            }
            if improves(self.best_score, val) {
                self.best_game = g;
                self.best_score = Some(val);
            }
            sum = sum.saturating_add(val);
            i = i + 1;
        }
        self.heuristic.update_heuristic(sum, best, self.num_rollouts);
        self.backpropagate(entered, best, sum);
        proof {
            assert(grown_at(start, self.slots(), node));
        }
    }

    fn best(&self) -> (r: Option<u64>) {
        self.best_score
    }
}

} // verus!
