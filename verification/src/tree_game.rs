//! The game of building a graph edge by edge, scored by its spanning trees.

use crate::game::Game;
use crate::graph::{
    edge_pairs, edgeless, edges_below, is_free, is_lowest_free, lemma_edges_gain,
    neighbours_below, touched_below, Graph,
};
use vstd::prelude::*;

verus! {

/// The action that passes over the candidate edge.
pub const SKIP: u64 = 0;

/// The action that adds the candidate edge to the graph.
pub const TAKE: u64 = 1;

/// The number of pairs `(i, j)` with `j < i < k`.
pub open spec fn pairs_below(k: int) -> nat
    decreases k,
{
    if k <= 0 {
        0
    } else {
        pairs_below(k - 1) + (k - 1) as nat
    }
}

/// Twice the number of pairs below `k` is `k * (k - 1)`.
proof fn lemma_pairs_closed_form(k: int)
    requires
        0 <= k,
    ensures
        2 * pairs_below(k) == k * (k - 1),
    decreases k,
{
    if k > 0 {
        lemma_pairs_closed_form(k - 1);
        let h = k - 1;
        assert(2 * pairs_below(h) == h * (h - 1));
        assert(h * (h - 1) + 2 * h == (h + 1) * h) by (nonlinear_arith);
        assert(pairs_below(k) == pairs_below(h) + h);
    } else {
        assert(k * (k - 1) == 0) by (nonlinear_arith)
            requires
                k == 0,
        ;
    }
}

/// More rows hold at least as many pairs.
proof fn lemma_pairs_monotone(a: int, b: int)
    requires
        a <= b,
    ensures
        pairs_below(a) <= pairs_below(b),
    decreases b - a,
{
    if a < b {
        lemma_pairs_monotone(a, b - 1);
    }
}

/// The candidate edge after `(i, j)`: the next column of the row, or the
/// start of the next row.
pub open spec fn next_pair(pair: (usize, usize)) -> (int, int) {
    if pair.1 + 1 >= pair.0 {
        (pair.0 + 1, 0)
    } else {
        (pair.0 as int, pair.1 + 1)
    }
}

/// A graph under construction: candidate edges `(i, j)`, `i > j`, come up row
/// by row, and each is taken or skipped until the edge budget or the
/// candidates run out.
pub struct TreeGame<G: Graph> {
    /// The edge budget.
    pub max_edges: usize,
    /// The number of vertices.
    pub num_vertices: usize,
    /// The number of candidates decided so far.
    pub num_actions: usize,
    /// The number of candidates in all.
    pub max_actions: usize,
    /// The number of candidates taken so far.
    pub num_edges_added: usize,
    /// The graph built so far.
    pub graph: G,
    /// The candidate to decide next, higher end first.
    pub current_edge: (usize, usize),
}

impl<G: Graph> TreeGame<G> {
    /// Whether the game is over: the budget is spent or no candidate is left.
    pub open spec fn finished(&self) -> bool {
        self.num_edges_added >= self.max_edges || self.num_actions >= self.max_actions
    }

    /// Whether `v` has no edge yet.
    pub open spec fn untouched(&self, v: int) -> bool {
        neighbours_below(self.graph.relation(), v, self.num_vertices as int) == 0
    }

    /// Whether `v` is the lowest vertex without an edge.
    pub open spec fn lowest_untouched(&self, v: usize) -> bool {
        is_lowest_free(self.graph.relation(), self.num_vertices as int, Some(v))
    }

    /// Whether this is a game as `new` makes it: nothing decided, no edge.
    pub open spec fn fresh(&self) -> bool {
        &&& self.num_actions == 0
        &&& self.num_edges_added == 0
        &&& self.current_edge == (1usize, 0usize)
        &&& self.graph.relation() == edgeless()
    }

    /// Whether `other` has the configuration of this game.
    pub open spec fn same_configuration(&self, other: &Self) -> bool {
        &&& self.max_edges == other.max_edges
        &&& self.num_vertices == other.num_vertices
        &&& self.max_actions == other.max_actions
    }

    /// A game on `n` vertices with a budget of `m` edges, nothing decided yet.
    pub fn new(m: usize, n: usize) -> (game: Self)
        requires
            n * n <= usize::MAX,
        ensures
            game.valid(),
            game.fresh(),
            game.max_edges == m,
            game.num_vertices == n,
            game.max_actions == pairs_below(n as int),
    {
        let max_actions = Self::count_pairs(n);
        let graph = G::empty(n);
        proof {
            crate::graph::lemma_no_edges(graph.relation(), n as int, n as int);
            assert(pairs_below(1) == 0) by {
                assert(pairs_below(0) == 0);
            }
        }
        Self {
            max_edges: m,
            num_vertices: n,
            num_actions: 0,
            max_actions,
            num_edges_added: 0,
            graph,
            current_edge: (1, 0),
        }
    }

    /// The number of candidate edges on `n` vertices.
    fn count_pairs(n: usize) -> (r: usize)
        requires
            n * n <= usize::MAX,
        ensures
            r == pairs_below(n as int),
    {
        proof {
            lemma_pairs_closed_form(n as int);
        }
        if n == 0 {
            0
        } else {
            assert(n * (n - 1) <= n * n) by (nonlinear_arith)
                requires
                    n >= 1,
            ;
            n * (n - 1) / 2
        }
    }

    /// The edges of the graph built so far, for printing: pairs `(i, j)` with
    /// `i > j`, by rising `i`, then rising `j`.
    pub fn print_graph(&self) -> (r: Vec<(usize, usize)>)
        requires
            self.valid(),
        ensures
            r@ == edge_pairs(self.graph.relation(), self.num_vertices as int),
    {
        self.graph.edge_list()
    }
}

impl<G: Graph> Game for TreeGame<G> {
    /// The graph has the game's vertices and as many edges as were taken, all
    /// among the candidates already decided; the cursor stands on the
    /// candidate whose number is the count of decisions.
    open spec fn valid(&self) -> bool {
        &&& self.graph.valid()
        &&& self.graph.vertices() == self.num_vertices
        &&& self.num_vertices * self.num_vertices <= usize::MAX
        &&& self.max_actions == pairs_below(self.num_vertices as int)
        &&& self.current_edge.1 < self.current_edge.0
        &&& self.num_actions == pairs_below(self.current_edge.0 as int) + self.current_edge.1
        &&& self.num_actions <= self.max_actions
        &&& self.num_edges_added <= self.num_actions
        &&& self.num_edges_added == edges_below(self.graph.relation(), self.num_vertices as int)
        &&& forall|a: int, b: int|
            self.graph.relation().contains((a, b)) ==> self.graph.relation().contains((b, a)) && a
                != b && 0 <= a < self.num_vertices && (b < a ==> (a < self.current_edge.0 || (a
                == self.current_edge.0 && b < self.current_edge.1)))
    }

    /// Nothing once the game is over; only `TAKE` for the first edge; only
    /// `SKIP` where the candidate would bring in an untouched vertex that is
    /// not the lowest one, unless both its ends are untouched; else both.
    open spec fn legal(&self) -> Seq<u64> {
        if self.finished() {
            Seq::empty()
        } else if self.num_edges_added == 0 {
            seq![TAKE]
        } else if self.untouched(self.current_edge.0 as int) && self.untouched(
            self.current_edge.1 as int,
        ) {
            seq![SKIP, TAKE]
        } else if self.untouched(self.current_edge.0 as int) {
            if self.lowest_untouched(self.current_edge.0) {
                seq![SKIP, TAKE]
            } else {
                seq![SKIP]
            }
        } else if self.untouched(self.current_edge.1 as int) {
            if self.lowest_untouched(self.current_edge.1) {
                seq![SKIP, TAKE]
            } else {
                seq![SKIP]
            }
        } else {
            seq![SKIP, TAKE]
        }
    }

    /// The score is the spanning-tree count of the graph built so far.
    open spec fn value(&self) -> u64 {
        self.graph.tree_count() as u64
    }

    open spec fn begins(&self, first: Self) -> bool {
        first.valid() && first.fresh() && first.same_configuration(self)
    }

    /// The next state has one decision more and the cursor on the next
    /// candidate; the graph is as it was after `SKIP` and has the candidate
    /// as one edge more after `TAKE`.
    open spec fn leads(&self, action: u64, next: Self) -> bool {
        &&& next.valid()
        &&& next.same_configuration(self)
        &&& next.num_actions == self.num_actions + 1
        &&& next.current_edge.0 == next_pair(self.current_edge).0
        &&& next.current_edge.1 == next_pair(self.current_edge).1
        &&& (action == SKIP ==> next.num_edges_added == self.num_edges_added && next.graph
            == self.graph)
        &&& (action == TAKE ==> next.num_edges_added == self.num_edges_added + 1
            && next.graph.relation() == self.graph.relation().insert(
            (self.current_edge.0 as int, self.current_edge.1 as int),
        ).insert((self.current_edge.1 as int, self.current_edge.0 as int)))
    }

    /// A fresh game is over where there is no budget or no candidate; else
    /// its first edge is forced.
    open spec fn opening(&self) -> Seq<u64> {
        if self.max_edges == 0 || self.max_actions == 0 {
            Seq::empty()
        } else {
            seq![TAKE]
        }
    }

    open spec fn horizon(&self) -> nat {
        (self.max_actions - self.num_actions) as nat
    }

    fn get_actions(&self) -> (r: Vec<u64>)
        ensures
            forall|k: int| 0 <= k < r@.len() ==> r@[k] == SKIP || r@[k] == TAKE,
    {
        if self.num_edges_added >= self.max_edges || self.num_actions >= self.max_actions {
            return Vec::new();
        }
        if self.num_edges_added == 0 {
            return vec![TAKE];
        }
        proof {
            self.lemma_cursor_in_range();
        }
        let d1 = self.graph.degree(self.current_edge.0);
        let d2 = self.graph.degree(self.current_edge.1);
        if d1 == 0 && d2 == 0 {
            return vec![SKIP, TAKE];
        }
        if d1 == 0 {
            if self.is_lowest_free(self.current_edge.0) {
                vec![SKIP, TAKE]
            } else {
                vec![SKIP]
            }
        } else if d2 == 0 {
            if self.is_lowest_free(self.current_edge.1) {
                vec![SKIP, TAKE]
            } else {
                vec![SKIP]
            }
        } else {
            vec![SKIP, TAKE]
        }
    }

    fn is_terminal(&self) -> (r: bool)
        ensures
            r == self.finished(),
    {
        self.num_edges_added >= self.max_edges || self.num_actions >= self.max_actions
    }

    fn act(&mut self, action: u64) -> (ok: bool)
        ensures
            action != SKIP && action != TAKE ==> !ok,
            ok == ((old(self).legal().len() > 0 && old(self).legal()[0] == action) || (old(
                self,
            ).legal().len() > 1 && old(self).legal()[1] == action)),
            ok ==> final(self).same_configuration(old(self)),
            ok ==> final(self).num_actions == old(self).num_actions + 1,
            ok ==> final(self).current_edge.0 == next_pair(old(self).current_edge).0
                && final(self).current_edge.1 == next_pair(old(self).current_edge).1,
            ok && action == SKIP ==> final(self).num_edges_added == old(self).num_edges_added
                && final(self).graph == old(self).graph,
            ok && action == TAKE ==> final(self).num_edges_added == old(self).num_edges_added + 1
                && final(self).graph.relation() == old(self).graph.relation().insert(
                (old(self).current_edge.0 as int, old(self).current_edge.1 as int),
            ).insert((old(self).current_edge.1 as int, old(self).current_edge.0 as int)),
    {
        let actions = self.get_actions();
        let listed = (actions.len() > 0 && actions[0] == action) || (actions.len() > 1
            && actions[1] == action);
        proof {
            if self.legal().contains(action) {
                let k = choose|k: int| 0 <= k < self.legal().len() && self.legal()[k] == action;
                assert(k == 0 || k == 1);
            }
        }
        if !listed {
            return false;
        }
        let (i, j) = self.current_edge;
        proof {
            self.lemma_cursor_in_range();
            lemma_pairs_monotone(i as int + 1, self.num_vertices as int);
            assert(pairs_below(i as int + 1) == pairs_below(i as int) + i);
        }
        let ghost before = self.graph.relation();
        if action == TAKE {
            self.num_edges_added = self.num_edges_added + 1;
            self.graph.add_edge(i, j);
            proof {
                let after = self.graph.relation();
                lemma_edges_gain(before, after, i as int, j as int, self.num_vertices as int);
            }
        }
        if j + 1 >= i {
            self.current_edge = (i + 1, 0);
        } else {
            self.current_edge = (i, j + 1);
        }
        self.num_actions = self.num_actions + 1;
        true
    }

    /// The number of spanning trees of the graph built so far.
    fn get_score(&self) -> (r: u64)
        ensures
            self.fresh() ==> r == 0,
            touched_below(
                self.graph.relation(),
                self.num_vertices as int,
                self.num_vertices as int,
            ) == 0 ==> r == 0,
    {
        proof {
            if self.fresh() {
                crate::graph::lemma_no_edges(
                    self.graph.relation(),
                    self.num_vertices as int,
                    self.num_vertices as int,
                );
            }
        }
        self.graph.spanning_tree_count() as u64
    }

    fn start(&self) -> (r: Self)
        ensures
            r.fresh(),
            r.same_configuration(self),
    {
        let graph = G::empty(self.num_vertices);
        proof {
            crate::graph::lemma_no_edges(
                graph.relation(),
                self.num_vertices as int,
                self.num_vertices as int,
            );
            assert(pairs_below(1) == 0) by {
                assert(pairs_below(0) == 0);
            }
        }
        Self {
            max_edges: self.max_edges,
            num_vertices: self.num_vertices,
            num_edges_added: 0,
            num_actions: 0,
            max_actions: self.max_actions,
            graph,
            current_edge: (1, 0),
        }
    }

    fn duplicate(&self) -> (r: Self)
        ensures
            r.same_configuration(self),
            r.num_actions == self.num_actions,
            r.num_edges_added == self.num_edges_added,
            r.current_edge == self.current_edge,
            r.graph.relation() == self.graph.relation(),
    {
        Self {
            max_edges: self.max_edges,
            num_vertices: self.num_vertices,
            num_edges_added: self.num_edges_added,
            num_actions: self.num_actions,
            max_actions: self.max_actions,
            graph: self.graph.duplicate(),
            current_edge: self.current_edge,
        }
    }
}

impl<G: Graph> TreeGame<G> {
    /// While candidates are left, both ends of the cursor are vertices.
    pub proof fn lemma_cursor_in_range(&self)
        requires
            self.valid(),
            self.num_actions < self.max_actions,
        ensures
            self.current_edge.1 < self.current_edge.0 < self.num_vertices,
            !self.graph.relation().contains(
                (self.current_edge.0 as int, self.current_edge.1 as int),
            ),
    {
        if self.current_edge.0 >= self.num_vertices {
            lemma_pairs_monotone(self.num_vertices as int, self.current_edge.0 as int);
        }
    }

    /// Whether `v`, which has no edge, is the lowest vertex without one.
    fn is_lowest_free(&self, v: usize) -> (r: bool)
        requires
            self.valid(),
            v < self.num_vertices,
            self.untouched(v as int),
        ensures
            r == self.lowest_untouched(v),
    {
        match self.graph.lowest_free_vertex() {
            Some(u) => {
                proof {
                    assert(is_free(self.graph.relation(), self.num_vertices as int, u as int));
                    assert(is_free(self.graph.relation(), self.num_vertices as int, v as int));
                }
                u == v
            },
            None => {
                proof {
                    assert(is_free(self.graph.relation(), self.num_vertices as int, v as int));
                }
                false
            },
        }
    }

    /// In every state each legal action is `SKIP` or `TAKE`, and there are
    /// no more than these two.
    pub proof fn lemma_legal_binary(&self)
        ensures
            self.legal().len() <= 2,
            forall|k: int|
                0 <= k < self.legal().len() ==> self.legal()[k] == SKIP || self.legal()[k] == TAKE,
    {
    }

    /// Starting twice is starting once: a fresh game's fresh game differs from
    /// it in nothing that the game reads.
    pub proof fn lemma_start_idempotent(&self, once: &Self, twice: &Self)
        requires
            once.fresh() && once.same_configuration(self),
            twice.fresh() && twice.same_configuration(once),
        ensures
            twice.fresh() && twice.same_configuration(self),
            twice.max_edges == once.max_edges,
            twice.num_vertices == once.num_vertices,
            twice.max_actions == once.max_actions,
            twice.num_actions == once.num_actions,
            twice.num_edges_added == once.num_edges_added,
            twice.current_edge == once.current_edge,
            twice.graph.relation() == once.graph.relation(),
    {
    }
}

} // verus!
