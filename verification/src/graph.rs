//! The simple-graph interface and the counting functions its contracts use.

use vstd::prelude::*;

verus! {

/// A simple undirected graph on the vertices `0..vertices()`.
///
/// Isolated vertices carry no weight: `order` counts only the vertices that
/// an edge touches.
pub trait Graph: Sized {
    /// The representation invariant of the implementing type.
    spec fn valid(&self) -> bool;

    /// The number of vertices the graph was made with.
    spec fn vertices(&self) -> nat;

    /// The adjacency relation: whether an edge joins `i` and `j`.
    spec fn relation(&self) -> Set<(int, int)>;

    /// The number of spanning trees that `spanning_tree_count` reports.
    spec fn tree_count(&self) -> usize;

    /// The graph on `vertex_count` vertices without edges.
    fn empty(vertex_count: usize) -> (g: Self)
        requires
            vertex_count * vertex_count <= usize::MAX,
        ensures
            g.valid(),
            g.vertices() == vertex_count,
            g.relation() == edgeless(),
    ;

    /// The graph on `vertex_count` vertices in which every two distinct
    /// vertices are joined.
    fn complete(vertex_count: usize) -> (g: Self)
        requires
            vertex_count * vertex_count <= usize::MAX,
        ensures
            g.valid(),
            g.vertices() == vertex_count,
            forall|i: int, j: int|
                g.relation().contains((i, j)) == (0 <= i < vertex_count && 0 <= j < vertex_count
                    && i != j),
    ;

    /// Joins `i` and `j`, which must be distinct, in range and not yet joined.
    fn add_edge(&mut self, i: usize, j: usize)
        requires
            old(self).valid(),
            i != j,
            i < old(self).vertices(),
            j < old(self).vertices(),
            !old(self).relation().contains((i as int, j as int)),
        ensures
            final(self).valid(),
            final(self).vertices() == old(self).vertices(),
            final(self).relation() == old(self).relation().insert((i as int, j as int)).insert(
                (j as int, i as int),
            ),
    ;

    /// The number of vertices that at least one edge touches.
    fn order(&self) -> (r: usize)
        requires
            self.valid(),
        ensures
            r == touched_below(self.relation(), self.vertices() as int, self.vertices() as int),
            r <= self.vertices(),
    ;

    /// The number of edges.
    fn size(&self) -> (r: usize)
        requires
            self.valid(),
        ensures
            r == edges_below(self.relation(), self.vertices() as int),
    ;

    /// The number of spanning trees of the subgraph on the touched vertices.
    fn spanning_tree_count(&self) -> (r: usize)
        requires
            self.valid(),
        ensures
            r == self.tree_count(),
            touched_below(self.relation(), self.vertices() as int, self.vertices() as int) == 0
                ==> r == 0,
            self.relation() == edgeless() ==> r == 0,
    ;

    /// The number of edges at `vertex`.
    fn degree(&self, vertex: usize) -> (r: usize)
        requires
            self.valid(),
            vertex < self.vertices(),
        ensures
            r == neighbours_below(self.relation(), vertex as int, self.vertices() as int),
    ;

    /// The lowest vertex that no edge touches, if there is one.
    fn lowest_free_vertex(&self) -> (r: Option<usize>)
        requires
            self.valid(),
        ensures
            is_lowest_free(self.relation(), self.vertices() as int, r),
    ;

    /// The edges as pairs `(i, j)` with `i > j`, by rising `i`, then rising `j`.
    fn edge_list(&self) -> (r: Vec<(usize, usize)>)
        requires
            self.valid(),
        ensures
            r@ == edge_pairs(self.relation(), self.vertices() as int),
    ;

    /// An independent copy: the same vertices, edges and tree count.
    fn duplicate(&self) -> (r: Self)
        requires
            self.valid(),
        ensures
            r.valid(),
            r.vertices() == self.vertices(),
            r.relation() == self.relation(),
            r.tree_count() == self.tree_count(),
    ;
}

/// The relation of a graph without edges.
pub open spec fn edgeless() -> Set<(int, int)> {
    Set::empty()
}

/// The number of vertices below `k` that `adj` joins to `v`.
pub open spec fn neighbours_below(adj: Set<(int, int)>, v: int, k: int) -> nat
    decreases k,
{
    if k <= 0 {
        0
    } else {
        neighbours_below(adj, v, k - 1) + if adj.contains((v, k - 1)) {
            1nat
        } else {
            0nat
        }
    }
}

/// The number of edges of `adj` whose higher end lies below `k`.
pub open spec fn edges_below(adj: Set<(int, int)>, k: int) -> nat
    decreases k,
{
    if k <= 0 {
        0
    } else {
        edges_below(adj, k - 1) + neighbours_below(adj, k - 1, k - 1)
    }
}

/// The number of vertices below `k` that `adj` joins to some vertex below `n`.
pub open spec fn touched_below(adj: Set<(int, int)>, n: int, k: int) -> nat
    decreases k,
{
    if k <= 0 {
        0
    } else {
        touched_below(adj, n, k - 1) + if neighbours_below(adj, k - 1, n) > 0 {
            1nat
        } else {
            0nat
        }
    }
}

/// Whether `v` is one of the `n` vertices and `adj` joins it to none of them.
pub open spec fn is_free(adj: Set<(int, int)>, n: int, v: int) -> bool {
    0 <= v < n && neighbours_below(adj, v, n) == 0
}

/// Whether `r` is the lowest free vertex, or `None` where every vertex is joined.
pub open spec fn is_lowest_free(adj: Set<(int, int)>, n: int, r: Option<usize>) -> bool {
    match r {
        Some(v) => is_free(adj, n, v as int) && forall|u: int| 0 <= u < v ==> !is_free(adj, n, u),
        None => forall|u: int| 0 <= u < n ==> !is_free(adj, n, u),
    }
}

/// The lower ends, below `k`, of the edges at `i`, in rising order, each paired with `i`.
pub open spec fn row_pairs(adj: Set<(int, int)>, i: int, k: int) -> Seq<(usize, usize)>
    decreases k,
{
    if k <= 0 {
        Seq::empty()
    } else if adj.contains((i, k - 1)) {
        row_pairs(adj, i, k - 1).push((i as usize, (k - 1) as usize))
    } else {
        row_pairs(adj, i, k - 1)
    }
}

/// The edges whose higher end lies below `k`, by rising higher end, then rising lower end.
pub open spec fn edge_pairs(adj: Set<(int, int)>, k: int) -> Seq<(usize, usize)>
    decreases k,
{
    if k <= 0 {
        Seq::empty()
    } else {
        edge_pairs(adj, k - 1) + row_pairs(adj, k - 1, k - 1)
    }
}

/// The sum of the degrees of the vertices below `k`, in a graph on `n` vertices.
pub open spec fn degree_sum(adj: Set<(int, int)>, n: int, k: int) -> nat
    decreases k,
{
    if k <= 0 {
        0
    } else {
        degree_sum(adj, n, k - 1) + neighbours_below(adj, k - 1, n)
    }
}

/// A vertex has at most `k` neighbours below `k`.
pub(crate) proof fn lemma_neighbours_bound(adj: Set<(int, int)>, v: int, k: int)
    requires
        0 <= k,
    ensures
        neighbours_below(adj, v, k) <= k,
    decreases k,
{
    if k > 0 {
        lemma_neighbours_bound(adj, v, k - 1);
    }
}

/// A vertex that is not its own neighbour has fewer than `k` neighbours below `k`,
/// where it lies below `k` itself.
pub(crate) proof fn lemma_neighbours_strict(adj: Set<(int, int)>, v: int, k: int)
    requires
        0 <= v < k,
        !adj.contains((v, v)),
    ensures
        neighbours_below(adj, v, k) < k,
    decreases k,
{
    if k - 1 == v {
        lemma_neighbours_bound(adj, v, k - 1);
    } else {
        lemma_neighbours_strict(adj, v, k - 1);
    }
}

/// Two relations that agree on the row of `v` below `k` give `v` as many neighbours there.
pub(crate) proof fn lemma_neighbours_agree(
    a1: Set<(int, int)>,
    a2: Set<(int, int)>,
    v: int,
    k: int,
)
    requires
        forall|x: int| 0 <= x < k ==> a1.contains((v, x)) == a2.contains((v, x)),
    ensures
        neighbours_below(a1, v, k) == neighbours_below(a2, v, k),
    decreases k,
{
    if k > 0 {
        lemma_neighbours_agree(a1, a2, v, k - 1);
    }
}

/// One more neighbour below `k` is one more in the count.
pub(crate) proof fn lemma_neighbours_gain(
    a1: Set<(int, int)>,
    a2: Set<(int, int)>,
    v: int,
    c: int,
    k: int,
)
    requires
        0 <= c < k,
        !a1.contains((v, c)),
        a2.contains((v, c)),
        forall|x: int| 0 <= x < k && x != c ==> a1.contains((v, x)) == a2.contains((v, x)),
    ensures
        neighbours_below(a2, v, k) == neighbours_below(a1, v, k) + 1,
    decreases k,
{
    if k - 1 == c {
        lemma_neighbours_agree(a1, a2, v, k - 1);
    } else {
        lemma_neighbours_gain(a1, a2, v, c, k - 1);
    }
}

/// Two relations that agree below the diagonal, on the rows below `k`, have as many edges there.
pub(crate) proof fn lemma_edges_agree(
    a1: Set<(int, int)>,
    a2: Set<(int, int)>,
    k: int,
)
    requires
        forall|a: int, b: int| 0 <= b < a < k ==> a1.contains((a, b)) == a2.contains((a, b)),
    ensures
        edges_below(a1, k) == edges_below(a2, k),
    decreases k,
{
    if k > 0 {
        lemma_edges_agree(a1, a2, k - 1);
        lemma_neighbours_agree(a1, a2, k - 1, k - 1);
    }
}

/// Joining `hi` and `lo`, which were not joined, adds one edge.
pub(crate) proof fn lemma_edges_gain(
    a1: Set<(int, int)>,
    a2: Set<(int, int)>,
    hi: int,
    lo: int,
    k: int,
)
    requires
        0 <= lo < hi < k,
        !a1.contains((hi, lo)),
        a2.contains((hi, lo)),
        forall|a: int, b: int|
            0 <= b < a < k && !(a == hi && b == lo) ==> a1.contains((a, b)) == a2.contains((a, b)),
    ensures
        edges_below(a2, k) == edges_below(a1, k) + 1,
    decreases k,
{
    if k - 1 == hi {
        lemma_edges_agree(a1, a2, k - 1);
        lemma_neighbours_gain(a1, a2, hi, lo, hi);
    } else {
        lemma_edges_gain(a1, a2, hi, lo, k - 1);
        lemma_neighbours_agree(a1, a2, k - 1, k - 1);
    }
}

/// Where the degrees of `i` and `j` rise by one and no other degree changes,
/// the sum of the degrees below `k` rises by one for each of the two that lies below `k`.
pub(crate) proof fn lemma_degree_sum_gain(
    a1: Set<(int, int)>,
    a2: Set<(int, int)>,
    n: int,
    i: int,
    j: int,
    k: int,
)
    requires
        0 <= i,
        0 <= j,
        i != j,
        forall|v: int|
            0 <= v < k ==> #[trigger] neighbours_below(a2, v, n) == neighbours_below(a1, v, n) + (
            if v == i || v == j {
                1nat
            } else {
                0nat
            }),
    ensures
        degree_sum(a2, n, k) == degree_sum(a1, n, k) + (if i < k {
            1nat
        } else {
            0nat
        }) + (if j < k {
            1nat
        } else {
            0nat
        }),
    decreases k,
{
    if k > 0 {
        lemma_degree_sum_gain(a1, a2, n, i, j, k - 1);
    }
}

/// Without edges no vertex has a neighbour.
pub(crate) proof fn lemma_no_neighbours(adj: Set<(int, int)>, v: int, k: int)
    requires
        forall|a: int, b: int| !adj.contains((a, b)),
    ensures
        neighbours_below(adj, v, k) == 0,
        row_pairs(adj, v, k) == Seq::<(usize, usize)>::empty(),
    decreases k,
{
    if k > 0 {
        lemma_no_neighbours(adj, v, k - 1);
    }
}

/// Without edges every count is zero.
pub(crate) proof fn lemma_no_edges(adj: Set<(int, int)>, n: int, k: int)
    requires
        forall|a: int, b: int| !adj.contains((a, b)),
    ensures
        edges_below(adj, k) == 0,
        degree_sum(adj, n, k) == 0,
        touched_below(adj, n, k) == 0,
        edge_pairs(adj, k) == Seq::<(usize, usize)>::empty(),
    decreases k,
{
    if k > 0 {
        lemma_no_edges(adj, n, k - 1);
        lemma_no_neighbours(adj, k - 1, k - 1);
        lemma_no_neighbours(adj, k - 1, n);
    }
}

/// The relation after joining the pairs of `edges` one by one, from none.
pub open spec fn built(edges: Seq<(int, int)>) -> Set<(int, int)>
    decreases edges.len(),
{
    if edges.len() == 0 {
        Set::empty()
    } else {
        built(edges.drop_last()).insert((edges.last().0, edges.last().1)).insert(
            (edges.last().1, edges.last().0),
        )
    }
}

/// Whether the pairs of `edges` can be joined one by one on `n` vertices:
/// each has two distinct ends in range that no earlier pair has joined.
pub open spec fn insertable(n: int, edges: Seq<(int, int)>) -> bool
    decreases edges.len(),
{
    edges.len() > 0 ==> {
        &&& insertable(n, edges.drop_last())
        &&& 0 <= edges.last().0 < n
        &&& 0 <= edges.last().1 < n
        &&& edges.last().0 != edges.last().1
        &&& !built(edges.drop_last()).contains((edges.last().0, edges.last().1))
    }
}

/// The number of pairs of `edges` that have `v` as an end.
pub open spec fn incidences(edges: Seq<(int, int)>, v: int) -> nat
    decreases edges.len(),
{
    if edges.len() == 0 {
        0
    } else {
        incidences(edges.drop_last(), v) + if edges.last().0 == v || edges.last().1 == v {
            1nat
        } else {
            0nat
        }
    }
}

/// A built relation joins vertices in range only, none to itself, and both ways.
pub(crate) proof fn lemma_built_simple(n: int, edges: Seq<(int, int)>)
    requires
        insertable(n, edges),
    ensures
        forall|a: int, b: int| #[trigger]
            built(edges).contains((a, b)) ==> built(edges).contains((b, a)) && a != b && 0 <= a < n
                && 0 <= b < n,
    decreases edges.len(),
{
    if edges.len() > 0 {
        lemma_built_simple(n, edges.drop_last());
    }
}

/// After `k` insertions a graph has `k` edges, and each vertex has as many
/// neighbours as inserted edges meet it.
pub proof fn lemma_insertions_count(n: int, edges: Seq<(int, int)>, v: int)
    requires
        insertable(n, edges),
        0 <= v < n,
    ensures
        edges_below(built(edges), n) == edges.len(),
        neighbours_below(built(edges), v, n) == incidences(edges, v),
    decreases edges.len(),
{
    if edges.len() == 0 {
        lemma_no_edges(built(edges), n, n);
        lemma_no_neighbours(built(edges), v, n);
    } else {
        let before = built(edges.drop_last());
        let after = built(edges);
        let (i, j) = edges.last();
        lemma_insertions_count(n, edges.drop_last(), v);
        lemma_built_simple(n, edges.drop_last());
        assert(!before.contains((j, i)));
        if i > j {
            lemma_edges_gain(before, after, i, j, n);
        } else {
            lemma_edges_gain(before, after, j, i, n);
        }
        if v == i {
            lemma_neighbours_gain(before, after, v, j, n);
        } else if v == j {
            lemma_neighbours_gain(before, after, v, i, n);
        } else {
            lemma_neighbours_agree(before, after, v, n);
        }
    }
}

} // verus!
