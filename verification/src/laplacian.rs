//! A graph held as its Laplacian matrix: degrees on the diagonal, `-1` for
//! each edge off it.

use crate::graph::{
    degree_sum, edge_pairs, edgeless, edges_below, is_free, is_lowest_free, lemma_degree_sum_gain,
    lemma_edges_gain, lemma_neighbours_agree, lemma_neighbours_bound,
    lemma_neighbours_gain, lemma_neighbours_strict, lemma_no_edges, lemma_no_neighbours,
    neighbours_below, row_pairs, touched_below, Graph,
};
use std::marker::PhantomData;
use vstd::prelude::*;

verus! {

/// What the eigenvalues of a Laplacian say, in whole numbers.
pub struct Spectrum {
    /// How many eigenvalues are zero within the tolerance.
    pub near_zero: usize,
    /// The product of the other eigenvalues, divided by the graph's order and rounded.
    pub quotient: usize,
}

/// A simple graph as a square matrix, stored row by row.
pub struct LapGraph<E: Eigensolver> {
    cells: Vec<i64>,
    vertex_count: usize,
    solver: PhantomData<E>,
}

/// One vector for each sequence of cells: some vector that holds them.
pub open spec fn holding(cells: Seq<i64>) -> Vec<i64> {
    choose|v: Vec<i64>| v@ == cells
}

/// A solver for the eigenvalues of a symmetric matrix of whole numbers.
///
/// What it reports depends on the cells, the side and the order alone:
/// `reported` names it.
pub trait Eigensolver {
    /// What `spectrum` reports of these arguments.
    spec fn reported(cells: Vec<i64>, side: usize, order: usize) -> Spectrum;

    /// The spectrum of the square matrix `cells`, stored row by row with
    /// `side` rows, of a graph whose edges touch `order` vertices, at least one.
    fn spectrum(cells: &Vec<i64>, side: usize, order: usize) -> (s: Spectrum)
        requires
            cells@.len() == side * side,
            0 < order <= side,
        ensures
            s == Self::reported(holding(cells@), side, order),
    ;
}

/// Cell indices stay inside a square matrix and tell rows and columns apart.
proof fn lemma_cell_index(n: int, i: int, j: int, a: int, b: int)
    requires
        0 <= i < n,
        0 <= j < n,
        0 <= a < n,
        0 <= b < n,
    ensures
        0 <= i * n + j < n * n,
        (i * n + j == a * n + b) ==> (i == a && j == b),
{
    assert(0 <= i * n + j < n * n) by (nonlinear_arith)
        requires
            0 <= i < n,
            0 <= j < n,
    ;
    if i < a {
        assert(i * n + j < a * n + b) by (nonlinear_arith)
            requires
                0 <= i < a,
                0 <= j < n,
                0 <= b,
        ;
    } else if a < i {
        assert(a * n + b < i * n + j) by (nonlinear_arith)
            requires
                0 <= a < i,
                0 <= b < n,
                0 <= j,
        ;
    }
}

/// A square that fits the machine word has a side below `2^32`.
proof fn lemma_side_bound(n: int)
    requires
        0 <= n,
        n * n <= usize::MAX,
    ensures
        n < 0x1_0000_0000,
{
    if n >= 0x1_0000_0000 {
        assert(n * n >= 0x1_0000_0000 * 0x1_0000_0000) by (nonlinear_arith)
            requires
                n >= 0x1_0000_0000,
        ;
    }
}

impl<E: Eigensolver> LapGraph<E> {
    /// The matrix as it is stored, row by row.
    pub closed spec fn matrix(&self) -> Seq<i64> {
        self.cells@
    }

    /// The matrix entry in row `i`, column `j`.
    pub closed spec fn entry(&self, i: int, j: int) -> int {
        self.cells@[i * self.vertex_count + j] as int
    }

    /// The number of vertices.
    pub fn vertex_count(&self) -> (r: usize)
        ensures
            r == self.vertices(),
    {
        self.vertex_count
    }

    /// The matrix entry in row `i`, column `j`: the degree of `i` on the
    /// diagonal, `-1` where an edge joins `i` and `j`, else `0`.
    pub fn laplacian_entry(&self, i: usize, j: usize) -> (r: i64)
        requires
            self.valid(),
            i < self.vertices(),
            j < self.vertices(),
        ensures
            r == (if i == j {
                neighbours_below(self.relation(), i as int, self.vertices() as int) as int
            } else if self.relation().contains((i as int, j as int)) {
                -1
            } else {
                0
            }),
    {
        proof {
            lemma_cell_index(self.vertex_count as int, i as int, j as int, i as int, j as int);
        }
        let r = self.cells[i * self.vertex_count + j];
        proof {
            assert(r == self.entry(i as int, j as int));
            if i == j {
                assert(self.entry(i as int, i as int) == neighbours_below(
                    self.relation(),
                    i as int,
                    self.vertices() as int,
                ));
            } else {
                assert(self.entry(i as int, j as int) == 0 || self.entry(i as int, j as int) == -1);
                assert(self.relation().contains((i as int, j as int)) == (self.entry(
                    i as int,
                    j as int,
                ) == -1));
            }
        }
        r
    }

    /// The spanning-tree count that `spectrum` stands for: none where more
    /// eigenvalues vanish than the untouched vertices and one component
    /// account for, none in a graph without edges, else the quotient.
    pub fn count_from(vertex_count: usize, order: usize, spectrum: &Spectrum) -> (r: usize)
        requires
            order <= vertex_count,
        ensures
            r == tree_count_from(vertex_count as nat, order as nat, *spectrum),
    {
        let spare = vertex_count - order;
        if spare < spectrum.near_zero && spectrum.near_zero - spare > 1 {
            0
        } else if order == 0 {
            0
        } else {
            spectrum.quotient
        }
    }

    /// Whether an edge joins `i` and `j`.
    pub fn has_edge(&self, i: usize, j: usize) -> (r: bool)
        requires
            self.valid(),
        ensures
            r == self.relation().contains((i as int, j as int)),
    {
        if i < self.vertex_count && j < self.vertex_count && i != j {
            self.laplacian_entry(i, j) == -1
        } else {
            false
        }
    }

}

impl<E: Eigensolver> Graph for LapGraph<E> {
    /// The count that the solver's report of the matrix stands for.
    open spec fn tree_count(&self) -> usize {
        tree_count_from(
            self.vertices(),
            touched_below(self.relation(), self.vertices() as int, self.vertices() as int),
            E::reported(
                holding(self.matrix()),
                self.vertices() as usize,
                touched_below(
                    self.relation(),
                    self.vertices() as int,
                    self.vertices() as int,
                ) as usize,
            ),
        )
    }

    /// The matrix is square and symmetric, holds `0` or `-1` off the diagonal
    /// and each vertex's degree on it.
    closed spec fn valid(&self) -> bool {
        let n = self.vertex_count as int;
        &&& n * n <= usize::MAX
        &&& self.cells@.len() == n * n
        &&& forall|i: int, j: int|
            0 <= i < n && 0 <= j < n && i != j ==> (#[trigger] self.entry(i, j) == 0
                || self.entry(i, j) == -1) && self.entry(i, j) == self.entry(j, i)
        &&& forall|i: int|
            0 <= i < n ==> #[trigger] self.entry(i, i) == neighbours_below(self.relation(), i, n)
        &&& degree_sum(self.relation(), n, n) == 2 * edges_below(self.relation(), n)
    }

    /// The number of vertices.
    closed spec fn vertices(&self) -> nat {
        self.vertex_count as nat
    }

    /// The pairs of vertices that an edge joins, each in both orders.
    closed spec fn relation(&self) -> Set<(int, int)> {
        Set::new(
            |p: (int, int)|
                0 <= p.0 < self.vertex_count && 0 <= p.1 < self.vertex_count && p.0 != p.1
                    && self.entry(p.0, p.1) == -1,
        )
    }

    /// The graph on `vertex_count` vertices without edges.
    fn empty(vertex_count: usize) -> (g: Self)
        ensures
            g.valid(),
            g.vertices() == vertex_count,
            forall|i: int, j: int| !g.relation().contains((i, j)),
    {
        let cells: Vec<i64> = vec![0i64; vertex_count * vertex_count];
        let g = LapGraph { cells, vertex_count, solver: PhantomData };
        proof {
            let n = vertex_count as int;
            assert forall|i: int, j: int| 0 <= i < n && 0 <= j < n implies g.entry(i, j) == 0 by {
                lemma_cell_index(n, i, j, i, j);
            }
            assert(g.relation() =~= edgeless());
            lemma_no_edges(g.relation(), n, n);
            assert forall|i: int| 0 <= i < n implies #[trigger] g.entry(i, i) == neighbours_below(
                g.relation(),
                i,
                n,
            ) by {
                lemma_no_neighbours(g.relation(), i, n);
            }
        }
        g
    }

    /// The graph on `vertex_count` vertices in which every two distinct
    /// vertices are joined.
    fn complete(vertex_count: usize) -> (g: Self)
        ensures
            g.valid(),
            g.vertices() == vertex_count,
            forall|i: int, j: int|
                g.relation().contains((i, j)) == (0 <= i < vertex_count && 0 <= j < vertex_count
                    && i != j),
    {
        let mut g = Self::empty(vertex_count);
        let mut i: usize = 0;
        while i < vertex_count
            invariant
                i <= vertex_count,
                g.valid(),
                g.vertices() == vertex_count,
                forall|a: int, b: int|
                    g.relation().contains((a, b)) == (0 <= a < i && 0 <= b < i && a != b),
            decreases vertex_count - i,
        {
            let mut j: usize = 0;
            while j < i
                invariant
                    j <= i < vertex_count,
                    g.valid(),
                    g.vertices() == vertex_count,
                    forall|a: int, b: int|
                        g.relation().contains((a, b)) == ((0 <= a < i && 0 <= b < i && a != b) || (
                        a == i && 0 <= b < j) || (b == i && 0 <= a < j)),
                decreases i - j,
            {
                g.add_edge(i, j);
                j = j + 1;
            }
            i = i + 1;
        }
        g
    }

    /// Joins `i` and `j`, which must be distinct, in range and not yet joined.
    fn add_edge(&mut self, i: usize, j: usize)
        ensures
            final(self).valid(),
            final(self).vertices() == old(self).vertices(),
            forall|a: int, b: int|
                final(self).relation().contains((a, b)) == (old(self).relation().contains((a, b))
                    || (a == i && b == j) || (a == j && b == i)),
            final(self).relation() == old(self).relation().insert((i as int, j as int)).insert(
                (j as int, i as int),
            ),
            edges_below(final(self).relation(), final(self).vertices() as int) == edges_below(
                old(self).relation(),
                old(self).vertices() as int,
            ) + 1,
            forall|v: int|
                0 <= v < old(self).vertices() ==> #[trigger] neighbours_below(
                    final(self).relation(),
                    v,
                    old(self).vertices() as int,
                ) == neighbours_below(old(self).relation(), v, old(self).vertices() as int) + (if v
                    == i || v == j {
                    1nat
                } else {
                    0nat
                }),
    {
        let n = self.vertex_count;
        let ghost ni = n as int;
        let ghost before = *self;
        let ghost r1 = self.relation();
        proof {
            lemma_side_bound(ni);
            lemma_cell_index(ni, i as int, j as int, j as int, i as int);
            lemma_cell_index(ni, i as int, i as int, j as int, j as int);
            lemma_cell_index(ni, j as int, j as int, i as int, i as int);
            lemma_cell_index(ni, i as int, j as int, i as int, i as int);
            lemma_cell_index(ni, i as int, j as int, j as int, j as int);
            lemma_cell_index(ni, j as int, i as int, i as int, i as int);
            lemma_cell_index(ni, j as int, i as int, j as int, j as int);
            assert(before.entry(i as int, j as int) == 0);
            assert(before.entry(i as int, i as int) == neighbours_below(r1, i as int, ni));
            assert(before.entry(j as int, j as int) == neighbours_below(r1, j as int, ni));
            lemma_neighbours_strict(r1, i as int, ni);
            lemma_neighbours_strict(r1, j as int, ni);
        }
        let ij = i * n + j;
        let ji = j * n + i;
        let ii = i * n + i;
        let jj = j * n + j;
        let di = self.cells[ii];
        let dj = self.cells[jj];
        self.cells.set(ij, -1);
        self.cells.set(ji, -1);
        self.cells.set(ii, di + 1);
        self.cells.set(jj, dj + 1);
        proof {
            let r2 = self.relation();
            assert forall|a: int, b: int| 0 <= a < ni && 0 <= b < ni implies #[trigger] self.entry(
                a,
                b,
            ) == (if (a == i && b == j) || (a == j && b == i) {
                -1
            } else if (a == i && b == i) || (a == j && b == j) {
                before.entry(a, b) + 1
            } else {
                before.entry(a, b)
            }) by {
                lemma_cell_index(ni, a, b, i as int, j as int);
                lemma_cell_index(ni, a, b, j as int, i as int);
                lemma_cell_index(ni, a, b, i as int, i as int);
                lemma_cell_index(ni, a, b, j as int, j as int);
            }
            assert forall|a: int, b: int|
                r2.contains((a, b)) == (r1.contains((a, b)) || (a == i && b == j) || (a == j && b
                    == i)) by {
                if 0 <= a < ni && 0 <= b < ni {
                    assert(self.entry(a, b) == self.entry(a, b));
                }
            }
            assert(r2 =~= r1.insert((i as int, j as int)).insert((j as int, i as int)));
            assert forall|v: int| 0 <= v < ni implies #[trigger] neighbours_below(r2, v, ni)
                == neighbours_below(r1, v, ni) + (if v == i || v == j {
                1nat
            } else {
                0nat
            }) by {
                if v == i {
                    lemma_neighbours_gain(r1, r2, v, j as int, ni);
                } else if v == j {
                    lemma_neighbours_gain(r1, r2, v, i as int, ni);
                } else {
                    lemma_neighbours_agree(r1, r2, v, ni);
                }
            }
            lemma_degree_sum_gain(r1, r2, ni, i as int, j as int, ni);
            if i > j {
                lemma_edges_gain(r1, r2, i as int, j as int, ni);
            } else {
                lemma_edges_gain(r1, r2, j as int, i as int, ni);
            }
            assert forall|a: int, b: int| 0 <= a < ni && 0 <= b < ni && a != b implies (
            #[trigger] self.entry(a, b) == 0 || self.entry(a, b) == -1) && self.entry(a, b)
                == self.entry(b, a) by {
                assert(before.entry(a, b) == before.entry(b, a));
                assert(self.entry(b, a) == self.entry(b, a));
            }
            assert forall|v: int| 0 <= v < ni implies #[trigger] self.entry(v, v)
                == neighbours_below(r2, v, ni) by {
                assert(before.entry(v, v) == neighbours_below(r1, v, ni));
            }
        }
    }

    /// The number of vertices that at least one edge touches.
    fn order(&self) -> (r: usize)
        ensures
            r == touched_below(self.relation(), self.vertices() as int, self.vertices() as int),
            r <= self.vertices(),
    {
        let n = self.vertex_count;
        let mut count: usize = 0;
        let mut v: usize = 0;
        while v < n
            invariant
                v <= n,
                n == self.vertex_count,
                self.valid(),
                count == touched_below(self.relation(), n as int, v as int),
                count <= v,
            decreases n - v,
        {
            if self.degree(v) != 0 {
                count = count + 1;
            }
            v = v + 1;
        }
        count
    }

    /// The number of edges: half the trace of the matrix.
    fn size(&self) -> (r: usize)
        ensures
            r == edges_below(self.relation(), self.vertices() as int),
    {
        let n = self.vertex_count;
        let mut trace: usize = 0;
        let mut v: usize = 0;
        while v < n
            invariant
                v <= n,
                n == self.vertex_count,
                self.valid(),
                trace == degree_sum(self.relation(), n as int, v as int),
                trace <= v * n,
            decreases n - v,
        {
            let d = self.degree(v);
            proof {
                lemma_neighbours_bound(self.relation(), v as int, n as int);
                assert(v * n + n <= n * n) by (nonlinear_arith)
                    requires
                        0 <= v < n,
                ;
                assert((v + 1) * n == v * n + n) by (nonlinear_arith);
            }
            trace = trace + d;
            v = v + 1;
        }
        trace / 2
    }

    /// The number of spanning trees of the subgraph on the touched vertices,
    /// read off the eigenvalues of the matrix: none where more of them vanish
    /// than the untouched vertices and one component account for, none in a
    /// graph without edges, else the quotient.
    fn spanning_tree_count(&self) -> (r: usize) {
        proof {
            if self.relation() == edgeless() {
                lemma_no_edges(self.relation(), self.vertices() as int, self.vertices() as int);
            }
        }
        let order = self.order();
        if order == 0 {
            return 0;
        }
        let spectrum = E::spectrum(&self.cells, self.vertex_count, order);
        Self::count_from(self.vertex_count, order, &spectrum)
    }
    /// The number of edges at `vertex`.
    fn degree(&self, vertex: usize) -> (r: usize)
        ensures
            r == neighbours_below(self.relation(), vertex as int, self.vertices() as int),
    {
        proof {
            lemma_neighbours_bound(self.relation(), vertex as int, self.vertex_count as int);
        }
        let d = self.laplacian_entry(vertex, vertex);
        d as usize
    }

    /// The lowest vertex that no edge touches, if there is one.
    fn lowest_free_vertex(&self) -> (r: Option<usize>)
        ensures
            is_lowest_free(self.relation(), self.vertices() as int, r),
    {
        let n = self.vertex_count;
        let mut v: usize = 0;
        while v < n
            invariant
                v <= n,
                n == self.vertex_count,
                self.valid(),
                forall|u: int| 0 <= u < v ==> !is_free(self.relation(), n as int, u),
            decreases n - v,
        {
            if self.degree(v) == 0 {
                return Some(v);
            }
            v = v + 1;
        }
        None
    }

    /// The edges as pairs `(i, j)` with `i > j`, by rising `i`, then rising `j`.
    fn edge_list(&self) -> (r: Vec<(usize, usize)>)
        ensures
            r@ == edge_pairs(self.relation(), self.vertices() as int),
    {
        let n = self.vertex_count;
        let mut pairs: Vec<(usize, usize)> = Vec::new();
        let mut i: usize = 0;
        while i < n
            invariant
                i <= n,
                n == self.vertex_count,
                self.valid(),
                pairs@ == edge_pairs(self.relation(), i as int),
            decreases n - i,
        {
            let ghost done = pairs@;
            let mut j: usize = 0;
            while j < i
                invariant
                    j <= i < n,
                    n == self.vertex_count,
                    self.valid(),
                    done == edge_pairs(self.relation(), i as int),
                    pairs@ == done + row_pairs(self.relation(), i as int, j as int),
                decreases i - j,
            {
                if self.has_edge(i, j) {
                    pairs.push((i, j));
                }
                proof {
                    assert(pairs@ =~= done + row_pairs(self.relation(), i as int, j + 1));
                }
                j = j + 1;
            }
            i = i + 1;
        }
        pairs
    }

    /// An independent copy of the graph.
    fn duplicate(&self) -> (r: Self)
        ensures
            r.valid(),
            r.vertices() == self.vertices(),
            r.relation() == self.relation(),
    {
        let cells = self.cells.clone();
        let r = LapGraph { cells, vertex_count: self.vertex_count, solver: PhantomData };
        proof {
            assert(r.cells@ =~= self.cells@);
            assert(r.relation() =~= self.relation());
            let n = self.vertex_count as int;
            assert forall|i: int, j: int| 0 <= i < n && 0 <= j < n implies #[trigger] r.entry(i, j)
                == self.entry(i, j) by {}
        }
        r
    }
}

/// The spanning-tree count that a spectrum stands for, in a graph on
/// `vertices` vertices of which `order` are touched by an edge.
pub open spec fn tree_count_from(vertices: nat, order: nat, spectrum: Spectrum) -> usize {
    if spectrum.near_zero > vertices - order + 1 {
        0
    } else if order == 0 {
        0
    } else {
        spectrum.quotient
    }
}

/// A graph without edges has no spanning tree, whatever its spectrum.
pub proof fn lemma_empty_has_no_tree<E: Eigensolver>(g: LapGraph<E>, spectrum: Spectrum)
    requires
        g.valid(),
        forall|i: int, j: int| !g.relation().contains((i, j)),
    ensures
        tree_count_from(
            g.vertices(),
            touched_below(g.relation(), g.vertices() as int, g.vertices() as int),
            spectrum,
        ) == 0,
{
    lemma_no_edges(g.relation(), g.vertices() as int, g.vertices() as int);
}

} // verus!
