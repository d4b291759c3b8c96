//! Graphs as dense boolean matrices.

use crate::graph::adj_list::{lemma_adjacency_symmetric, AdjList};
use vstd::prelude::*;

verus! {

/// A square, symmetric matrix whose diagonal is false: the adjacency matrix
/// of a simple undirected graph.
pub open spec fn matrix_wf(m: Seq<Seq<bool>>) -> bool {
    &&& forall|i: int| 0 <= i < m.len() ==> (#[trigger] m[i]).len() == m.len()
    &&& forall|i: int, j: int|
        0 <= i < m.len() && 0 <= j < m.len() ==> (#[trigger] m[i][j]) == m[j][i]
    &&& forall|i: int| 0 <= i < m.len() ==> !(#[trigger] m[i])[i]
}

/// The positions of `row` that hold true, in ascending order.
pub open spec fn row_neighbors(row: Seq<bool>) -> Seq<usize>
    decreases row.len(),
{
    if row.len() == 0 {
        Seq::empty()
    } else if row.last() {
        row_neighbors(row.drop_last()).push((row.len() - 1) as usize)
    } else {
        row_neighbors(row.drop_last())
    }
}

/// The neighbours of vertex `i` in the matrix `m`; none for a vertex the
/// matrix does not have.
pub open spec fn matrix_neighbors(m: Seq<Seq<bool>>, i: int) -> Seq<usize> {
    if 0 <= i < m.len() {
        row_neighbors(m[i])
    } else {
        Seq::empty()
    }
}

/// The matrix `m` with the entries at `(i, j)` and `(j, i)` set to `value`.
pub open spec fn with_edge(m: Seq<Seq<bool>>, i: int, j: int, value: bool) -> Seq<Seq<bool>> {
    let first = m.update(i, m[i].update(j, value));
    first.update(j, first[j].update(i, value))
}

/// The rows of a matrix held in vectors.
pub open spec fn rows_of(m: Vec<Vec<bool>>) -> Seq<Seq<bool>> {
    Seq::new(m@.len(), |i: int| m@[i]@)
}

/// What `row_neighbors` lists: exactly the true positions, each once, in
/// ascending order.
pub proof fn lemma_row_neighbors(row: Seq<bool>)
    requires
        row.len() <= usize::MAX,
    ensures
        row_neighbors(row).len() <= row.len(),
        forall|k: int|
            0 <= k < row_neighbors(row).len() ==> (#[trigger] row_neighbors(row)[k]) < row.len()
                && row[row_neighbors(row)[k] as int],
        forall|k: int, l: int|
            0 <= k < l < row_neighbors(row).len() ==> row_neighbors(row)[k] < row_neighbors(
                row,
            )[l],
        forall|j: int| 0 <= j < row.len() && row[j] ==> row_neighbors(row).contains(j as usize),
        forall|j: int|
            0 <= j < row.len() && !row[j] ==> row_neighbors(row).len() < row.len()
                && !row_neighbors(row).contains(j as usize),
    decreases row.len(),
{
    if row.len() > 0 {
        let rest = row.drop_last();
        let last = (row.len() - 1) as usize;
        lemma_row_neighbors(rest);
        let inner = row_neighbors(rest);
        let all = row_neighbors(row);
        assert forall|j: int| 0 <= j < row.len() && row[j] implies all.contains(j as usize) by {
            if j < rest.len() {
                assert(rest[j]);
                let k = choose|k: int| 0 <= k < inner.len() && inner[k] == j as usize;
                assert(all[k] == j as usize);
            } else {
                assert(all[all.len() - 1] == last);
            }
        }
        assert forall|j: int| 0 <= j < row.len() && !row[j] implies all.len() < row.len()
            && !all.contains(j as usize) by {
            if j < rest.len() {
                assert(!rest[j]);
            }
            if all.contains(j as usize) {
                let k = choose|k: int| 0 <= k < all.len() && all[k] == j as usize;
                if k < inner.len() {
                    assert(inner[k] == j as usize);
                    assert(inner.contains(j as usize));
                }
            }
        }
        assert forall|k: int| 0 <= k < all.len() implies (#[trigger] all[k]) < row.len()
            && row[all[k] as int] by {
            if k < inner.len() {
                assert(inner[k] < rest.len() && rest[inner[k] as int]);
            }
        }
    }
}

/// A matrix of `num_vertices` rows and columns, every entry off the diagonal
/// holding `value`, the diagonal false.
pub fn uniform_matrix(num_vertices: usize, value: bool) -> (m: Vec<Vec<bool>>)
    ensures
        m@.len() == num_vertices,
        forall|i: int| 0 <= i < num_vertices ==> (#[trigger] m@[i])@.len() == num_vertices,
        forall|i: int, j: int|
            0 <= i < num_vertices && 0 <= j < num_vertices ==> (#[trigger] m@[i]@[j]) == (value
                && i != j),
        matrix_wf(rows_of(m)),
{
    let mut m: Vec<Vec<bool>> = Vec::new();
    let mut i: usize = 0;
    while i < num_vertices
        invariant
            i <= num_vertices,
            m@.len() == i,
            forall|r: int| 0 <= r < i ==> (#[trigger] m@[r])@.len() == num_vertices,
            forall|r: int, j: int|
                0 <= r < i && 0 <= j < num_vertices ==> (#[trigger] m@[r]@[j]) == (value && r
                    != j),
        decreases num_vertices - i,
    {
        let mut row: Vec<bool> = Vec::new();
        let mut j: usize = 0;
        while j < num_vertices
            invariant
                j <= num_vertices,
                row@.len() == j,
                forall|k: int| 0 <= k < j ==> (#[trigger] row@[k]) == (value && i != k),
            decreases num_vertices - j,
        {
            row.push(value && i != j);
            j += 1;
        }
        m.push(row);
        i += 1;
    }
    m
}

/// A copy of the matrix `m`.
pub fn copy_matrix(m: &Vec<Vec<bool>>) -> (copy: Vec<Vec<bool>>)
    ensures
        rows_of(copy) == rows_of(*m),
{
    let mut copy: Vec<Vec<bool>> = Vec::new();
    let mut i: usize = 0;
    while i < m.len()
        invariant
            i <= m@.len(),
            copy@.len() == i,
            forall|r: int| 0 <= r < i ==> (#[trigger] copy@[r])@ == m@[r]@,
        decreases m@.len() - i,
    {
        let mut row: Vec<bool> = Vec::new();
        let mut j: usize = 0;
        while j < m[i].len()
            invariant
                i < m@.len(),
                j <= m@[i as int]@.len(),
                row@.len() == j,
                forall|k: int| 0 <= k < j ==> (#[trigger] row@[k]) == m@[i as int]@[k],
            decreases m@[i as int]@.len() - j,
        {
            row.push(m[i][j]);
            j += 1;
        }
        assert(row@ =~= m@[i as int]@);
        copy.push(row);
        i += 1;
    }
    assert(rows_of(copy) =~= rows_of(*m));
    copy
}

/// Sets the entries at `(from, to)` and `(to, from)` to `value`, where both
/// name a row and the two differ; changes nothing otherwise.
pub fn set_edge(m: &mut Vec<Vec<bool>>, from: usize, to: usize, value: bool)
    requires
        matrix_wf(rows_of(*old(m))),
    ensures
        matrix_wf(rows_of(*final(m))),
        rows_of(*final(m)).len() == rows_of(*old(m)).len(),
        from < rows_of(*old(m)).len() && to < rows_of(*old(m)).len() && from != to ==> rows_of(
            *final(m),
        ) == with_edge(rows_of(*old(m)), from as int, to as int, value),
        !(from < rows_of(*old(m)).len() && to < rows_of(*old(m)).len() && from != to) ==> rows_of(
            *final(m),
        ) == rows_of(*old(m)),
{
    let n = m.len();
    if from < n && to < n && from != to {
        assert(rows_of(*m)[from as int].len() == n);
        assert(rows_of(*m)[to as int].len() == n);
        m[from][to] = value;
        m[to][from] = value;
        proof {
            let before = rows_of(*old(m));
            let after = rows_of(*m);
            assert(after =~= with_edge(before, from as int, to as int, value));
            assert forall|i: int| 0 <= i < after.len() implies (#[trigger] after[i]).len()
                == after.len() by {
                assert(before[i].len() == before.len());
            }
            assert forall|i: int, j: int|
                0 <= i < after.len() && 0 <= j < after.len() implies (#[trigger] after[i][j])
                == after[j][i] by {
                assert(before[i][j] == before[j][i]);
                assert(before[i].len() == before.len());
                assert(before[j].len() == before.len());
            }
            assert forall|i: int| 0 <= i < after.len() implies !(#[trigger] after[i])[i] by {
                assert(!before[i][i]);
            }
        }
    } else {
        assert(rows_of(*m) =~= rows_of(*old(m)));
    }
}

/// The positions of `row` that hold true, in ascending order.
pub fn neighbors_in_row(row: &Vec<bool>) -> (neighbors: Vec<usize>)
    ensures
        neighbors@ == row_neighbors(row@),
{
    let mut neighbors: Vec<usize> = Vec::new();
    let mut j: usize = 0;
    while j < row.len()
        invariant
            j <= row@.len(),
            neighbors@ == row_neighbors(row@.take(j as int)),
        decreases row@.len() - j,
    {
        assert(row@.take(j + 1).drop_last() =~= row@.take(j as int));
        if row[j] {
            neighbors.push(j);
        }
        j += 1;
    }
    assert(row@.take(j as int) =~= row@);
    neighbors
}

/// An undirected graph held as a dense boolean matrix.
pub struct AdjMatrix {
    num_vertices: usize,
    adj_matrix: Vec<Vec<bool>>,
}

impl View for AdjMatrix {
    type V = Seq<Seq<bool>>;

    /// The rows of the matrix.
    closed spec fn view(&self) -> Seq<Seq<bool>> {
        rows_of(self.adj_matrix)
    }
}

impl AdjMatrix {
    /// The number of vertices the graph was made with.
    pub closed spec fn spec_num_vertices(&self) -> usize {
        self.num_vertices
    }

    /// The matrix has one row and one column per vertex, is symmetric, and
    /// its diagonal is false.
    pub open spec fn wf(&self) -> bool {
        &&& self@.len() == self.spec_num_vertices()
        &&& matrix_wf(self@)
    }

    /// The graph on `num_vertices` vertices without edges.
    pub fn new(num_vertices: usize) -> (g: Self)
        ensures
            g.wf(),
            g.spec_num_vertices() == num_vertices,
            forall|i: int, j: int|
                0 <= i < num_vertices && 0 <= j < num_vertices ==> !(#[trigger] g@[i][j]),
    {
        AdjMatrix { num_vertices, adj_matrix: uniform_matrix(num_vertices, false) }
    }

    /// The complete graph on `num_vertices` vertices.
    pub fn complete(num_vertices: usize) -> (g: Self)
        ensures
            g.wf(),
            g.spec_num_vertices() == num_vertices,
            forall|i: int, j: int|
                0 <= i < num_vertices && 0 <= j < num_vertices ==> (#[trigger] g@[i][j]) == (i
                    != j),
    {
        AdjMatrix { num_vertices, adj_matrix: uniform_matrix(num_vertices, true) }
    }

    /// Adds the edge between `from` and `to`. Does nothing when an endpoint
    /// is not a vertex of the graph or when the two are the same vertex.
    pub fn add_edge(&mut self, from: usize, to: usize)
        requires
            old(self).wf(),
        ensures
            final(self).wf(),
            final(self).spec_num_vertices() == old(self).spec_num_vertices(),
            from < old(self)@.len() && to < old(self)@.len() && from != to ==> final(self)@
                == with_edge(old(self)@, from as int, to as int, true),
            !(from < old(self)@.len() && to < old(self)@.len() && from != to) ==> final(self)@
                == old(self)@,
    {
        set_edge(&mut self.adj_matrix, from, to, true);
    }

    /// Takes the edge between `from` and `to` away. Does nothing when an
    /// endpoint is not a vertex of the graph.
    pub fn remove_edge(&mut self, from: usize, to: usize)
        requires
            old(self).wf(),
        ensures
            final(self).wf(),
            final(self).spec_num_vertices() == old(self).spec_num_vertices(),
            from < old(self)@.len() && to < old(self)@.len() && from != to ==> final(self)@
                == with_edge(old(self)@, from as int, to as int, false),
            !(from < old(self)@.len() && to < old(self)@.len() && from != to) ==> final(self)@
                == old(self)@,
    {
        set_edge(&mut self.adj_matrix, from, to, false);
    }

    /// The number of vertices.
    pub fn num_vertices(&self) -> (n: usize)
        ensures
            n == self.spec_num_vertices(),
    {
        self.num_vertices
    }

    /// A copy of the matrix.
    pub fn adjacency_matrix(&self) -> (m: Vec<Vec<bool>>)
        ensures
            rows_of(m) == self@,
    {
        copy_matrix(&self.adj_matrix)
    }

    /// Whether there is an edge between `u` and `v`; none where one of them
    /// is no vertex of the graph.
    pub fn has_edge(&self, u: usize, v: usize) -> (found: bool)
        requires
            self.wf(),
        ensures
            found == (u < self@.len() && v < self@.len() && self@[u as int][v as int]),
    {
        if u < self.num_vertices && v < self.num_vertices {
            assert(self@[u as int].len() == self@.len());
            self.adj_matrix[u][v]
        } else {
            false
        }
    }

    /// The neighbours of vertex `i` in ascending order; none for a vertex the
    /// graph does not have.
    pub fn get_neighbors(&self, i: usize) -> (neighbors: Vec<usize>)
        requires
            self.wf(),
        ensures
            neighbors@ == matrix_neighbors(self@, i as int),
    {
        if i < self.num_vertices {
            neighbors_in_row(&self.adj_matrix[i])
        } else {
            Vec::new()
        }
    }
}

/// The adjacency matrix of a graph held in lists: the entry for `u` and `v` is
/// true exactly when `v` stands in the list of `u`.
pub fn matrix_of_lists(graph: &AdjList) -> (m: Vec<Vec<bool>>)
    requires
        graph.wf(),
    ensures
        matrix_wf(rows_of(m)),
        rows_of(m).len() == graph@.len(),
        forall|u: int, v: int|
            0 <= u < graph@.len() && 0 <= v < graph@.len() ==> (#[trigger] rows_of(m)[u][v])
                == graph@[u].contains(v as usize),
{
    let n = graph.num_vertices();
    let lists = graph.adj_list();
    let mut m = uniform_matrix(n, false);
    let mut u: usize = 0;
    while u < n
        invariant
            graph.wf(),
            n == graph@.len(),
            lists@.len() == n,
            forall|i: int| 0 <= i < n ==> (#[trigger] lists@[i])@ == graph@[i],
            u <= n,
            m@.len() == n,
            forall|i: int| 0 <= i < n ==> (#[trigger] m@[i])@.len() == n,
            forall|i: int, j: int|
                0 <= i < n && 0 <= j < n ==> (#[trigger] m@[i]@[j]) == (i < u && graph@[i].contains(
                    j as usize,
                )),
        decreases n - u,
    {
        let row = &lists[u];
        let mut k: usize = 0;
        while k < row.len()
            invariant
                graph.wf(),
                n == graph@.len(),
                u < n,
                row@ == graph@[u as int],
                k <= row@.len(),
                m@.len() == n,
                forall|i: int| 0 <= i < n ==> (#[trigger] m@[i])@.len() == n,
                forall|i: int, j: int|
                    0 <= i < n && 0 <= j < n ==> (#[trigger] m@[i]@[j]) == (if i == u {
                        row@.take(k as int).contains(j as usize)
                    } else {
                        i < u && graph@[i].contains(j as usize)
                    }),
            decreases row@.len() - k,
        {
            let v = row[k];
            assert(graph@[u as int][k as int] < n);
            let ghost before = m@;
            m[u][v] = true;
            proof {
                let old_prefix = row@.take(k as int);
                let new_prefix = row@.take(k + 1);
                assert(new_prefix =~= old_prefix.push(v));
                assert forall|i: int, j: int| 0 <= i < n && 0 <= j < n implies (
                #[trigger] m@[i]@[j]) == (if i == u {
                    new_prefix.contains(j as usize)
                } else {
                    i < u && graph@[i].contains(j as usize)
                }) by {
                    assert(before[i]@[j] == (if i == u {
                        old_prefix.contains(j as usize)
                    } else {
                        i < u && graph@[i].contains(j as usize)
                    }));
                    if i == u {
                        if j == v {
                            assert(new_prefix[k as int] == v);
                        } else {
                            if old_prefix.contains(j as usize) {
                                let p = choose|p: int|
                                    0 <= p < old_prefix.len() && old_prefix[p] == j as usize;
                                assert(new_prefix[p] == j as usize);
                            }
                            if new_prefix.contains(j as usize) {
                                let p = choose|p: int|
                                    0 <= p < new_prefix.len() && new_prefix[p] == j as usize;
                                assert(old_prefix[p] == j as usize);
                            }
                        }
                    }
                }
            }
            k += 1;
        }
        assert(row@.take(k as int) =~= row@);
        u += 1;
    }
    proof {
        let rows = rows_of(m);
        let adj = graph@;
        assert forall|i: int, j: int| 0 <= i < rows.len() && 0 <= j < rows.len() implies (
        #[trigger] rows[i][j]) == rows[j][i] by {
            assert(m@[i]@[j] == adj[i].contains(j as usize));
            assert(m@[j]@[i] == adj[j].contains(i as usize));
            lemma_adjacency_symmetric(adj, i as usize, j as usize);
        }
        assert forall|i: int| 0 <= i < rows.len() implies !(#[trigger] rows[i])[i] by {
            assert(m@[i]@[i] == adj[i].contains(i as usize));
            lemma_adjacency_symmetric(adj, i as usize, i as usize);
        }
        assert forall|i: int| 0 <= i < rows.len() implies (#[trigger] rows[i]).len()
            == rows.len() by {
            assert(m@[i]@.len() == n);
        }
    }
    m
}

impl AdjList {
    /// The same graph as a dense matrix: `v` is a neighbour of `u` there
    /// exactly when it stands in the list of `u` here.
    pub fn to_adj_matrix(&self) -> (m: AdjMatrix)
        requires
            self.wf(),
        ensures
            m.wf(),
            m.spec_num_vertices() == self.spec_num_vertices(),
            forall|u: int, v: int|
                0 <= u < self@.len() && 0 <= v < self@.len() ==> (#[trigger] m@[u][v])
                    == self@[u].contains(v as usize),
    {
        AdjMatrix { num_vertices: self.num_vertices(), adj_matrix: matrix_of_lists(self) }
    }
}

} // verus!
