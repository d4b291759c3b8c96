//! Undirected graphs, as lists of neighbours and as dense boolean matrices.

pub mod adj_list;
pub mod adj_matrix;

use crate::counting::{count_if, is_member, lemma_count_if_push};
use crate::graph::adj_list::{slice_contains, AdjList};
use crate::graph::adj_matrix::{
    copy_matrix, lemma_row_neighbors, matrix_neighbors, matrix_of_lists, matrix_wf,
    neighbors_in_row, row_neighbors, rows_of, set_edge, uniform_matrix, with_edge,
};
use vstd::prelude::*;

verus! {

/// An undirected graph held as a dense boolean matrix, with the queries that
/// the colouring algorithms ask.
pub struct Graph {
    num_vertices: usize,
    adjacency_matrix: Vec<Vec<bool>>,
}

impl View for Graph {
    type V = Seq<Seq<bool>>;

    /// The rows of the matrix.
    closed spec fn view(&self) -> Seq<Seq<bool>> {
        rows_of(self.adjacency_matrix)
    }
}

impl Graph {
    /// The number of vertices the graph was made with.
    pub closed spec fn spec_num_vertices(&self) -> usize {
        self.num_vertices
    }

    /// The matrix has one row and one column per vertex, is symmetric, and
    /// its diagonal is false.
    pub open spec fn wf(&self) -> bool {
        &&& self@.len() == self.spec_num_vertices()
        &&& matrix_wf(self@)
    }

    /// The neighbours of each vertex, in ascending order.
    pub open spec fn neighbor_lists(&self) -> Seq<Seq<usize>> {
        Seq::new(self@.len(), |i: int| matrix_neighbors(self@, i))
    }

    /// The graph on `num_vertices` vertices without edges.
    pub fn new(num_vertices: usize) -> (g: Self)
        ensures
            g.wf(),
            g.spec_num_vertices() == num_vertices,
            forall|i: int, j: int|
                0 <= i < num_vertices && 0 <= j < num_vertices ==> !(#[trigger] g@[i][j]),
    {
        Graph { num_vertices, adjacency_matrix: uniform_matrix(num_vertices, false) }
    }

    /// The complete graph on `num_vertices` vertices.
    pub fn complete(num_vertices: usize) -> (g: Self)
        ensures
            g.wf(),
            g.spec_num_vertices() == num_vertices,
            forall|i: int, j: int|
                0 <= i < num_vertices && 0 <= j < num_vertices ==> (#[trigger] g@[i][j]) == (i
                    != j),
    {
        Graph { num_vertices, adjacency_matrix: uniform_matrix(num_vertices, true) }
    }

    /// Adds the edge between `from` and `to`. Does nothing when an endpoint
    /// is not a vertex of the graph or when the two are the same vertex.
    pub fn add_edge(&mut self, from: usize, to: usize)
        requires
            old(self).wf(),
        ensures
            final(self).wf(),
            final(self).spec_num_vertices() == old(self).spec_num_vertices(),
            from < old(self)@.len() && to < old(self)@.len() && from != to ==> final(self)@
                == with_edge(old(self)@, from as int, to as int, true),
            !(from < old(self)@.len() && to < old(self)@.len() && from != to) ==> final(self)@
                == old(self)@,
    {
        set_edge(&mut self.adjacency_matrix, from, to, true);
    }

    /// Takes the edge between `from` and `to` away. Does nothing when an
    /// endpoint is not a vertex of the graph.
    pub fn remove_edge(&mut self, from: usize, to: usize)
        requires
            old(self).wf(),
        ensures
            final(self).wf(),
            final(self).spec_num_vertices() == old(self).spec_num_vertices(),
            from < old(self)@.len() && to < old(self)@.len() && from != to ==> final(self)@
                == with_edge(old(self)@, from as int, to as int, false),
            !(from < old(self)@.len() && to < old(self)@.len() && from != to) ==> final(self)@
                == old(self)@,
    {
        set_edge(&mut self.adjacency_matrix, from, to, false);
    }

    /// The number of vertices.
    pub fn num_vertices(&self) -> (n: usize)
        ensures
            n == self.spec_num_vertices(),
    {
        self.num_vertices
    }

    /// A copy of the matrix.
    pub fn adjacency_matrix(&self) -> (m: Vec<Vec<bool>>)
        ensures
            rows_of(m) == self@,
    {
        copy_matrix(&self.adjacency_matrix)
    }

    /// Counts the neighbours of vertex `i` that occur in `list`; zero for a
    /// vertex the graph does not have.
    pub fn get_degree_in_list(&self, i: &usize, list: &[usize]) -> (degree: usize)
        requires
            self.wf(),
        ensures
            degree == count_if(matrix_neighbors(self@, *i as int), is_member(list@)),
    {
        if *i < self.num_vertices {
            let row = &self.adjacency_matrix[*i];
            let mut degree: usize = 0;
            let mut j: usize = 0;
            while j < row.len()
                invariant
                    j <= row@.len(),
                    degree == count_if(row_neighbors(row@.take(j as int)), is_member(list@)),
                    degree <= j,
                decreases row@.len() - j,
            {
                proof {
                    assert(row@.take(j + 1).drop_last() =~= row@.take(j as int));
                    lemma_count_if_push(
                        row_neighbors(row@.take(j as int)),
                        is_member(list@),
                        j,
                    );
                }
                if slice_contains(list, j) && row[j] {
                    degree += 1;
                }
                j += 1;
            }
            assert(row@.take(j as int) =~= row@);
            degree
        } else {
            0
        }
    }

    /// Whether there is an edge between `u` and `v`; none where one of them
    /// is no vertex of the graph.
    pub fn has_edge(&self, u: usize, v: usize) -> (found: bool)
        requires
            self.wf(),
        ensures
            found == (u < self@.len() && v < self@.len() && self@[u as int][v as int]),
    {
        if u < self.num_vertices && v < self.num_vertices {
            assert(self@[u as int].len() == self@.len());
            self.adjacency_matrix[u][v]
        } else {
            false
        }
    }

    /// The neighbours of vertex `i` in ascending order; none for a vertex the
    /// graph does not have.
    pub fn get_neighbors(&self, i: usize) -> (neighbors: Vec<usize>)
        requires
            self.wf(),
        ensures
            neighbors@ == matrix_neighbors(self@, i as int),
    {
        if i < self.num_vertices {
            neighbors_in_row(&self.adjacency_matrix[i])
        } else {
            Vec::new()
        }
    }

    /// In a well-formed graph `b` is a neighbour of `a` exactly when `a` is a
    /// neighbour of `b`, and no vertex is its own neighbour.
    pub proof fn lemma_symmetric(&self, a: int, b: int)
        requires
            self.wf(),
            0 <= a < self@.len(),
            0 <= b < self@.len(),
        ensures
            self.neighbor_lists()[a].contains(b as usize) == self.neighbor_lists()[b].contains(
                a as usize,
            ),
            !self.neighbor_lists()[a].contains(a as usize),
    {
        self.lemma_neighbors(a);
        self.lemma_neighbors(b);
        assert(self@[a][b] == self@[b][a]);
        assert(!self@[a][a]);
    }

    /// What the neighbours of a vertex of a well-formed graph are: vertices
    /// other than itself, fewer than the graph has vertices, each once.
    pub proof fn lemma_neighbors(&self, i: int)
        requires
            self.wf(),
            0 <= i < self@.len(),
        ensures
            matrix_neighbors(self@, i).len() < self@.len(),
            matrix_neighbors(self@, i).no_duplicates(),
            forall|k: int|
                0 <= k < matrix_neighbors(self@, i).len() ==> (#[trigger] matrix_neighbors(
                    self@,
                    i,
                )[k]) < self@.len() && matrix_neighbors(self@, i)[k] != i && self@[i][matrix_neighbors(
                    self@,
                    i,
                )[k] as int],
            forall|j: int|
                0 <= j < self@.len() ==> (self@[i][j] <==> matrix_neighbors(self@, i).contains(
                    j as usize,
                )),
    {
        let row = self@[i];
        assert(row.len() == self@.len());
        lemma_row_neighbors(row);
        assert(!row[i]);
        let list = row_neighbors(row);
        assert forall|j: int| 0 <= j < self@.len() implies (self@[i][j] <==> list.contains(
            j as usize,
        )) by {
            if list.contains(j as usize) {
                let k = choose|k: int| 0 <= k < list.len() && list[k] == j as usize;
                assert(row[list[k] as int]);
            }
        }
    }
}

impl AdjList {
    /// The same graph as a dense matrix: `v` is a neighbour of `u` there
    /// exactly when it stands in the list of `u` here.
    pub fn to_graph(&self) -> (g: Graph)
        requires
            self.wf(),
        ensures
            g.wf(),
            g.spec_num_vertices() == self.spec_num_vertices(),
            forall|u: int, v: int|
                0 <= u < self@.len() && 0 <= v < self@.len() ==> (#[trigger] g@[u][v])
                    == self@[u].contains(v as usize),
    {
        Graph { num_vertices: self.num_vertices(), adjacency_matrix: matrix_of_lists(self) }
    }
}

} // verus!
