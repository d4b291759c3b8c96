//! Graphs as one list of neighbours per vertex.

use crate::counting::{
    count_if, is_member, is_value, lemma_count_if_push, lemma_count_if_step,
    lemma_count_if_update, lemma_occurrences_contains, lemma_occurrences_no_duplicates,
    occurrences, sum_upto,
};
use vstd::prelude::*;

verus! {

/// Adjacency lists of a simple undirected graph: every entry names a vertex
/// other than the list's owner, and `v` stands in the list of `u` as often as
/// `u` stands in the list of `v`.
pub open spec fn adjacency_wf(adj: Seq<Seq<usize>>) -> bool {
    &&& forall|u: int, k: int|
        0 <= u < adj.len() && 0 <= k < adj[u].len() ==> (#[trigger] adj[u][k]) < adj.len()
            && adj[u][k] != u
    &&& forall|u: usize, v: usize|
        u < adj.len() && v < adj.len() ==> #[trigger] occurrences(adj[u as int], v)
            == occurrences(adj[v as int], u)
}

/// Number of entries in the list of vertex `i` that occur in `list`; zero for
/// a vertex the graph does not have.
pub open spec fn degree_in_list(adj: Seq<Seq<usize>>, i: int, list: Seq<usize>) -> nat {
    if 0 <= i < adj.len() {
        count_if(adj[i], is_member(list))
    } else {
        0
    }
}

/// The length of each list.
pub open spec fn list_lengths(adj: Seq<Seq<usize>>) -> spec_fn(int) -> nat {
    |u: int| adj[u].len()
}

/// Number of entries in all the lists together: twice the number of edges,
/// each counted as often as it was added.
pub open spec fn total_degree(adj: Seq<Seq<usize>>) -> nat {
    sum_upto(list_lengths(adj), adj.len())
}

/// The list of vertex `i` in the complete graph on `n` vertices: every other
/// vertex once, in ascending order.
pub open spec fn complete_row(n: nat, i: int) -> Seq<usize> {
    Seq::new((n - 1) as nat, |k: int| if k < i { k as usize } else { (k + 1) as usize })
}

/// The list `s` after its entry at `k` was replaced by the last entry and the
/// last position dropped.
pub open spec fn swap_removed(s: Seq<usize>, k: int) -> Seq<usize> {
    s.update(k, s.last()).drop_last()
}

/// `k` is the first position of `s` that holds `x`.
pub open spec fn is_first_position(s: Seq<usize>, x: usize, k: int) -> bool {
    &&& 0 <= k < s.len()
    &&& s[k] == x
    &&& forall|j: int| 0 <= j < k ==> s[j] != x
}

/// In a simple undirected graph `b` is a neighbour of `a` exactly when `a`
/// is a neighbour of `b`.
pub proof fn lemma_adjacency_symmetric(adj: Seq<Seq<usize>>, a: usize, b: usize)
    requires
        adjacency_wf(adj),
        a < adj.len(),
        b < adj.len(),
    ensures
        adj[a as int].contains(b) == adj[b as int].contains(a),
        !adj[a as int].contains(a),
{
    lemma_occurrences_contains(adj[a as int], b);
    lemma_occurrences_contains(adj[b as int], a);
    assert(occurrences(adj[a as int], b) == occurrences(adj[b as int], a));
    if adj[a as int].contains(a) {
        let k = choose|k: int| 0 <= k < adj[a as int].len() && adj[a as int][k] == a;
        assert(adj[a as int][k] != a);
    }
}

proof fn lemma_complete_row(n: nat, i: int, x: usize)
    requires
        0 <= i < n,
        n <= usize::MAX,
    ensures
        complete_row(n, i).no_duplicates(),
        complete_row(n, i).contains(x) <==> x < n && x != i,
        occurrences(complete_row(n, i), x) == if x < n && x != i {
            1nat
        } else {
            0nat
        },
{
    let row = complete_row(n, i);
    if x < n && x != i {
        let k = if x < i { x as int } else { x - 1 };
        assert(row[k] == x);
    }
    lemma_occurrences_no_duplicates(row, x);
}

proof fn lemma_swap_removed_occurrences(s: Seq<usize>, k: int, x: usize)
    requires
        0 <= k < s.len(),
    ensures
        occurrences(swap_removed(s, k), x) + (if s[k] == x {
            1nat
        } else {
            0nat
        }) == occurrences(s, x),
{
    lemma_count_if_update(s, is_value(x), k, s.last());
    let t = s.update(k, s.last());
    assert(t.last() == s.last());
}

/// An undirected graph held as one list of neighbours per vertex. A list may
/// name a neighbour more than once, when the edge was added more than once.
pub struct AdjList {
    adj_list: Vec<Vec<usize>>,
    num_vertices: usize,
}

impl View for AdjList {
    type V = Seq<Seq<usize>>;

    /// The lists of neighbours, one per vertex.
    closed spec fn view(&self) -> Seq<Seq<usize>> {
        Seq::new(self.adj_list@.len(), |i: int| self.adj_list@[i]@)
    }
}

impl AdjList {
    /// The number of vertices the graph was made with.
    pub closed spec fn spec_num_vertices(&self) -> usize {
        self.num_vertices
    }

    /// There is one list per vertex, and the lists describe a simple
    /// undirected graph.
    pub open spec fn wf(&self) -> bool {
        &&& self@.len() == self.spec_num_vertices()
        &&& adjacency_wf(self@)
    }

    /// The counts that the algorithms keep of entries and of pairs of vertices
    /// fit the machine's integers.
    pub open spec fn within_limits(&self) -> bool {
        &&& total_degree(self@) <= usize::MAX
        &&& self@.len() * self@.len() <= usize::MAX
    }

    /// Whether `v` is a neighbour of `u`.
    pub open spec fn spec_has_edge(&self, u: int, v: int) -> bool {
        &&& 0 <= u < self@.len()
        &&& 0 <= v < self@.len()
        &&& self@[u].contains(v as usize)
    }

    /// The graph on `num_vertices` vertices without edges.
    pub fn new(num_vertices: usize) -> (g: Self)
        ensures
            g.wf(),
            g.spec_num_vertices() == num_vertices,
            g@ == Seq::new(num_vertices as nat, |i: int| Seq::<usize>::empty()),
    {
        let mut adj_list: Vec<Vec<usize>> = Vec::new();
        let mut i: usize = 0;
        while i < num_vertices
            invariant
                i <= num_vertices,
                adj_list@.len() == i,
                forall|j: int| 0 <= j < i ==> (#[trigger] adj_list@[j])@ == Seq::<usize>::empty(),
            decreases num_vertices - i,
        {
            adj_list.push(Vec::new());
            i += 1;
        }
        let g = AdjList { num_vertices, adj_list };
        assert(g@ =~= Seq::new(num_vertices as nat, |i: int| Seq::<usize>::empty()));
        g
    }

    /// The complete graph on `num_vertices` vertices.
    pub fn complete(num_vertices: usize) -> (g: Self)
        ensures
            g.wf(),
            g.spec_num_vertices() == num_vertices,
            g@.len() == num_vertices,
            forall|i: int|
                0 <= i < num_vertices ==> #[trigger] g@[i] == complete_row(num_vertices as nat, i),
    {
        let mut adj_list: Vec<Vec<usize>> = Vec::new();
        let mut i: usize = 0;
        while i < num_vertices
            invariant
                i <= num_vertices,
                adj_list@.len() == i,
                forall|r: int|
                    0 <= r < i ==> (#[trigger] adj_list@[r])@ == complete_row(
                        num_vertices as nat,
                        r,
                    ),
            decreases num_vertices - i,
        {
            let mut row: Vec<usize> = Vec::new();
            let mut j: usize = 0;
            while j < num_vertices
                invariant
                    i < num_vertices,
                    j <= num_vertices,
                    row@.len() == if j <= i { j as int } else { j - 1 },
                    forall|k: int|
                        0 <= k < row@.len() ==> #[trigger] row@[k] == complete_row(
                            num_vertices as nat,
                            i as int,
                        )[k],
                decreases num_vertices - j,
            {
                if i != j {
                    row.push(j);
                }
                j += 1;
            }
            assert(row@ =~= complete_row(num_vertices as nat, i as int));
            adj_list.push(row);
            i += 1;
        }
        let g = AdjList { num_vertices, adj_list };
        proof {
            let n = num_vertices as nat;
            assert forall|u: int, k: int| 0 <= u < g@.len() && 0 <= k < g@[u].len() implies (
            #[trigger] g@[u][k]) < g@.len() && g@[u][k] != u by {
                assert(g@[u] == complete_row(n, u));
            }
            assert forall|u: usize, v: usize| u < g@.len() && v < g@.len() implies #[trigger] occurrences(
                g@[u as int],
                v,
            ) == occurrences(g@[v as int], u) by {
                assert(g@[u as int] == complete_row(n, u as int));
                assert(g@[v as int] == complete_row(n, v as int));
                lemma_complete_row(n, u as int, v);
                lemma_complete_row(n, v as int, u);
            }
        }
        g
    }

    /// The lists of neighbours, one per vertex.
    pub fn adj_list(&self) -> (lists: &[Vec<usize>])
        ensures
            lists@.len() == self@.len(),
            forall|i: int| 0 <= i < lists@.len() ==> (#[trigger] lists@[i])@ == self@[i],
    {
        self.adj_list.as_slice()
    }

    /// The lists of neighbours, open to change. Whoever changes them answers
    /// for `wf` afterwards.
    pub fn adj_list_mut(&mut self) -> (lists: &mut Vec<Vec<usize>>)
        ensures
            lists@.len() == old(self)@.len(),
            forall|i: int| 0 <= i < lists@.len() ==> (#[trigger] lists@[i])@ == old(self)@[i],
            final(self)@.len() == final(lists)@.len(),
            forall|i: int|
                0 <= i < final(lists)@.len() ==> #[trigger] final(self)@[i] == final(lists)@[i]@,
            final(self).spec_num_vertices() == old(self).spec_num_vertices(),
    {
        &mut self.adj_list
    }

    /// The number of vertices.
    pub fn num_vertices(&self) -> (n: usize)
        ensures
            n == self.spec_num_vertices(),
    {
        self.num_vertices
    }

    /// Checks that the counts that the algorithms keep fit the machine's
    /// integers.
    pub fn check_limits(&self) -> (fits: bool)
        requires
            self.wf(),
        ensures
            fits == self.within_limits(),
    {
        let n = self.num_vertices;
        if n > 0 && n > usize::MAX / n {
            assert(n * n > usize::MAX) by (nonlinear_arith)
                requires
                    n > 0,
                    n > (usize::MAX as int) / (n as int),
            ;
            return false;
        }
        assert(n * n <= usize::MAX) by (nonlinear_arith)
            requires
                n == 0 || n <= (usize::MAX as int) / (n as int),
        ;
        let mut total: usize = 0;
        let mut u: usize = 0;
        while u < n
            invariant
                n == self.adj_list@.len(),
                u <= n,
                total == sum_upto(list_lengths(self@), u as nat),
            decreases n - u,
        {
            let len = self.adj_list[u].len();
            assert(list_lengths(self@)(u as int) == len);
            if len > usize::MAX - total {
                proof {
                    crate::counting::lemma_sum_prefix(list_lengths(self@), (u + 1) as nat, n as nat);
                }
                return false;
            }
            total += len;
            u += 1;
        }
        true
    }

    /// Whether there is an edge between `u` and `v`; none where one of them
    /// is no vertex of the graph.
    pub fn has_edge(&self, u: usize, v: usize) -> (found: bool)
        requires
            self.wf(),
        ensures
            found == self.spec_has_edge(u as int, v as int),
    {
        if u < self.num_vertices && v < self.num_vertices {
            slice_contains(self.adj_list[u].as_slice(), v)
        } else {
            false
        }
    }

    /// Counts the entries in the list of vertex `i` that occur in `list`.
    pub fn get_degree_in_list(&self, i: usize, list: &[usize]) -> (degree: usize)
        requires
            self.wf(),
        ensures
            degree == degree_in_list(self@, i as int, list@),
    {
        if i < self.num_vertices {
            let neighbors = &self.adj_list[i];
            let mut degree: usize = 0;
            let mut k: usize = 0;
            while k < neighbors.len()
                invariant
                    k <= neighbors@.len(),
                    degree == count_if(neighbors@.take(k as int), is_member(list@)),
                    degree <= k,
                decreases neighbors@.len() - k,
            {
                proof {
                    lemma_count_if_step(neighbors@, is_member(list@), k as int);
                }
                if slice_contains(list, neighbors[k]) {
                    degree += 1;
                }
                k += 1;
            }
            assert(neighbors@.take(k as int) =~= neighbors@);
            degree
        } else {
            0
        }
    }

    /// Adds the edge between `u` and `v`. Does nothing when an endpoint is not
    /// a vertex of the graph or when the two are the same vertex.
    pub fn add_edge(&mut self, u: usize, v: usize)
        requires
            old(self).wf(),
        ensures
            final(self).wf(),
            final(self).spec_num_vertices() == old(self).spec_num_vertices(),
            u < old(self)@.len() && v < old(self)@.len() && u != v ==> final(self)@ == old(
                self,
            )@.update(u as int, old(self)@[u as int].push(v)).update(
                v as int,
                old(self)@[v as int].push(u),
            ),
            !(u < old(self)@.len() && v < old(self)@.len() && u != v) ==> final(self)@ == old(
                self,
            )@,
    {
        if u < self.num_vertices && v < self.num_vertices && u != v {
            self.adj_list[u].push(v);
            self.adj_list[v].push(u);
            proof {
                let before = old(self)@;
                let after = self@;
                assert(after =~= before.update(u as int, before[u as int].push(v)).update(
                    v as int,
                    before[v as int].push(u),
                ));
                assert forall|a: usize, b: usize|
                    a < after.len() && b < after.len() implies #[trigger] occurrences(
                    after[a as int],
                    b,
                ) == occurrences(after[b as int], a) by {
                    assert(occurrences(before[a as int], b) == occurrences(before[b as int], a));
                    lemma_count_if_push(before[u as int], is_value(b), v);
                    lemma_count_if_push(before[v as int], is_value(b), u);
                    lemma_count_if_push(before[u as int], is_value(a), v);
                    lemma_count_if_push(before[v as int], is_value(a), u);
                }
                assert forall|a: int, k: int|
                    0 <= a < after.len() && 0 <= k < after[a].len() implies (
                #[trigger] after[a][k]) < after.len() && after[a][k] != a by {
                    if k < before[a].len() {
                        assert(after[a][k] == before[a][k]);
                    }
                }
            }
        }
    }

    /// Takes one edge between `u` and `v` away, if there is one: in each of
    /// the two lists the first entry for the other endpoint is replaced by the
    /// list's last entry, which is dropped.
    pub fn sub_edge(&mut self, u: usize, v: usize)
        requires
            old(self).wf(),
        ensures
            final(self).wf(),
            final(self).spec_num_vertices() == old(self).spec_num_vertices(),
            old(self).spec_has_edge(u as int, v as int) ==> exists|i: int, j: int|
                {
                    &&& is_first_position(old(self)@[u as int], v, i)
                    &&& is_first_position(old(self)@[v as int], u, j)
                    &&& #[trigger] is_sub_edge_result(old(self)@, final(self)@, u, v, i, j)
                },
            !old(self).spec_has_edge(u as int, v as int) ==> final(self)@ == old(self)@,
    {
        if u < self.num_vertices && v < self.num_vertices {
            let at_u = position_of(&self.adj_list[u], v);
            let at_v = position_of(&self.adj_list[v], u);
            proof {
                lemma_occurrences_contains(self@[u as int], v);
                lemma_occurrences_contains(self@[v as int], u);
                assert(occurrences(self@[u as int], v) == occurrences(self@[v as int], u));
            }
            match (at_u, at_v) {
                (Some(i), Some(j)) => {
                    assert(self@[u as int][i as int] == v);
                    assert(u != v);
                    self.adj_list[u].swap_remove(i);
                    self.adj_list[v].swap_remove(j);
                    proof {
                        let before = old(self)@;
                        let after = self@;
                        assert(after[u as int] =~= swap_removed(before[u as int], i as int));
                        assert(after[v as int] =~= swap_removed(before[v as int], j as int));
                        assert(after =~= before.update(
                            u as int,
                            swap_removed(before[u as int], i as int),
                        ).update(v as int, swap_removed(before[v as int], j as int)));
                        assert(is_sub_edge_result(before, after, u, v, i as int, j as int));
                        assert forall|a: usize, b: usize|
                            a < after.len() && b < after.len() implies #[trigger] occurrences(
                            after[a as int],
                            b,
                        ) == occurrences(after[b as int], a) by {
                            assert(occurrences(before[a as int], b) == occurrences(
                                before[b as int],
                                a,
                            ));
                            lemma_swap_removed_occurrences(before[u as int], i as int, b);
                            lemma_swap_removed_occurrences(before[v as int], j as int, b);
                            lemma_swap_removed_occurrences(before[u as int], i as int, a);
                            lemma_swap_removed_occurrences(before[v as int], j as int, a);
                        }
                        assert forall|a: int, k: int|
                            0 <= a < after.len() && 0 <= k < after[a].len() implies (
                        #[trigger] after[a][k]) < after.len() && after[a][k] != a by {
                            let row = before[a];
                            assert(row[k] < before.len() && row[k] != a);
                            assert(row[row.len() - 1] < before.len() && row[row.len() - 1] != a);
                        }
                    }
                },
                _ => {},
            }
        }
    }
}

/// What `sub_edge` leaves of the lists `before` when the first entries for the
/// other endpoint stand at `i` in the list of `u` and at `j` in that of `v`.
pub open spec fn is_sub_edge_result(
    before: Seq<Seq<usize>>,
    after: Seq<Seq<usize>>,
    u: usize,
    v: usize,
    i: int,
    j: int,
) -> bool {
    after == before.update(u as int, swap_removed(before[u as int], i)).update(
        v as int,
        swap_removed(before[v as int], j),
    )
}

/// Whether `x` occurs in `list`.
pub fn slice_contains(list: &[usize], x: usize) -> (found: bool)
    ensures
        found == list@.contains(x),
{
    let mut k: usize = 0;
    while k < list.len()
        invariant
            k <= list@.len(),
            forall|j: int| 0 <= j < k ==> list@[j] != x,
        decreases list@.len() - k,
    {
        if list[k] == x {
            return true;
        }
        k += 1;
    }
    false
}

/// The first position of `list` that holds `x`, if there is one.
pub fn position_of(list: &Vec<usize>, x: usize) -> (found: Option<usize>)
    ensures
        match found {
            Some(k) => is_first_position(list@, x, k as int),
            None => !list@.contains(x),
        },
{
    let mut k: usize = 0;
    while k < list.len()
        invariant
            k <= list@.len(),
            forall|j: int| 0 <= j < k ==> list@[j] != x,
        decreases list@.len() - k,
    {
        if list[k] == x {
            return Some(k);
        }
        k += 1;
    }
    None
}

} // verus!
