//! The colouring algorithms, and what they share: what a proper colouring is,
//! how many colours one uses, and how to test both.

pub mod class_list;
pub mod conflicts;
pub mod genetic;
pub mod grasp;
pub mod grasp_pr;
pub mod laws;
pub mod pool;
pub mod vertex_lists;

use crate::counting::{count_if, lemma_count_if_positive};
use crate::graph::adj_list::AdjList;
use std::collections::HashSet;
use vstd::prelude::*;

verus! {

/// A colouring with the number of colours it is counted to use.
pub type Solution = (usize, Vec<usize>);

/// The predicate "has the colour `color` in `coloring`".
pub open spec fn has_color(coloring: Seq<usize>, color: usize) -> spec_fn(usize) -> bool {
    |x: usize| coloring[x as int] == color
}

/// Number of entries in the list of `v` that have the colour of `v`.
pub open spec fn conflicts_at(adj: Seq<Seq<usize>>, coloring: Seq<usize>, v: int) -> nat {
    count_if(adj[v], has_color(coloring, coloring[v]))
}

/// No neighbour of `v` has the colour of `v`.
pub open spec fn conflict_free_at(adj: Seq<Seq<usize>>, coloring: Seq<usize>, v: int) -> bool {
    forall|k: int| 0 <= k < adj[v].len() ==> coloring[(#[trigger] adj[v][k]) as int] != coloring[v]
}

/// `coloring` gives every vertex a colour, and the two ends of every edge
/// different ones.
pub open spec fn proper_coloring(adj: Seq<Seq<usize>>, coloring: Seq<usize>) -> bool {
    &&& coloring.len() == adj.len()
    &&& forall|v: int| 0 <= v < adj.len() ==> conflict_free_at(adj, coloring, v)
}

/// The positive colour ids that occur in `coloring`. Zero marks a vertex that
/// has no colour yet and is no colour.
pub open spec fn colors_used(coloring: Seq<usize>) -> Set<usize> {
    Set::new(|c: usize| c > 0 && coloring.contains(c))
}

/// A vertex is free of conflicts exactly when its count of conflicts is zero.
pub proof fn lemma_conflicts_zero(adj: Seq<Seq<usize>>, coloring: Seq<usize>, v: int)
    ensures
        conflicts_at(adj, coloring, v) == 0 <==> conflict_free_at(adj, coloring, v),
{
    let pred = has_color(coloring, coloring[v]);
    lemma_count_if_positive(adj[v], pred);
    if conflicts_at(adj, coloring, v) > 0 {
        let k = choose|k: int| 0 <= k < adj[v].len() && pred(#[trigger] adj[v][k]);
        assert(coloring[adj[v][k] as int] == coloring[v]);
    }
    if !conflict_free_at(adj, coloring, v) {
        let k = choose|k: int|
            0 <= k < adj[v].len() && coloring[(#[trigger] adj[v][k]) as int] == coloring[v];
        assert(pred(adj[v][k]));
    }
}

/// The colours used are finitely many, no more than there are vertices.
pub proof fn lemma_colors_used_finite(coloring: Seq<usize>)
    ensures
        colors_used(coloring).finite(),
        colors_used(coloring).len() <= coloring.len(),
{
    coloring.lemma_cardinality_of_set();
    vstd::set_lib::lemma_len_subset(colors_used(coloring), coloring.to_set());
}

/// The colour ids from one to `k`.
pub open spec fn color_range(k: nat) -> Set<usize> {
    Set::new(|c: usize| 1 <= c <= k)
}

/// There are `k` colour ids from one to `k`.
pub proof fn lemma_color_range(k: nat)
    requires
        k <= usize::MAX,
    ensures
        color_range(k).finite(),
        color_range(k).len() == k,
    decreases k,
{
    if k == 0 {
        assert(color_range(k) =~= Set::<usize>::empty());
    } else {
        lemma_color_range((k - 1) as nat);
        assert(color_range(k) =~= color_range((k - 1) as nat).insert(k as usize));
    }
}

/// A colouring whose colours lie between one and `k` uses at most `k` colours.
pub proof fn lemma_colors_bounded(coloring: Seq<usize>, k: usize)
    requires
        forall|v: int| 0 <= v < coloring.len() ==> 1 <= (#[trigger] coloring[v]) <= k,
    ensures
        colors_used(coloring).finite(),
        colors_used(coloring).len() <= k,
{
    lemma_color_range(k as nat);
    assert forall|c: usize| colors_used(coloring).contains(c) implies color_range(k as nat).contains(
        c,
    ) by {
        let v = choose|v: int| 0 <= v < coloring.len() && coloring[v] == c;
        assert(1 <= coloring[v] <= k);
    }
    vstd::set_lib::lemma_len_subset(colors_used(coloring), color_range(k as nat));
}

/// Some entry of `neighbors` below `limit` has the colour `color`.
pub open spec fn color_taken(
    neighbors: Seq<usize>,
    coloring: Seq<usize>,
    limit: int,
    color: usize,
) -> bool {
    exists|k: int|
        0 <= k < neighbors.len() && (#[trigger] neighbors[k]) < limit && coloring[neighbors[k] as int]
            == color
}

/// Colours that some neighbour has each are no more than there are
/// neighbours.
pub proof fn lemma_pigeonhole(neighbors: Seq<usize>, coloring: Seq<usize>, limit: int, k: nat)
    requires
        k <= usize::MAX,
        forall|color: usize|
            1 <= color <= k ==> #[trigger] color_taken(neighbors, coloring, limit, color),
    ensures
        k <= neighbors.len(),
{
    let witness = |color: usize|
        choose|i: int|
            0 <= i < neighbors.len() && (#[trigger] neighbors[i]) < limit
                && coloring[neighbors[i] as int] == color;
    let colors = color_range(k);
    lemma_color_range(k);
    let places = colors.map(witness);
    assert(vstd::relations::injective_on(witness, colors)) by {
        assert forall|a: usize, b: usize|
            colors.contains(a) && colors.contains(b) && witness(a) == witness(b) implies a == b by {
            assert(color_taken(neighbors, coloring, limit, a));
            assert(color_taken(neighbors, coloring, limit, b));
        }
    }
    vstd::set_lib::lemma_map_size(colors, places, witness);
    vstd::set_lib::lemma_int_range(0, neighbors.len() as int);
    assert(places.subset_of(vstd::set_lib::set_int_range(0, neighbors.len() as int))) by {
        assert forall|p: int| places.contains(p) implies vstd::set_lib::set_int_range(
            0,
            neighbors.len() as int,
        ).contains(p) by {
            let color = choose|color: usize| colors.contains(color) && witness(color) == p;
            assert(color_taken(neighbors, coloring, limit, color));
        }
    }
    vstd::set_lib::lemma_len_subset(
        places,
        vstd::set_lib::set_int_range(0, neighbors.len() as int),
    );
}

/// Checks that no neighbour of `node` has the colour of `node`.
pub fn is_valid_color_assignment(graph: &AdjList, solution: &[usize], node: usize) -> (valid: bool)
    requires
        graph.wf(),
        solution@.len() == graph@.len(),
        node < graph@.len(),
    ensures
        valid == conflict_free_at(graph@, solution@, node as int),
{
    let neighbors = &graph.adj_list()[node];
    let mut k: usize = 0;
    while k < neighbors.len()
        invariant
            graph.wf(),
            solution@.len() == graph@.len(),
            node < graph@.len(),
            neighbors@ == graph@[node as int],
            k <= neighbors@.len(),
            forall|j: int|
                0 <= j < k ==> solution@[(#[trigger] neighbors@[j]) as int] != solution@[node as int],
        decreases neighbors@.len() - k,
    {
        assert(graph@[node as int][k as int] < graph@.len());
        if solution[node] == solution[neighbors[k]] {
            return false;
        }
        k += 1;
    }
    true
}

/// Counts the colours that `solution` uses: its distinct positive entries.
pub fn count_colors(solution: &[usize]) -> (count: usize)
    ensures
        count == colors_used(solution@).len(),
{
    broadcast use vstd::std_specs::hash::group_hash_axioms;

    let mut colors: HashSet<usize> = HashSet::new();
    let mut i: usize = 0;
    while i < solution.len()
        invariant
            i <= solution@.len(),
            colors@ == colors_used(solution@.take(i as int)),
        decreases solution@.len() - i,
    {
        let color = solution[i];
        proof {
            let before = solution@.take(i as int);
            let after = solution@.take(i + 1);
            assert(after =~= before.push(color));
            assert forall|c: usize| after.contains(c) <==> before.contains(c) || c == color by {
                if after.contains(c) {
                    let k = choose|k: int| 0 <= k < after.len() && after[k] == c;
                    if k < i {
                        assert(before[k] == c);
                    }
                }
                if before.contains(c) {
                    let k = choose|k: int| 0 <= k < before.len() && before[k] == c;
                    assert(after[k] == c);
                }
                if c == color {
                    assert(after[i as int] == c);
                }
            }
            if color > 0 {
                assert(colors_used(after) =~= colors_used(before).insert(color));
            } else {
                assert(colors_used(after) =~= colors_used(before));
            }
        }
        if color > 0 {
            colors.insert(color);
        }
        i += 1;
    }
    assert(solution@.take(i as int) =~= solution@);
    colors.len()
}

/// Checks that `coloring` gives the two ends of every edge of `graph`
/// different colours.
pub fn is_coloring_valid(graph: &AdjList, coloring: &[usize]) -> (valid: bool)
    requires
        graph.wf(),
        coloring@.len() == graph@.len(),
    ensures
        valid == proper_coloring(graph@, coloring@),
{
    let n = graph.num_vertices();
    let mut v: usize = 0;
    while v < n
        invariant
            graph.wf(),
            coloring@.len() == graph@.len(),
            n == graph@.len(),
            v <= n,
            forall|u: int| 0 <= u < v ==> conflict_free_at(graph@, coloring@, u),
        decreases n - v,
    {
        if !is_valid_color_assignment(graph, coloring, v) {
            return false;
        }
        v += 1;
    }
    true
}

} // verus!
