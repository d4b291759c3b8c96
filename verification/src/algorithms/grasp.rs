//! Greedy randomized adaptive search: colour classes built one at a time from
//! a short list of high-degree candidates, then merged two by two as long as
//! a local search can repair the merge.

use crate::algorithms::class_list::{
    carried_classes, class_coloring, class_list_of, classes_disjoint, color_in, is_partition,
    is_smallest_class, lemma_class_list_of, lemma_color_in, lemma_color_in_member,
    lemma_disjoint_positions, lemma_max_color, lemma_merged_padding, lemma_merged_partition,
    lemma_move_vertex, lemma_partition_padding, lists_of, max_color, merged_classes,
    move_vertex, vertices_with,
};
use crate::algorithms::conflicts::{
    conflict_counts, directed_conflicts, forbidden_edges, forbidden_set,
    lemma_directed_conflicts_bound, lemma_no_forbidden_edges, lemma_recolor_conflicts,
};
use crate::algorithms::{
    color_taken, conflicts_at, has_color, lemma_pigeonhole, proper_coloring, Solution,
};
use crate::counting::{count_if, is_member, lemma_count_if_bound, lemma_count_if_step, sum_upto};
use crate::algorithms::laws::lemma_class_list_round_trip;
use crate::algorithms::pool::{kept_best, lemma_kept_best, solutions_of, SolutionPool};
use crate::algorithms::vertex_lists::{
    apart_from, is_absent, is_apart, is_vertex_list, kept_if, lemma_kept_if,
    lemma_kept_if_shorter, lemma_vertex_list_bound, without,
};
use crate::graph::adj_list::{
    degree_in_list, lemma_adjacency_symmetric, position_of, slice_contains, AdjList,
};
use crate::random::choose_one;
use rayon::iter::{IntoParallelIterator, ParallelIterator};
use std::collections::HashSet;
use vstd::prelude::*;
use vstd::std_specs::iter::IteratorSpec;

verus! {

/// The list against which `get_n_largest_degree` counts degrees: `list` where
/// one is given, and `subset` itself where none is.
pub open spec fn counted_list(subset: Seq<usize>, list: Option<&[usize]>) -> Seq<usize> {
    match list {
        Some(list) => list@,
        None => subset,
    }
}

/// Vertex `a` comes before vertex `b` in the ranking by degree in `list`: it
/// has the larger degree, or the same degree and the smaller index.
pub open spec fn ranks_before(adj: Seq<Seq<usize>>, list: Seq<usize>, a: usize, b: usize) -> bool {
    degree_in_list(adj, a as int, list) > degree_in_list(adj, b as int, list) || (degree_in_list(
        adj,
        a as int,
        list,
    ) == degree_in_list(adj, b as int, list) && a < b)
}

/// `ranked` holds the first `n` vertices of `subset` in the ranking by degree
/// in `list`, in that order, or all of them where there are fewer.
pub open spec fn is_top_ranked(
    adj: Seq<Seq<usize>>,
    subset: Seq<usize>,
    list: Seq<usize>,
    n: nat,
    ranked: Seq<usize>,
) -> bool {
    &&& ranked.len() <= n
    &&& forall|k: int|
        0 <= k < ranked.len() ==> (#[trigger] ranked[k]) < adj.len() && subset.contains(ranked[k])
    &&& forall|k: int, l: int|
        0 <= k < l < ranked.len() ==> ranks_before(adj, list, #[trigger] ranked[k], #[trigger] ranked[l])
    &&& forall|v: usize|
        v < adj.len() && #[trigger] subset.contains(v) && !ranked.contains(v) ==> ranked.len() == n
            && forall|k: int|
            0 <= k < ranked.len() ==> ranks_before(adj, list, #[trigger] ranked[k], v)
}

/// Gets the `n` vertices of `subset` with the largest degrees, the largest
/// first and of equal degrees the smaller vertex first; all of them where
/// `subset` has fewer. The degree of a vertex counts its neighbours in
/// `list`, or in `subset` where no list is given.
pub fn get_n_largest_degree(
    n: usize,
    graph: &AdjList,
    subset: &[usize],
    list: Option<&[usize]>,
) -> (ranked: Vec<usize>)
    requires
        graph.wf(),
    ensures
        is_top_ranked(graph@, subset@, counted_list(subset@, list), n as nat, ranked@),
{
    let counted = match list {
        Some(list) => list,
        None => subset,
    };
    let ghost adj = graph@;
    let num_vertices = graph.num_vertices();
    let mut vertices: Vec<usize> = Vec::new();
    let mut degrees: Vec<usize> = Vec::new();
    let mut v: usize = 0;
    while v < num_vertices
        invariant
            graph.wf(),
            adj == graph@,
            num_vertices == adj.len(),
            counted@ == counted_list(subset@, list),
            v <= num_vertices,
            vertices@.len() == degrees@.len(),
            forall|k: int|
                0 <= k < vertices@.len() ==> (#[trigger] vertices@[k]) < v && subset@.contains(
                    vertices@[k],
                ) && degrees@[k] == degree_in_list(adj, vertices@[k] as int, counted@),
            forall|k: int, l: int|
                0 <= k < l < vertices@.len() ==> (#[trigger] vertices@[k]) < (
                #[trigger] vertices@[l]),
            forall|u: usize| u < v && #[trigger] subset@.contains(u) ==> vertices@.contains(u),
        decreases num_vertices - v,
    {
        if slice_contains(subset, v) {
            let ghost before = vertices@;
            vertices.push(v);
            degrees.push(graph.get_degree_in_list(v, counted));
            proof {
                assert forall|u: usize| u < v + 1 && #[trigger] subset@.contains(
                    u,
                ) implies vertices@.contains(u) by {
                    if u < v {
                        let k = choose|k: int| 0 <= k < before.len() && before[k] == u;
                        assert(vertices@[k] == u);
                    } else {
                        assert(vertices@[before.len() as int] == u);
                    }
                }
            }
        }
        v += 1;
    }
    let mut ranked: Vec<usize> = Vec::new();
    while ranked.len() < n && vertices.len() > 0
        invariant
            adj == graph@,
            num_vertices == adj.len(),
            counted@ == counted_list(subset@, list),
            vertices@.len() == degrees@.len(),
            ranked@.len() <= n,
            forall|k: int|
                0 <= k < vertices@.len() ==> (#[trigger] vertices@[k]) < num_vertices
                    && subset@.contains(vertices@[k]) && degrees@[k] == degree_in_list(
                    adj,
                    vertices@[k] as int,
                    counted@,
                ),
            forall|k: int, l: int|
                0 <= k < l < vertices@.len() ==> (#[trigger] vertices@[k]) < (
                #[trigger] vertices@[l]),
            forall|k: int|
                0 <= k < ranked@.len() ==> (#[trigger] ranked@[k]) < num_vertices
                    && subset@.contains(ranked@[k]),
            forall|k: int, l: int|
                0 <= k < l < ranked@.len() ==> ranks_before(
                    adj,
                    counted@,
                    #[trigger] ranked@[k],
                    #[trigger] ranked@[l],
                ),
            forall|k: int, l: int|
                0 <= k < ranked@.len() && 0 <= l < vertices@.len() ==> ranks_before(
                    adj,
                    counted@,
                    #[trigger] ranked@[k],
                    #[trigger] vertices@[l],
                ),
            forall|u: usize|
                u < num_vertices && #[trigger] subset@.contains(u) ==> vertices@.contains(u)
                    || ranked@.contains(u),
        decreases vertices@.len(),
    {
        let mut best: usize = 0;
        let mut j: usize = 1;
        while j < vertices.len()
            invariant
                vertices@.len() == degrees@.len(),
                vertices@.len() > 0,
                best < j,
                1 <= j <= vertices@.len(),
                forall|i: int|
                    0 <= i < j ==> (#[trigger] degrees@[i]) < degrees@[best as int] || (degrees@[i]
                        == degrees@[best as int] && i >= best),
            decreases vertices@.len() - j,
        {
            if degrees[j] > degrees[best] {
                best = j;
            }
            j += 1;
        }
        let ghost old_vertices = vertices@;
        let ghost old_degrees = degrees@;
        let ghost old_ranked = ranked@;
        let vertex = vertices.remove(best);
        degrees.remove(best);
        ranked.push(vertex);
        proof {
            assert forall|k: int| 0 <= k < vertices@.len() implies #[trigger] vertices@[k]
                == old_vertices[if k < best { k } else { k + 1 }] && degrees@[k] == old_degrees[if k
                < best {
                k
            } else {
                k + 1
            }] by {}
            assert forall|k: int, l: int|
                0 <= k < ranked@.len() && 0 <= l < vertices@.len() implies ranks_before(
                adj,
                counted@,
                #[trigger] ranked@[k],
                #[trigger] vertices@[l],
            ) by {
                let l2 = if l < best { l } else { l + 1 };
                assert(vertices@[l] == old_vertices[l2]);
                if k < old_ranked.len() {
                    assert(ranks_before(adj, counted@, old_ranked[k], old_vertices[l2]));
                } else {
                    assert(ranked@[k] == old_vertices[best as int]);
                    assert(old_degrees[l2] < old_degrees[best as int] || (old_degrees[l2]
                        == old_degrees[best as int] && l2 >= best));
                    if l2 > best {
                        assert(old_vertices[best as int] < old_vertices[l2]);
                    }
                }
            }
            assert forall|k: int, l: int| 0 <= k < l < ranked@.len() implies ranks_before(
                adj,
                counted@,
                #[trigger] ranked@[k],
                #[trigger] ranked@[l],
            ) by {
                if l == old_ranked.len() {
                    assert(ranks_before(adj, counted@, old_ranked[k], old_vertices[best as int]));
                }
            }
            assert forall|u: usize|
                u < num_vertices && #[trigger] subset@.contains(u) implies vertices@.contains(u)
                || ranked@.contains(u) by {
                if old_ranked.contains(u) {
                    let k = choose|k: int| 0 <= k < old_ranked.len() && old_ranked[k] == u;
                    assert(ranked@[k] == u);
                } else {
                    let k = choose|k: int| 0 <= k < old_vertices.len() && old_vertices[k] == u;
                    if k == best {
                        assert(ranked@[old_ranked.len() as int] == u);
                    } else if k < best {
                        assert(vertices@[k] == u);
                    } else {
                        assert(vertices@[k - 1] == u);
                    }
                }
            }
            assert forall|k: int, l: int| 0 <= k < l < vertices@.len() implies (
            #[trigger] vertices@[k]) < (#[trigger] vertices@[l]) by {
                let k2 = if k < best { k } else { k + 1 };
                let l2 = if l < best { l } else { l + 1 };
                assert(old_vertices[k2] < old_vertices[l2]);
            }
        }
    }
    proof {
        assert forall|u: usize|
            u < adj.len() && #[trigger] subset@.contains(u) && !ranked@.contains(
                u,
            ) implies ranked@.len() == n && forall|k: int|
            0 <= k < ranked@.len() ==> ranks_before(adj, counted@, #[trigger] ranked@[k], u) by {
            assert(vertices@.contains(u));
            let l = choose|l: int| 0 <= l < vertices@.len() && vertices@[l] == u;
            assert forall|k: int| 0 <= k < ranked@.len() implies ranks_before(
                adj,
                counted@,
                #[trigger] ranked@[k],
                u,
            ) by {
                assert(ranks_before(adj, counted@, ranked@[k], vertices@[l]));
            }
        }
    }
    ranked
}

/// Number of positions after `i` in `list` that hold a neighbour of the
/// vertex at `i`; zero where that is no vertex of the graph.
pub open spec fn edges_from(adj: Seq<Seq<usize>>, list: Seq<usize>, i: int) -> nat {
    if list[i] < adj.len() {
        count_if(list.skip(i + 1), is_member(adj[list[i] as int]))
    } else {
        0
    }
}

/// `edges_from` at each position of `list`.
pub open spec fn edge_counts(adj: Seq<Seq<usize>>, list: Seq<usize>) -> spec_fn(int) -> nat {
    |i: int| edges_from(adj, list, i)
}

/// Number of edges among the vertices of `list`: the pairs of positions of
/// which the later holds a neighbour of the vertex at the earlier.
pub open spec fn induced_edges(adj: Seq<Seq<usize>>, list: Seq<usize>) -> nat {
    sum_upto(edge_counts(adj, list), list.len())
}

/// There are fewer edges among the vertices of a list than pairs of its
/// positions.
pub proof fn lemma_induced_edges_bound(adj: Seq<Seq<usize>>, list: Seq<usize>, upto: nat)
    requires
        upto <= list.len(),
    ensures
        sum_upto(edge_counts(adj, list), upto) <= upto * list.len(),
        upto > 0 ==> sum_upto(edge_counts(adj, list), upto) < upto * list.len(),
    decreases upto,
{
    if upto > 0 {
        lemma_induced_edges_bound(adj, list, (upto - 1) as nat);
        let i = upto - 1;
        if list[i] < adj.len() {
            lemma_count_if_bound(list.skip(i + 1), is_member(adj[list[i] as int]));
        }
        assert(edge_counts(adj, list)(i) < list.len());
        assert(upto * list.len() == (upto - 1) * list.len() + list.len()) by (nonlinear_arith);
    }
}

/// Counts the edges of `graph` among the vertices of `list`.
pub fn count_remaining_edges(graph: &AdjList, list: &[usize]) -> (count: usize)
    requires
        graph.wf(),
        list@.len() * list@.len() <= usize::MAX,
    ensures
        count == induced_edges(graph@, list@),
        list@.len() > 0 ==> count < list@.len() * list@.len(),
{
    let num_vertices = graph.num_vertices();
    let lists = graph.adj_list();
    let mut count: usize = 0;
    let mut i: usize = 0;
    while i < list.len()
        invariant
            graph.wf(),
            num_vertices == graph@.len(),
            lists@.len() == graph@.len(),
            forall|u: int| 0 <= u < lists@.len() ==> (#[trigger] lists@[u])@ == graph@[u],
            list@.len() * list@.len() <= usize::MAX,
            i <= list@.len(),
            count == sum_upto(edge_counts(graph@, list@), i as nat),
        decreases list@.len() - i,
    {
        proof {
            lemma_induced_edges_bound(graph@, list@, (i + 1) as nat);
            assert((i + 1) * list@.len() <= list@.len() * list@.len()) by (nonlinear_arith)
                requires
                    i + 1 <= list@.len(),
            ;
        }
        if list[i] < num_vertices {
            let neighbors = &lists[list[i]];
            let ghost pred = is_member(neighbors@);
            let ghost rest = list@.skip(i + 1);
            let mut found: usize = 0;
            let mut j: usize = i + 1;
            while j < list.len()
                invariant
                    i < list@.len(),
                    i + 1 <= j <= list@.len(),
                    rest == list@.skip(i + 1),
                    pred == is_member(neighbors@),
                    found == count_if(rest.take(j - i - 1), pred),
                    found <= j - i - 1,
                decreases list@.len() - j,
            {
                proof {
                    lemma_count_if_step(rest, pred, j - i - 1);
                    assert(rest[j - i - 1] == list@[j as int]);
                }
                if slice_contains(neighbors.as_slice(), list[j]) {
                    found += 1;
                }
                j += 1;
            }
            assert(rest.take(j - i - 1) =~= rest);
            assert(edge_counts(graph@, list@)(i as int) == found);
            count += found;
        } else {
            assert(edge_counts(graph@, list@)(i as int) == 0);
        }
        i += 1;
    }
    proof {
        lemma_induced_edges_bound(graph@, list@, list@.len());
    }
    count
}

/// Some vertex of `class` has `u` as a neighbour.
pub open spec fn has_neighbor_in(adj: Seq<Seq<usize>>, class: Seq<usize>, u: usize) -> bool {
    exists|k: int| 0 <= k < class.len() && adj[(#[trigger] class[k]) as int].contains(u)
}

/// No vertex of `class` is a neighbour of another.
pub open spec fn is_independent(adj: Seq<Seq<usize>>, class: Seq<usize>) -> bool {
    forall|k: int, l: int|
        0 <= k < class.len() && 0 <= l < class.len() ==> !adj[(#[trigger] class[k]) as int].contains(
            #[trigger] class[l],
        )
}

/// `class` can be the next colour class of the vertices `vertex_set`: it holds
/// some of them, each once and no two of them neighbours, and every other one
/// is a neighbour of one it holds.
pub open spec fn is_color_class(
    adj: Seq<Seq<usize>>,
    vertex_set: Seq<usize>,
    class: Seq<usize>,
) -> bool {
    &&& class.no_duplicates()
    &&& forall|k: int| 0 <= k < class.len() ==> vertex_set.contains(#[trigger] class[k])
    &&& is_independent(adj, class)
    &&& forall|u: usize| #[trigger]
        vertex_set.contains(u) ==> class.contains(u) || has_neighbor_in(adj, class, u)
}

/// The vertices that are still admissible after the vertices `picks` were put
/// into the class, one after the other: those of `vertex_set` that are none
/// of them and no neighbour of one of them.
pub open spec fn admissible_after(
    adj: Seq<Seq<usize>>,
    vertex_set: Seq<usize>,
    picks: Seq<usize>,
) -> Seq<usize>
    decreases picks.len(),
{
    if picks.len() == 0 {
        vertex_set
    } else {
        kept_if(
            admissible_after(adj, vertex_set, picks.drop_last()),
            is_apart(adj[picks.last() as int], picks.last()),
        )
    }
}

/// The inadmissible vertices after the vertices `picks` were put into the
/// class: the neighbours of the first, then those of the second, and so on.
pub open spec fn inadmissible_after(adj: Seq<Seq<usize>>, picks: Seq<usize>) -> Seq<usize>
    decreases picks.len(),
{
    if picks.len() == 0 {
        Seq::empty()
    } else {
        inadmissible_after(adj, picks.drop_last()) + adj[picks.last() as int]
    }
}

/// The vertices against which the degrees are counted for the draw that
/// follows the vertices `picks`: the inadmissible ones, or the admissible
/// ones as long as none is inadmissible.
pub open spec fn counted_after(
    adj: Seq<Seq<usize>>,
    vertex_set: Seq<usize>,
    picks: Seq<usize>,
) -> Seq<usize> {
    if inadmissible_after(adj, picks).len() == 0 {
        admissible_after(adj, vertex_set, picks)
    } else {
        inadmissible_after(adj, picks)
    }
}

/// `vertex` is one of the first `size` vertices of `admissible` in the
/// ranking by degree in `counted`.
pub open spec fn is_candidate(
    adj: Seq<Seq<usize>>,
    admissible: Seq<usize>,
    counted: Seq<usize>,
    size: nat,
    vertex: usize,
) -> bool {
    exists|ranked: Seq<usize>| #[trigger]
        is_top_ranked(adj, admissible, counted, size, ranked) && ranked.contains(vertex)
}

/// `class` can be drawn from the vertices `vertex_set`: each of its vertices
/// was, when its turn came, one of the `size` admissible vertices of largest
/// degree, and after the last of them no vertex is admissible.
pub open spec fn is_drawn_class(
    adj: Seq<Seq<usize>>,
    vertex_set: Seq<usize>,
    size: nat,
    class: Seq<usize>,
) -> bool {
    &&& forall|i: int|
        0 <= i < class.len() ==> is_candidate(
            adj,
            admissible_after(adj, vertex_set, class.take(i)),
            counted_after(adj, vertex_set, class.take(i)),
            size,
            #[trigger] class[i],
        )
    &&& admissible_after(adj, vertex_set, class).len() == 0
}

/// Puts `vertex` into the class that is being built: the vertex and its
/// neighbours leave the admissible vertices, and its neighbours join the
/// inadmissible ones.
pub fn add_to_class(
    graph: &AdjList,
    vertex: usize,
    class: &mut Vec<usize>,
    admissible: &mut Vec<usize>,
    inadmissible: &mut Vec<usize>,
)
    requires
        graph.wf(),
        vertex < graph@.len(),
    ensures
        final(class)@ == old(class)@.push(vertex),
        final(admissible)@ == kept_if(old(admissible)@, is_apart(graph@[vertex as int], vertex)),
        final(inadmissible)@ == old(inadmissible)@ + graph@[vertex as int],
{
    let neighbors = &graph.adj_list()[vertex];
    class.push(vertex);
    let kept = apart_from(admissible.as_slice(), neighbors.as_slice(), vertex);
    *admissible = kept;
    let mut k: usize = 0;
    while k < neighbors.len()
        invariant
            neighbors@ == graph@[vertex as int],
            k <= neighbors@.len(),
            inadmissible@ == old(inadmissible)@ + neighbors@.take(k as int),
        decreases neighbors@.len() - k,
    {
        inadmissible.push(neighbors[k]);
        assert(neighbors@.take(k + 1) =~= neighbors@.take(k as int).push(neighbors@[k as int]));
        assert(inadmissible@ =~= old(inadmissible)@ + neighbors@.take(k + 1));
        k += 1;
    }
    assert(neighbors@.take(k as int) =~= neighbors@);
}

/// Makes `class` the class of number `num_color_classes` where taking it out
/// of `vertex_set` leaves fewer edges among the vertices that remain than
/// `min_num_edges_remaining`, which then becomes that number of edges.
pub fn keep_if_better(
    vertex_set: &[usize],
    class: Vec<usize>,
    graph: &AdjList,
    min_num_edges_remaining: &mut usize,
    class_list: &mut [Vec<usize>],
    num_color_classes: usize,
)
    requires
        graph.wf(),
        1 <= num_color_classes <= old(class_list)@.len(),
        vertex_set@.len() * vertex_set@.len() <= usize::MAX,
    ensures
        ({
            let remaining = induced_edges(graph@, kept_if(vertex_set@, is_absent(class@)));
            if remaining < *old(min_num_edges_remaining) {
                &&& *final(min_num_edges_remaining) == remaining
                &&& lists_of(final(class_list)@) == lists_of(old(class_list)@).update(
                    num_color_classes - 1,
                    class@,
                )
            } else {
                &&& *final(min_num_edges_remaining) == *old(min_num_edges_remaining)
                &&& lists_of(final(class_list)@) == lists_of(old(class_list)@)
            }
        }),
{
    let remaining_vertices = without(vertex_set, class.as_slice());
    proof {
        lemma_kept_if(vertex_set@, is_absent(class@));
        assert(remaining_vertices@.len() * remaining_vertices@.len() <= vertex_set@.len()
            * vertex_set@.len()) by (nonlinear_arith)
            requires
                remaining_vertices@.len() <= vertex_set@.len(),
        ;
    }
    let remaining_edges = count_remaining_edges(graph, remaining_vertices.as_slice());
    if remaining_edges < *min_num_edges_remaining {
        let ghost before = lists_of(class_list@);
        class_list[num_color_classes - 1] = class;
        *min_num_edges_remaining = remaining_edges;
        assert(lists_of(class_list@) =~= before.update(num_color_classes - 1, class@));
    } else {
        assert(lists_of(class_list@) =~= lists_of(old(class_list)@));
    }
}

/// Builds one candidate for the class of number `num_color_classes` from the
/// vertices `vertex_set`, and keeps it where it is better than what was kept
/// before. A class is built by drawing one vertex after another from the
/// `color_list_size` admissible vertices of largest degree, a vertex and its
/// neighbours being no longer admissible once it is drawn. The degree counts
/// the admissible neighbours for as long as no vertex is inadmissible, and
/// the inadmissible ones after that.
pub fn assign_color(
    vertex_set: &[usize],
    color_list_size: usize,
    graph: &AdjList,
    min_num_edges_remaining: &mut usize,
    class_list: &mut [Vec<usize>],
    num_color_classes: usize,
)
    requires
        graph.wf(),
        graph.within_limits(),
        color_list_size >= 1,
        1 <= num_color_classes <= old(class_list)@.len(),
        is_vertex_list(vertex_set@, graph@.len()),
    ensures
        final(class_list)@.len() == old(class_list)@.len(),
        forall|i: int|
            0 <= i < old(class_list)@.len() && i != num_color_classes - 1 ==> #[trigger] lists_of(
                final(class_list)@,
            )[i] == lists_of(old(class_list)@)[i],
        *final(min_num_edges_remaining) <= *old(min_num_edges_remaining),
        *final(min_num_edges_remaining) < *old(min_num_edges_remaining) ==> {
            let class = lists_of(final(class_list)@)[num_color_classes - 1];
            &&& is_color_class(graph@, vertex_set@, class)
            &&& is_drawn_class(graph@, vertex_set@, color_list_size as nat, class)
            &&& *final(min_num_edges_remaining) == induced_edges(
                graph@,
                kept_if(vertex_set@, is_absent(class)),
            )
        },
        *final(min_num_edges_remaining) == *old(min_num_edges_remaining) ==> lists_of(
            final(class_list)@,
        ) == lists_of(old(class_list)@),
        vertex_set@.len() > 0 && *old(min_num_edges_remaining) == usize::MAX ==> *final(
            min_num_edges_remaining
        ) < usize::MAX,
{
    let ghost adj = graph@;
    let ghost n = graph@.len();
    let mut admissible_uncolored: Vec<usize> = vstd::slice::slice_to_vec(vertex_set);
    let mut inadmissible_uncolored: Vec<usize> = Vec::new();
    let mut current_color_class: Vec<usize> = Vec::new();
    while admissible_uncolored.len() > 0
        invariant
            graph.wf(),
            adj == graph@,
            n == adj.len(),
            color_list_size >= 1,
            is_vertex_list(vertex_set@, n),
            is_vertex_list(admissible_uncolored@, n),
            current_color_class@.no_duplicates(),
            forall|k: int|
                0 <= k < admissible_uncolored@.len() ==> vertex_set@.contains(
                    #[trigger] admissible_uncolored@[k],
                ),
            forall|k: int|
                0 <= k < current_color_class@.len() ==> vertex_set@.contains(
                    #[trigger] current_color_class@[k],
                ) && !admissible_uncolored@.contains(current_color_class@[k]),
            forall|k: int, l: int|
                0 <= k < current_color_class@.len() && 0 <= l < admissible_uncolored@.len()
                    ==> !adj[(#[trigger] current_color_class@[k]) as int].contains(
                    #[trigger] admissible_uncolored@[l],
                ),
            is_independent(adj, current_color_class@),
            forall|u: usize| #[trigger]
                vertex_set@.contains(u) ==> current_color_class@.contains(u)
                    || admissible_uncolored@.contains(u) || has_neighbor_in(
                    adj,
                    current_color_class@,
                    u,
                ),
            admissible_uncolored@ == admissible_after(adj, vertex_set@, current_color_class@),
            inadmissible_uncolored@ == inadmissible_after(adj, current_color_class@),
            forall|i: int|
                0 <= i < current_color_class@.len() ==> is_candidate(
                    adj,
                    admissible_after(adj, vertex_set@, current_color_class@.take(i)),
                    counted_after(adj, vertex_set@, current_color_class@.take(i)),
                    color_list_size as nat,
                    #[trigger] current_color_class@[i],
                ),
        decreases admissible_uncolored@.len(),
    {
        let candidate_list = if inadmissible_uncolored.len() == 0 {
            get_n_largest_degree(color_list_size, graph, admissible_uncolored.as_slice(), None)
        } else {
            get_n_largest_degree(
                color_list_size,
                graph,
                admissible_uncolored.as_slice(),
                Some(inadmissible_uncolored.as_slice()),
            )
        };
        proof {
            if candidate_list@.len() == 0 {
                let first = admissible_uncolored@[0];
                assert(admissible_uncolored@.contains(first));
                assert(first < n);
                assert(!candidate_list@.contains(first));
            }
        }
        let picked = choose_one(&candidate_list);
        let vertex = picked.unwrap();
        let ghost class = current_color_class@;
        let ghost admissible = admissible_uncolored@;
        proof {
            assert(is_top_ranked(
                adj,
                admissible,
                counted_after(adj, vertex_set@, class),
                color_list_size as nat,
                candidate_list@,
            ));
        }
        proof {
            let k = choose|k: int| 0 <= k < candidate_list@.len() && candidate_list@[k] == vertex;
            assert(candidate_list@[k] < n && admissible.contains(candidate_list@[k]));
        }
        add_to_class(
            graph,
            vertex,
            &mut current_color_class,
            &mut admissible_uncolored,
            &mut inadmissible_uncolored,
        );
        proof {
            let apart = is_apart(adj[vertex as int], vertex);
            let now = admissible_uncolored@;
            let grown = current_color_class@;
            assert(grown.drop_last() =~= class);
            assert forall|i: int| 0 <= i < grown.len() implies is_candidate(
                adj,
                admissible_after(adj, vertex_set@, grown.take(i)),
                counted_after(adj, vertex_set@, grown.take(i)),
                color_list_size as nat,
                #[trigger] grown[i],
            ) by {
                if i < class.len() {
                    assert(grown.take(i) =~= class.take(i));
                    assert(grown[i] == class[i]);
                } else {
                    assert(grown.take(i) =~= class);
                }
            }
            lemma_kept_if(admissible, apart);
            let at = choose|k: int| 0 <= k < admissible.len() && admissible[k] == vertex;
            lemma_kept_if_shorter(admissible, apart, at);
            assert forall|k: int| 0 <= k < now.len() implies (#[trigger] now[k]) < n
                && vertex_set@.contains(now[k]) by {
                assert(now.contains(now[k]));
                assert(admissible.contains(now[k]));
                let j = choose|j: int| 0 <= j < admissible.len() && admissible[j] == now[k];
                assert(admissible[j] < n && vertex_set@.contains(admissible[j]));
            }
            // The vertex drawn was admissible, so it is new to the class.
            assert(!class.contains(vertex)) by {
                if class.contains(vertex) {
                    let k = choose|k: int| 0 <= k < class.len() && class[k] == vertex;
                    assert(!admissible.contains(class[k]));
                }
            }
            crate::algorithms::class_list::lemma_push_membership(class, vertex);
            assert forall|k: int| 0 <= k < grown.len() implies vertex_set@.contains(
                #[trigger] grown[k],
            ) && !now.contains(grown[k]) by {
                if k < class.len() {
                    assert(grown[k] == class[k]);
                    assert(!admissible.contains(class[k]));
                } else {
                    assert(grown[k] == vertex);
                    let j = choose|j: int| 0 <= j < admissible.len() && admissible[j] == vertex;
                    assert(vertex_set@.contains(admissible[j]));
                }
            }
            assert forall|k: int, l: int| 0 <= k < grown.len() && 0 <= l < now.len() implies !adj[(
            #[trigger] grown[k]) as int].contains(#[trigger] now[l]) by {
                assert(now.contains(now[l]));
                assert(admissible.contains(now[l]));
                let j = choose|j: int| 0 <= j < admissible.len() && admissible[j] == now[l];
                if k < class.len() {
                    assert(grown[k] == class[k]);
                    assert(!adj[class[k] as int].contains(admissible[j]));
                } else {
                    assert(grown[k] == vertex);
                }
            }
            assert forall|k: int, l: int| 0 <= k < grown.len() && 0 <= l < grown.len() implies !adj[(
            #[trigger] grown[k]) as int].contains(#[trigger] grown[l]) by {
                if k < class.len() && l < class.len() {
                    assert(grown[k] == class[k] && grown[l] == class[l]);
                } else if k < class.len() {
                    assert(grown[k] == class[k]);
                    assert(!adj[class[k] as int].contains(admissible[at]));
                } else if l < class.len() {
                    assert(grown[l] == class[l]);
                    assert(vertex_set@.contains(class[l]));
                    let j = choose|j: int| 0 <= j < vertex_set@.len() && vertex_set@[j] == class[l];
                    assert(vertex_set@[j] < n);
                    assert(!adj[class[l] as int].contains(admissible[at]));
                    lemma_adjacency_symmetric(adj, vertex, class[l]);
                } else {
                    lemma_adjacency_symmetric(adj, vertex, vertex);
                }
            }
            assert forall|u: usize| #[trigger] vertex_set@.contains(u) implies grown.contains(u)
                || now.contains(u) || has_neighbor_in(adj, grown, u) by {
                if class.contains(u) {
                } else if has_neighbor_in(adj, class, u) {
                    let k = choose|k: int|
                        0 <= k < class.len() && adj[(#[trigger] class[k]) as int].contains(u);
                    assert(adj[grown[k] as int].contains(u));
                } else {
                    assert(admissible.contains(u));
                    if u == vertex {
                    } else if adj[vertex as int].contains(u) {
                        assert(adj[grown[class.len() as int] as int].contains(u));
                    } else {
                        assert(apart(u));
                    }
                }
            }
        }
    }
    proof {
        lemma_vertex_list_bound(vertex_set@, n);
        assert(vertex_set@.len() * vertex_set@.len() <= n * n) by (nonlinear_arith)
            requires
                vertex_set@.len() <= n,
        ;
        let class = current_color_class@;
        assert forall|u: usize| #[trigger] vertex_set@.contains(u) implies class.contains(u)
            || has_neighbor_in(adj, class, u) by {
            if admissible_uncolored@.contains(u) {
                assert(admissible_uncolored@.len() > 0);
            }
        }
        assert(is_color_class(adj, vertex_set@, class));
        // What is left of the vertices has fewer edges than pairs of them.
        let left = kept_if(vertex_set@, is_absent(class));
        lemma_kept_if(vertex_set@, is_absent(class));
        lemma_induced_edges_bound(adj, left, left.len());
        if left.len() > 0 {
            assert(left.len() * left.len() <= n * n) by (nonlinear_arith)
                requires
                    left.len() <= n,
            ;
        }
    }
    keep_if_better(
        vertex_set,
        current_color_class,
        graph,
        min_num_edges_remaining,
        class_list,
        num_color_classes,
    );
    assert(lists_of(class_list@).len() == lists_of(old(class_list)@).len());
}

/// Counts the neighbours of `vertex` that have its colour.
pub fn count_forbidden_per_vertex(graph: &AdjList, coloring: &[usize], vertex: usize) -> (count:
    usize)
    requires
        graph.wf(),
        coloring@.len() == graph@.len(),
        vertex < graph@.len(),
    ensures
        count == conflicts_at(graph@, coloring@, vertex as int),
        count <= graph@[vertex as int].len(),
{
    let neighbors = &graph.adj_list()[vertex];
    let ghost pred = has_color(coloring@, coloring@[vertex as int]);
    let mut count: usize = 0;
    let mut k: usize = 0;
    while k < neighbors.len()
        invariant
            graph.wf(),
            coloring@.len() == graph@.len(),
            vertex < graph@.len(),
            neighbors@ == graph@[vertex as int],
            pred == has_color(coloring@, coloring@[vertex as int]),
            k <= neighbors@.len(),
            count == count_if(neighbors@.take(k as int), pred),
            count <= k,
        decreases neighbors@.len() - k,
    {
        proof {
            lemma_count_if_step(neighbors@, pred, k as int);
            assert(graph@[vertex as int][k as int] < graph@.len());
        }
        if coloring[neighbors[k]] == coloring[vertex] {
            count += 1;
        }
        k += 1;
    }
    assert(neighbors@.take(k as int) =~= neighbors@);
    count
}

/// Turns a class list into the colouring it stands for: the vertices of the
/// first class get colour one, those of the second colour two, and so on; a
/// vertex in no class keeps zero.
pub fn get_coloring_from_class_list(num_vertices: usize, class_list: &[Vec<usize>]) -> (coloring:
    Vec<usize>)
    requires
        classes_disjoint(lists_of(class_list@), num_vertices as nat),
        class_list@.len() < usize::MAX,
    ensures
        coloring@ == class_coloring(lists_of(class_list@), num_vertices as nat),
{
    let ghost classes = lists_of(class_list@);
    let mut coloring: Vec<usize> = Vec::new();
    let mut v: usize = 0;
    while v < num_vertices
        invariant
            v <= num_vertices,
            coloring@.len() == v,
            forall|u: int| 0 <= u < v ==> coloring@[u] == 0,
        decreases num_vertices - v,
    {
        coloring.push(0);
        v += 1;
    }
    proof {
        lemma_disjoint_positions(classes, num_vertices as nat);
    }
    let mut i: usize = 0;
    while i < class_list.len()
        invariant
            classes == lists_of(class_list@),
            classes_disjoint(classes, num_vertices as nat),
            class_list@.len() < usize::MAX,
            i <= class_list@.len(),
            coloring@.len() == num_vertices,
            forall|i2: int, k2: int|
                0 <= i2 < i && 0 <= k2 < classes[i2].len() ==> coloring@[(
                #[trigger] classes[i2][k2]) as int] == i2 + 1,
            forall|u: int|
                0 <= u < num_vertices && coloring@[u] != 0 ==> exists|i2: int, k2: int|
                    0 <= i2 < i && 0 <= k2 < classes[i2].len() && (#[trigger] classes[i2][k2])
                        == u,
        decreases class_list@.len() - i,
    {
        let class = &class_list[i];
        assert(class@ == classes[i as int]);
        let mut k: usize = 0;
        while k < class.len()
            invariant
                classes == lists_of(class_list@),
                classes_disjoint(classes, num_vertices as nat),
                i < class_list@.len(),
                class_list@.len() < usize::MAX,
                class@ == classes[i as int],
                k <= class@.len(),
                coloring@.len() == num_vertices,
                forall|i2: int, k2: int|
                    0 <= i2 <= i && 0 <= k2 < classes[i2].len() && (i2 < i || k2 < k)
                        ==> coloring@[(#[trigger] classes[i2][k2]) as int] == i2 + 1,
                forall|u: int|
                    0 <= u < num_vertices && coloring@[u] != 0 ==> exists|i2: int, k2: int|
                        0 <= i2 <= i && 0 <= k2 < classes[i2].len() && (i2 < i || k2 < k) && (
                        #[trigger] classes[i2][k2]) == u,
            decreases class@.len() - k,
        {
            let vertex = class[k];
            assert(classes[i as int][k as int] == vertex);
            proof {
                lemma_disjoint_positions(classes, num_vertices as nat);
            }
            let ghost before = coloring@;
            coloring[vertex] = i + 1;
            proof {
                assert forall|u: int|
                    0 <= u < num_vertices && coloring@[u] != 0 implies exists|i2: int, k2: int|
                    0 <= i2 <= i && 0 <= k2 < classes[i2].len() && (i2 < i || k2 < k + 1) && (
                    #[trigger] classes[i2][k2]) == u by {
                    if u == vertex {
                        assert(classes[i as int][k as int] == u);
                    } else {
                        assert(before[u] != 0);
                        let (i2, k2) = choose|i2: int, k2: int|
                            0 <= i2 <= i && 0 <= k2 < classes[i2].len() && (i2 < i || k2 < k) && (
                            #[trigger] classes[i2][k2]) == u;
                        assert(classes[i2][k2] == u);
                    }
                }
            }
            k += 1;
        }
        i += 1;
    }
    proof {
        let n = num_vertices as nat;
        assert forall|u: int| 0 <= u < n implies coloring@[u] == #[trigger] class_coloring(
            classes,
            n,
        )[u] by {
            let v = u as usize;
            lemma_color_in(classes, v);
            if coloring@[u] != 0 {
                let (i2, k2) = choose|i2: int, k2: int|
                    0 <= i2 < i && 0 <= k2 < classes[i2].len() && (#[trigger] classes[i2][k2])
                        == u;
                lemma_color_in_member(classes, n, i2, k2);
                assert(coloring@[classes[i2][k2] as int] == i2 + 1);
            } else {
                if color_in(classes, v) > 0 {
                    let j = color_in(classes, v) - 1;
                    let l = choose|l: int| 0 <= l < classes[j].len() && classes[j][l] == v;
                    assert(coloring@[classes[j][l] as int] == j + 1);
                }
            }
        }
        assert(coloring@ =~= class_coloring(classes, n));
    }
    coloring
}

/// Turns a colouring into the class list that stands for it: one class for
/// each colour up to the largest, which holds the vertices of that colour in
/// ascending order. A vertex of colour zero stands in no class.
pub fn get_class_list_from_coloring(coloring: &[usize]) -> (class_list: Vec<Vec<usize>>)
    requires
        max_color(coloring@, coloring@.len() as int) < usize::MAX,
    ensures
        lists_of(class_list@) == class_list_of(
            coloring@,
            max_color(coloring@, coloring@.len() as int) as nat,
        ),
        classes_disjoint(lists_of(class_list@), coloring@.len()),
        class_coloring(lists_of(class_list@), coloring@.len()) == coloring@,
{
    let n = coloring.len();
    let mut num_classes: usize = 0;
    let mut v: usize = 0;
    while v < n
        invariant
            n == coloring@.len(),
            v <= n,
            num_classes == max_color(coloring@, v as int),
        decreases n - v,
    {
        if coloring[v] > num_classes {
            num_classes = coloring[v];
        }
        v += 1;
    }
    let mut class_list: Vec<Vec<usize>> = Vec::new();
    let mut i: usize = 0;
    while i < num_classes
        invariant
            i <= num_classes,
            class_list@.len() == i,
            forall|j: int| 0 <= j < i ==> (#[trigger] class_list@[j])@.len() == 0,
        decreases num_classes - i,
    {
        class_list.push(Vec::new());
        i += 1;
    }
    proof {
        lemma_max_color(coloring@, n as int);
    }
    let mut v: usize = 0;
    while v < n
        invariant
            n == coloring@.len(),
            v <= n,
            class_list@.len() == num_classes,
            num_classes < usize::MAX,
            forall|u: int| 0 <= u < n ==> (#[trigger] coloring@[u]) <= num_classes,
            forall|j: int|
                0 <= j < num_classes ==> (#[trigger] class_list@[j])@ == vertices_with(
                    coloring@,
                    (j + 1) as usize,
                    v as int,
                ),
        decreases n - v,
    {
        let color = coloring[v];
        if color > 0 {
            class_list[color - 1].push(v);
        }
        v += 1;
    }
    proof {
        assert(lists_of(class_list@) =~= class_list_of(coloring@, num_classes as nat));
        lemma_class_list_of(coloring@, num_classes as nat);
        lemma_class_list_round_trip(coloring@, num_classes as nat);
    }
    class_list
}

/// Counts the edges of `graph` whose two ends stand in one class, and
/// collects the ends of those edges.
pub fn get_forbidden_vertices(graph: &AdjList, class_list: &[Vec<usize>]) -> (forbidden: (
    usize,
    HashSet<usize>,
))
    requires
        graph.wf(),
        graph.within_limits(),
        classes_disjoint(lists_of(class_list@), graph@.len()),
        class_list@.len() < usize::MAX,
    ensures
        forbidden.0 == forbidden_edges(
            graph@,
            class_coloring(lists_of(class_list@), graph@.len()),
        ),
        forbidden.1@ == forbidden_set(
            graph@,
            class_coloring(lists_of(class_list@), graph@.len()),
        ),
{
    broadcast use vstd::std_specs::hash::group_hash_axioms;

    let num_vertices = graph.num_vertices();
    let coloring = get_coloring_from_class_list(num_vertices, class_list);
    let ghost counts = conflict_counts(graph@, coloring@);
    let mut count: usize = 0;
    let mut forbidden: HashSet<usize> = HashSet::new();
    let mut i: usize = 0;
    while i < num_vertices
        invariant
            graph.wf(),
            graph.within_limits(),
            num_vertices == graph@.len(),
            coloring@.len() == num_vertices,
            counts == conflict_counts(graph@, coloring@),
            i <= num_vertices,
            count == sum_upto(counts, i as nat),
            forbidden@ == Set::new(
                |v: usize| v < i && conflicts_at(graph@, coloring@, v as int) > 0,
            ),
        decreases num_vertices - i,
    {
        let here = count_forbidden_per_vertex(graph, coloring.as_slice(), i);
        proof {
            assert(counts(i as int) == here);
            lemma_directed_conflicts_bound(graph@, coloring@, (i + 1) as nat);
        }
        count += here;
        if here > 0 {
            forbidden.insert(i);
            assert(forbidden@ =~= Set::new(
                |v: usize| v < i + 1 && conflicts_at(graph@, coloring@, v as int) > 0,
            ));
        } else {
            assert(forbidden@ =~= Set::new(
                |v: usize| v < i + 1 && conflicts_at(graph@, coloring@, v as int) > 0,
            ));
        }
        i += 1;
    }
    assert(forbidden@ =~= forbidden_set(graph@, coloring@));
    (count / 2, forbidden)
}

/// Number of entries of `neighbors` that have the colour `color`.
pub open spec fn color_count(neighbors: Seq<usize>, coloring: Seq<usize>, color: usize) -> nat {
    count_if(neighbors, has_color(coloring, color))
}

/// `best` is the colour that a vertex with these neighbours and the colour
/// `original` should take, of the colours from one to `tried`: the first of
/// those that leave it the fewest conflicts, if that is fewer than it has, and
/// else the colour it has.
pub open spec fn is_best_color(
    neighbors: Seq<usize>,
    coloring: Seq<usize>,
    original: usize,
    tried: nat,
    best: usize,
) -> bool {
    if forall|i: usize|
        1 <= i <= tried ==> #[trigger] color_count(neighbors, coloring, i) >= color_count(
            neighbors,
            coloring,
            original,
        ) {
        best == original
    } else {
        &&& 1 <= best <= tried
        &&& color_count(neighbors, coloring, best) < color_count(neighbors, coloring, original)
        &&& forall|i: usize|
            1 <= i <= tried ==> #[trigger] color_count(neighbors, coloring, i) >= color_count(
                neighbors,
                coloring,
                best,
            )
        &&& forall|i: usize|
            1 <= i < best ==> #[trigger] color_count(neighbors, coloring, i) > color_count(
                neighbors,
                coloring,
                best,
            )
    }
}

/// The colour that a vertex with these neighbours and the colour `original`
/// should take, of the colours from one to `num_colors`.
pub open spec fn best_color_of(
    neighbors: Seq<usize>,
    coloring: Seq<usize>,
    original: usize,
    num_colors: nat,
) -> usize {
    choose|best: usize| is_best_color(neighbors, coloring, original, num_colors, best)
}

/// There is one best colour.
pub proof fn lemma_best_color(
    neighbors: Seq<usize>,
    coloring: Seq<usize>,
    original: usize,
    num_colors: nat,
    best: usize,
)
    requires
        is_best_color(neighbors, coloring, original, num_colors, best),
    ensures
        best_color_of(neighbors, coloring, original, num_colors) == best,
{
    let other = best_color_of(neighbors, coloring, original, num_colors);
    assert(is_best_color(neighbors, coloring, original, num_colors, other));
    if other != best {
        if other < best {
            assert(color_count(neighbors, coloring, other) > color_count(neighbors, coloring, best));
            assert(color_count(neighbors, coloring, other) >= color_count(
                neighbors,
                coloring,
                best,
            ));
            assert(color_count(neighbors, coloring, best) >= color_count(
                neighbors,
                coloring,
                other,
            ));
        } else {
            assert(color_count(neighbors, coloring, best) > color_count(neighbors, coloring, other));
            assert(color_count(neighbors, coloring, other) >= color_count(
                neighbors,
                coloring,
                best,
            ));
        }
    }
}

/// The class list after the step of the local search at the vertex `v`: the
/// vertex has moved to the class of its best colour, where that is not the
/// colour it has.
pub open spec fn after_recolor(adj: Seq<Seq<usize>>, classes: Seq<Seq<usize>>, v: usize) -> Seq<
    Seq<usize>,
> {
    let coloring = class_coloring(classes, adj.len());
    let from = coloring[v as int];
    let best = best_color_of(adj[v as int], coloring, from, classes.len());
    if best == from {
        classes
    } else {
        move_vertex(classes, v, from - 1, classes[from - 1].index_of(v), best - 1)
    }
}

/// The class list after the steps of the local search at the vertices
/// `moves`, one after the other.
pub open spec fn after_moves(
    adj: Seq<Seq<usize>>,
    classes: Seq<Seq<usize>>,
    moves: Seq<usize>,
) -> Seq<Seq<usize>>
    decreases moves.len(),
{
    if moves.len() == 0 {
        classes
    } else {
        after_recolor(adj, after_moves(adj, classes, moves.drop_last()), moves.last())
    }
}

/// Each of the vertices `moves` has, when its turn comes, a neighbour of its
/// own colour.
pub open spec fn are_forbidden_moves(
    adj: Seq<Seq<usize>>,
    classes: Seq<Seq<usize>>,
    moves: Seq<usize>,
) -> bool {
    forall|i: int|
        0 <= i < moves.len() ==> forbidden_set(
            adj,
            class_coloring(after_moves(adj, classes, moves.take(i)), adj.len()),
        ).contains(#[trigger] moves[i])
}

/// The step at the position `i` of `moves` leaves the class list as it is.
pub open spec fn is_idle_move(
    adj: Seq<Seq<usize>>,
    classes: Seq<Seq<usize>>,
    moves: Seq<usize>,
    i: int,
) -> bool {
    after_moves(adj, classes, moves.take(i + 1)) == after_moves(adj, classes, moves.take(i))
}

/// The last `budget` of the steps at the vertices `moves` left the class list
/// as it was.
pub open spec fn gave_up(
    adj: Seq<Seq<usize>>,
    classes: Seq<Seq<usize>>,
    moves: Seq<usize>,
    budget: int,
) -> bool {
    &&& moves.len() >= budget
    &&& forall|i: int|
        moves.len() - budget <= i < moves.len() ==> #[trigger] is_idle_move(adj, classes, moves, i)
}

/// The class list `searched` is what the local search can leave of `classes`:
/// it comes from `classes` by steps at vertices that have a neighbour of
/// their own colour, and either no edge has both ends in one class, or the
/// last steps, twice as many as `classes` has such edges, changed nothing.
pub open spec fn is_search_of(
    adj: Seq<Seq<usize>>,
    classes: Seq<Seq<usize>>,
    searched: Seq<Seq<usize>>,
) -> bool {
    exists|moves: Seq<usize>|
        {
            &&& #[trigger] are_forbidden_moves(adj, classes, moves)
            &&& searched == after_moves(adj, classes, moves)
            &&& forbidden_edges(adj, class_coloring(searched, adj.len())) == 0 || gave_up(
                adj,
                classes,
                moves,
                2 * (forbidden_edges(adj, class_coloring(classes, adj.len())) as int),
            )
        }
}

/// Some colour from one to `num_colors` leaves a vertex with these neighbours
/// fewer of them of its own colour than the colour `original`.
pub open spec fn is_improvable(
    neighbors: Seq<usize>,
    coloring: Seq<usize>,
    original: usize,
    num_colors: nat,
) -> bool {
    exists|color: usize|
        1 <= color <= num_colors && #[trigger] color_count(neighbors, coloring, color)
            < color_count(neighbors, coloring, original)
}

/// No vertex that has a neighbour of its own colour can change its colour
/// for the better.
pub open spec fn is_stuck(adj: Seq<Seq<usize>>, coloring: Seq<usize>, num_colors: nat) -> bool {
    forall|v: usize| #[trigger]
        forbidden_set(adj, coloring).contains(v) ==> !is_improvable(
            adj[v as int],
            coloring,
            coloring[v as int],
            num_colors,
        )
}

/// Every vertex that has a neighbour of its own colour can change its colour
/// for the better.
pub open spec fn is_repairable(adj: Seq<Seq<usize>>, coloring: Seq<usize>, num_colors: nat) -> bool {
    forall|v: usize| #[trigger]
        forbidden_set(adj, coloring).contains(v) ==> is_improvable(
            adj[v as int],
            coloring,
            coloring[v as int],
            num_colors,
        )
}

/// The vertices of `set`, each once, in the order in which the set hands them
/// out.
pub fn vertices_of(set: &HashSet<usize>) -> (vertices: Vec<usize>)
    ensures
        vertices@.to_set() == set@,
        vertices@.no_duplicates(),
{
    broadcast use vstd::std_specs::hash::group_hash_axioms;

    let mut vertices: Vec<usize> = Vec::new();
    let ghost keys = vstd::std_specs::hash::spec_hash_keys_iter(set).remaining().unref();
    for vertex in it: set.iter()
        invariant
            keys == vstd::std_specs::hash::spec_hash_keys_iter(set).remaining().unref(),
            it.seq().unref() == keys,
            vertices@.len() == it.index(),
            forall|k: int| 0 <= k < vertices@.len() ==> vertices@[k] == keys[k],
    {
        vertices.push(*vertex);
    }
    assert(vertices@ =~= keys);
    vertices
}

/// One step of the local search at `vertex`: tries every colour of the class
/// list on it, and moves it to the class of the best one where that leaves it
/// fewer neighbours of its own colour than it has. Says whether it moved.
pub fn recolor_vertex(graph: &AdjList, class_list: &mut Vec<Vec<usize>>, vertex: usize) -> (improved:
    bool)
    requires
        graph.wf(),
        is_partition(lists_of(old(class_list)@), graph@.len()),
        old(class_list)@.len() < usize::MAX,
        vertex < graph@.len(),
    ensures
        is_partition(lists_of(final(class_list)@), graph@.len()),
        final(class_list)@.len() == old(class_list)@.len(),
        ({
            let n = graph@.len();
            let old_classes = lists_of(old(class_list)@);
            let new_classes = lists_of(final(class_list)@);
            let before = class_coloring(old_classes, n);
            let after = class_coloring(new_classes, n);
            let best = after[vertex as int];
            &&& is_best_color(
                graph@[vertex as int],
                before,
                before[vertex as int],
                old_classes.len(),
                best,
            )
            &&& after == before.update(vertex as int, best)
            &&& improved == (best != before[vertex as int])
            &&& improved == is_improvable(
                graph@[vertex as int],
                before,
                before[vertex as int],
                old_classes.len(),
            )
            &&& !improved ==> new_classes == old_classes
            &&& improved ==> exists|k: int|
                0 <= k < old_classes[before[vertex as int] - 1].len()
                    && old_classes[before[vertex as int] - 1][k] == vertex && new_classes
                    == #[trigger] move_vertex(
                    old_classes,
                    vertex,
                    before[vertex as int] - 1,
                    k,
                    best - 1,
                )
            &&& improved ==> directed_conflicts(graph@, after) + 2 <= directed_conflicts(
                graph@,
                before,
            )
        }),
        lists_of(final(class_list)@) == after_recolor(graph@, lists_of(old(class_list)@), vertex),
{
    let num_vertices = graph.num_vertices();
    let ghost classes = lists_of(class_list@);
    let ghost neighbors = graph@[vertex as int];
    let mut coloring = get_coloring_from_class_list(num_vertices, class_list.as_slice());
    let ghost base = coloring@;
    let original_count = count_forbidden_per_vertex(graph, coloring.as_slice(), vertex);
    let original_color = coloring[vertex];
    let mut best_count = original_count;
    let mut best_color = original_color;
    let num_classes = class_list.len();
    let mut i: usize = 1;
    while i <= num_classes
        invariant
            graph.wf(),
            vertex < graph@.len(),
            num_vertices == graph@.len(),
            neighbors == graph@[vertex as int],
            num_classes < usize::MAX,
            1 <= i <= num_classes + 1,
            base.len() == num_vertices,
            coloring@.len() == num_vertices,
            forall|u: int| 0 <= u < num_vertices && u != vertex ==> coloring@[u] == base[u],
            original_color == base[vertex as int],
            best_count == color_count(neighbors, base, best_color),
            original_count == color_count(neighbors, base, original_color),
            is_best_color(neighbors, base, original_color, (i - 1) as nat, best_color),
        decreases num_classes + 1 - i,
    {
        coloring[vertex] = i;
        let new_count = count_forbidden_per_vertex(graph, coloring.as_slice(), vertex);
        proof {
            assert(coloring@ =~= base.update(vertex as int, i));
            lemma_recolor_conflicts(graph@, base, vertex as int, i);
            assert(new_count == color_count(neighbors, base, i));
        }
        if new_count < best_count {
            best_count = new_count;
            best_color = i;
        }
        i += 1;
    }
    proof {
        lemma_best_color(neighbors, base, original_color, num_classes as nat, best_color);
    }
    if best_count < original_count {
        proof {
            lemma_color_in(classes, vertex);
            assert(base[vertex as int] == color_in(classes, vertex));
        }
        let from = original_color - 1;
        let to = best_color - 1;
        match position_of(&class_list[from], vertex) {
            Some(k) => {
                class_list[from].remove(k);
                class_list[to].push(vertex);
                proof {
                    let class = classes[from as int];
                    assert(class[k as int] == vertex);
                    assert(class.no_duplicates());
                    assert(class.index_of(vertex) == k) by {
                        let found = class.index_of(vertex);
                        assert(class.contains(vertex));
                        assert(0 <= found < class.len() && class[found] == vertex);
                    }
                    assert(lists_of(class_list@) =~= move_vertex(
                        classes,
                        vertex,
                        from as int,
                        k as int,
                        to as int,
                    ));
                    lemma_move_vertex(
                        classes,
                        num_vertices as nat,
                        vertex,
                        from as int,
                        k as int,
                        to as int,
                    );
                    lemma_recolor_conflicts(graph@, base, vertex as int, best_color);
                }
                true
            },
            None => {
                proof {
                    assert(false);
                }
                false
            },
        }
    } else {
        assert(lists_of(class_list@) =~= classes);
        assert(class_coloring(classes, num_vertices as nat) =~= base.update(
            vertex as int,
            best_color,
        ));
        false
    }
}

/// Repairs a class list by moving one vertex at a time. As long as some edge
/// has both ends in one class it draws a vertex of such an edge and lets
/// `recolor_vertex` move it; it gives up after twice as many draws in a row
/// without a move as there were such edges at the start. Returns the number
/// of such edges that are left.
pub fn local_search(graph: &AdjList, class_list: &mut Vec<Vec<usize>>) -> (num_forbidden: usize)
    requires
        graph.wf(),
        graph.within_limits(),
        is_partition(lists_of(old(class_list)@), graph@.len()),
        old(class_list)@.len() < usize::MAX,
    ensures
        is_partition(lists_of(final(class_list)@), graph@.len()),
        final(class_list)@.len() == old(class_list)@.len(),
        num_forbidden == forbidden_edges(
            graph@,
            class_coloring(lists_of(final(class_list)@), graph@.len()),
        ),
        num_forbidden <= forbidden_edges(
            graph@,
            class_coloring(lists_of(old(class_list)@), graph@.len()),
        ),
        num_forbidden == 0 <==> proper_coloring(
            graph@,
            class_coloring(lists_of(final(class_list)@), graph@.len()),
        ),
        is_search_of(graph@, lists_of(old(class_list)@), lists_of(final(class_list)@)),
        is_stuck(
            graph@,
            class_coloring(lists_of(old(class_list)@), graph@.len()),
            old(class_list)@.len() as nat,
        ) ==> lists_of(final(class_list)@) == lists_of(old(class_list)@),
        is_repairable(
            graph@,
            class_coloring(lists_of(old(class_list)@), graph@.len()),
            old(class_list)@.len() as nat,
        ) && forbidden_edges(graph@, class_coloring(lists_of(old(class_list)@), graph@.len())) > 0
            ==> num_forbidden < forbidden_edges(
            graph@,
            class_coloring(lists_of(old(class_list)@), graph@.len()),
        ),
{
    let ghost n = graph@.len();
    let ghost start = class_coloring(lists_of(class_list@), n);
    let ghost num_colors = class_list@.len() as nat;
    let (count, set) = get_forbidden_vertices(graph, class_list.as_slice());
    let mut forbidden_count = count;
    proof {
        lemma_directed_conflicts_bound(graph@, class_coloring(lists_of(class_list@), n), n);
    }
    let no_improvement_ceil = 2 * forbidden_count;
    let mut forbidden_vertices = vertices_of(&set);
    let mut no_improvement: usize = 0;
    let ghost mut moves: Seq<usize> = Seq::empty();
    while forbidden_count > 0 && no_improvement < no_improvement_ceil
        invariant
            are_forbidden_moves(graph@, lists_of(old(class_list)@), moves),
            lists_of(class_list@) == after_moves(graph@, lists_of(old(class_list)@), moves),
            no_improvement <= moves.len(),
            forall|i: int|
                moves.len() - no_improvement <= i < moves.len() ==> #[trigger] is_idle_move(
                    graph@,
                    lists_of(old(class_list)@),
                    moves,
                    i,
                ),
            graph.wf(),
            graph.within_limits(),
            n == graph@.len(),
            is_partition(lists_of(class_list@), n),
            class_list@.len() == old(class_list)@.len(),
            class_list@.len() < usize::MAX,
            forbidden_count == forbidden_edges(graph@, class_coloring(lists_of(class_list@), n)),
            forbidden_count <= forbidden_edges(
                graph@,
                class_coloring(lists_of(old(class_list)@), n),
            ),
            forbidden_vertices@.to_set() == forbidden_set(
                graph@,
                class_coloring(lists_of(class_list@), n),
            ),
            no_improvement <= no_improvement_ceil,
            start == class_coloring(lists_of(old(class_list)@), n),
            num_colors == old(class_list)@.len(),
            no_improvement_ceil == 2 * forbidden_edges(graph@, start),
            is_stuck(graph@, start, num_colors) ==> lists_of(class_list@) == lists_of(
                old(class_list)@,
            ),
            is_repairable(graph@, start, num_colors) ==> (lists_of(class_list@) == lists_of(
                old(class_list)@,
            ) && no_improvement == 0) || forbidden_count < forbidden_edges(graph@, start),
        decreases forbidden_count, no_improvement_ceil - no_improvement,
    {
        let ghost coloring = class_coloring(lists_of(class_list@), n);
        proof {
            lemma_no_forbidden_edges(graph@, coloring);
            if forbidden_vertices@.len() == 0 {
                assert(forbidden_vertices@.to_set() =~= Set::<usize>::empty());
            }
        }
        let picked = choose_one(&forbidden_vertices);
        let vertex = picked.unwrap();
        assert(forbidden_vertices@.to_set().contains(vertex));
        let ghost shorter = moves;
        proof {
            let start = lists_of(old(class_list)@);
            let longer = moves.push(vertex);
            assert(longer.drop_last() =~= moves);
            assert forall|i: int| 0 <= i < longer.len() implies forbidden_set(
                graph@,
                class_coloring(after_moves(graph@, start, longer.take(i)), n),
            ).contains(#[trigger] longer[i]) by {
                if i < moves.len() {
                    assert(longer.take(i) =~= moves.take(i));
                    assert(longer[i] == moves[i]);
                } else {
                    assert(longer.take(i) =~= moves);
                }
            }
            assert forall|i: int| 0 <= i < moves.len() implies is_idle_move(
                graph@,
                start,
                longer,
                i,
            ) == #[trigger] is_idle_move(graph@, start, moves, i) by {
                assert(longer.take(i) =~= moves.take(i));
                assert(longer.take(i + 1) =~= moves.take(i + 1));
            }
            assert(longer.take(moves.len() as int) =~= moves);
            assert(longer.take(moves.len() as int + 1) =~= longer);
            moves = longer;
        }
        if recolor_vertex(graph, class_list, vertex) {
            no_improvement = 0;
            let (count, set) = get_forbidden_vertices(graph, class_list.as_slice());
            forbidden_count = count;
            forbidden_vertices = vertices_of(&set);
        } else {
            no_improvement += 1;
            proof {
                let start = lists_of(old(class_list)@);
                assert(is_idle_move(graph@, start, moves, shorter.len() as int));
                assert forall|i: int|
                    moves.len() - no_improvement <= i < moves.len() implies #[trigger] is_idle_move(
                    graph@,
                    start,
                    moves,
                    i,
                ) by {
                    if i < shorter.len() {
                        assert(is_idle_move(graph@, start, shorter, i));
                    }
                }
            }
        }
    }
    proof {
        lemma_no_forbidden_edges(graph@, class_coloring(lists_of(class_list@), n));
        let start = lists_of(old(class_list)@);
        if forbidden_count > 0 {
            assert(gave_up(graph@, start, moves, no_improvement_ceil as int));
        }
        assert(are_forbidden_moves(graph@, start, moves));
    }
    forbidden_count
}

/// The index that `skip` names, or one that names no class.
pub open spec fn skipped_index(skip: Option<usize>) -> int {
    match skip {
        Some(index) => index as int,
        None => -1,
    }
}

/// A copy of `list`.
pub fn copy_list(list: &Vec<usize>) -> (copy: Vec<usize>)
    ensures
        copy@ == list@,
{
    let mut copy: Vec<usize> = Vec::new();
    let mut k: usize = 0;
    while k < list.len()
        invariant
            k <= list@.len(),
            copy@ == list@.take(k as int),
        decreases list@.len() - k,
    {
        copy.push(list[k]);
        assert(list@.take(k + 1) =~= list@.take(k as int).push(list@[k as int]));
        k += 1;
    }
    assert(list@.take(k as int) =~= list@);
    copy
}

/// Finds the smallest class that is not empty among the first `num_classes`
/// other than `skip`; of several of that size, the last.
pub fn smallest_class(class_list: &Vec<Vec<usize>>, num_classes: usize, skip: Option<usize>) -> (found:
    Option<usize>)
    requires
        num_classes <= class_list@.len(),
    ensures
        match found {
            Some(a) => is_smallest_class(
                lists_of(class_list@),
                num_classes as int,
                skipped_index(skip),
                a as int,
            ),
            None => forall|j: int|
                0 <= j < num_classes && j != skipped_index(skip) ==> (#[trigger] lists_of(
                    class_list@,
                )[j]).len() == 0,
        },
{
    let ghost classes = lists_of(class_list@);
    let mut found: Option<usize> = None;
    let mut smallest: usize = 0;
    let mut j: usize = 0;
    while j < num_classes
        invariant
            classes == lists_of(class_list@),
            num_classes <= class_list@.len(),
            j <= num_classes,
            match found {
                Some(a) => is_smallest_class(classes, j as int, skipped_index(skip), a as int)
                    && smallest == classes[a as int].len(),
                None => forall|i: int|
                    0 <= i < j && i != skipped_index(skip) ==> (#[trigger] classes[i]).len() == 0,
            },
        decreases num_classes - j,
    {
        let size = class_list[j].len();
        assert(classes[j as int].len() == size);
        let skipped = match skip {
            Some(index) => index == j,
            None => false,
        };
        if !skipped && size > 0 && (found.is_none() || size <= smallest) {
            found = Some(j);
            smallest = size;
        }
        j += 1;
    }
    found
}

/// Merges the two smallest classes that are not empty among the first
/// `num_classes` into one, which comes first, and lets the other classes that
/// are not empty follow in their order. Nothing where fewer than two classes
/// are not empty.
pub fn merge_smallest_classes(class_list: &Vec<Vec<usize>>, num_classes: usize) -> (merged: Option<
    Vec<Vec<usize>>,
>)
    requires
        num_classes <= class_list@.len(),
    ensures
        match merged {
            Some(new_classes) => exists|first: int, second: int|
                {
                    &&& is_smallest_class(lists_of(class_list@), num_classes as int, -1, first)
                    &&& is_smallest_class(
                        lists_of(class_list@),
                        num_classes as int,
                        first,
                        second,
                    )
                    &&& lists_of(new_classes@) == #[trigger] merged_classes(
                        lists_of(class_list@),
                        first,
                        second,
                    )
                },
            None => forall|i: int, j: int|
                0 <= i < j < num_classes ==> (#[trigger] lists_of(class_list@)[i]).len() == 0 || (
                #[trigger] lists_of(class_list@)[j]).len() == 0,
        },
{
    let ghost classes = lists_of(class_list@);
    let first = match smallest_class(class_list, num_classes, None) {
        Some(first) => first,
        None => {
            return None;
        },
    };
    let second = match smallest_class(class_list, num_classes, Some(first)) {
        Some(second) => second,
        None => {
            return None;
        },
    };
    let mut combined_class = copy_list(&class_list[first]);
    let mut k: usize = 0;
    while k < class_list[second].len()
        invariant
            classes == lists_of(class_list@),
            first < class_list@.len(),
            second < class_list@.len(),
            k <= classes[second as int].len(),
            combined_class@ == classes[first as int] + classes[second as int].take(k as int),
        decreases classes[second as int].len() - k,
    {
        assert(classes[second as int].len() == class_list@[second as int]@.len());
        combined_class.push(class_list[second][k]);
        assert(classes[second as int].take(k + 1) =~= classes[second as int].take(k as int).push(
            classes[second as int][k as int],
        ));
        assert(combined_class@ =~= classes[first as int] + classes[second as int].take(k + 1));
        k += 1;
    }
    assert(classes[second as int].take(k as int) =~= classes[second as int]);
    let mut new_classes: Vec<Vec<usize>> = Vec::new();
    new_classes.push(combined_class);
    let mut index: usize = 0;
    while index < class_list.len()
        invariant
            classes == lists_of(class_list@),
            index <= class_list@.len(),
            lists_of(new_classes@) == seq![classes[first as int] + classes[second as int]]
                + carried_classes(classes, first as int, second as int, index as int),
        decreases class_list@.len() - index,
    {
        let ghost before = lists_of(new_classes@);
        assert(classes[index as int].len() == class_list@[index as int]@.len());
        if index != first && index != second && class_list[index].len() > 0 {
            new_classes.push(copy_list(&class_list[index]));
            assert(lists_of(new_classes@) =~= before.push(classes[index as int]));
            assert(lists_of(new_classes@) =~= seq![
                classes[first as int] + classes[second as int],
            ] + carried_classes(classes, first as int, second as int, index + 1));
        }
        index += 1;
    }
    assert(lists_of(new_classes@) == merged_classes(classes, first as int, second as int));
    Some(new_classes)
}

/// At most one of the first `k` classes holds a vertex.
pub open spec fn has_few_classes(classes: Seq<Seq<usize>>, k: int) -> bool {
    forall|i: int, j: int|
        0 <= i < j < k ==> (#[trigger] classes[i]).len() == 0 || (#[trigger] classes[j]).len() == 0
}

/// A local search on the merge of the two smallest of the first `k` classes
/// can give up: it can leave the class list `searched`, in which some edge
/// has both ends in one class.
pub open spec fn is_failed_merge(
    adj: Seq<Seq<usize>>,
    classes: Seq<Seq<usize>>,
    k: int,
    searched: Seq<Seq<usize>>,
) -> bool {
    &&& !proper_coloring(adj, class_coloring(searched, adj.len()))
    &&& exists|first: int, second: int|
        {
            &&& is_smallest_class(classes, k, -1, first)
            &&& is_smallest_class(classes, k, first, second)
            &&& is_search_of(adj, #[trigger] merged_classes(classes, first, second), searched)
        }
}

/// The two smallest of the first `k` classes cannot be merged: a local search
/// on their merge can give up.
pub open spec fn merge_can_fail(adj: Seq<Seq<usize>>, classes: Seq<Seq<usize>>, k: int) -> bool {
    exists|searched: Seq<Seq<usize>>| #[trigger] is_failed_merge(adj, classes, k, searched)
}

/// A merge that a local search gave up on is a failed merge.
pub proof fn lemma_failed_merge(
    adj: Seq<Seq<usize>>,
    classes: Seq<Seq<usize>>,
    k: int,
    first: int,
    second: int,
    searched: Seq<Seq<usize>>,
)
    requires
        is_smallest_class(classes, k, -1, first),
        is_smallest_class(classes, k, first, second),
        is_search_of(adj, merged_classes(classes, first, second), searched),
        !proper_coloring(adj, class_coloring(searched, adj.len())),
    ensures
        merge_can_fail(adj, classes, k),
{
    assert(is_failed_merge(adj, classes, k, searched));
}

/// Class lists that agree on their first `k` classes and have only empty
/// classes after those fail to merge together.
pub proof fn lemma_failed_merge_padding(
    adj: Seq<Seq<usize>>,
    a: Seq<Seq<usize>>,
    b: Seq<Seq<usize>>,
    k: int,
)
    requires
        merge_can_fail(adj, a, k),
        0 <= k <= a.len(),
        k <= b.len(),
        forall|i: int| 0 <= i < k ==> #[trigger] a[i] == b[i],
        forall|i: int| k <= i < a.len() ==> (#[trigger] a[i]).len() == 0,
        forall|i: int| k <= i < b.len() ==> (#[trigger] b[i]).len() == 0,
    ensures
        merge_can_fail(adj, b, k),
{
    let searched = choose|searched: Seq<Seq<usize>>| #[trigger]
        is_failed_merge(adj, a, k, searched);
    let (first, second) = choose|first: int, second: int|
        {
            &&& is_smallest_class(a, k, -1, first)
            &&& is_smallest_class(a, k, first, second)
            &&& is_search_of(adj, #[trigger] merged_classes(a, first, second), searched)
        };
    lemma_merged_padding(a, b, first, second, k);
    assert(is_smallest_class(b, k, -1, first)) by {
        assert forall|j: int| 0 <= j < k && j != -1 && (#[trigger] b[j]).len() > 0 implies b[first].len()
            < b[j].len() || (b[first].len() == b[j].len() && j <= first) by {
            assert(a[j] == b[j]);
        }
    }
    assert(is_smallest_class(b, k, first, second)) by {
        assert forall|j: int| 0 <= j < k && j != first && (#[trigger] b[j]).len()
            > 0 implies b[second].len() < b[j].len() || (b[second].len() == b[j].len() && j
            <= second) by {
            assert(a[j] == b[j]);
        }
    }
    lemma_failed_merge(adj, b, k, first, second, searched);
}

/// `after` is what merging the two smallest of the first `k` classes of
/// `before` and repairing the merge can give: a class list that the local
/// search can leave of the merged one and that stands for a proper colouring.
pub open spec fn is_merge_of(
    adj: Seq<Seq<usize>>,
    before: Seq<Seq<usize>>,
    k: int,
    after: Seq<Seq<usize>>,
) -> bool {
    &&& proper_coloring(adj, class_coloring(after, adj.len()))
    &&& exists|first: int, second: int|
        {
            &&& is_smallest_class(before, k, -1, first)
            &&& is_smallest_class(before, k, first, second)
            &&& is_search_of(adj, #[trigger] merged_classes(before, first, second), after)
        }
}

/// The number of classes that count in the class list at the position `j` of
/// a chain of merges that starts with `k` classes: all the classes of a list
/// that a merge gave.
pub open spec fn classes_counted(chain: Seq<Seq<Seq<usize>>>, k: int, j: int) -> int {
    if j == 0 {
        k
    } else {
        chain[j].len() as int
    }
}

/// Every class list of the chain but the first is a merge of the one before.
pub open spec fn is_merge_chain(adj: Seq<Seq<usize>>, k: int, chain: Seq<Seq<Seq<usize>>>) -> bool {
    &&& chain.len() > 0
    &&& forall|j: int|
        0 < j < chain.len() ==> is_merge_of(
            adj,
            chain[j - 1],
            classes_counted(chain, k, j - 1),
            #[trigger] chain[j],
        )
}

/// A repair of the merge of the two smallest classes that stands for a proper
/// colouring is a merge.
pub proof fn lemma_merge_of(
    adj: Seq<Seq<usize>>,
    before: Seq<Seq<usize>>,
    k: int,
    first: int,
    second: int,
    after: Seq<Seq<usize>>,
)
    requires
        is_smallest_class(before, k, -1, first),
        is_smallest_class(before, k, first, second),
        is_search_of(adj, merged_classes(before, first, second), after),
        proper_coloring(adj, class_coloring(after, adj.len())),
    ensures
        is_merge_of(adj, before, k, after),
{
}

/// A chain of merges with one more merge of its last class list is a chain
/// of merges.
pub proof fn lemma_chain_push(
    adj: Seq<Seq<usize>>,
    k: int,
    chain: Seq<Seq<Seq<usize>>>,
    after: Seq<Seq<usize>>,
)
    requires
        is_merge_chain(adj, k, chain),
        is_merge_of(adj, chain.last(), classes_counted(chain, k, chain.len() - 1), after),
    ensures
        is_merge_chain(adj, k, chain.push(after)),
        chain.push(after)[0] == chain[0],
        chain.push(after).last() == after,
        classes_counted(chain.push(after), k, chain.len() as int) == after.len(),
{
    let longer = chain.push(after);
    assert forall|j: int| 0 < j < longer.len() implies is_merge_of(
        adj,
        longer[j - 1],
        classes_counted(longer, k, j - 1),
        #[trigger] longer[j],
    ) by {
        if j < chain.len() {
            assert(longer[j] == chain[j]);
            assert(longer[j - 1] == chain[j - 1]);
            assert(classes_counted(longer, k, j - 1) == classes_counted(chain, k, j - 1));
        } else {
            assert(longer[j - 1] == chain.last());
            assert(classes_counted(longer, k, j - 1) == classes_counted(chain, k, chain.len() - 1));
        }
    }
}

/// `resized` is `classes` brought to `len` classes: without the classes
/// after the first `len`, or with empty classes at its end.
pub open spec fn is_resized(classes: Seq<Seq<usize>>, len: int, resized: Seq<Seq<usize>>) -> bool {
    &&& resized.len() == len
    &&& forall|i: int|
        0 <= i < len ==> #[trigger] resized[i] == if i < classes.len() {
            classes[i]
        } else {
            Seq::empty()
        }
}

/// Brings a class list to `len` classes: drops the classes after the first
/// `len`, or adds empty ones.
pub fn resize_classes(class_list: &mut Vec<Vec<usize>>, len: usize)
    ensures
        final(class_list)@.len() == len,
        forall|i: int|
            0 <= i < len && i < old(class_list)@.len() ==> #[trigger] lists_of(
                final(class_list)@,
            )[i] == lists_of(old(class_list)@)[i],
        forall|i: int|
            old(class_list)@.len() <= i < len ==> (#[trigger] lists_of(
                final(class_list)@,
            )[i]).len() == 0,
{
    if class_list.len() > len {
        class_list.truncate(len);
    }
    while class_list.len() < len
        invariant
            class_list@.len() <= len,
            class_list@.len() >= old(class_list)@.len() || class_list@.len() == len,
            forall|i: int|
                0 <= i < class_list@.len() && i < old(class_list)@.len() ==> #[trigger] lists_of(
                    class_list@,
                )[i] == lists_of(old(class_list)@)[i],
            forall|i: int|
                old(class_list)@.len() <= i < class_list@.len() ==> (#[trigger] lists_of(
                    class_list@,
                )[i]).len() == 0,
        decreases len - class_list@.len(),
    {
        let ghost before = lists_of(class_list@);
        class_list.push(Vec::new());
        assert(lists_of(class_list@) =~= before.push(Seq::empty()));
    }
}

/// Tries to get by with fewer classes: merges the two smallest classes and
/// lets the local search repair the merge, again and again, until a merge
/// cannot be repaired or fewer than two classes hold a vertex. Keeps the last
/// class list that was repaired, brought to one class per vertex of the
/// graph by empty classes at its end.
pub fn improve_phase(graph: &AdjList, num_classes: &mut usize, class_list: &mut Vec<Vec<usize>>)
    requires
        graph.wf(),
        graph.within_limits(),
        is_partition(lists_of(old(class_list)@), graph@.len()),
        *old(num_classes) <= old(class_list)@.len(),
        *old(num_classes) <= graph@.len(),
        forall|i: int|
            *old(num_classes) <= i < old(class_list)@.len() ==> (#[trigger] lists_of(
                old(class_list)@,
            )[i]).len() == 0,
    ensures
        is_partition(lists_of(final(class_list)@), graph@.len()),
        final(class_list)@.len() == graph@.len(),
        *final(num_classes) <= *old(num_classes),
        forall|i: int|
            *final(num_classes) <= i < final(class_list)@.len() ==> (#[trigger] lists_of(
                final(class_list)@,
            )[i]).len() == 0,
        *final(num_classes) < *old(num_classes) ==> proper_coloring(
            graph@,
            class_coloring(lists_of(final(class_list)@), graph@.len()),
        ),
        *final(num_classes) == *old(num_classes) ==> class_coloring(
            lists_of(final(class_list)@),
            graph@.len(),
        ) == class_coloring(lists_of(old(class_list)@), graph@.len()),
        has_few_classes(lists_of(final(class_list)@), *final(num_classes) as int)
            || merge_can_fail(graph@, lists_of(final(class_list)@), *final(num_classes) as int),
        exists|chain: Seq<Seq<Seq<usize>>>|
            {
                &&& #[trigger] is_merge_chain(graph@, *old(num_classes) as int, chain)
                &&& chain[0] == lists_of(old(class_list)@)
                &&& is_resized(chain.last(), graph@.len() as int, lists_of(final(class_list)@))
                &&& class_coloring(chain.last(), graph@.len()) == class_coloring(
                    lists_of(final(class_list)@),
                    graph@.len(),
                )
                &&& *final(num_classes) == classes_counted(
                    chain,
                    *old(num_classes) as int,
                    chain.len() - 1,
                )
            },
{
    let num_vertices = graph.num_vertices();
    let ghost n = graph@.len();
    let ghost mut chain: Seq<Seq<Seq<usize>>> = seq![lists_of(class_list@)];
    let mut merging = true;
    while merging
        invariant
            graph.wf(),
            graph.within_limits(),
            n == graph@.len(),
            num_vertices == n,
            is_partition(lists_of(class_list@), n),
            *num_classes <= class_list@.len(),
            *num_classes <= *old(num_classes),
            *num_classes <= n,
            forall|i: int|
                *num_classes <= i < class_list@.len() ==> (#[trigger] lists_of(
                    class_list@,
                )[i]).len() == 0,
            *num_classes < *old(num_classes) ==> proper_coloring(
                graph@,
                class_coloring(lists_of(class_list@), n),
            ),
            *num_classes == *old(num_classes) ==> lists_of(class_list@) == lists_of(
                old(class_list)@,
            ),
            !merging ==> has_few_classes(lists_of(class_list@), *num_classes as int)
                || merge_can_fail(graph@, lists_of(class_list@), *num_classes as int),
            is_merge_chain(graph@, *old(num_classes) as int, chain),
            chain[0] == lists_of(old(class_list)@),
            chain.last() == lists_of(class_list@),
            *num_classes == classes_counted(chain, *old(num_classes) as int, chain.len() - 1),
        decreases *num_classes + (if merging { 1int } else { 0int }),
    {
        match merge_smallest_classes(class_list, *num_classes) {
            Some(mut new_classes) => {
                let ghost classes = lists_of(class_list@);
                let ghost merged = lists_of(new_classes@);
                let ghost (first, second) = choose|first: int, second: int|
                    {
                        &&& is_smallest_class(classes, *num_classes as int, -1, first)
                        &&& is_smallest_class(classes, *num_classes as int, first, second)
                        &&& merged == #[trigger] merged_classes(classes, first, second)
                    };
                proof {
                    lemma_merged_partition(classes, n, first, second, *num_classes as int);
                }
                let num_forbidden = local_search(graph, &mut new_classes);
                if num_forbidden == 0 {
                    proof {
                        let repaired = lists_of(new_classes@);
                        lemma_merge_of(graph@, classes, *num_classes as int, first, second, repaired);
                        lemma_chain_push(graph@, *old(num_classes) as int, chain, repaired);
                        chain = chain.push(repaired);
                    }
                    *num_classes = new_classes.len();
                    *class_list = new_classes;
                } else {
                    proof {
                        lemma_failed_merge(
                            graph@,
                            classes,
                            *num_classes as int,
                            first,
                            second,
                            lists_of(new_classes@),
                        );
                    }
                    merging = false;
                }
            },
            None => {
                merging = false;
            },
        }
    }
    let ghost kept = lists_of(class_list@);
    resize_classes(class_list, num_vertices);
    proof {
        let resized = lists_of(class_list@);
        let k = *num_classes as int;
        if kept.len() <= resized.len() {
            lemma_partition_padding(kept, resized, n);
        } else {
            assert forall|i: int| resized.len() <= i < kept.len() implies (
            #[trigger] kept[i]).len() == 0 by {}
            lemma_partition_padding(resized, kept, n);
        }
        assert forall|i: int| 0 <= i < k implies #[trigger] kept[i] == resized[i] by {}
        assert(is_resized(kept, n as int, resized)) by {
            assert forall|i: int| 0 <= i < n implies #[trigger] resized[i] == if i < kept.len() {
                kept[i]
            } else {
                Seq::empty()
            } by {
                if i >= kept.len() {
                    assert(resized[i].len() == 0);
                    assert(resized[i] =~= Seq::<usize>::empty());
                }
            }
        }
        if has_few_classes(kept, k) {
            assert forall|i: int, j: int| 0 <= i < j < k implies (#[trigger] resized[i]).len() == 0
                || (#[trigger] resized[j]).len() == 0 by {
                assert(kept[i].len() == 0 || kept[j].len() == 0);
            }
        } else {
            lemma_failed_merge_padding(graph@, kept, resized, k);
        }
    }
}

/// Some class of the list holds `v`.
pub open spec fn in_some_class(classes: Seq<Seq<usize>>, v: usize) -> bool {
    exists|i: int| 0 <= i < classes.len() && (#[trigger] classes[i]).contains(v)
}

/// Some vertex has at least `k - 1` entries in its list: `k` is at most one
/// more than the largest degree.
pub open spec fn within_degree_bound(adj: Seq<Seq<usize>>, k: int) -> bool {
    exists|v: int| 0 <= v < adj.len() && k <= (#[trigger] adj[v]).len() + 1
}

/// `solution` is a proper colouring of the graph together with a number of
/// colours that bounds its colours and is itself at most one more than the
/// largest degree of a vertex, and zero for the graph without vertices.
pub open spec fn is_solution(adj: Seq<Seq<usize>>, solution: (usize, Seq<usize>)) -> bool {
    &&& proper_coloring(adj, solution.1)
    &&& forall|v: int| 0 <= v < solution.1.len() ==> 1 <= (#[trigger] solution.1[v]) <= solution.0
    &&& solution.0 <= adj.len()
    &&& solution.0 == 0 || within_degree_bound(adj, solution.0 as int)
}

/// Where the last of `num` classes holds a vertex that has a neighbour in
/// each of the classes before, `num` is at most one more than the degree of
/// that vertex.
pub proof fn lemma_greedy_bound(adj: Seq<Seq<usize>>, classes: Seq<Seq<usize>>, num: int, v: usize)
    requires
        crate::graph::adj_list::adjacency_wf(adj),
        adj.len() <= usize::MAX,
        classes.len() < usize::MAX,
        classes_disjoint(classes, adj.len()),
        1 <= num <= classes.len(),
        classes[num - 1].contains(v),
        forall|i: int| 0 <= i < num - 1 ==> has_neighbor_in(adj, #[trigger] classes[i], v),
    ensures
        num <= adj[v as int].len() + 1,
{
    let n = adj.len();
    let coloring = class_coloring(classes, n);
    let last = classes[num - 1];
    let at = choose|at: int| 0 <= at < last.len() && last[at] == v;
    assert(classes[num - 1][at] < n);
    assert forall|color: usize| 1 <= color <= num - 1 implies #[trigger] color_taken(
        adj[v as int],
        coloring,
        n as int,
        color,
    ) by {
        let class = classes[color - 1];
        assert(has_neighbor_in(adj, class, v));
        let k = choose|k: int| 0 <= k < class.len() && adj[(#[trigger] class[k]) as int].contains(v);
        let w = class[k];
        assert(classes[color - 1][k] < n);
        lemma_adjacency_symmetric(adj, w, v);
        let l = choose|l: int| 0 <= l < adj[v as int].len() && adj[v as int][l] == w;
        lemma_color_in_member(classes, n, color - 1, k);
        assert(coloring[w as int] == color);
        assert(adj[v as int][l] < n && coloring[adj[v as int][l] as int] == color);
    }
    lemma_pigeonhole(adj[v as int], coloring, n as int, (num - 1) as nat);
}

/// A partition into classes that hold no two neighbours stands for a proper
/// colouring.
pub proof fn lemma_independent_classes(adj: Seq<Seq<usize>>, classes: Seq<Seq<usize>>)
    requires
        crate::graph::adj_list::adjacency_wf(adj),
        is_partition(classes, adj.len()),
        forall|i: int| 0 <= i < classes.len() ==> is_independent(adj, #[trigger] classes[i]),
        adj.len() <= usize::MAX,
        classes.len() <= usize::MAX,
    ensures
        proper_coloring(adj, class_coloring(classes, adj.len())),
{
    let n = adj.len();
    let coloring = class_coloring(classes, n);
    assert forall|v: int, k: int| 0 <= v < n && 0 <= k < adj[v].len() implies coloring[(
    #[trigger] adj[v][k]) as int] != coloring[v] by {
        let w = adj[v][k];
        assert(w < n);
        let u = v as usize;
        lemma_color_in(classes, u);
        lemma_color_in(classes, w);
        assert(coloring[v] == color_in(classes, u));
        assert(coloring[w as int] == color_in(classes, w));
        if coloring[w as int] == coloring[v] {
            let c = color_in(classes, w) - 1;
            let class = classes[c];
            assert(is_independent(adj, class));
            assert(class.contains(u));
            let p = choose|p: int| 0 <= p < class.len() && class[p] == u;
            let q = choose|q: int| 0 <= q < class.len() && class[q] == w;
            assert(!adj[class[p] as int].contains(class[q]));
            assert(adj[v].contains(adj[v][k]));
        }
    }
}

/// The vertices from zero up to `n`, in ascending order.
pub open spec fn all_vertices(n: nat) -> Seq<usize> {
    Seq::new(n, |i: int| i as usize)
}

/// The vertices that have no colour yet after the first `upto` classes were
/// built, in ascending order.
pub open spec fn uncolored_after(classes: Seq<Seq<usize>>, n: nat, upto: int) -> Seq<usize>
    decreases upto,
{
    if upto <= 0 {
        all_vertices(n)
    } else {
        kept_if(uncolored_after(classes, n, upto - 1), is_absent(classes[upto - 1]))
    }
}

/// The class list is one that the construction can build with `num` classes:
/// each of these is drawn from the vertices that had no colour when its turn
/// came, after the last of them every vertex has a colour, and the other
/// classes are empty.
pub open spec fn is_construction(
    adj: Seq<Seq<usize>>,
    size: nat,
    classes: Seq<Seq<usize>>,
    num: int,
) -> bool {
    &&& classes.len() == adj.len()
    &&& 0 <= num <= classes.len()
    &&& forall|i: int|
        0 <= i < num ==> is_drawn_class(
            adj,
            uncolored_after(classes, adj.len(), i),
            size,
            #[trigger] classes[i],
        )
    &&& forall|i: int| num <= i < classes.len() ==> (#[trigger] classes[i]).len() == 0
    &&& uncolored_after(classes, adj.len(), num).len() == 0
}

/// `solution` is what a run of the construction and of the improvement can
/// return: the colouring of the last class list of a chain of merges that
/// starts with a class list that the construction can build, with the number
/// of classes that count in that list.
pub open spec fn is_grasp_result(adj: Seq<Seq<usize>>, size: nat, solution: (usize, Seq<usize>)) -> bool {
    exists|num: int, chain: Seq<Seq<Seq<usize>>>|
        {
            &&& #[trigger] is_merge_chain(adj, num, chain)
            &&& is_construction(adj, size, chain[0], num)
            &&& solution.1 == class_coloring(chain.last(), adj.len())
            &&& solution.0 == classes_counted(chain, num, chain.len() - 1)
        }
}

/// Which vertices have no colour after the first `upto` classes depends on
/// those classes alone.
pub proof fn lemma_uncolored_after(a: Seq<Seq<usize>>, b: Seq<Seq<usize>>, n: nat, upto: int)
    requires
        0 <= upto <= a.len(),
        upto <= b.len(),
        forall|i: int| 0 <= i < upto ==> #[trigger] a[i] == b[i],
    ensures
        uncolored_after(a, n, upto) == uncolored_after(b, n, upto),
    decreases upto,
{
    if upto > 0 {
        assert(a[upto - 1] == b[upto - 1]);
        lemma_uncolored_after(a, b, n, upto - 1);
    }
}

/// One run of the construction and of the improvement after it: colours the
/// vertices class by class, each class the best of `color_iterations`
/// candidates that `assign_color` builds, then lets `improve_phase` merge
/// classes.
pub fn grasp_attempt(graph: &AdjList, color_iterations: i32, color_list_size: usize) -> (solution:
    Solution)
    requires
        graph.wf(),
        graph.within_limits(),
        color_iterations >= 1,
        color_list_size >= 1,
    ensures
        is_solution(graph@, (solution.0, solution.1@)),
        is_grasp_result(graph@, color_list_size as nat, (solution.0, solution.1@)),
{
    let ghost adj = graph@;
    let ghost n = graph@.len();
    let max_colors = graph.num_vertices();
    assert(max_colors < usize::MAX) by (nonlinear_arith)
        requires
            max_colors * max_colors <= usize::MAX,
            max_colors <= usize::MAX,
            usize::MAX >= 0xffff_ffff,
    ;
    let mut num_color_classes: usize = 0;
    let mut vertex_set: Vec<usize> = Vec::new();
    let mut class_list: Vec<Vec<usize>> = Vec::new();
    let mut v: usize = 0;
    while v < max_colors
        invariant
            v <= max_colors,
            vertex_set@.len() == v,
            class_list@.len() == v,
            forall|k: int| 0 <= k < v ==> #[trigger] vertex_set@[k] == k,
            forall|i: int| 0 <= i < v ==> (#[trigger] class_list@[i])@.len() == 0,
        decreases max_colors - v,
    {
        vertex_set.push(v);
        class_list.push(Vec::new());
        v += 1;
    }
    proof {
        assert forall|u: usize| u < n implies vertex_set@.contains(u) by {
            assert(vertex_set@[u as int] == u);
        }
        assert(vertex_set@ =~= all_vertices(n));
    }
    while vertex_set.len() > 0
        invariant
            vertex_set@ == uncolored_after(lists_of(class_list@), n, num_color_classes as int),
            forall|i: int|
                0 <= i < num_color_classes ==> is_drawn_class(
                    adj,
                    uncolored_after(lists_of(class_list@), n, i),
                    color_list_size as nat,
                    #[trigger] lists_of(class_list@)[i],
                ),
            graph.wf(),
            graph.within_limits(),
            adj == graph@,
            n == adj.len(),
            max_colors == n,
            color_iterations >= 1,
            color_list_size >= 1,
            class_list@.len() == n,
            num_color_classes + vertex_set@.len() <= n,
            classes_disjoint(lists_of(class_list@), n),
            is_vertex_list(vertex_set@, n),
            forall|k: int|
                0 <= k < vertex_set@.len() ==> !in_some_class(
                    lists_of(class_list@),
                    #[trigger] vertex_set@[k],
                ),
            forall|u: usize|
                u < n ==> #[trigger] vertex_set@.contains(u) || in_some_class(
                    lists_of(class_list@),
                    u,
                ),
            forall|i: int|
                0 <= i < n ==> is_independent(adj, #[trigger] lists_of(class_list@)[i]),
            forall|i: int|
                num_color_classes <= i < n ==> (#[trigger] lists_of(class_list@)[i]).len() == 0,
            forall|i: int|
                0 <= i < num_color_classes ==> (#[trigger] lists_of(class_list@)[i]).len() > 0,
            forall|i: int, k: int|
                0 <= i < num_color_classes && 0 <= k < vertex_set@.len() ==> has_neighbor_in(
                    adj,
                    #[trigger] lists_of(class_list@)[i],
                    #[trigger] vertex_set@[k],
                ),
            forall|i: int, j: int, u: usize|
                0 <= i < j < num_color_classes && #[trigger] lists_of(class_list@)[j].contains(u)
                    ==> has_neighbor_in(adj, #[trigger] lists_of(class_list@)[i], u),
        decreases vertex_set@.len(),
    {
        let mut min_num_edges_remaining = usize::MAX;
        num_color_classes += 1;
        let ghost classes = lists_of(class_list@);
        let mut round: i32 = 0;
        while round < color_iterations
            invariant
                graph.wf(),
                graph.within_limits(),
                adj == graph@,
                n == adj.len(),
                color_list_size >= 1,
                vertex_set@.len() > 0,
                is_vertex_list(vertex_set@, n),
                1 <= num_color_classes <= n,
                class_list@.len() == n,
                classes.len() == n,
                0 <= round <= color_iterations,
                forall|i: int|
                    0 <= i < n && i != num_color_classes - 1 ==> #[trigger] lists_of(
                        class_list@,
                    )[i] == classes[i],
                round == 0 ==> min_num_edges_remaining == usize::MAX,
                round > 0 ==> is_color_class(
                    adj,
                    vertex_set@,
                    lists_of(class_list@)[num_color_classes - 1],
                ),
                round > 0 ==> is_drawn_class(
                    adj,
                    vertex_set@,
                    color_list_size as nat,
                    lists_of(class_list@)[num_color_classes - 1],
                ),
            decreases color_iterations - round,
        {
            assign_color(
                vertex_set.as_slice(),
                color_list_size,
                graph,
                &mut min_num_edges_remaining,
                class_list.as_mut_slice(),
                num_color_classes,
            );
            round += 1;
        }
        let ghost uncolored = vertex_set@;
        let ghost grown = lists_of(class_list@);
        let ghost class = grown[num_color_classes - 1];
        vertex_set = without(vertex_set.as_slice(), class_list[num_color_classes - 1].as_slice());
        proof {
            let left = vertex_set@;
            assert forall|i: int| 0 <= i < n && i != num_color_classes - 1 implies #[trigger] grown[i]
                == classes[i] by {}
            lemma_uncolored_after(grown, classes, n, num_color_classes - 1);
            assert(left == uncolored_after(grown, n, num_color_classes as int));
            assert forall|i: int| 0 <= i < num_color_classes implies is_drawn_class(
                adj,
                uncolored_after(grown, n, i),
                color_list_size as nat,
                #[trigger] grown[i],
            ) by {
                lemma_uncolored_after(grown, classes, n, i);
            }
            lemma_kept_if(uncolored, is_absent(class));
            // The class holds a vertex, so fewer vertices are left.
            assert(uncolored.contains(uncolored[0]));
            if !class.contains(uncolored[0]) {
                assert(has_neighbor_in(adj, class, uncolored[0]));
            }
            assert(class.len() > 0);
            assert(class.contains(class[0]));
            assert(uncolored.contains(class[0]));
            let at = choose|k: int| 0 <= k < uncolored.len() && uncolored[k] == class[0];
            lemma_kept_if_shorter(uncolored, is_absent(class), at);
            assert forall|i: int| 0 <= i < n implies #[trigger] grown[i] == (if i
                == num_color_classes - 1 {
                class
            } else {
                classes[i]
            }) by {}
            assert(classes[num_color_classes - 1].len() == 0);
            // A vertex of the class was not coloured before.
            assert forall|u: usize| class.contains(u) implies u < n && uncolored.contains(u)
                && !in_some_class(classes, u) by {
                let k = choose|k: int| 0 <= k < class.len() && class[k] == u;
                assert(uncolored.contains(class[k]));
                let j = choose|j: int| 0 <= j < uncolored.len() && uncolored[j] == u;
                assert(uncolored[j] < n);
                assert(!in_some_class(classes, uncolored[j]));
            }
            assert forall|i: int, k: int| 0 <= i < grown.len() && 0 <= k < grown[i].len() implies (
            #[trigger] grown[i][k]) < n by {
                if i == num_color_classes - 1 {
                    assert(class.contains(class[k]));
                } else {
                    assert(classes[i][k] < n);
                }
            }
            assert forall|i: int| 0 <= i < grown.len() implies (
            #[trigger] grown[i]).no_duplicates() by {
                if i != num_color_classes - 1 {
                    assert(classes[i].no_duplicates());
                }
            }
            assert forall|i: int, j: int, u: usize|
                0 <= i < grown.len() && 0 <= j < grown.len() && i != j
                    && #[trigger] grown[i].contains(u) implies !#[trigger] grown[j].contains(u) by {
                if i == num_color_classes - 1 {
                    assert(!in_some_class(classes, u));
                    assert(grown[j] == classes[j]);
                } else if j == num_color_classes - 1 {
                    assert(classes[i].contains(u));
                    if class.contains(u) {
                        assert(!in_some_class(classes, u));
                    }
                } else {
                    assert(classes[i].contains(u));
                    assert(grown[j] == classes[j]);
                }
            }
            assert forall|k: int| 0 <= k < left.len() implies (#[trigger] left[k]) < n
                && !in_some_class(grown, left[k]) by {
                let u = left[k];
                assert(left.contains(u));
                assert(uncolored.contains(u) && !class.contains(u));
                let j = choose|j: int| 0 <= j < uncolored.len() && uncolored[j] == u;
                assert(uncolored[j] < n);
                assert(!in_some_class(classes, uncolored[j]));
                if in_some_class(grown, u) {
                    let i = choose|i: int| 0 <= i < grown.len() && (#[trigger] grown[i]).contains(u);
                    assert(classes[i].contains(u));
                }
            }
            assert forall|u: usize| u < n implies #[trigger] left.contains(u) || in_some_class(
                grown,
                u,
            ) by {
                if uncolored.contains(u) {
                    if class.contains(u) {
                        assert(grown[num_color_classes - 1].contains(u));
                    } else {
                        assert(is_absent(class)(u));
                    }
                } else {
                    assert(in_some_class(classes, u));
                    let i = choose|i: int|
                        0 <= i < classes.len() && (#[trigger] classes[i]).contains(u);
                    assert(i != num_color_classes - 1);
                    assert(grown[i].contains(u));
                }
            }
            assert forall|i: int| 0 <= i < n implies is_independent(adj, #[trigger] grown[i]) by {
                if i != num_color_classes - 1 {
                    assert(is_independent(adj, classes[i]));
                }
            }
            assert forall|i: int, k: int|
                0 <= i < num_color_classes && 0 <= k < left.len() implies has_neighbor_in(
                adj,
                #[trigger] grown[i],
                #[trigger] left[k],
            ) by {
                let u = left[k];
                assert(left.contains(u));
                assert(uncolored.contains(u) && !class.contains(u));
                let j = choose|j: int| 0 <= j < uncolored.len() && uncolored[j] == u;
                if i < num_color_classes - 1 {
                    assert(has_neighbor_in(adj, classes[i], uncolored[j]));
                }
            }
            assert forall|i: int, j: int, u: usize|
                0 <= i < j < num_color_classes && #[trigger] grown[j].contains(
                    u,
                ) implies has_neighbor_in(adj, #[trigger] grown[i], u) by {
                if j == num_color_classes - 1 {
                    assert(uncolored.contains(u));
                    let k = choose|k: int| 0 <= k < uncolored.len() && uncolored[k] == u;
                    assert(has_neighbor_in(adj, classes[i], uncolored[k]));
                } else {
                    assert(classes[j].contains(u));
                    assert(has_neighbor_in(adj, classes[i], u));
                }
            }
        }
    }
    proof {
        let classes = lists_of(class_list@);
        assert forall|u: usize| u < n implies color_in(classes, u) > 0 by {
            lemma_color_in(classes, u);
            if vertex_set@.contains(u) {
                assert(vertex_set@.len() > 0);
            }
            assert(in_some_class(classes, u));
        }
        lemma_independent_classes(adj, classes);
        if num_color_classes > 0 {
            let last = classes[num_color_classes - 1];
            assert(last.contains(last[0]));
            lemma_greedy_bound(adj, classes, num_color_classes as int, last[0]);
            assert(classes[num_color_classes - 1][0] < n);
        }
    }
    let ghost built = lists_of(class_list@);
    let ghost num_built = num_color_classes as int;
    assert(is_construction(adj, color_list_size as nat, built, num_built));
    improve_phase(graph, &mut num_color_classes, &mut class_list);
    let coloring = get_coloring_from_class_list(max_colors, class_list.as_slice());
    proof {
        let classes = lists_of(class_list@);
        assert forall|u: int| 0 <= u < coloring@.len() implies 1 <= (#[trigger] coloring@[u])
            <= num_color_classes by {
            lemma_color_in(classes, u as usize);
            let c = color_in(classes, u as usize);
            assert(c > 0);
            let class = classes[c - 1];
            let w = u as usize;
            let p = choose|p: int| 0 <= p < class.len() && class[p] == w;
            assert(class.len() > 0);
        }
    }
    (num_color_classes, coloring)
}

/// Runs `grasp_attempt` once for each number from zero up to
/// `grasp_iterations`, on the threads of `rayon`, and collects what the runs
/// return: `into_par_iter` on the range, `map` and `collect`. The contract
/// states that there is one result per run, and of each result what
/// `grasp_attempt` is proved to return.
#[verifier::external_body]
fn run_attempts(
    graph: &AdjList,
    grasp_iterations: i32,
    color_iterations: i32,
    color_list_size: usize,
) -> (all: Vec<Solution>)
    requires
        graph.wf(),
        graph.within_limits(),
        color_iterations >= 1,
        color_list_size >= 1,
    ensures
        all@.len() == if grasp_iterations > 0 {
            grasp_iterations as int
        } else {
            0
        },
        forall|i: int|
            0 <= i < all@.len() ==> is_solution(graph@, #[trigger] solutions_of(all@)[i]),
        forall|i: int|
            0 <= i < all@.len() ==> is_grasp_result(
                graph@,
                color_list_size as nat,
                #[trigger] solutions_of(all@)[i],
            ),
{
    (0..grasp_iterations).into_par_iter().map(
        |_| grasp_attempt(graph, color_iterations, color_list_size),
    ).collect()
}

/// Offers the solutions of `all`, one after the other, to a pool that keeps at
/// most `num_solutions` of them.
pub fn keep_best(all: Vec<Solution>, num_solutions: usize) -> (pool: SolutionPool)
    ensures
        pool.wf(),
        pool@ == kept_best(solutions_of(all@), num_solutions as nat),
{
    let ghost offered = solutions_of(all@);
    let mut all = all;
    let mut pool = SolutionPool::new();
    let mut taken: usize = 0;
    let total = all.len();
    assert(kept_best(offered.take(0), num_solutions as nat) =~= pool@);
    while all.len() > 0
        invariant
            pool.wf(),
            taken + all@.len() == total,
            total == offered.len(),
            solutions_of(all@) == offered.skip(taken as int),
            pool@ == kept_best(offered.take(taken as int), num_solutions as nat),
        decreases all@.len(),
    {
        let ghost rest = solutions_of(all@);
        let solution = all.remove(0);
        proof {
            lemma_kept_best(offered.take(taken as int), num_solutions as nat);
            assert(rest[0] == offered[taken as int]);
            assert(offered.take(taken + 1).drop_last() =~= offered.take(taken as int));
            assert(offered.take(taken + 1).last() == (solution.0, solution.1@));
            assert(solutions_of(all@) =~= offered.skip(taken + 1)) by {
                assert forall|i: int| 0 <= i < all@.len() implies #[trigger] solutions_of(
                    all@,
                )[i] == offered.skip(taken + 1)[i] by {
                    assert(rest[i + 1] == offered.skip(taken as int)[i + 1]);
                }
            }
        }
        pool.try_insert(solution, num_solutions);
        taken += 1;
    }
    assert(offered.take(taken as int) =~= offered);
    pool
}

/// Runs `grasp_iterations` independent attempts and keeps the best
/// `num_solutions` of what they find.
pub fn grasp(
    graph: &AdjList,
    grasp_iterations: i32,
    color_iterations: i32,
    color_list_size: usize,
    num_solutions: usize,
) -> (solutions: SolutionPool)
    requires
        graph.wf(),
        graph.within_limits(),
        color_iterations >= 1,
        color_list_size >= 1,
    ensures
        solutions.wf(),
        solutions@.len() == if grasp_iterations <= 0 {
            0
        } else if grasp_iterations <= num_solutions {
            grasp_iterations as int
        } else {
            num_solutions as int
        },
        forall|i: int| 0 <= i < solutions@.len() ==> is_solution(graph@, #[trigger] solutions@[i]),
        forall|i: int|
            0 <= i < solutions@.len() ==> is_grasp_result(
                graph@,
                color_list_size as nat,
                #[trigger] solutions@[i],
            ),
        exists|all: Seq<(usize, Seq<usize>)>|
            {
                &&& all.len() == if grasp_iterations > 0 {
                    grasp_iterations as int
                } else {
                    0
                }
                &&& forall|i: int|
                    0 <= i < all.len() ==> is_grasp_result(
                        graph@,
                        color_list_size as nat,
                        #[trigger] all[i],
                    )
                &&& solutions@ == #[trigger] kept_best(all, num_solutions as nat)
            },
{
    let all = run_attempts(graph, grasp_iterations, color_iterations, color_list_size);
    let ghost offered = solutions_of(all@);
    let solutions = keep_best(all, num_solutions);
    proof {
        lemma_kept_best(offered, num_solutions as nat);
        assert forall|i: int| 0 <= i < solutions@.len() implies is_solution(
            graph@,
            #[trigger] solutions@[i],
        ) && is_grasp_result(graph@, color_list_size as nat, solutions@[i]) by {
            assert(offered.contains(solutions@[i]));
            let k = choose|k: int| 0 <= k < offered.len() && offered[k] == solutions@[i];
            assert(is_solution(graph@, offered[k]));
            assert(is_grasp_result(graph@, color_list_size as nat, offered[k]));
        }
    }
    solutions
}

/// Runs `grasp_iterations` independent attempts and returns the best
/// solution that they find.
pub fn grasp_wrapper(
    graph: &AdjList,
    grasp_iterations: i32,
    color_iterations: i32,
    color_list_size: usize,
) -> (solution: Solution)
    requires
        graph.wf(),
        graph.within_limits(),
        grasp_iterations >= 1,
        color_iterations >= 1,
        color_list_size >= 1,
    ensures
        is_solution(graph@, (solution.0, solution.1@)),
        is_grasp_result(graph@, color_list_size as nat, (solution.0, solution.1@)),
{
    let mut solutions = grasp(graph, grasp_iterations, color_iterations, color_list_size, 1);
    let ghost kept = solutions@;
    assert(is_solution(graph@, kept[0]));
    assert(is_grasp_result(graph@, color_list_size as nat, kept[0]));
    let (num_colors, coloring) = solutions.pop().unwrap();
    (num_colors, coloring)
}

} // verus!
