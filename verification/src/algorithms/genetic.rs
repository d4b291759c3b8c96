//! A genetic algorithm: a population of proper colourings, of which the ones
//! with the fewest colours breed by crossover and mutation.

use crate::algorithms::grasp::copy_list;
use crate::algorithms::pool::{
    insert_in_order, insert_point, is_sorted, lemma_insert_point_range, lemma_sorted_insert,
    solution_le, solutions_of, sorted_insert, SolutionView,
};
use crate::algorithms::{
    color_range, color_taken, colors_used, conflict_free_at, lemma_color_range,
    lemma_colors_bounded, lemma_pigeonhole, proper_coloring, Solution,
};
use crate::graph::adj_list::swap_removed;
use crate::graph::Graph;
use crate::random::{choose_two, random_in_range};
use vstd::prelude::*;

pub use crate::algorithms::count_colors;

verus! {

/// No neighbour of `v` below `limit` has the colour of `v`.
pub open spec fn conflict_free_below(
    lists: Seq<Seq<usize>>,
    coloring: Seq<usize>,
    v: int,
    limit: int,
) -> bool {
    !color_taken(lists[v], coloring, limit, coloring[v])
}

/// The vertices below `upto` are properly coloured among themselves.
pub open spec fn proper_below(lists: Seq<Seq<usize>>, coloring: Seq<usize>, upto: int) -> bool {
    forall|v: int| 0 <= v < upto ==> conflict_free_below(lists, coloring, v, upto)
}

/// `bound` is larger than the degree of every vertex.
pub open spec fn exceeds_degrees(lists: Seq<Seq<usize>>, bound: int) -> bool {
    forall|v: int| 0 <= v < lists.len() ==> (#[trigger] lists[v]).len() < bound
}

/// A vertex without a conflict below the number of vertices has none at all.
pub proof fn lemma_conflict_free_below(graph: &Graph, coloring: Seq<usize>, v: int)
    requires
        graph.wf(),
        0 <= v < graph@.len(),
    ensures
        conflict_free_below(graph.neighbor_lists(), coloring, v, graph@.len() as int)
            == conflict_free_at(graph.neighbor_lists(), coloring, v),
{
    let lists = graph.neighbor_lists();
    graph.lemma_neighbors(v);
    let neighbors = lists[v];
    if !conflict_free_at(lists, coloring, v) {
        let k = choose|k: int|
            0 <= k < neighbors.len() && coloring[(#[trigger] neighbors[k]) as int] == coloring[v];
        assert(neighbors[k] < graph@.len());
    }
}

/// A colouring of all the vertices that is proper below the number of
/// vertices is proper.
pub proof fn lemma_proper_below(graph: &Graph, coloring: Seq<usize>)
    requires
        graph.wf(),
        coloring.len() == graph@.len(),
    ensures
        proper_below(graph.neighbor_lists(), coloring, graph@.len() as int) == proper_coloring(
            graph.neighbor_lists(),
            coloring,
        ),
{
    let lists = graph.neighbor_lists();
    let n = graph@.len() as int;
    assert(lists.len() == n);
    if proper_below(lists, coloring, n) {
        assert forall|v: int| 0 <= v < lists.len() implies conflict_free_at(lists, coloring, v) by {
            assert(conflict_free_below(lists, coloring, v, n));
            lemma_conflict_free_below(graph, coloring, v);
        }
    }
    if proper_coloring(lists, coloring) {
        assert forall|v: int| 0 <= v < n implies conflict_free_below(lists, coloring, v, n) by {
            assert(conflict_free_at(lists, coloring, v));
            lemma_conflict_free_below(graph, coloring, v);
        }
    }
}

/// Checks that no entry of `neighbors` below `limit` has the colour `color`.
pub fn color_is_free(neighbors: &Vec<usize>, solution: &[usize], limit: usize, color: usize) -> (free:
    bool)
    requires
        forall|k: int| 0 <= k < neighbors@.len() ==> (#[trigger] neighbors@[k]) < solution@.len(),
    ensures
        free == !color_taken(neighbors@, solution@, limit as int, color),
{
    let mut k: usize = 0;
    while k < neighbors.len()
        invariant
            k <= neighbors@.len(),
            forall|j: int| 0 <= j < neighbors@.len() ==> (#[trigger] neighbors@[j]) < solution@.len(),
            forall|j: int|
                0 <= j < k ==> !((#[trigger] neighbors@[j]) < limit && solution@[neighbors@[j] as int]
                    == color),
        decreases neighbors@.len() - k,
    {
        if neighbors[k] < limit && solution[neighbors[k]] == color {
            return false;
        }
        k += 1;
    }
    true
}

/// Checks that no neighbour of `node` has the colour of `node`.
pub fn valid_color_assignment(graph: &Graph, solution: &[usize], node: usize) -> (valid: bool)
    requires
        graph.wf(),
        solution@.len() == graph@.len(),
        node < graph@.len(),
    ensures
        valid == conflict_free_at(graph.neighbor_lists(), solution@, node as int),
{
    let neighbors = graph.get_neighbors(node);
    proof {
        graph.lemma_neighbors(node as int);
        lemma_conflict_free_below(graph, solution@, node as int);
    }
    color_is_free(&neighbors, solution, graph.num_vertices(), solution[node])
}

/// Determines an upper bound for the number of colours that the graph needs:
/// one more than the largest degree of a vertex, and zero for the graph
/// without vertices.
pub fn coloring_upper_bound(graph: &Graph) -> (colors: usize)
    requires
        graph.wf(),
    ensures
        exceeds_degrees(graph.neighbor_lists(), colors as int),
        graph@.len() == 0 ==> colors == 0,
        graph@.len() > 0 ==> exists|v: int|
            0 <= v < graph@.len() && colors == (#[trigger] graph.neighbor_lists()[v]).len() + 1,
        colors <= graph@.len(),
{
    let ghost lists = graph.neighbor_lists();
    let n = graph.num_vertices();
    let mut colors: usize = 0;
    let mut i: usize = 0;
    while i < n
        invariant
            graph.wf(),
            lists == graph.neighbor_lists(),
            n == graph@.len(),
            i <= n,
            colors <= n,
            forall|v: int| 0 <= v < i ==> (#[trigger] lists[v]).len() < colors,
            i == 0 ==> colors == 0,
            i > 0 ==> exists|v: int| 0 <= v < i && colors == (#[trigger] lists[v]).len() + 1,
        decreases n - i,
    {
        let neighborhood_size = graph.get_neighbors(i).len();
        proof {
            graph.lemma_neighbors(i as int);
            assert(lists[i as int].len() == neighborhood_size);
        }
        if neighborhood_size + 1 > colors {
            colors = neighborhood_size + 1;
        }
        i += 1;
    }
    colors
}

/// Number of outcomes of the draw that decides whether a vertex mutates. A
/// mutation rate counts how many of them are a mutation.
pub const MUTATION_SCALE: usize = 1_000_000;

/// Changing the colour of a vertex changes for no list that does not hold the
/// vertex which colours its entries have.
pub proof fn lemma_color_taken_elsewhere(
    neighbors: Seq<usize>,
    coloring: Seq<usize>,
    vertex: int,
    new_color: usize,
    limit: int,
    color: usize,
)
    requires
        !neighbors.contains(vertex as usize),
        0 <= vertex < coloring.len(),
        coloring.len() <= usize::MAX,
        forall|k: int| 0 <= k < neighbors.len() ==> (#[trigger] neighbors[k]) < coloring.len(),
    ensures
        color_taken(neighbors, coloring.update(vertex, new_color), limit, color) == color_taken(
            neighbors,
            coloring,
            limit,
            color,
        ),
{
    let changed = coloring.update(vertex, new_color);
    if color_taken(neighbors, changed, limit, color) {
        let k = choose|k: int|
            0 <= k < neighbors.len() && (#[trigger] neighbors[k]) < limit && changed[neighbors[k] as int]
                == color;
        assert(neighbors.contains(neighbors[k]));
        assert(coloring[neighbors[k] as int] == color);
    }
    if color_taken(neighbors, coloring, limit, color) {
        let k = choose|k: int|
            0 <= k < neighbors.len() && (#[trigger] neighbors[k]) < limit
                && coloring[neighbors[k] as int] == color;
        assert(neighbors.contains(neighbors[k]));
        assert(changed[neighbors[k] as int] == color);
    }
}

/// Where the vertices below `i` are properly coloured among themselves and
/// vertex `i` gets a colour that none of its neighbours below it has, the
/// vertices up to `i` are properly coloured among themselves.
pub proof fn lemma_extend_proper(graph: &Graph, before: Seq<usize>, after: Seq<usize>, i: int)
    requires
        graph.wf(),
        0 <= i < graph@.len(),
        before.len() == graph@.len(),
        after.len() == graph@.len(),
        forall|u: int| 0 <= u < before.len() && u != i ==> before[u] == after[u],
        proper_below(graph.neighbor_lists(), before, i),
        conflict_free_below(graph.neighbor_lists(), after, i, i),
    ensures
        proper_below(graph.neighbor_lists(), after, i + 1),
{
    let lists = graph.neighbor_lists();
    let upto = i + 1;
    assert forall|v: int| 0 <= v < upto implies conflict_free_below(lists, after, v, upto) by {
        graph.lemma_neighbors(v);
        if color_taken(lists[v], after, upto, after[v]) {
            let k = choose|k: int|
                0 <= k < lists[v].len() && (#[trigger] lists[v][k]) < upto
                    && after[lists[v][k] as int] == after[v];
            let w = lists[v][k];
            assert(lists[v].contains(lists[v][k]));
            graph.lemma_symmetric(v, w as int);
            if v < i && w < i {
                assert(conflict_free_below(lists, before, v, i));
                assert(before[lists[v][k] as int] == before[v]);
            } else if v == i {
                assert(w != i);
            } else {
                let l = choose|l: int| 0 <= l < lists[i].len() && lists[i][l] == v as usize;
                assert(lists[i][l] < i && after[lists[i][l] as int] == after[i]);
            }
        }
    }
}

/// Where a proper colouring changes at one vertex to a colour that none of
/// its neighbours has, it stays proper.
pub proof fn lemma_recolor_proper(graph: &Graph, before: Seq<usize>, after: Seq<usize>, i: int)
    requires
        graph.wf(),
        0 <= i < graph@.len(),
        before.len() == graph@.len(),
        after.len() == graph@.len(),
        forall|u: int| 0 <= u < before.len() && u != i ==> before[u] == after[u],
        proper_coloring(graph.neighbor_lists(), before),
        conflict_free_at(graph.neighbor_lists(), after, i),
    ensures
        proper_coloring(graph.neighbor_lists(), after),
{
    let lists = graph.neighbor_lists();
    assert forall|v: int| 0 <= v < lists.len() implies conflict_free_at(lists, after, v) by {
        if v != i {
            graph.lemma_neighbors(v);
            assert(conflict_free_at(lists, before, v));
            assert forall|k: int| 0 <= k < lists[v].len() implies after[(
            #[trigger] lists[v][k]) as int] != after[v] by {
                let w = lists[v][k];
                assert(lists[v].contains(lists[v][k]));
                if w == i {
                    graph.lemma_symmetric(v, i);
                    let l = choose|l: int| 0 <= l < lists[i].len() && lists[i][l] == v as usize;
                    assert(after[lists[i][l] as int] != after[i]);
                } else {
                    assert(before[lists[v][k] as int] != before[v]);
                }
            }
        }
    }
}

/// The colours from one to `upper_bound`, in ascending order.
pub fn all_colors(upper_bound: usize) -> (colors: Vec<usize>)
    ensures
        colors@ == Seq::new(upper_bound as nat, |i: int| (i + 1) as usize),
{
    let mut colors: Vec<usize> = Vec::new();
    let mut color: usize = 0;
    while color < upper_bound
        invariant
            color <= upper_bound,
            colors@ == Seq::new(color as nat, |i: int| (i + 1) as usize),
        decreases upper_bound - color,
    {
        color += 1;
        colors.push(color);
        assert(colors@ =~= Seq::new(color as nat, |i: int| (i + 1) as usize));
    }
    colors
}

/// One roll for the colour of `vertex`: gives it the colour at `drawn` in
/// `untried`, and accepts that colour where none of `neighbors` below
/// `limit` has it. A colour that is not accepted leaves `untried`, the last
/// entry taking its place.
pub fn roll_color(
    neighbors: &Vec<usize>,
    individual: &mut [usize],
    vertex: usize,
    limit: usize,
    untried: &mut Vec<usize>,
    drawn: usize,
) -> (accepted: bool)
    requires
        drawn < old(untried)@.len(),
        vertex < old(individual)@.len(),
        forall|k: int|
            0 <= k < neighbors@.len() ==> (#[trigger] neighbors@[k]) < old(individual)@.len(),
    ensures
        final(individual)@ == old(individual)@.update(vertex as int, old(untried)@[drawn as int]),
        accepted == !color_taken(
            neighbors@,
            final(individual)@,
            limit as int,
            old(untried)@[drawn as int],
        ),
        accepted ==> final(untried)@ == old(untried)@,
        !accepted ==> final(untried)@ == swap_removed(old(untried)@, drawn as int),
{
    let color = untried[drawn];
    individual[vertex] = color;
    if color_is_free(neighbors, individual, limit, color) {
        true
    } else {
        untried.swap_remove(drawn);
        assert(untried@ =~= swap_removed(old(untried)@, drawn as int));
        false
    }
}

/// Gives `vertex` a colour between one and `upper_bound` that none of its
/// neighbours below `limit` has. Colours are drawn until one is accepted, and
/// a colour that was not accepted is not drawn again, so that every colour
/// that can be accepted is as likely as the others.
pub fn assign_random_color(
    graph: &Graph,
    individual: &mut [usize],
    vertex: usize,
    upper_bound: usize,
    limit: usize,
)
    requires
        graph.wf(),
        old(individual)@.len() == graph@.len(),
        vertex < graph@.len(),
        exceeds_degrees(graph.neighbor_lists(), upper_bound as int),
    ensures
        final(individual)@ == old(individual)@.update(
            vertex as int,
            final(individual)@[vertex as int],
        ),
        1 <= final(individual)@[vertex as int] <= upper_bound,
        conflict_free_below(
            graph.neighbor_lists(),
            final(individual)@,
            vertex as int,
            limit as int,
        ),
{
    let ghost lists = graph.neighbor_lists();
    let ghost start = individual@;
    let neighbors = graph.get_neighbors(vertex);
    proof {
        graph.lemma_neighbors(vertex as int);
        assert(lists[vertex as int] == neighbors@);
        if neighbors@.contains(vertex) {
            let k = choose|k: int| 0 <= k < neighbors@.len() && neighbors@[k] == vertex;
            assert(neighbors@[k] != vertex);
        }
    }
    let mut untried = all_colors(upper_bound);
    proof {
        assert forall|color: usize| 1 <= color <= upper_bound implies untried@.contains(color) by {
            assert(untried@[color - 1] == color);
        }
    }
    let mut accepted = false;
    while !accepted
        invariant
            graph.wf(),
            lists == graph.neighbor_lists(),
            vertex < graph@.len(),
            neighbors@ == lists[vertex as int],
            !neighbors@.contains(vertex),
            neighbors@.len() < upper_bound,
            forall|k: int| 0 <= k < neighbors@.len() ==> (#[trigger] neighbors@[k]) < graph@.len(),
            start.len() == graph@.len(),
            individual@ == start.update(vertex as int, individual@[vertex as int]),
            forall|k: int| 0 <= k < untried@.len() ==> 1 <= (#[trigger] untried@[k]) <= upper_bound,
            forall|color: usize|
                1 <= color <= upper_bound ==> untried@.contains(color) || #[trigger] color_taken(
                    neighbors@,
                    start,
                    limit as int,
                    color,
                ),
            accepted ==> 1 <= individual@[vertex as int] <= upper_bound && !color_taken(
                neighbors@,
                individual@,
                limit as int,
                individual@[vertex as int],
            ),
        decreases untried@.len() + (if accepted { 0int } else { 1int }),
    {
        proof {
            if untried@.len() == 0 {
                assert forall|color: usize| 1 <= color <= upper_bound implies #[trigger] color_taken(
                    neighbors@,
                    start,
                    limit as int,
                    color,
                ) by {
                    assert(!untried@.contains(color));
                }
                lemma_pigeonhole(neighbors@, start, limit as int, upper_bound as nat);
            }
        }
        let drawn = random_in_range(0, untried.len() - 1);
        let ghost before = untried@;
        let ghost color = untried@[drawn as int];
        accepted = roll_color(&neighbors, individual, vertex, limit, &mut untried, drawn);
        proof {
            assert(individual@ =~= start.update(vertex as int, color));
            if !accepted {
                lemma_color_taken_elsewhere(
                    neighbors@,
                    start,
                    vertex as int,
                    color,
                    limit as int,
                    color,
                );
                assert forall|c: usize| 1 <= c <= upper_bound implies untried@.contains(c)
                    || #[trigger] color_taken(neighbors@, start, limit as int, c) by {
                    if c != color && before.contains(c) {
                        let k = choose|k: int| 0 <= k < before.len() && before[k] == c;
                        if k == before.len() - 1 {
                            assert(untried@[drawn as int] == c);
                        } else {
                            assert(untried@[k] == c);
                        }
                    }
                }
                assert forall|k: int| 0 <= k < untried@.len() implies 1 <= (
                #[trigger] untried@[k]) <= upper_bound by {
                    if k == drawn {
                        assert(untried@[k] == before[before.len() - 1]);
                    } else {
                        assert(untried@[k] == before[k]);
                    }
                }
            }
        }
    }
}

/// Generates a random proper colouring whose colours lie between one and
/// `upper_bound`: the vertices get their colours in ascending order, each a
/// random colour that none of the neighbours coloured before it has.
pub fn generate_individual(graph: &Graph, upper_bound: usize) -> (individual: Vec<usize>)
    requires
        graph.wf(),
        exceeds_degrees(graph.neighbor_lists(), upper_bound as int),
    ensures
        proper_coloring(graph.neighbor_lists(), individual@),
        forall|v: int|
            0 <= v < individual@.len() ==> 1 <= (#[trigger] individual@[v]) <= upper_bound,
{
    let ghost lists = graph.neighbor_lists();
    let n = graph.num_vertices();
    let mut individual: Vec<usize> = Vec::new();
    let mut v: usize = 0;
    while v < n
        invariant
            v <= n,
            individual@.len() == v,
        decreases n - v,
    {
        individual.push(1);
        v += 1;
    }
    let mut i: usize = 0;
    while i < n
        invariant
            graph.wf(),
            lists == graph.neighbor_lists(),
            n == graph@.len(),
            exceeds_degrees(lists, upper_bound as int),
            i <= n,
            individual@.len() == n,
            proper_below(lists, individual@, i as int),
            forall|v: int| 0 <= v < i ==> 1 <= (#[trigger] individual@[v]) <= upper_bound,
        decreases n - i,
    {
        let ghost before = individual@;
        assign_random_color(graph, individual.as_mut_slice(), i, upper_bound, i);
        proof {
            lemma_extend_proper(graph, before, individual@, i as int);
        }
        i += 1;
    }
    proof {
        lemma_proper_below(graph, individual@);
    }
    individual
}

/// `after` can come from `before` by mutation: every vertex has the colour it
/// had, or a colour between one and `upper_bound` that none of its
/// neighbours has.
pub open spec fn is_mutation_of(
    lists: Seq<Seq<usize>>,
    upper_bound: int,
    before: Seq<usize>,
    after: Seq<usize>,
) -> bool {
    &&& after.len() == before.len()
    &&& forall|v: int|
        0 <= v < before.len() ==> #[trigger] after[v] == before[v] || (1 <= after[v] <= upper_bound
            && conflict_free_at(lists, after, v))
}

/// Goes through the vertices and gives each, with `mutation_rate` chances in
/// `MUTATION_SCALE`, a random colour between one and `upper_bound` that none
/// of its neighbours has.
pub fn mutate(graph: &Graph, individual: &mut [usize], upper_bound: usize, mutation_rate: usize)
    requires
        graph.wf(),
        old(individual)@.len() == graph@.len(),
        exceeds_degrees(graph.neighbor_lists(), upper_bound as int),
    ensures
        final(individual)@.len() == graph@.len(),
        proper_coloring(graph.neighbor_lists(), old(individual)@) ==> proper_coloring(
            graph.neighbor_lists(),
            final(individual)@,
        ),
        is_mutation_of(
            graph.neighbor_lists(),
            upper_bound as int,
            old(individual)@,
            final(individual)@,
        ),
        mutation_rate == 0 ==> final(individual)@ == old(individual)@,
        mutation_rate >= MUTATION_SCALE ==> proper_coloring(
            graph.neighbor_lists(),
            final(individual)@,
        ) && forall|v: int|
            0 <= v < graph@.len() ==> 1 <= (#[trigger] final(individual)@[v]) <= upper_bound,
{
    let ghost lists = graph.neighbor_lists();
    let n = graph.num_vertices();
    let mut i: usize = 0;
    while i < n
        invariant
            graph.wf(),
            lists == graph.neighbor_lists(),
            n == graph@.len(),
            exceeds_degrees(lists, upper_bound as int),
            i <= n,
            individual@.len() == n,
            proper_coloring(lists, old(individual)@) ==> proper_coloring(lists, individual@),
            forall|v: int| i <= v < n ==> #[trigger] individual@[v] == old(individual)@[v],
            forall|v: int|
                0 <= v < i ==> #[trigger] individual@[v] == old(individual)@[v] || (1
                    <= individual@[v] <= upper_bound && conflict_free_at(lists, individual@, v)),
            mutation_rate == 0 ==> individual@ == old(individual)@,
            mutation_rate >= MUTATION_SCALE ==> forall|v: int|
                0 <= v < i ==> 1 <= (#[trigger] individual@[v]) <= upper_bound && conflict_free_at(
                    lists,
                    individual@,
                    v,
                ),
        decreases n - i,
    {
        let roll = random_in_range(0, MUTATION_SCALE - 1);
        if roll < mutation_rate {
            let ghost before = individual@;
            assign_random_color(graph, individual, i, upper_bound, n);
            proof {
                lemma_conflict_free_below(graph, individual@, i as int);
                if proper_coloring(lists, before) {
                    lemma_recolor_proper(graph, before, individual@, i as int);
                }
                assert forall|v: int| 0 <= v < i implies #[trigger] individual@[v] == old(
                    individual,
                )@[v] || (1 <= individual@[v] <= upper_bound && conflict_free_at(
                    lists,
                    individual@,
                    v,
                )) by {
                    if before[v] != old(individual)@[v] {
                        lemma_mutated_stays_free(graph, before, individual@, i as int, v);
                    }
                }
                if mutation_rate >= MUTATION_SCALE {
                    assert forall|v: int| 0 <= v < i implies 1 <= (#[trigger] individual@[v])
                        <= upper_bound && conflict_free_at(lists, individual@, v) by {
                        lemma_mutated_stays_free(graph, before, individual@, i as int, v);
                    }
                }
            }
        }
        i += 1;
    }
}

/// A vertex without a conflict has none after another vertex took a colour
/// that none of that vertex's neighbours has.
pub proof fn lemma_mutated_stays_free(
    graph: &Graph,
    before: Seq<usize>,
    after: Seq<usize>,
    i: int,
    v: int,
)
    requires
        graph.wf(),
        0 <= i < graph@.len(),
        0 <= v < graph@.len(),
        v != i,
        before.len() == graph@.len(),
        after.len() == graph@.len(),
        forall|u: int| 0 <= u < before.len() && u != i ==> before[u] == after[u],
        conflict_free_at(graph.neighbor_lists(), before, v),
        conflict_free_at(graph.neighbor_lists(), after, i),
    ensures
        conflict_free_at(graph.neighbor_lists(), after, v),
{
    let lists = graph.neighbor_lists();
    graph.lemma_neighbors(v);
    assert forall|k: int| 0 <= k < lists[v].len() implies after[(#[trigger] lists[v][k]) as int]
        != after[v] by {
        let w = lists[v][k];
        assert(lists[v].contains(lists[v][k]));
        if w == i {
            graph.lemma_symmetric(v, i);
            let l = choose|l: int| 0 <= l < lists[i].len() && lists[i][l] == v as usize;
            assert(after[lists[i][l] as int] != after[i]);
        } else {
            assert(before[lists[v][k] as int] != before[v]);
        }
    }
}

/// The colouring that has the colours of `first_parent` up to the position `pos` and
/// those of `second_parent` after it.
pub open spec fn spliced(first_parent: Seq<usize>, second_parent: Seq<usize>, pos: int) -> Seq<usize> {
    Seq::new(first_parent.len(), |i: int| if i <= pos { first_parent[i] } else { second_parent[i] })
}

/// `color` is the smallest colour, counted from one, that none of
/// `neighbors` has.
pub open spec fn is_smallest_free(neighbors: Seq<usize>, coloring: Seq<usize>, color: usize) -> bool {
    &&& color >= 1
    &&& !color_taken(neighbors, coloring, coloring.len() as int, color)
    &&& forall|c: usize|
        1 <= c < color ==> #[trigger] color_taken(neighbors, coloring, coloring.len() as int, c)
}

/// The smallest colour, counted from one, that none of `neighbors` has.
pub open spec fn smallest_free(neighbors: Seq<usize>, coloring: Seq<usize>) -> usize {
    choose|color: usize| is_smallest_free(neighbors, coloring, color)
}

/// The colouring after the vertices below `upto` were repaired in ascending
/// order: a vertex that has the colour of a neighbour before it takes the
/// smallest colour that none of its neighbours has.
pub open spec fn repaired_upto(lists: Seq<Seq<usize>>, coloring: Seq<usize>, upto: int) -> Seq<usize>
    decreases upto,
{
    if upto <= 0 {
        coloring
    } else {
        let before = repaired_upto(lists, coloring, upto - 1);
        if conflict_free_below(lists, before, upto - 1, upto - 1) {
            before
        } else {
            before.update(upto - 1, smallest_free(lists[upto - 1], before))
        }
    }
}

/// The colouring after all its vertices were repaired in ascending order.
pub open spec fn repaired(lists: Seq<Seq<usize>>, coloring: Seq<usize>) -> Seq<usize> {
    repaired_upto(lists, coloring, coloring.len() as int)
}

/// There is one smallest free colour.
pub proof fn lemma_smallest_free(neighbors: Seq<usize>, coloring: Seq<usize>, color: usize)
    requires
        is_smallest_free(neighbors, coloring, color),
    ensures
        smallest_free(neighbors, coloring) == color,
{
    let other = smallest_free(neighbors, coloring);
    assert(is_smallest_free(neighbors, coloring, other));
    if other < color {
        assert(color_taken(neighbors, coloring, coloring.len() as int, other));
    }
    if color < other {
        assert(color_taken(neighbors, coloring, coloring.len() as int, color));
    }
}

/// Finds the smallest colour, counted from one, that none of `neighbors`
/// has.
pub fn smallest_free_color(neighbors: &Vec<usize>, solution: &[usize]) -> (color: usize)
    requires
        neighbors@.len() < usize::MAX,
        forall|k: int| 0 <= k < neighbors@.len() ==> (#[trigger] neighbors@[k]) < solution@.len(),
    ensures
        is_smallest_free(neighbors@, solution@, color),
        color == smallest_free(neighbors@, solution@),
        color <= neighbors@.len() + 1,
{
    let limit = solution.len();
    let mut color: usize = 1;
    while !color_is_free(neighbors, solution, limit, color)
        invariant
            limit == solution@.len(),
            neighbors@.len() < usize::MAX,
            forall|k: int| 0 <= k < neighbors@.len() ==> (#[trigger] neighbors@[k]) < solution@.len(),
            1 <= color <= neighbors@.len() + 1,
            forall|c: usize|
                1 <= c < color ==> #[trigger] color_taken(neighbors@, solution@, limit as int, c),
        decreases neighbors@.len() + 1 - color,
    {
        proof {
            lemma_pigeonhole(neighbors@, solution@, limit as int, color as nat);
        }
        color += 1;
    }
    proof {
        lemma_smallest_free(neighbors@, solution@, color);
    }
    color
}

/// Recombines the parents `first_parent` and `second_parent` at the position `pos`: the offspring
/// has the colours of `first_parent` up to `pos` and those of `second_parent` after it, and is
/// then repaired from the first vertex to the last.
pub fn crossover_at(
    graph: &Graph,
    first_parent: &Vec<usize>,
    second_parent: &Vec<usize>,
    pos: usize,
) -> (offspring: Vec<usize>)
    requires
        graph.wf(),
        first_parent@.len() == graph@.len(),
        second_parent@.len() == graph@.len(),
    ensures
        offspring@ == repaired(
            graph.neighbor_lists(),
            spliced(first_parent@, second_parent@, pos as int),
        ),
        proper_coloring(graph.neighbor_lists(), offspring@),
        forall|v: int|
            0 <= v < graph@.len() ==> #[trigger] offspring@[v] == spliced(
                first_parent@,
                second_parent@,
                pos as int,
            )[v] || 1 <= offspring@[v] <= graph.neighbor_lists()[v].len() + 1,
{
    let ghost lists = graph.neighbor_lists();
    let n = graph.num_vertices();
    let mut offspring: Vec<usize> = Vec::new();
    let mut i: usize = 0;
    while i < n
        invariant
            n == first_parent@.len(),
            n == second_parent@.len(),
            i <= n,
            offspring@.len() == i,
            forall|k: int|
                0 <= k < i ==> #[trigger] offspring@[k] == (if k <= pos {
                    first_parent@[k]
                } else {
                    second_parent@[k]
                }),
        decreases n - i,
    {
        if i <= pos {
            offspring.push(first_parent[i]);
        } else {
            offspring.push(second_parent[i]);
        }
        i += 1;
    }
    let ghost start = offspring@;
    assert(start =~= spliced(first_parent@, second_parent@, pos as int));
    let mut i: usize = 0;
    while i < n
        invariant
            graph.wf(),
            lists == graph.neighbor_lists(),
            n == graph@.len(),
            start.len() == n,
            i <= n,
            offspring@.len() == n,
            offspring@ == repaired_upto(lists, start, i as int),
            proper_below(lists, offspring@, i as int),
            forall|v: int|
                0 <= v < n ==> #[trigger] offspring@[v] == start[v] || 1 <= offspring@[v]
                    <= lists[v].len() + 1,
        decreases n - i,
    {
        let neighbors = graph.get_neighbors(i);
        let ghost before = offspring@;
        proof {
            graph.lemma_neighbors(i as int);
            assert(lists[i as int] == neighbors@);
        }
        if !color_is_free(&neighbors, offspring.as_slice(), i, offspring[i]) {
            let color = smallest_free_color(&neighbors, offspring.as_slice());
            offspring[i] = color;
            proof {
                if neighbors@.contains(i) {
                    let k = choose|k: int| 0 <= k < neighbors@.len() && neighbors@[k] == i;
                    assert(neighbors@[k] != i);
                }
                lemma_color_taken_elsewhere(
                    neighbors@,
                    before,
                    i as int,
                    color,
                    n as int,
                    color,
                );
                lemma_conflict_free_below(graph, offspring@, i as int);
                assert(conflict_free_at(lists, offspring@, i as int));
                assert(conflict_free_below(lists, offspring@, i as int, i as int)) by {
                    if color_taken(neighbors@, offspring@, i as int, offspring@[i as int]) {
                        let k = choose|k: int|
                            0 <= k < neighbors@.len() && (#[trigger] neighbors@[k]) < i
                                && offspring@[neighbors@[k] as int] == offspring@[i as int];
                        assert(offspring@[lists[i as int][k] as int] != offspring@[i as int]);
                    }
                }
            }
        }
        proof {
            lemma_extend_proper(graph, before, offspring@, i as int);
        }
        i += 1;
    }
    proof {
        lemma_proper_below(graph, offspring@);
    }
    offspring
}

/// Recombines the parents `first_parent` and `second_parent` at a random position, and repairs the
/// offspring.
pub fn crossover(graph: &Graph, first_parent: Vec<usize>, second_parent: Vec<usize>) -> (offspring:
    Vec<usize>)
    requires
        graph.wf(),
        graph@.len() > 0,
        first_parent@.len() == graph@.len(),
        second_parent@.len() == graph@.len(),
    ensures
        proper_coloring(graph.neighbor_lists(), offspring@),
        exists|pos: int|
            0 <= pos < graph@.len() && offspring@ == repaired(
                graph.neighbor_lists(),
                #[trigger] spliced(first_parent@, second_parent@, pos),
            ),
        forall|v: int|
            0 <= v < graph@.len() ==> #[trigger] offspring@[v] == first_parent@[v]
                || offspring@[v] == second_parent@[v] || 1 <= offspring@[v]
                <= graph.neighbor_lists()[v].len() + 1,
{
    let n = graph.num_vertices();
    let pos = random_in_range(0, n - 1);
    let offspring = crossover_at(graph, &first_parent, &second_parent, pos);
    assert(offspring@ == repaired(
        graph.neighbor_lists(),
        spliced(first_parent@, second_parent@, pos as int),
    ));
    offspring
}

/// The number of individuals among which `select` draws: those at the
/// positions up to `limit`, as far as the population has them.
pub open spec fn elite_size(population_len: int, limit: int) -> int {
    if limit < population_len {
        limit + 1
    } else {
        population_len
    }
}

/// Draws two different individuals from the first of the population, those
/// at the positions up to `limit`, to be the parents of an offspring.
pub fn select(population: &Vec<Solution>, limit: usize) -> (parents: (Vec<usize>, Vec<usize>))
    requires
        elite_size(population@.len() as int, limit as int) >= 2,
    ensures
        exists|i: int, j: int|
            0 <= i < elite_size(population@.len() as int, limit as int) && 0 <= j < elite_size(
                population@.len() as int,
                limit as int,
            ) && i != j && parents.0@ == (#[trigger] population@[i]).1@ && parents.1@ == (
            #[trigger] population@[j]).1@,
{
    let size = if limit < population.len() {
        limit + 1
    } else {
        population.len()
    };
    let mut positions: Vec<usize> = Vec::new();
    let mut k: usize = 0;
    while k < size
        invariant
            k <= size,
            positions@.len() == k,
            forall|i: int| 0 <= i < k ==> #[trigger] positions@[i] == i,
        decreases size - k,
    {
        positions.push(k);
        k += 1;
    }
    let (first, second) = choose_two(&positions);
    proof {
        let (i, j) = choose|i: int, j: int|
            0 <= i < positions@.len() && 0 <= j < positions@.len() && i != j
                && #[trigger] positions@[i] == first && #[trigger] positions@[j] == second;
        assert(first == i && second == j);
    }
    let parents = (copy_list(&population[first].1), copy_list(&population[second].1));
    assert(parents.0@ == population@[first as int].1@ && parents.1@ == population@[second as int].1@);
    parents
}

/// Cuts the population back to its first `population_size` individuals, which
/// are the fittest where the population is in order.
pub fn replace(population: &mut Vec<Solution>, population_size: usize)
    ensures
        population_size <= old(population)@.len() ==> final(population)@ == old(
            population,
        )@.take(population_size as int),
        population_size > old(population)@.len() ==> final(population)@ == old(population)@,
{
    population.truncate(population_size);
    proof {
        if population_size <= old(population)@.len() {
            assert(population@ =~= old(population)@.take(population_size as int));
        }
    }
}

/// `individual` is a proper colouring, with colours between one and
/// `upper_bound`, together with the number of colours that it uses.
pub open spec fn is_individual(
    lists: Seq<Seq<usize>>,
    upper_bound: int,
    individual: SolutionView,
) -> bool {
    &&& proper_coloring(lists, individual.1)
    &&& individual.0 == colors_used(individual.1).len()
    &&& forall|v: int|
        0 <= v < individual.1.len() ==> 1 <= (#[trigger] individual.1[v]) <= upper_bound
}

/// Every solution of the population is a proper colouring with its number of
/// colours, and the population is in order.
pub open spec fn is_population(
    lists: Seq<Seq<usize>>,
    upper_bound: int,
    population: Seq<SolutionView>,
) -> bool {
    &&& is_sorted(population)
    &&& forall|i: int|
        0 <= i < population.len() ==> is_individual(lists, upper_bound, #[trigger] population[i])
}

/// A population with one more individual, in its place, is a population.
pub proof fn lemma_population_insert(
    lists: Seq<Seq<usize>>,
    upper_bound: int,
    population: Seq<SolutionView>,
    individual: SolutionView,
)
    requires
        is_population(lists, upper_bound, population),
        is_individual(lists, upper_bound, individual),
    ensures
        is_population(lists, upper_bound, sorted_insert(population, individual)),
        sorted_insert(population, individual).len() == population.len() + 1,
{
    let grown = sorted_insert(population, individual);
    lemma_sorted_insert(population, individual);
    lemma_insert_point_range(population, individual);
    let p = insert_point(population, individual);
    assert forall|i: int| 0 <= i < grown.len() implies is_individual(
        lists,
        upper_bound,
        #[trigger] grown[i],
    ) by {
        if i < p {
            assert(grown[i] == population[i]);
        } else if i > p {
            assert(grown[i] == population[i - 1]);
        }
    }
}

/// The population after the individuals of `children` were put in, each in
/// its place, one after the other.
pub open spec fn with_children(
    population: Seq<SolutionView>,
    children: Seq<SolutionView>,
) -> Seq<SolutionView>
    decreases children.len(),
{
    if children.len() == 0 {
        population
    } else {
        sorted_insert(with_children(population, children.drop_last()), children.last())
    }
}

/// Every child makes the population one longer.
pub proof fn lemma_with_children_len(population: Seq<SolutionView>, children: Seq<SolutionView>)
    ensures
        with_children(population, children).len() == population.len() + children.len(),
    decreases children.len(),
{
    if children.len() > 0 {
        lemma_with_children_len(population, children.drop_last());
        lemma_insert_point_range(
            with_children(population, children.drop_last()),
            children.last(),
        );
    }
}

/// Takes the offspring of a generation into the population, which is in
/// order, each in its place, and cuts the population back to its first
/// `population_size` individuals.
pub fn admit_offspring(
    population: &mut Vec<Solution>,
    children: Vec<Solution>,
    population_size: usize,
)
    requires
        is_sorted(solutions_of(old(population)@)),
    ensures
        is_sorted(solutions_of(final(population)@)),
        population_size <= old(population)@.len() + children@.len() ==> solutions_of(
            final(population)@,
        ) == with_children(solutions_of(old(population)@), solutions_of(children@)).take(
            population_size as int,
        ),
        population_size > old(population)@.len() + children@.len() ==> solutions_of(
            final(population)@,
        ) == with_children(solutions_of(old(population)@), solutions_of(children@)),
        forall|i: int|
            0 <= i < final(population)@.len() ==> solutions_of(old(population)@).contains(
                #[trigger] solutions_of(final(population)@)[i],
            ) || solutions_of(children@).contains(solutions_of(final(population)@)[i]),
{
    let ghost start = solutions_of(population@);
    let ghost offspring = solutions_of(children@);
    let mut children = children;
    let mut taken: usize = 0;
    let total = children.len();
    proof {
        assert(offspring.take(0) =~= Seq::<SolutionView>::empty());
        assert forall|i: int| 0 <= i < population@.len() implies start.contains(
            #[trigger] solutions_of(population@)[i],
        ) by {
            assert(start[i] == solutions_of(population@)[i]);
        }
    }
    while children.len() > 0
        invariant
            total == offspring.len(),
            taken + children@.len() == total,
            solutions_of(children@) == offspring.skip(taken as int),
            is_sorted(solutions_of(population@)),
            solutions_of(population@) == with_children(start, offspring.take(taken as int)),
            population@.len() == start.len() + taken,
            forall|i: int|
                0 <= i < population@.len() ==> start.contains(
                    #[trigger] solutions_of(population@)[i],
                ) || offspring.contains(solutions_of(population@)[i]),
        decreases children@.len(),
    {
        let ghost waiting = solutions_of(children@);
        let ghost before = solutions_of(population@);
        let child = children.remove(0);
        proof {
            assert(waiting[0] == offspring[taken as int]);
            assert(offspring.take(taken + 1).drop_last() =~= offspring.take(taken as int));
            assert(solutions_of(children@) =~= offspring.skip(taken + 1)) by {
                assert forall|i: int| 0 <= i < children@.len() implies #[trigger] solutions_of(
                    children@,
                )[i] == offspring.skip(taken + 1)[i] by {
                    assert(waiting[i + 1] == offspring.skip(taken as int)[i + 1]);
                }
            }
            lemma_sorted_insert(before, (child.0, child.1@));
            lemma_insert_point_range(before, (child.0, child.1@));
        }
        insert_in_order(population, child);
        proof {
            let grown = solutions_of(population@);
            let s = offspring[taken as int];
            let p = insert_point(before, s);
            assert forall|i: int| 0 <= i < population@.len() implies start.contains(
                #[trigger] grown[i],
            ) || offspring.contains(grown[i]) by {
                if i < p {
                    assert(grown[i] == before[i]);
                } else if i > p {
                    assert(grown[i] == before[i - 1]);
                } else {
                    assert(offspring[taken as int] == grown[i]);
                }
            }
        }
        taken += 1;
    }
    assert(offspring.take(taken as int) =~= offspring);
    let ghost grown = solutions_of(population@);
    replace(population, population_size);
    proof {
        let kept = solutions_of(population@);
        if population_size <= grown.len() {
            assert(kept =~= grown.take(population_size as int));
        } else {
            assert(kept =~= grown);
        }
        assert forall|i: int, j: int| 0 <= i < j < kept.len() implies solution_le(
            #[trigger] kept[i],
            #[trigger] kept[j],
        ) by {
            assert(kept[i] == grown[i] && kept[j] == grown[j]);
        }
        assert forall|i: int| 0 <= i < population@.len() implies start.contains(
            #[trigger] kept[i],
        ) || offspring.contains(kept[i]) by {
            assert(kept[i] == grown[i]);
        }
    }
}

/// `child` can be bred from the population: it is a mutation of what two
/// different individuals among the first of the population, those at the
/// positions up to `limit`, give when they are recombined at some position
/// and repaired, together with the number of colours that it uses.
pub open spec fn is_offspring_of(
    lists: Seq<Seq<usize>>,
    upper_bound: int,
    population: Seq<SolutionView>,
    limit: int,
    child: SolutionView,
) -> bool {
    &&& child.0 == colors_used(child.1).len()
    &&& exists|i: int, j: int, pos: int|
        {
            &&& 0 <= i < elite_size(population.len() as int, limit)
            &&& 0 <= j < elite_size(population.len() as int, limit)
            &&& i != j
            &&& 0 <= pos < lists.len()
            &&& is_mutation_of(
                lists,
                upper_bound,
                repaired(lists, #[trigger] spliced(population[i].1, population[j].1, pos)),
                child.1,
            )
        }
}

/// `after` can be the generation that follows `before`: the population with
/// `count` offspring of it taken in, each in its place, and cut back to its
/// first `size` individuals.
pub open spec fn is_generation_of(
    lists: Seq<Seq<usize>>,
    upper_bound: int,
    limit: int,
    size: int,
    count: int,
    before: Seq<SolutionView>,
    after: Seq<SolutionView>,
) -> bool {
    exists|children: Seq<SolutionView>|
        {
            &&& children.len() == count
            &&& forall|c: int|
                0 <= c < children.len() ==> is_offspring_of(
                    lists,
                    upper_bound,
                    before,
                    limit,
                    #[trigger] children[c],
                )
            &&& after == #[trigger] with_children(before, children).take(size)
        }
}

/// The populations of a run, one after the other: the first is a population
/// of `size` individuals, and each of the others the generation that follows
/// the one before.
pub open spec fn is_history(
    lists: Seq<Seq<usize>>,
    upper_bound: int,
    limit: int,
    size: int,
    count: int,
    history: Seq<Seq<SolutionView>>,
) -> bool {
    &&& history.len() > 0
    &&& is_population(lists, upper_bound, history[0])
    &&& forall|g: int| 0 <= g < history.len() ==> (#[trigger] history[g]).len() == size
    &&& forall|g: int|
        0 < g < history.len() ==> is_generation_of(
            lists,
            upper_bound,
            limit,
            size,
            count,
            history[g - 1],
            #[trigger] history[g],
        )
}

/// The colouring that gives each of `n` vertices a colour of its own, with
/// its `n` colours.
pub open spec fn trivial_solution(n: usize) -> SolutionView {
    (n, Seq::new(n as nat, |i: int| (i + 1) as usize))
}

/// `solution` is the best that the run has seen: the first individual of a
/// generation that has no more colours than the first individual of any
/// generation and fewer than the graph has vertices, or else the colouring
/// that gives every vertex a colour of its own.
pub open spec fn is_best_seen(n: usize, history: Seq<Seq<SolutionView>>, solution: SolutionView) -> bool {
    &&& solution == trivial_solution(n) || exists|g: int|
        0 < g < history.len() && solution == (#[trigger] history[g])[0]
    &&& forall|g: int| 0 < g < history.len() ==> solution.0 <= (#[trigger] history[g])[0].0
    &&& solution.0 <= n
}

/// A history with one more generation is a history.
pub proof fn lemma_history_push(
    lists: Seq<Seq<usize>>,
    upper_bound: int,
    limit: int,
    size: int,
    count: int,
    history: Seq<Seq<SolutionView>>,
    next: Seq<SolutionView>,
)
    requires
        is_history(lists, upper_bound, limit, size, count, history),
        is_generation_of(lists, upper_bound, limit, size, count, history.last(), next),
        next.len() == size,
    ensures
        is_history(lists, upper_bound, limit, size, count, history.push(next)),
{
    let longer = history.push(next);
    assert(longer[0] == history[0]);
    assert forall|g: int| 0 <= g < longer.len() implies (#[trigger] longer[g]).len() == size by {
        if g < history.len() {
            assert(longer[g] == history[g]);
        }
    }
    assert forall|g: int| 0 < g < longer.len() implies is_generation_of(
        lists,
        upper_bound,
        limit,
        size,
        count,
        longer[g - 1],
        #[trigger] longer[g],
    ) by {
        if g < history.len() {
            assert(longer[g] == history[g] && longer[g - 1] == history[g - 1]);
        } else {
            assert(longer[g - 1] == history.last());
        }
    }
}

/// What the best seen is after one more generation: the first individual of
/// that generation where it has fewer colours, and what it was otherwise.
pub proof fn lemma_best_seen_push(
    n: usize,
    history: Seq<Seq<SolutionView>>,
    best: SolutionView,
    next: Seq<SolutionView>,
)
    requires
        history.len() > 0,
        next.len() > 0,
        is_best_seen(n, history, best),
    ensures
        next[0].0 < best.0 ==> is_best_seen(n, history.push(next), next[0]),
        next[0].0 >= best.0 ==> is_best_seen(n, history.push(next), best),
{
    let longer = history.push(next);
    let now = if next[0].0 < best.0 { next[0] } else { best };
    assert forall|g: int| 0 < g < longer.len() implies now.0 <= (#[trigger] longer[g])[0].0 by {
        if g < history.len() {
            assert(longer[g] == history[g]);
            assert(best.0 <= history[g][0].0);
        }
    }
    if next[0].0 < best.0 {
        assert(longer[history.len() as int][0] == next[0]);
    } else if best != trivial_solution(n) {
        let g = choose|g: int| 0 < g < history.len() && best == (#[trigger] history[g])[0];
        assert(longer[g] == history[g]);
    }
}

/// Breeds one offspring of the population: two of its first individuals are
/// drawn, recombined and mutated.
pub fn breed(
    graph: &Graph,
    population: &Vec<Solution>,
    upper_bound: usize,
    mutation_rate: usize,
    elite_limit: usize,
) -> (child: Solution)
    requires
        graph.wf(),
        graph@.len() > 0,
        exceeds_degrees(graph.neighbor_lists(), upper_bound as int),
        is_population(graph.neighbor_lists(), upper_bound as int, solutions_of(population@)),
        elite_size(population@.len() as int, elite_limit as int) >= 2,
    ensures
        is_individual(graph.neighbor_lists(), upper_bound as int, (child.0, child.1@)),
        is_offspring_of(
            graph.neighbor_lists(),
            upper_bound as int,
            solutions_of(population@),
            elite_limit as int,
            (child.0, child.1@),
        ),
{
    let ghost lists = graph.neighbor_lists();
    let ghost members = solutions_of(population@);
    let (first_parent, second_parent) = select(population, elite_limit);
    let ghost (i, j) = choose|i: int, j: int|
        0 <= i < elite_size(population@.len() as int, elite_limit as int) && 0 <= j < elite_size(
            population@.len() as int,
            elite_limit as int,
        ) && i != j && first_parent@ == (#[trigger] population@[i]).1@ && second_parent@ == (
        #[trigger] population@[j]).1@;
    proof {
        assert(is_individual(lists, upper_bound as int, members[i]));
        assert(is_individual(lists, upper_bound as int, members[j]));
    }
    let mut offspring = crossover(graph, first_parent, second_parent);
    let ghost crossed = offspring@;
    let ghost pos = choose|pos: int|
        0 <= pos < graph@.len() && crossed == repaired(
            lists,
            #[trigger] spliced(members[i].1, members[j].1, pos),
        );
    proof {
        assert forall|v: int| 0 <= v < crossed.len() implies 1 <= (#[trigger] crossed[v])
            <= upper_bound by {
            assert(lists[v].len() < upper_bound);
        }
    }
    mutate(graph, offspring.as_mut_slice(), upper_bound, mutation_rate);
    proof {
        assert forall|v: int| 0 <= v < offspring@.len() implies 1 <= (#[trigger] offspring@[v])
            <= upper_bound by {
            assert(offspring@[v] == crossed[v] || 1 <= offspring@[v] <= upper_bound);
        }
        assert(is_mutation_of(
            lists,
            upper_bound as int,
            repaired(lists, spliced(members[i].1, members[j].1, pos)),
            offspring@,
        ));
    }
    (count_colors(offspring.as_slice()), offspring)
}

/// Breeds the offspring of a generation, all from the population as it is,
/// takes them into the population and cuts it back to its size.
pub fn next_generation(
    graph: &Graph,
    population: &mut Vec<Solution>,
    offsprings_per_generation: usize,
    upper_bound: usize,
    mutation_rate: usize,
    elite_limit: usize,
)
    requires
        graph.wf(),
        graph@.len() > 0,
        exceeds_degrees(graph.neighbor_lists(), upper_bound as int),
        is_population(graph.neighbor_lists(), upper_bound as int, solutions_of(old(population)@)),
        old(population)@.len() >= 2,
        elite_limit >= 1,
    ensures
        is_population(graph.neighbor_lists(), upper_bound as int, solutions_of(final(population)@)),
        final(population)@.len() == old(population)@.len(),
        is_generation_of(
            graph.neighbor_lists(),
            upper_bound as int,
            elite_limit as int,
            old(population)@.len() as int,
            offsprings_per_generation as int,
            solutions_of(old(population)@),
            solutions_of(final(population)@),
        ),
{
    let ghost lists = graph.neighbor_lists();
    let ghost parents = solutions_of(population@);
    let population_size = population.len();
    let mut children: Vec<Solution> = Vec::new();
    let mut bred: usize = 0;
    while bred < offsprings_per_generation
        invariant
            graph.wf(),
            graph@.len() > 0,
            lists == graph.neighbor_lists(),
            exceeds_degrees(lists, upper_bound as int),
            population@.len() >= 2,
            parents == solutions_of(population@),
            elite_limit >= 1,
            is_population(lists, upper_bound as int, parents),
            bred <= offsprings_per_generation,
            children@.len() == bred,
            forall|i: int|
                0 <= i < children@.len() ==> is_individual(
                    lists,
                    upper_bound as int,
                    #[trigger] solutions_of(children@)[i],
                ) && is_offspring_of(
                    lists,
                    upper_bound as int,
                    parents,
                    elite_limit as int,
                    solutions_of(children@)[i],
                ),
        decreases offsprings_per_generation - bred,
    {
        let child = breed(graph, population, upper_bound, mutation_rate, elite_limit);
        let ghost before = solutions_of(children@);
        children.push(child);
        proof {
            assert forall|i: int| 0 <= i < children@.len() implies is_individual(
                lists,
                upper_bound as int,
                #[trigger] solutions_of(children@)[i],
            ) && is_offspring_of(
                lists,
                upper_bound as int,
                parents,
                elite_limit as int,
                solutions_of(children@)[i],
            ) by {
                if i < before.len() {
                    assert(solutions_of(children@)[i] == before[i]);
                }
            }
        }
        bred += 1;
    }
    let ghost offspring = solutions_of(children@);
    admit_offspring(population, children, population_size);
    proof {
        let kept = solutions_of(population@);
        lemma_with_children_len(parents, offspring);
        assert forall|i: int| 0 <= i < kept.len() implies is_individual(
            lists,
            upper_bound as int,
            #[trigger] kept[i],
        ) by {
            if parents.contains(kept[i]) {
                let k = choose|k: int| 0 <= k < parents.len() && parents[k] == kept[i];
                assert(parents[k] == kept[i]);
            } else {
                let k = choose|k: int| 0 <= k < offspring.len() && offspring[k] == kept[i];
                assert(offspring[k] == kept[i]);
            }
        }
        assert(kept == with_children(parents, offspring).take(population_size as int));
    }
}

/// Runs the genetic algorithm: a population of `population_size` random
/// proper colourings is kept in order of the number of colours; in each of
/// the `generations` it breeds `offsprings_per_generation` offspring from its
/// first individuals, takes them in and is cut back to its size. Returns the
/// fewest colours that the first individual of any generation had, with its
/// colouring, or the colouring that gives every vertex a colour of its own
/// where none had fewer.
///
/// `mutation_rate` counts the chances in `MUTATION_SCALE` that a vertex of an
/// offspring mutates, and the parents are drawn among the individuals at the
/// positions up to `elite_limit`.
pub fn genetic(
    graph: &Graph,
    generations: usize,
    population_size: usize,
    offsprings_per_generation: usize,
    mutation_rate: usize,
    elite_limit: usize,
) -> (solution: (usize, Vec<usize>))
    requires
        graph.wf(),
        graph@.len() > 0,
        population_size >= 2,
        elite_limit >= 1,
    ensures
        proper_coloring(graph.neighbor_lists(), solution.1@),
        solution.0 == colors_used(solution.1@).len(),
        solution.0 <= graph@.len(),
        forall|v: int| 0 <= v < solution.1@.len() ==> (#[trigger] solution.1@[v]) >= 1,
        generations >= 1 ==> exists|v: int|
            0 <= v < graph@.len() && solution.0 <= (#[trigger] graph.neighbor_lists()[v]).len() + 1,
        exists|upper_bound: int, history: Seq<Seq<SolutionView>>|
            {
                &&& history.len() == generations + 1
                &&& exceeds_degrees(graph.neighbor_lists(), upper_bound)
                &&& #[trigger] is_history(
                    graph.neighbor_lists(),
                    upper_bound,
                    elite_limit as int,
                    population_size as int,
                    offsprings_per_generation as int,
                    history,
                )
                &&& is_best_seen(graph@.len() as usize, history, (solution.0, solution.1@))
            },
{
    let ghost lists = graph.neighbor_lists();
    let n = graph.num_vertices();
    let mut best = n;
    let mut colors = all_colors(n);
    proof {
        assert forall|v: int| 0 <= v < lists.len() implies conflict_free_at(lists, colors@, v) by {
            graph.lemma_neighbors(v);
        }
        assert(colors_used(colors@) =~= color_range(n as nat)) by {
            assert forall|c: usize| color_range(n as nat).contains(c) implies colors_used(
                colors@,
            ).contains(c) by {
                assert(colors@[c - 1] == c);
            }
        }
        lemma_color_range(n as nat);
    }
    let upper_bound = coloring_upper_bound(graph);
    let mut population: Vec<Solution> = Vec::new();
    let mut made: usize = 0;
    while made < population_size
        invariant
            graph.wf(),
            lists == graph.neighbor_lists(),
            exceeds_degrees(lists, upper_bound as int),
            made <= population_size,
            population@.len() == made,
            is_population(lists, upper_bound as int, solutions_of(population@)),
        decreases population_size - made,
    {
        let individual = generate_individual(graph, upper_bound);
        let ghost before = solutions_of(population@);
        let member = (count_colors(individual.as_slice()), individual);
        proof {
            lemma_population_insert(lists, upper_bound as int, before, (member.0, member.1@));
        }
        insert_in_order(&mut population, member);
        made += 1;
    }
    let ghost mut history: Seq<Seq<SolutionView>> = seq![solutions_of(population@)];
    proof {
        assert(colors@ =~= trivial_solution(n).1);
        assert(is_history(
            lists,
            upper_bound as int,
            elite_limit as int,
            population_size as int,
            offsprings_per_generation as int,
            history,
        ));
    }
    let mut generation: usize = 0;
    while generation < generations
        invariant
            graph.wf(),
            graph@.len() > 0,
            lists == graph.neighbor_lists(),
            n == graph@.len(),
            exceeds_degrees(lists, upper_bound as int),
            population_size >= 2,
            elite_limit >= 1,
            population@.len() == population_size,
            is_population(lists, upper_bound as int, solutions_of(population@)),
            proper_coloring(lists, colors@),
            best == colors_used(colors@).len(),
            forall|v: int| 0 <= v < colors@.len() ==> (#[trigger] colors@[v]) >= 1,
            best <= n,
            generation >= 1 ==> best <= upper_bound,
            generation <= generations,
            history.len() == generation + 1,
            history.last() == solutions_of(population@),
            is_history(
                lists,
                upper_bound as int,
                elite_limit as int,
                population_size as int,
                offsprings_per_generation as int,
                history,
            ),
            is_best_seen(n, history, (best, colors@)),
        decreases generations - generation,
    {
        next_generation(
            graph,
            &mut population,
            offsprings_per_generation,
            upper_bound,
            mutation_rate,
            elite_limit,
        );
        proof {
            let kept = solutions_of(population@);
            assert(is_individual(lists, upper_bound as int, kept[0]));
            lemma_colors_bounded(kept[0].1, upper_bound);
            lemma_history_push(
                lists,
                upper_bound as int,
                elite_limit as int,
                population_size as int,
                offsprings_per_generation as int,
                history,
                kept,
            );
            lemma_best_seen_push(n, history, (best, colors@), kept);
            history = history.push(kept);
        }
        if population[0].0 < best {
            best = population[0].0;
            colors = copy_list(&population[0].1);
        }
        generation += 1;
    }
    proof {
        if generations >= 1 {
            let v = choose|v: int| 0 <= v < n && upper_bound == (#[trigger] lists[v]).len() + 1;
            assert(best <= lists[v].len() + 1);
        }
    }
    (best, colors)
}

} // verus!
