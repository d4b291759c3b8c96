//! What holds of the two ways to write a colouring down, and of the number of
//! colours that a colouring uses.

use crate::algorithms::class_list::{
    class_coloring, class_list_of, classes_disjoint, color_in, lemma_class_list_of,
    lemma_color_in, lemma_color_in_class,
};
use crate::algorithms::{colors_used, lemma_colors_used_finite, proper_coloring};
use crate::graph::adj_list::complete_row;
use vstd::prelude::*;

verus! {

/// Number of classes among the first `upto` that hold a vertex.
pub open spec fn nonempty_classes(classes: Seq<Seq<usize>>, upto: int) -> nat
    decreases upto,
{
    if upto <= 0 {
        0
    } else {
        nonempty_classes(classes, upto - 1) + if classes[upto - 1].len() > 0 {
            1nat
        } else {
            0nat
        }
    }
}

/// The numbers, counted from one, of the classes among the first `upto` that
/// hold a vertex.
pub open spec fn nonempty_numbers(classes: Seq<Seq<usize>>, upto: int) -> Set<usize> {
    Set::new(|c: usize| 1 <= c <= upto && classes[c - 1].len() > 0)
}

/// Writing a colouring down as a class list and reading the class list back
/// gives the colouring again, where the list has a class for every colour.
pub proof fn lemma_class_list_round_trip(coloring: Seq<usize>, num_classes: nat)
    requires
        coloring.len() <= usize::MAX,
        num_classes < usize::MAX,
        forall|v: int| 0 <= v < coloring.len() ==> (#[trigger] coloring[v]) <= num_classes,
    ensures
        class_coloring(class_list_of(coloring, num_classes), coloring.len()) == coloring,
{
    let classes = class_list_of(coloring, num_classes);
    lemma_class_list_of(coloring, num_classes);
    assert forall|v: int| 0 <= v < coloring.len() implies #[trigger] class_coloring(
        classes,
        coloring.len(),
    )[v] == coloring[v] by {
        let u = v as usize;
        lemma_color_in(classes, u);
        if coloring[v] > 0 {
            assert(classes[coloring[v] - 1].contains(u));
            lemma_color_in_class(classes, coloring.len(), coloring[v] - 1, u);
        } else {
            if color_in(classes, u) > 0 {
                assert(classes[color_in(classes, u) - 1].contains(u));
            }
        }
    }
    assert(class_coloring(classes, coloring.len()) =~= coloring);
}

/// There are as many numbers of classes that hold a vertex as classes that
/// hold one.
pub proof fn lemma_nonempty_numbers(classes: Seq<Seq<usize>>, upto: int)
    requires
        0 <= upto <= classes.len(),
        classes.len() <= usize::MAX,
    ensures
        nonempty_numbers(classes, upto).finite(),
        nonempty_numbers(classes, upto).len() == nonempty_classes(classes, upto),
    decreases upto,
{
    if upto == 0 {
        assert(nonempty_numbers(classes, upto) =~= Set::<usize>::empty());
    } else {
        lemma_nonempty_numbers(classes, upto - 1);
        if classes[upto - 1].len() > 0 {
            assert(nonempty_numbers(classes, upto) =~= nonempty_numbers(classes, upto - 1).insert(
                upto as usize,
            ));
        } else {
            assert(nonempty_numbers(classes, upto) =~= nonempty_numbers(classes, upto - 1));
        }
    }
}

/// The colouring that a class list stands for uses as many colours as the
/// list has classes that hold a vertex.
pub proof fn lemma_colors_are_nonempty_classes(classes: Seq<Seq<usize>>, n: nat)
    requires
        classes_disjoint(classes, n),
        classes.len() <= usize::MAX,
        n <= usize::MAX,
    ensures
        colors_used(class_coloring(classes, n)).len() == nonempty_classes(
            classes,
            classes.len() as int,
        ),
{
    let coloring = class_coloring(classes, n);
    let numbers = nonempty_numbers(classes, classes.len() as int);
    lemma_nonempty_numbers(classes, classes.len() as int);
    assert forall|c: usize| colors_used(coloring).contains(c) <==> numbers.contains(c) by {
        if colors_used(coloring).contains(c) {
            let v = choose|v: int| 0 <= v < coloring.len() && coloring[v] == c;
            lemma_color_in(classes, v as usize);
            assert(coloring[v] == color_in(classes, v as usize));
            let class = classes[c - 1];
            let u = v as usize;
            let p = choose|p: int| 0 <= p < class.len() && class[p] == u;
        }
        if numbers.contains(c) {
            let class = classes[c - 1];
            let u = class[0];
            assert(class.contains(class[0]));
            assert(classes[c - 1][0] < n);
            lemma_color_in_class(classes, n, c - 1, u);
            assert(coloring[u as int] == c);
        }
    }
    assert(colors_used(coloring) =~= numbers);
}

/// The lists of the complete graph on `n` vertices.
pub open spec fn complete_lists(n: nat) -> Seq<Seq<usize>> {
    Seq::new(n, |i: int| complete_row(n, i))
}

/// A proper colouring of a complete graph gives every vertex a colour of its
/// own: it uses as many colours as the graph has vertices.
pub proof fn lemma_complete_graph_colors(n: nat, coloring: Seq<usize>)
    requires
        n <= usize::MAX,
        proper_coloring(complete_lists(n), coloring),
        forall|v: int| 0 <= v < coloring.len() ==> (#[trigger] coloring[v]) > 0,
    ensures
        colors_used(coloring).len() == n,
{
    let adj = complete_lists(n);
    assert forall|u: int, v: int| 0 <= u < n && 0 <= v < n && u != v implies coloring[u]
        != coloring[v] by {
        assert(crate::algorithms::conflict_free_at(adj, coloring, u));
        let row = complete_row(n, u);
        assert(adj[u] == row);
        let k = if v < u { v } else { v - 1 };
        assert(row[k] == v as usize);
        assert(coloring[adj[u][k] as int] != coloring[u]);
    }
    assert(coloring.no_duplicates());
    coloring.unique_seq_to_set();
    assert(colors_used(coloring) =~= coloring.to_set()) by {
        assert forall|c: usize| coloring.to_set().contains(c) implies colors_used(
            coloring,
        ).contains(c) by {
            let v = choose|v: int| 0 <= v < coloring.len() && coloring[v] == c;
            assert(coloring[v] > 0);
        }
    }
}

/// The colouring `coloring` with every colour `c` replaced by `relabel(c)`.
pub open spec fn relabeled(coloring: Seq<usize>, relabel: spec_fn(usize) -> usize) -> Seq<usize> {
    Seq::new(coloring.len(), |v: int| relabel(coloring[v]))
}

/// Giving the colours other names does not change how many there are: a
/// relabeling that keeps zero, which is no colour, apart from the colours and
/// gives no two colours in use one name leaves the number of colours in use
/// as it is.
pub proof fn lemma_count_colors_relabeled(coloring: Seq<usize>, relabel: spec_fn(usize) -> usize)
    requires
        forall|c: usize| c > 0 ==> #[trigger] relabel(c) > 0,
        relabel(0) == 0,
        forall|a: usize, b: usize|
            colors_used(coloring).contains(a) && colors_used(coloring).contains(b) && relabel(a)
                == relabel(b) ==> a == b,
    ensures
        colors_used(relabeled(coloring, relabel)).len() == colors_used(coloring).len(),
{
    let before = colors_used(coloring);
    let after = colors_used(relabeled(coloring, relabel));
    lemma_colors_used_finite(coloring);
    assert(before.map(relabel) =~= after) by {
        assert forall|c: usize| before.map(relabel).contains(c) <==> after.contains(c) by {
            if before.map(relabel).contains(c) {
                let a = choose|a: usize| before.contains(a) && relabel(a) == c;
                let v = choose|v: int| 0 <= v < coloring.len() && coloring[v] == a;
                assert(relabeled(coloring, relabel)[v] == c);
            }
            if after.contains(c) {
                let v = choose|v: int|
                    0 <= v < coloring.len() && relabeled(coloring, relabel)[v] == c;
                let a = coloring[v];
                assert(a > 0);
                assert(coloring.contains(coloring[v]));
                assert(before.contains(a) && relabel(a) == c);
            }
        }
    }
    assert(vstd::relations::injective_on(relabel, before));
    vstd::set_lib::lemma_map_size(before, after, relabel);
}

} // verus!
