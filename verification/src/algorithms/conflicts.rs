//! Counting the edges whose two ends have one colour, and how the count
//! changes when one vertex changes its colour.

use crate::algorithms::{
    conflict_free_at, conflicts_at, has_color, lemma_conflicts_zero, proper_coloring,
};
use crate::counting::{
    count_if, is_value, lemma_count_if_bound, lemma_count_if_positive,
    lemma_occurrences_contains, lemma_sum_add, lemma_sum_agree, lemma_sum_le, lemma_sum_point,
    lemma_sum_prefix, lemma_sum_two_terms, lemma_sum_zero, occurrences, sum_upto,
};
use crate::graph::adj_list::{adjacency_wf, list_lengths, total_degree};
use vstd::prelude::*;

verus! {

/// The number of conflicts at each vertex.
pub open spec fn conflict_counts(adj: Seq<Seq<usize>>, coloring: Seq<usize>) -> spec_fn(int) -> nat {
    |u: int| conflicts_at(adj, coloring, u)
}

/// Number of entries in all the lists together that name a neighbour of the
/// owner's colour. Every conflicting edge is counted from both ends.
pub open spec fn directed_conflicts(adj: Seq<Seq<usize>>, coloring: Seq<usize>) -> nat {
    sum_upto(conflict_counts(adj, coloring), adj.len())
}

/// Number of edges whose two ends have one colour.
pub open spec fn forbidden_edges(adj: Seq<Seq<usize>>, coloring: Seq<usize>) -> nat {
    directed_conflicts(adj, coloring) / 2
}

/// The vertices that have a neighbour of their own colour.
pub open spec fn forbidden_set(adj: Seq<Seq<usize>>, coloring: Seq<usize>) -> Set<usize> {
    Set::new(|v: usize| v < adj.len() && conflicts_at(adj, coloring, v as int) > 0)
}

/// There are no more conflicts than entries in the lists.
pub proof fn lemma_directed_conflicts_bound(adj: Seq<Seq<usize>>, coloring: Seq<usize>, m: nat)
    requires
        m <= adj.len(),
    ensures
        sum_upto(conflict_counts(adj, coloring), m) <= total_degree(adj),
{
    assert forall|i: int| 0 <= i < m implies #[trigger] conflict_counts(adj, coloring)(i)
        <= list_lengths(adj)(i) by {
        lemma_count_if_bound(adj[i], has_color(coloring, coloring[i]));
    }
    lemma_sum_le(conflict_counts(adj, coloring), list_lengths(adj), m);
    lemma_sum_prefix(list_lengths(adj), m, adj.len());
}

/// The number of occurrences in `s` of each vertex that satisfies `pred`, and
/// zero for the others.
pub open spec fn weighted(s: Seq<usize>, pred: spec_fn(usize) -> bool) -> spec_fn(int) -> nat {
    |u: int| if pred(u as usize) { occurrences(s, u as usize) } else { 0nat }
}

/// Counting the entries of a list that satisfy a predicate is the same as
/// adding up, over the vertices that satisfy it, how often each occurs.
pub proof fn lemma_regroup(s: Seq<usize>, pred: spec_fn(usize) -> bool, n: nat)
    requires
        n <= usize::MAX,
        forall|k: int| 0 <= k < s.len() ==> (#[trigger] s[k]) < n,
    ensures
        sum_upto(weighted(s, pred), n) == count_if(s, pred),
    decreases s.len(),
{
    if s.len() == 0 {
        assert forall|i: int| 0 <= i < n implies #[trigger] weighted(s, pred)(i) == 0 by {}
        lemma_sum_zero(weighted(s, pred), n);
    } else {
        let t = s.drop_last();
        let x = s.last();
        assert(s[s.len() - 1] < n);
        assert forall|k: int| 0 <= k < t.len() implies (#[trigger] t[k]) < n by {
            assert(t[k] == s[k]);
        }
        lemma_regroup(t, pred, n);
        let point = |u: int| if u == x && pred(x) { 1nat } else { 0nat };
        assert forall|u: int| 0 <= u < n implies #[trigger] weighted(s, pred)(u) == weighted(
            t,
            pred,
        )(u) + point(u) by {
            assert(is_value(u as usize)(x) == (x == u));
        }
        lemma_sum_add(weighted(t, pred), point, weighted(s, pred), n);
        lemma_sum_point(point, n, x as int);
    }
}

/// How the count of one colour in a list changes when vertex `v` takes the
/// colour `b`.
pub proof fn lemma_recolor_list(s: Seq<usize>, c: Seq<usize>, v: int, b: usize, col: usize)
    requires
        0 <= v < c.len(),
        c.len() <= usize::MAX,
        forall|k: int| 0 <= k < s.len() ==> (#[trigger] s[k]) < c.len(),
    ensures
        count_if(s, has_color(c.update(v, b), col)) + (if c[v] == col {
            occurrences(s, v as usize)
        } else {
            0nat
        }) == count_if(s, has_color(c, col)) + (if b == col {
            occurrences(s, v as usize)
        } else {
            0nat
        }),
    decreases s.len(),
{
    if s.len() > 0 {
        let t = s.drop_last();
        assert forall|k: int| 0 <= k < t.len() implies (#[trigger] t[k]) < c.len() by {
            assert(t[k] == s[k]);
        }
        lemma_recolor_list(t, c, v, b, col);
        let x = s.last();
        assert(s[s.len() - 1] < c.len());
        assert(is_value(v as usize)(x) == (x == v));
        if x != v {
            assert(c.update(v, b)[x as int] == c[x as int]);
        }
    }
}

/// When vertex `v` takes the colour `b`, the conflicts counted over all lists
/// change by twice what the count at `v` changes by.
pub proof fn lemma_recolor_conflicts(adj: Seq<Seq<usize>>, c: Seq<usize>, v: int, b: usize)
    requires
        adjacency_wf(adj),
        c.len() == adj.len(),
        adj.len() <= usize::MAX,
        0 <= v < adj.len(),
    ensures
        directed_conflicts(adj, c.update(v, b)) + 2 * count_if(adj[v], has_color(c, c[v]))
            == directed_conflicts(adj, c) + 2 * count_if(adj[v], has_color(c, b)),
        conflicts_at(adj, c.update(v, b), v) == count_if(adj[v], has_color(c, b)),
{
    let n = adj.len();
    let a = c[v];
    let c2 = c.update(v, b);
    let count_a = count_if(adj[v], has_color(c, a));
    let count_b = count_if(adj[v], has_color(c, b));
    let f = conflict_counts(adj, c);
    let f2 = conflict_counts(adj, c2);
    let ga = weighted(adj[v], has_color(c, a));
    let gb = weighted(adj[v], has_color(c, b));
    let pa = |u: int| if u == v { count_a } else { 0nat };
    let pb = |u: int| if u == v { count_b } else { 0nat };
    assert forall|k: int| 0 <= k < adj[v].len() implies (#[trigger] adj[v][k]) < n by {}
    lemma_regroup(adj[v], has_color(c, a), n);
    lemma_regroup(adj[v], has_color(c, b), n);
    lemma_sum_point(pa, n, v);
    lemma_sum_point(pb, n, v);
    // No vertex stands in its own list.
    lemma_occurrences_contains(adj[v], v as usize);
    if adj[v].contains(v as usize) {
        let k = choose|k: int| 0 <= k < adj[v].len() && adj[v][k] == v as usize;
        assert(adj[v][k] != v);
    }
    lemma_recolor_list(adj[v], c, v, b, b);
    assert(f2(v) == count_b);
    let fa = |u: int| f2(u) + ga(u);
    let fb = |u: int| f(u) + gb(u);
    let h1 = |u: int| fa(u) + pa(u);
    let h2 = |u: int| fb(u) + pb(u);
    assert forall|u: int| 0 <= u < n implies #[trigger] h1(u) == h2(u) by {
        if u != v {
            assert forall|k: int| 0 <= k < adj[u].len() implies (#[trigger] adj[u][k]) < n by {}
            lemma_recolor_list(adj[u], c, v, b, c[u]);
            assert(occurrences(adj[u as usize as int], v as usize) == occurrences(
                adj[v as usize as int],
                u as usize,
            ));
            assert(c2[u] == c[u]);
        }
    }
    lemma_sum_agree(h1, h2, n);
    lemma_sum_add(f2, ga, fa, n);
    lemma_sum_add(fa, pa, h1, n);
    lemma_sum_add(f, gb, fb, n);
    lemma_sum_add(fb, pb, h2, n);
}

/// Where some vertex has a conflict, the conflicts counted over all lists
/// are at least two: the edge is seen from both its ends.
pub proof fn lemma_conflict_counted_twice(adj: Seq<Seq<usize>>, c: Seq<usize>, u: int)
    requires
        adjacency_wf(adj),
        c.len() == adj.len(),
        adj.len() <= usize::MAX,
        0 <= u < adj.len(),
        conflicts_at(adj, c, u) > 0,
    ensures
        directed_conflicts(adj, c) >= 2,
{
    let pred = has_color(c, c[u]);
    lemma_count_if_positive(adj[u], pred);
    let k = choose|k: int| 0 <= k < adj[u].len() && pred(#[trigger] adj[u][k]);
    let w = adj[u][k];
    assert(w < adj.len() && w != u);
    assert(occurrences(adj[u as usize as int], w) == occurrences(adj[w as int], u as usize));
    lemma_occurrences_contains(adj[u], w);
    lemma_occurrences_contains(adj[w as int], u as usize);
    assert(adj[u].contains(w));
    let l = choose|l: int| 0 <= l < adj[w as int].len() && adj[w as int][l] == u as usize;
    let pred_w = has_color(c, c[w as int]);
    assert(pred_w(adj[w as int][l]));
    lemma_count_if_positive(adj[w as int], pred_w);
    let f = conflict_counts(adj, c);
    assert(f(u) > 0 && f(w as int) > 0);
    if u < w {
        lemma_sum_two_terms(f, adj.len(), u, w as int);
    } else {
        lemma_sum_two_terms(f, adj.len(), w as int, u);
    }
}

/// A colouring without forbidden edges is proper.
pub proof fn lemma_no_forbidden_edges(adj: Seq<Seq<usize>>, c: Seq<usize>)
    requires
        adjacency_wf(adj),
        c.len() == adj.len(),
        adj.len() <= usize::MAX,
    ensures
        forbidden_edges(adj, c) == 0 <==> proper_coloring(adj, c),
        forbidden_edges(adj, c) == 0 <==> forbidden_set(adj, c) == Set::<usize>::empty(),
{
    let f = conflict_counts(adj, c);
    lemma_sum_zero(f, adj.len());
    if forbidden_edges(adj, c) == 0 {
        assert forall|v: int| 0 <= v < adj.len() implies conflict_free_at(adj, c, v) by {
            lemma_conflicts_zero(adj, c, v);
            if conflicts_at(adj, c, v) > 0 {
                lemma_conflict_counted_twice(adj, c, v);
            }
        }
    }
    if proper_coloring(adj, c) {
        assert forall|i: int| 0 <= i < adj.len() implies #[trigger] f(i) == 0 by {
            lemma_conflicts_zero(adj, c, i);
        }
    }
    if proper_coloring(adj, c) {
        assert forall|v: usize| !forbidden_set(adj, c).contains(v) by {
            if v < adj.len() {
                lemma_conflicts_zero(adj, c, v as int);
            }
        }
        assert(forbidden_set(adj, c) =~= Set::<usize>::empty());
    }
    if forbidden_set(adj, c) == Set::<usize>::empty() {
        assert forall|i: int| 0 <= i < adj.len() implies #[trigger] f(i) == 0 by {
            assert(!forbidden_set(adj, c).contains(i as usize));
        }
    }
}

} // verus!
