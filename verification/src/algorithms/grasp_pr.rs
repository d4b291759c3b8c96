//! Path relinking: every other solution of a pool is led, vertex by vertex, to
//! the best one, and what it passes on the way may become the best.

use crate::algorithms::grasp::{
    copy_list, grasp, is_grasp_result, is_solution, within_degree_bound,
};
use crate::algorithms::pool::{is_sorted, solutions_of, SolutionView};
use crate::algorithms::{
    colors_used, count_colors, is_coloring_valid, lemma_colors_bounded,
    lemma_colors_used_finite, proper_coloring, Solution,
};
use crate::graph::adj_list::AdjList;
use vstd::prelude::*;

verus! {

/// The positions below `upto` at which `lhs` and `rhs` differ, in ascending
/// order.
pub open spec fn differing_upto(lhs: Seq<usize>, rhs: Seq<usize>, upto: int) -> Seq<usize>
    decreases upto,
{
    if upto <= 0 {
        Seq::empty()
    } else if lhs[upto - 1] != rhs[upto - 1] {
        differing_upto(lhs, rhs, upto - 1).push((upto - 1) as usize)
    } else {
        differing_upto(lhs, rhs, upto - 1)
    }
}

/// The positions at which two sequences of one length differ, in ascending
/// order; none for sequences of different lengths.
pub open spec fn differing_positions(lhs: Seq<usize>, rhs: Seq<usize>) -> Seq<usize> {
    if lhs.len() == rhs.len() {
        differing_upto(lhs, rhs, lhs.len() as int)
    } else {
        Seq::empty()
    }
}

/// What the walk leaves as the best solution after the step at `vertex`: the
/// colouring that the step gives, where that is proper and has no more
/// colours than the best had, and the best as it was otherwise.
pub open spec fn best_after_step(
    adj: Seq<Seq<usize>>,
    best: SolutionView,
    stepped: Seq<usize>,
) -> SolutionView {
    if colors_used(stepped).len() <= best.0 && proper_coloring(adj, stepped) {
        (colors_used(stepped).len() as usize, stepped)
    } else {
        best
    }
}

/// The best solution after `current` was led to `target` at the positions
/// `positions`, the last of them first.
pub open spec fn relinked(
    adj: Seq<Seq<usize>>,
    best: SolutionView,
    target: Seq<usize>,
    current: Seq<usize>,
    positions: Seq<usize>,
) -> SolutionView
    decreases positions.len(),
{
    if positions.len() == 0 {
        best
    } else {
        let vertex = positions.last();
        let stepped = current.update(vertex as int, target[vertex as int]);
        relinked(adj, best_after_step(adj, best, stepped), target, stepped, positions.drop_last())
    }
}

/// The differing positions are exactly those at which the two differ.
pub proof fn lemma_differing_upto(lhs: Seq<usize>, rhs: Seq<usize>, upto: int)
    requires
        0 <= upto <= lhs.len(),
        lhs.len() == rhs.len(),
        lhs.len() <= usize::MAX,
    ensures
        forall|k: int|
            0 <= k < differing_upto(lhs, rhs, upto).len() ==> (#[trigger] differing_upto(
                lhs,
                rhs,
                upto,
            )[k]) < upto && lhs[differing_upto(lhs, rhs, upto)[k] as int] != rhs[differing_upto(
                lhs,
                rhs,
                upto,
            )[k] as int],
        forall|i: int|
            0 <= i < upto && lhs[i] != rhs[i] ==> differing_upto(lhs, rhs, upto).contains(
                i as usize,
            ),
    decreases upto,
{
    if upto > 0 {
        lemma_differing_upto(lhs, rhs, upto - 1);
        let before = differing_upto(lhs, rhs, upto - 1);
        let now = differing_upto(lhs, rhs, upto);
        assert forall|i: int| 0 <= i < upto && lhs[i] != rhs[i] implies now.contains(
            i as usize,
        ) by {
            if i < upto - 1 {
                let k = choose|k: int| 0 <= k < before.len() && before[k] == i as usize;
                assert(now[k] == i as usize);
            } else {
                assert(now[now.len() - 1] == i as usize);
            }
        }
    }
}

/// Calculates the positions at which `lhs` and `rhs` differ, in ascending
/// order. Two slices of different lengths give no position.
pub fn simmetric_difference(lhs: &[usize], rhs: &[usize]) -> (difference: Vec<usize>)
    ensures
        difference@ == differing_positions(lhs@, rhs@),
{
    let mut difference: Vec<usize> = Vec::new();
    if lhs.len() == rhs.len() {
        let mut i: usize = 0;
        while i < lhs.len()
            invariant
                lhs@.len() == rhs@.len(),
                i <= lhs@.len(),
                difference@ == differing_upto(lhs@, rhs@, i as int),
            decreases lhs@.len() - i,
        {
            if lhs[i] != rhs[i] {
                difference.push(i);
            }
            i += 1;
        }
    }
    difference
}

/// Leads the colouring `guide` to the colouring of `best_solution`: at each
/// position at which the two differ, the last first, the guide takes the
/// colour of the best solution, and what it then is becomes the best
/// solution where it is proper and has no more colours. Returns the guide at
/// the end of the walk, which is the colouring that was the best when the
/// walk began.
pub fn relink(graph: &AdjList, best_solution: &mut Solution, guide: &Vec<usize>) -> (walked: Vec<
    usize,
>)
    requires
        graph.wf(),
        old(best_solution).1@.len() == graph@.len(),
        guide@.len() == graph@.len(),
    ensures
        walked@ == old(best_solution).1@,
        (final(best_solution).0, final(best_solution).1@) == relinked(
            graph@,
            (old(best_solution).0, old(best_solution).1@),
            old(best_solution).1@,
            guide@,
            differing_positions(old(best_solution).1@, guide@),
        ),
        final(best_solution).0 <= old(best_solution).0,
        final(best_solution).1@.len() == graph@.len(),
        proper_coloring(graph@, old(best_solution).1@) ==> proper_coloring(
            graph@,
            final(best_solution).1@,
        ),
        colors_used(old(best_solution).1@).len() <= old(best_solution).0 ==> colors_used(
            final(best_solution).1@,
        ).len() <= final(best_solution).0,
        final(best_solution).1@ == walked@ || final(best_solution).0 < colors_used(walked@).len()
            || !proper_coloring(graph@, walked@),
{
    let ghost adj = graph@;
    let ghost start = (best_solution.0, best_solution.1@);
    let original_best_coloring = copy_list(&best_solution.1);
    let ghost target = original_best_coloring@;
    let mut difference = simmetric_difference(original_best_coloring.as_slice(), guide.as_slice());
    let ghost positions = difference@;
    let mut new_coloring = copy_list(guide);
    proof {
        lemma_differing_upto(target, guide@, target.len() as int);
    }
    while difference.len() > 0
        invariant
            graph.wf(),
            adj == graph@,
            target.len() == adj.len(),
            new_coloring@.len() == adj.len(),
            original_best_coloring@ == target,
            best_solution.1@.len() == adj.len(),
            best_solution.0 <= start.0,
            proper_coloring(adj, start.1) ==> proper_coloring(adj, best_solution.1@),
            colors_used(start.1).len() <= start.0 ==> colors_used(best_solution.1@).len()
                <= best_solution.0,
            relinked(adj, start, target, guide@, positions) == relinked(
                adj,
                (best_solution.0, best_solution.1@),
                target,
                new_coloring@,
                difference@,
            ),
            forall|k: int| 0 <= k < difference@.len() ==> (#[trigger] difference@[k]) < adj.len(),
            forall|i: int|
                0 <= i < adj.len() && new_coloring@[i] != target[i] ==> difference@.contains(
                    i as usize,
                ),
            difference@.len() < positions.len() ==> best_solution.1@ == new_coloring@
                || best_solution.0 < colors_used(new_coloring@).len() || !proper_coloring(
                adj,
                new_coloring@,
            ),
            difference@.len() == positions.len() ==> best_solution.1@ == target,
            difference@.len() <= positions.len(),
        decreases difference@.len(),
    {
        let ghost before = difference@;
        let ghost current = new_coloring@;
        let vertex = difference.pop().unwrap();
        assert(before[before.len() - 1] == vertex);
        assert(difference@ == before.drop_last());
        new_coloring[vertex] = original_best_coloring[vertex];
        proof {
            lemma_colors_used_finite(new_coloring@);
            assert forall|i: int|
                0 <= i < adj.len() && new_coloring@[i] != target[i] implies difference@.contains(
                i as usize,
            ) by {
                assert(current[i] != target[i]);
                assert(before.contains(i as usize));
                let k = choose|k: int| 0 <= k < before.len() && before[k] == i as usize;
                assert(difference@[k] == i as usize);
            }
        }
        let num_colors = count_colors(new_coloring.as_slice());
        if num_colors <= best_solution.0 && is_coloring_valid(graph, new_coloring.as_slice()) {
            best_solution.0 = num_colors;
            best_solution.1 = copy_list(&new_coloring);
        }
    }
    proof {
        assert forall|i: int| 0 <= i < adj.len() implies new_coloring@[i] == target[i] by {
            if new_coloring@[i] != target[i] {
                assert(difference@.contains(i as usize));
            }
        }
        assert(new_coloring@ =~= target);
        if positions.len() == 0 {
            assert(best_solution.1@ == new_coloring@);
        }
    }
    new_coloring
}

/// The best solution after each of the solutions of `pool` from the position
/// `from` on was led, in its turn, to the solution that was the best by then,
/// which is `best` at the start.
pub open spec fn relinked_pool(
    adj: Seq<Seq<usize>>,
    best: SolutionView,
    pool: Seq<SolutionView>,
    from: int,
) -> SolutionView
    decreases pool.len() - from,
{
    if from < 0 || from >= pool.len() {
        best
    } else {
        relinked_pool(
            adj,
            relinked(adj, best, best.1, pool[from].1, differing_positions(best.1, pool[from].1)),
            pool,
            from + 1,
        )
    }
}

/// Relinks the solutions of a pool: the first solution is the best to begin
/// with, and every other one, in the order of the pool, is led to the best
/// solution there is at that moment. Returns the best solution at the end,
/// which has no more colours than the first.
pub fn relink_pool(graph: &AdjList, solutions: Vec<Solution>) -> (best: Solution)
    requires
        graph.wf(),
        solutions@.len() > 0,
        forall|i: int| 0 <= i < solutions@.len() ==> (#[trigger] solutions@[i]).1@.len() == graph@.len(),
    ensures
        (best.0, best.1@) == relinked_pool(
            graph@,
            solutions_of(solutions@)[0],
            solutions_of(solutions@),
            1,
        ),
        best.0 <= solutions@[0].0,
        proper_coloring(graph@, solutions@[0].1@) ==> proper_coloring(graph@, best.1@),
        colors_used(solutions@[0].1@).len() <= solutions@[0].0 ==> colors_used(best.1@).len()
            <= best.0,
{
    let ghost adj = graph@;
    let ghost pool = solutions_of(solutions@);
    let mut solutions = solutions;
    let total = solutions.len();
    let mut best_solution = solutions.remove(0);
    let mut taken: usize = 1;
    proof {
        assert forall|i: int| 0 <= i < solutions@.len() implies #[trigger] solutions_of(
            solutions@,
        )[i] == pool[i + 1] by {}
    }
    while solutions.len() > 0
        invariant
            graph.wf(),
            adj == graph@,
            total == pool.len(),
            1 <= taken <= total,
            taken + solutions@.len() == total,
            forall|i: int|
                0 <= i < solutions@.len() ==> #[trigger] solutions_of(solutions@)[i] == pool[i
                    + taken],
            forall|i: int| 0 <= i < pool.len() ==> (#[trigger] pool[i]).1.len() == adj.len(),
            best_solution.1@.len() == adj.len(),
            relinked_pool(adj, pool[0], pool, 1) == relinked_pool(
                adj,
                (best_solution.0, best_solution.1@),
                pool,
                taken as int,
            ),
            best_solution.0 <= pool[0].0,
            proper_coloring(adj, pool[0].1) ==> proper_coloring(adj, best_solution.1@),
            colors_used(pool[0].1).len() <= pool[0].0 ==> colors_used(best_solution.1@).len()
                <= best_solution.0,
        decreases solutions@.len(),
    {
        let ghost waiting = solutions_of(solutions@);
        let solution = solutions.remove(0);
        proof {
            assert(waiting[0] == pool[taken as int]);
            assert(pool[taken as int].1.len() == adj.len());
            assert forall|i: int| 0 <= i < solutions@.len() implies #[trigger] solutions_of(
                solutions@,
            )[i] == pool[i + taken + 1] by {
                assert(solutions_of(solutions@)[i] == waiting[i + 1]);
            }
        }
        relink(graph, &mut best_solution, &solution.1);
        taken += 1;
    }
    best_solution
}

/// Runs the greedy randomized search for a pool of `num_solutions_grasp`
/// solutions and relinks every other solution of the pool, from the second
/// best to the worst, to the best solution there is at that moment. Returns
/// the best solution at the end.
pub fn grasp_path_relinking(graph: &AdjList, num_solutions_grasp: usize) -> (best: Solution)
    requires
        graph.wf(),
        graph.within_limits(),
        num_solutions_grasp >= 1,
    ensures
        proper_coloring(graph@, best.1@),
        colors_used(best.1@).len() <= best.0,
        best.0 <= graph@.len(),
        best.0 == 0 || within_degree_bound(graph@, best.0 as int),
        exists|pool: Seq<SolutionView>|
            {
                &&& pool.len() == if num_solutions_grasp < 25 {
                    num_solutions_grasp as int
                } else {
                    25
                }
                &&& is_sorted(pool)
                &&& forall|i: int| 0 <= i < pool.len() ==> is_grasp_result(graph@, 3, #[trigger] pool[i])
                &&& (best.0, best.1@) == #[trigger] relinked_pool(graph@, pool[0], pool, 1)
            },
{
    let pool = grasp(graph, 25, 25, 3, num_solutions_grasp);
    let ghost kept = pool@;
    let solutions = pool.into_sorted_vec();
    proof {
        assert(is_solution(graph@, kept[0]));
        assert forall|i: int| 0 <= i < solutions@.len() implies (
        #[trigger] solutions@[i]).1@.len() == graph@.len() by {
            assert(is_solution(graph@, kept[i]));
            assert(solutions_of(solutions@)[i] == kept[i]);
        }
        assert(solutions_of(solutions@)[0] == kept[0]);
        lemma_colors_bounded(solutions@[0].1@, solutions@[0].0);
        assert(solutions_of(solutions@) == kept);
    }
    let best = relink_pool(graph, solutions);
    assert((best.0, best.1@) == relinked_pool(graph@, kept[0], kept, 1));
    best
}

} // verus!
