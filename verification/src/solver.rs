//! Choosing one of the algorithms and running it with its settings.

use crate::algorithms::genetic::{genetic, MUTATION_SCALE};
use crate::algorithms::grasp::{grasp_wrapper, is_grasp_result};
use crate::algorithms::grasp_pr::grasp_path_relinking;
use crate::algorithms::{colors_used, lemma_colors_bounded, proper_coloring, Solution};
use crate::graph::adj_list::AdjList;
use crate::graph::Graph;
use vstd::prelude::*;

verus! {

/// The heuristics that can colour a graph.
#[derive(Debug, Clone, Copy, PartialEq, Eq)]
pub enum Algorithm {
    Genetic,
    Grasp,
    GraspPR,
}

/// The settings of the algorithms. A setting that is left out has the value
/// that its algorithm works with by default.
pub struct Settings {
    /// How many solutions of the greedy randomized search the path relinking
    /// starts from: five by default.
    pub pr_solutions: Option<usize>,
    /// How many times the greedy randomized search runs: ten by default.
    pub grasp_iterations: Option<i32>,
    /// How many candidates it builds for every colour class: five by default.
    pub color_iterations: Option<i32>,
    /// Among how many vertices of largest degree it draws the next vertex of
    /// a class: five by default.
    pub color_list_size: Option<usize>,
    /// How many generations the genetic algorithm breeds: ten thousand by
    /// default.
    pub generations: Option<usize>,
    /// How many individuals its population has: a hundred by default.
    pub population_size: Option<usize>,
    /// How many offspring a generation has: two by default.
    pub offspring_size: Option<usize>,
    /// The chances in `MUTATION_SCALE` that a vertex of an offspring mutates:
    /// one in a hundred by default.
    pub mutation_rate: Option<usize>,
    /// The position up to which individuals can be parents: a fifth of the
    /// size of the population by default.
    pub elite_limit: Option<usize>,
}

/// The value of a setting: what was set, or the default.
pub open spec fn setting<T>(value: Option<T>, default: T) -> T {
    match value {
        Some(value) => value,
        None => default,
    }
}

/// The size of the population that the settings ask for.
pub open spec fn population_size_of(settings: Settings) -> usize {
    setting(settings.population_size, 100)
}

/// The algorithm can run on the graph with the settings: the counts that it
/// keeps fit the machine's integers, and the settings are such that it comes
/// to an end.
pub open spec fn can_solve(graph: AdjList, algorithm: Algorithm, settings: Settings) -> bool {
    &&& graph.wf()
    &&& match algorithm {
        Algorithm::Genetic => {
            &&& graph@.len() > 0
            &&& population_size_of(settings) >= 2
            &&& setting(settings.elite_limit, (population_size_of(settings) / 5) as usize) >= 1
        },
        Algorithm::Grasp => {
            &&& graph.within_limits()
            &&& setting(settings.grasp_iterations, 10) >= 1
            &&& setting(settings.color_iterations, 5) >= 1
            &&& setting(settings.color_list_size, 5) >= 1
        },
        Algorithm::GraspPR => {
            &&& graph.within_limits()
            &&& setting(settings.pr_solutions, 5) >= 1
        },
    }
}

/// In lists and as a matrix a graph has the same proper colourings.
pub proof fn lemma_same_colorings(lists: &AdjList, matrix: &Graph, coloring: Seq<usize>)
    requires
        lists.wf(),
        matrix.wf(),
        matrix@.len() == lists@.len(),
        forall|u: int, v: int|
            0 <= u < lists@.len() && 0 <= v < lists@.len() ==> (#[trigger] matrix@[u][v])
                == lists@[u].contains(v as usize),
        proper_coloring(matrix.neighbor_lists(), coloring),
    ensures
        proper_coloring(lists@, coloring),
{
    let adj = lists@;
    let rows = matrix.neighbor_lists();
    assert forall|u: int, k: int| 0 <= u < adj.len() && 0 <= k < adj[u].len() implies coloring[(
    #[trigger] adj[u][k]) as int] != coloring[u] by {
        let w = adj[u][k];
        assert(adj[u].contains(adj[u][k]));
        assert(matrix@[u][w as int]);
        matrix.lemma_neighbors(u);
        assert(rows[u].contains(w));
        let l = choose|l: int| 0 <= l < rows[u].len() && rows[u][l] == w;
        assert(crate::algorithms::conflict_free_at(rows, coloring, u));
        assert(coloring[rows[u][l] as int] != coloring[u]);
    }
}

/// Checks that the algorithm can run on the graph with the settings.
pub fn check_settings(graph: &AdjList, algorithm: &Algorithm, settings: &Settings) -> (ready: bool)
    requires
        graph.wf(),
    ensures
        ready == can_solve(*graph, *algorithm, *settings),
{
    match algorithm {
        Algorithm::Genetic => {
            let population_size = match settings.population_size {
                Some(size) => size,
                None => 100,
            };
            let elite_limit = match settings.elite_limit {
                Some(limit) => limit,
                None => population_size / 5,
            };
            graph.num_vertices() > 0 && population_size >= 2 && elite_limit >= 1
        },
        Algorithm::Grasp => {
            let grasp_iterations = match settings.grasp_iterations {
                Some(iterations) => iterations,
                None => 10,
            };
            let color_iterations = match settings.color_iterations {
                Some(iterations) => iterations,
                None => 5,
            };
            let color_list_size = match settings.color_list_size {
                Some(size) => size,
                None => 5,
            };
            graph.check_limits() && grasp_iterations >= 1 && color_iterations >= 1
                && color_list_size >= 1
        },
        Algorithm::GraspPR => {
            let pr_solutions = match settings.pr_solutions {
                Some(solutions) => solutions,
                None => 5,
            };
            graph.check_limits() && pr_solutions >= 1
        },
    }
}

/// Colours the graph with the algorithm chosen, under its settings. Returns a
/// proper colouring and a number of colours that it gets by with.
pub fn solve(graph: &AdjList, algorithm: &Algorithm, settings: &Settings) -> (solution: Solution)
    requires
        can_solve(*graph, *algorithm, *settings),
    ensures
        proper_coloring(graph@, solution.1@),
        colors_used(solution.1@).len() <= solution.0,
        solution.0 <= graph@.len(),
        algorithm is Grasp ==> is_grasp_result(
            graph@,
            setting(settings.color_list_size, 5) as nat,
            (solution.0, solution.1@),
        ),
        algorithm is Genetic ==> solution.0 == colors_used(solution.1@).len(),
{
    match algorithm {
        Algorithm::Genetic => {
            let generations = match settings.generations {
                Some(generations) => generations,
                None => 10000,
            };
            let population_size = match settings.population_size {
                Some(size) => size,
                None => 100,
            };
            let offspring_size = match settings.offspring_size {
                Some(size) => size,
                None => 2,
            };
            let mutation_rate = match settings.mutation_rate {
                Some(rate) => rate,
                None => MUTATION_SCALE / 100,
            };
            let elite_limit = match settings.elite_limit {
                Some(limit) => limit,
                None => population_size / 5,
            };
            let matrix = graph.to_graph();
            let solution = genetic(
                &matrix,
                generations,
                population_size,
                offspring_size,
                mutation_rate,
                elite_limit,
            );
            proof {
                lemma_same_colorings(graph, &matrix, solution.1@);
            }
            solution
        },
        Algorithm::Grasp => {
            let grasp_iterations = match settings.grasp_iterations {
                Some(iterations) => iterations,
                None => 10,
            };
            let color_iterations = match settings.color_iterations {
                Some(iterations) => iterations,
                None => 5,
            };
            let color_list_size = match settings.color_list_size {
                Some(size) => size,
                None => 5,
            };
            let solution = grasp_wrapper(
                graph,
                grasp_iterations,
                color_iterations,
                color_list_size,
            );
            proof {
                lemma_colors_bounded(solution.1@, solution.0);
            }
            solution
        },
        Algorithm::GraspPR => {
            let pr_solutions = match settings.pr_solutions {
                Some(solutions) => solutions,
                None => 5,
            };
            grasp_path_relinking(graph, pr_solutions)
        },
    }
}

} // verus!
