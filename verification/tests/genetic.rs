use graph_coloring::algorithms::genetic::{
    admit_offspring, all_colors, assign_random_color, color_is_free, coloring_upper_bound,
    count_colors, crossover, crossover_at, generate_individual, genetic, mutate,
    next_generation, replace,
    roll_color, select, smallest_free_color, valid_color_assignment, MUTATION_SCALE,
};
use graph_coloring::graph::Graph;
use graph_coloring::input::parse_graph;

const MYCIEL3_COL: &str = "c FILE: myciel3.col
c SOURCE: Michael Trick (trick@cmu.edu)
c DESCRIPTION: Graph based on Mycielski transformation.
c              Triangle free (clique number 2) but increasing
c              coloring number
p edge 11 20
e 1 2
e 1 4
e 1 7
e 1 9
e 2 3
e 2 6
e 2 8
e 3 5
e 3 7
e 3 10
e 4 5
e 4 6
e 4 10
e 5 8
e 5 9
e 6 11
e 7 11
e 8 11
e 9 11
e 10 11
";

/// The Mycielski graph on 11 vertices, read from its DIMACS instance.
fn myciel3_matrix() -> Graph {
    parse_graph(MYCIEL3_COL.as_bytes()).unwrap().unwrap().to_graph()
}

#[test]
fn genetic_test_count_colors() {
    assert_eq!(count_colors(&vec![1]), 1);
    assert_eq!(count_colors(&vec![3, 1, 6, 6, 1, 5]), 4);
    assert_eq!(count_colors(&vec![2, 1, 3, 1, 1, 4, 5, 10, 4, 3, 3]), 6);
    assert_eq!(count_colors(&vec![]), 0);
}

#[test]
fn genetic_test_valid_color_assignment() {
    let mut graph = Graph::new(4);
    graph.add_edge(0, 1);
    graph.add_edge(0, 2);
    graph.add_edge(1, 2);
    graph.add_edge(2, 3);

    assert!(valid_color_assignment(&graph, &vec![1, 2, 3, 1], 2));
    assert!(!valid_color_assignment(&graph, &vec![1, 2, 2, 1], 2));
}

#[test]
fn test_coloring_upper_bound() {
    let mut g1 = Graph::new(4);
    g1.add_edge(0, 1);
    g1.add_edge(0, 2);
    g1.add_edge(1, 2);
    g1.add_edge(2, 3);

    assert_eq!(coloring_upper_bound(&g1), 4);

    let g2 = myciel3_matrix();
    assert_eq!(coloring_upper_bound(&g2), 6);
}

#[test]
fn test_generate_individual() {
    let graph = myciel3_matrix();
    let upper_bound = coloring_upper_bound(&graph);

    assert_eq!(upper_bound, 6);

    let individual = generate_individual(&graph, upper_bound);

    for i in 0..graph.num_vertices() {
        assert!(valid_color_assignment(&graph, &individual, i))
    }
}

#[test]
fn test_mutate() {
    let graph = myciel3_matrix();
    let upper_bound = coloring_upper_bound(&graph);

    assert_eq!(upper_bound, 6);

    let mut individual = generate_individual(&graph, upper_bound);

    for i in 0..graph.num_vertices() {
        assert!(valid_color_assignment(&graph, &individual, i))
    }

    // A little higher mutation probability just to ensure that some vertices actually change
    let mutation_rate = (0.2 * MUTATION_SCALE as f64) as usize;
    mutate(&graph, &mut individual, upper_bound, mutation_rate);

    for i in 0..graph.num_vertices() {
        assert!(valid_color_assignment(&graph, &individual, i))
    }
}

#[test]
fn test_select() {
    let mut population = vec![
        (3, vec![1, 2, 1, 3, 1]),
        (2, vec![2, 1, 2, 2, 1]),
        (4, vec![1, 2, 3, 4]),
        (3, vec![3, 2, 2, 1, 3, 1]),
        (3, vec![1, 2, 3, 1, 2, 3, 1, 2, 3]),
        (5, vec![1, 2, 3, 4, 5]),
    ];

    population.sort();

    let limit = (population.len() as f64 * 0.2).floor() as usize;
    let (first_parent, second_parent) = select(&population, limit);

    assert_ne!(first_parent, second_parent);

    for i in 0..population.len() {
        if population[i].1 == first_parent || population[i].1 == second_parent {
            assert!(i <= (population.len() as f64 * 0.2).floor() as usize);
        }
    }
}

#[test]
fn test_crossover() {
    let graph = myciel3_matrix();
    let mut population = Vec::new();
    let upper_bound = coloring_upper_bound(&graph);

    for _ in 0..6 {
        let individual = generate_individual(&graph, upper_bound);
        population.push((count_colors(&individual), individual));
    }

    population.sort();

    let limit = (population.len() as f64 * 0.2).floor() as usize;
    let (first_parent, second_parent) = select(&population, limit);

    let offspring = crossover(&graph, first_parent, second_parent);

    for i in 0..graph.num_vertices() {
        assert!(valid_color_assignment(&graph, &offspring, i));
    }
}

#[test]
fn test_replace() {
    let population = vec![
        (3, vec![1, 2, 1, 3, 1]),
        (2, vec![2, 1, 2, 2, 1]),
        (4, vec![1, 2, 3, 4]),
        (3, vec![3, 2, 2, 1, 3, 1]),
        (3, vec![1, 2, 3, 1, 2, 3, 1, 2, 3]),
        (5, vec![1, 2, 3, 4, 5]),
    ];

    let mut pop1 = population.clone();
    let mut pop2 = population.clone();

    replace(&mut pop1, 3);

    assert_eq!(
        pop1,
        vec![
            (3, vec![1, 2, 1, 3, 1]),
            (2, vec![2, 1, 2, 2, 1]),
            (4, vec![1, 2, 3, 4])
        ]
    );

    replace(&mut pop2, 1);

    assert_eq!(pop2, vec![(3, vec![1, 2, 1, 3, 1]),]);
}

#[test]
fn test_genetic() {
    let graph = myciel3_matrix();
    let mutation_rate = (0.01 * MUTATION_SCALE as f64) as usize;
    let elite_limit = (100.0_f64 * 0.2).floor() as usize;
    let (best, colors) = genetic(&graph, 10000, 100, 2, mutation_rate, elite_limit);

    assert!(best <= coloring_upper_bound(&graph));

    for i in 0..graph.num_vertices() {
        assert!(valid_color_assignment(&graph, &colors, i))
    }
}

#[test]
fn replace_leaves_a_short_population_alone() {
    let mut population = vec![(1, vec![1]), (2, vec![1, 2])];
    replace(&mut population, 5);
    assert_eq!(population, vec![(1, vec![1]), (2, vec![1, 2])]);
    replace(&mut population, 0);
    assert_eq!(population, vec![]);
}

#[test]
fn coloring_upper_bound_of_small_graphs() {
    assert_eq!(coloring_upper_bound(&Graph::new(0)), 0);
    assert_eq!(coloring_upper_bound(&Graph::new(3)), 1);
    assert_eq!(coloring_upper_bound(&Graph::complete(5)), 5);
}

#[test]
fn all_colors_counts_from_one() {
    assert_eq!(all_colors(4), vec![1, 2, 3, 4]);
    assert_eq!(all_colors(0), vec![]);
}

#[test]
fn color_is_free_looks_below_the_limit_only() {
    let solution = [1, 2, 3, 2];
    assert!(!color_is_free(&vec![1, 3], &solution, 4, 2));
    assert!(color_is_free(&vec![1, 3], &solution, 1, 2));
    assert!(!color_is_free(&vec![1, 3], &solution, 2, 2));
    assert!(color_is_free(&vec![1, 3], &solution, 4, 3));
}

#[test]
fn smallest_free_color_skips_the_colors_of_the_neighbors() {
    let solution = [2, 1, 3, 7, 1];
    assert_eq!(smallest_free_color(&vec![0, 1, 2], &solution), 4);
    assert_eq!(smallest_free_color(&vec![0, 3], &solution), 1);
    assert_eq!(smallest_free_color(&vec![], &solution), 1);
}

#[test]
fn roll_color_accepts_a_free_color_and_drops_a_taken_one() {
    let neighbors = vec![1, 2];
    let mut individual = vec![1, 2, 3];
    let mut untried = vec![1, 2, 3, 4];
    assert!(!roll_color(&neighbors, &mut individual, 0, 3, &mut untried, 1));
    assert_eq!(individual, vec![2, 2, 3]);
    assert_eq!(untried, vec![1, 4, 3]);
    assert!(roll_color(&neighbors, &mut individual, 0, 3, &mut untried, 1));
    assert_eq!(individual, vec![4, 2, 3]);
    assert_eq!(untried, vec![1, 4, 3]);
}

#[test]
fn assign_random_color_finds_the_only_free_color() {
    let graph = Graph::complete(4);
    let mut individual = vec![1, 2, 3, 3];
    assign_random_color(&graph, &mut individual, 3, 4, 4);
    assert_eq!(individual, vec![1, 2, 3, 4]);
    let mut individual = vec![1, 1, 2, 4];
    assign_random_color(&graph, &mut individual, 1, 4, 1);
    assert!(individual[1] != 1);
    assert_eq!((individual[0], individual[2], individual[3]), (1, 2, 4));
}

#[test]
fn crossover_at_splices_and_repairs() {
    // A path on four vertices.
    let mut graph = Graph::new(4);
    graph.add_edge(0, 1);
    graph.add_edge(1, 2);
    graph.add_edge(2, 3);
    let first_parent = vec![1, 2, 1, 2];
    let second_parent = vec![2, 1, 2, 1];
    assert_eq!(crossover_at(&graph, &first_parent, &second_parent, 3), vec![1, 2, 1, 2]);
    // [1, 2, 2, 1]: vertex 2 has the colour of vertex 1 and takes the
    // smallest colour that neither vertex 1 nor vertex 3 has.
    assert_eq!(crossover_at(&graph, &first_parent, &second_parent, 1), vec![1, 2, 3, 1]);
    // [1, 1, 2, 1]: vertex 1 takes the smallest colour that neither vertex 0
    // nor vertex 2 has.
    assert_eq!(crossover_at(&graph, &first_parent, &second_parent, 0), vec![1, 3, 2, 1]);
}

#[test]
fn mutate_with_rate_zero_changes_nothing() {
    let graph = myciel3_matrix();
    let upper_bound = coloring_upper_bound(&graph);
    let before = generate_individual(&graph, upper_bound);
    let mut individual = before.clone();
    mutate(&graph, &mut individual, upper_bound, 0);
    assert_eq!(individual, before);
}

#[test]
fn mutate_with_full_rate_keeps_the_coloring_proper() {
    let graph = Graph::complete(4);
    let mut individual = vec![1, 2, 3, 4];
    mutate(&graph, &mut individual, 4, MUTATION_SCALE);
    assert_eq!(individual, vec![1, 2, 3, 4]);
}

#[test]
fn genetic_returns_the_number_of_colors_of_its_coloring() {
    let graph = Graph::complete(3);
    let (best, colors) = genetic(&graph, 5, 4, 2, 500_000, 1);
    assert_eq!(best, 3);
    assert_eq!(count_colors(&colors), 3);
    let graph = Graph::new(3);
    let (best, colors) = genetic(&graph, 3, 2, 1, 0, 1);
    assert_eq!((best, colors), (1, vec![1, 1, 1]));
    let (best, colors) = genetic(&Graph::complete(2), 0, 2, 1, 0, 1);
    assert_eq!((best, colors), (2, vec![1, 2]));
}

#[test]
fn mutate_with_full_rate_repairs_a_coloring() {
    let graph = myciel3_matrix();
    let upper_bound = coloring_upper_bound(&graph);
    let mut individual = vec![1; 11];
    mutate(&graph, &mut individual, upper_bound, MUTATION_SCALE);
    for i in 0..graph.num_vertices() {
        assert!(valid_color_assignment(&graph, &individual, i));
        assert!(1 <= individual[i] && individual[i] <= upper_bound);
    }
}

#[test]
fn select_draws_two_different_individuals_of_the_elite() {
    let population = vec![
        (2, vec![1, 2]),
        (2, vec![2, 1]),
        (3, vec![1, 3]),
        (4, vec![4, 1]),
    ];
    for _ in 0..20 {
        let (first_parent, second_parent) = select(&population, 1);
        assert_ne!(first_parent, second_parent);
        assert!(first_parent == vec![1, 2] || first_parent == vec![2, 1]);
        assert!(second_parent == vec![1, 2] || second_parent == vec![2, 1]);
        let (first_parent, second_parent) = select(&population, 9);
        assert_ne!(first_parent, second_parent);
    }
}

#[test]
fn generate_individual_stays_within_the_upper_bound() {
    let graph = Graph::complete(6);
    let individual = generate_individual(&graph, 6);
    let mut colors = individual.clone();
    colors.sort();
    assert_eq!(colors, vec![1, 2, 3, 4, 5, 6]);
    assert_eq!(generate_individual(&Graph::new(0), 0), vec![]);
    assert_eq!(generate_individual(&Graph::new(2), 1), vec![1, 1]);
}

#[test]
fn crossover_gives_a_proper_coloring_of_the_parents_colors() {
    let graph = Graph::complete(3);
    let offspring = crossover(&graph, vec![1, 2, 3], vec![3, 1, 2]);
    assert!(offspring == vec![1, 2, 3] || offspring == vec![1, 3, 2]);
    for i in 0..3 {
        assert!(valid_color_assignment(&graph, &offspring, i));
    }
}

#[test]
fn admit_offspring_keeps_the_population_in_order_and_at_its_size() {
    let mut population = vec![(2, vec![1, 2]), (3, vec![1, 1])];
    admit_offspring(&mut population, vec![(3, vec![0, 9]), (1, vec![5])], 3);
    assert_eq!(population, vec![(1, vec![5]), (2, vec![1, 2]), (3, vec![0, 9])]);
    admit_offspring(&mut population, vec![], 5);
    assert_eq!(population, vec![(1, vec![5]), (2, vec![1, 2]), (3, vec![0, 9])]);
    admit_offspring(&mut population, vec![(2, vec![1, 2])], 5);
    assert_eq!(
        population,
        vec![(1, vec![5]), (2, vec![1, 2]), (2, vec![1, 2]), (3, vec![0, 9])]
    );
}

#[test]
fn next_generation_keeps_a_population_of_proper_colorings_in_order() {
    let graph = myciel3_matrix();
    let upper_bound = coloring_upper_bound(&graph);
    let mut population = Vec::new();
    for _ in 0..6 {
        let individual = generate_individual(&graph, upper_bound);
        population.push((count_colors(&individual), individual));
    }
    population.sort();
    let best_before = population[0].0;
    for _ in 0..10 {
        next_generation(&graph, &mut population, 3, upper_bound, 100_000, 2);
        assert_eq!(population.len(), 6);
        assert!(population.windows(2).all(|pair| pair[0] <= pair[1]));
        for (num_colors, coloring) in &population {
            assert_eq!(*num_colors, count_colors(coloring));
            for i in 0..graph.num_vertices() {
                assert!(valid_color_assignment(&graph, coloring, i));
            }
        }
    }
    assert!(population[0].0 <= best_before);
}
