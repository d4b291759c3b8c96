use graph_coloring::algorithms::grasp_pr::{
    grasp_path_relinking, relink, relink_pool, simmetric_difference,
};
use graph_coloring::algorithms::{count_colors, is_coloring_valid};
use graph_coloring::graph::adj_list::AdjList;
use graph_coloring::input::parse_graph;

/// The Mycielski graph of a graph given by its edges, vertices counted from
/// one.
fn mycielski_step(num_vertices: usize, edges: &[(usize, usize)]) -> (usize, Vec<(usize, usize)>) {
    let mut grown = edges.to_vec();
    for &(u, v) in edges {
        grown.push((u, v + num_vertices));
        grown.push((v, u + num_vertices));
    }
    for copy in num_vertices + 1..=2 * num_vertices {
        grown.push((copy, 2 * num_vertices + 1));
    }
    (2 * num_vertices + 1, grown)
}

/// The Mycielski graph on 47 vertices and 236 edges, read from the text of a
/// DIMACS instance.
fn myciel5_graph() -> AdjList {
    let cycle = [(1, 2), (1, 4), (2, 3), (3, 5), (4, 5)];
    let (n3, e3) = mycielski_step(5, &cycle);
    let (n4, e4) = mycielski_step(n3, &e3);
    let (n5, e5) = mycielski_step(n4, &e4);
    let mut text = format!("p edge {} {}\n", n5, e5.len());
    for (u, v) in e5 {
        text.push_str(&format!("e {} {}\n", u, v));
    }
    parse_graph(text.as_bytes()).unwrap().unwrap()
}

#[test]
fn test_simmetric_difference() {
    let lhs = vec![1, 2, 3, 4];
    let rhs = vec![1, 3, 2, 4];

    assert_eq!(simmetric_difference(&lhs, &rhs), vec![1, 2]);
}

#[test]
fn test_grasp_path_relinking() {
    // Asserts GRASP + PR provides a solution
    let graph = myciel5_graph();
    let (_, coloring) = grasp_path_relinking(&graph, 5);

    assert!(is_coloring_valid(&graph, &coloring));
}

#[test]
fn simmetric_difference_of_different_lengths_is_empty() {
    assert_eq!(simmetric_difference(&[1, 2, 3], &[3, 2]), vec![]);
    assert_eq!(simmetric_difference(&[], &[]), vec![]);
    assert_eq!(simmetric_difference(&[5, 5], &[5, 5]), vec![]);
}

#[test]
fn relink_leads_the_guide_to_the_best() {
    // A path on four vertices.
    let mut graph = AdjList::new(4);
    graph.add_edge(0, 1);
    graph.add_edge(1, 2);
    graph.add_edge(2, 3);
    let mut best = (3, vec![1, 2, 3, 1]);
    let guide = vec![1, 2, 1, 2];
    let walked = relink(&graph, &mut best, &guide);
    assert_eq!(walked, vec![1, 2, 3, 1]);
    // On the way the guide is [1, 2, 1, 1], which is not proper, and then the
    // best itself.
    assert_eq!(best, (3, vec![1, 2, 3, 1]));
}

#[test]
fn relink_keeps_a_better_coloring_that_it_passes() {
    let mut graph = AdjList::new(4);
    graph.add_edge(0, 1);
    graph.add_edge(2, 3);
    // The guide differs at the positions 1, 2 and 3; after the step at
    // position 3 it is [1, 2, 1, 2], proper with two colours.
    let mut best = (4, vec![1, 3, 4, 2]);
    let guide = vec![1, 2, 1, 3];
    let walked = relink(&graph, &mut best, &guide);
    assert_eq!(walked, vec![1, 3, 4, 2]);
    assert_eq!(best, (2, vec![1, 2, 1, 2]));
    assert!(is_coloring_valid(&graph, &best.1));
    assert_eq!(count_colors(&best.1), best.0);
}

#[test]
fn path_relinking_never_gets_worse_than_its_best() {
    let graph = AdjList::complete(4);
    let (num_colors, coloring) = grasp_path_relinking(&graph, 3);
    assert_eq!(num_colors, 4);
    assert!(is_coloring_valid(&graph, &coloring));
}

#[test]
fn relink_pool_leads_every_solution_to_the_best() {
    let mut graph = AdjList::new(4);
    graph.add_edge(0, 1);
    graph.add_edge(2, 3);
    let pool = vec![
        (4, vec![1, 3, 4, 2]),
        (3, vec![1, 2, 1, 3]),
        (4, vec![4, 3, 2, 1]),
    ];
    // The second solution passes [1, 2, 1, 2] on its way to the first, and
    // the third passes nothing better on its way to that.
    assert_eq!(relink_pool(&graph, pool), (2, vec![1, 2, 1, 2]));
    assert_eq!(relink_pool(&graph, vec![(3, vec![1, 2, 1, 3])]), (3, vec![1, 2, 1, 3]));
}
