use graph_coloring::algorithms::grasp::{
    add_to_class, assign_color, count_forbidden_per_vertex, count_remaining_edges,
    get_class_list_from_coloring, get_coloring_from_class_list, get_forbidden_vertices,
    get_n_largest_degree, grasp, grasp_attempt, grasp_wrapper, improve_phase, keep_best,
    keep_if_better, local_search, merge_smallest_classes, recolor_vertex, resize_classes,
    smallest_class,
};
use graph_coloring::algorithms::pool::SolutionPool;
use graph_coloring::algorithms::vertex_lists::{apart_from, without};
use graph_coloring::algorithms::{count_colors, is_coloring_valid};
use graph_coloring::graph::adj_list::AdjList;
use graph_coloring::input::parse_graph;
use std::collections::HashSet;

const MYCIEL3_INSTANCE: &str = "c FILE: myciel3.col
c SOURCE: Michael Trick (trick@cmu.edu)
c DESCRIPTION: Graph based on Mycielski transformation.
c              Triangle free (clique number 2) but increasing
c              coloring number
p edge 11 20
e 1 2
e 1 4
e 1 7
e 1 9
e 2 3
e 2 6
e 2 8
e 3 5
e 3 7
e 3 10
e 4 5
e 4 6
e 4 10
e 5 8
e 5 9
e 6 11
e 7 11
e 8 11
e 9 11
e 10 11
";

/// The Mycielski graph on 11 vertices, read from its DIMACS instance.
fn myciel3() -> AdjList {
    parse_graph(MYCIEL3_INSTANCE.as_bytes()).unwrap().unwrap()
}

/// The Mycielski graph of a graph given by its edges, vertices counted from
/// one: a copy of every vertex, joined to the neighbours of the vertex, and
/// one more vertex joined to all the copies.
fn mycielskian(num_vertices: usize, edges: &[(usize, usize)]) -> (usize, Vec<(usize, usize)>) {
    let mut grown = edges.to_vec();
    for &(u, v) in edges {
        grown.push((u, v + num_vertices));
        grown.push((v, u + num_vertices));
    }
    for copy in num_vertices + 1..=2 * num_vertices {
        grown.push((copy, 2 * num_vertices + 1));
    }
    (2 * num_vertices + 1, grown)
}

/// The Mycielski graph on 47 vertices and 236 edges, read from the text of a
/// DIMACS instance.
fn myciel5() -> AdjList {
    let cycle = [(1, 2), (1, 4), (2, 3), (3, 5), (4, 5)];
    let (n3, e3) = mycielskian(5, &cycle);
    let (n4, e4) = mycielskian(n3, &e3);
    let (n5, e5) = mycielskian(n4, &e4);
    assert_eq!((n5, e5.len()), (47, 236));
    let mut text = format!("p edge {} {}\n", n5, e5.len());
    for (u, v) in e5 {
        text.push_str(&format!("e {} {}\n", u, v));
    }
    parse_graph(text.as_bytes()).unwrap().unwrap()
}

#[test]
fn test_get_n_largest_degree() {
    let graph = myciel3();
    // Use a subset to filter,
    // i.e., use an induced subgraph
    let set_subset = vec![10, 3, 4, 5];
    let largest_degrees = get_n_largest_degree(3, &graph, &set_subset, None);

    assert_eq!(largest_degrees, vec![3, 5, 4]);

    // "Don't" use the subset to filter
    // Since the parameter isn't optional, this effect is emulated by setting the subset to
    // all vertices
    let set_entire_graph: Vec<usize> = (0..graph.num_vertices()).collect();
    let largest_degrees = get_n_largest_degree(5, &graph, &set_entire_graph, None);

    assert_eq!(largest_degrees, vec![10, 0, 1, 2, 3]);

    // We don't care if the number of elements we're actually taking is smaller than the
    // number we requested, due to a limitation in the subset length
    let n_larger_than_subset = set_subset.len() + 1;
    let largest_degrees = get_n_largest_degree(n_larger_than_subset, &graph, &set_subset, None);

    assert_eq!(largest_degrees.len(), set_subset.len());

    // We also don't care if we request too many elements overall
    // i.e., more elements than the number of vertices in the graph
    let too_many_elements = set_entire_graph.len() + 1;
    let largest_degrees =
        get_n_largest_degree(too_many_elements, &graph, &set_entire_graph, None);

    assert_eq!(largest_degrees.len(), set_entire_graph.len());

    let mut graph = AdjList::complete(4);

    // Given the subgraph induce by &[0,1,3] (K3) and the list &[1]
    // The vertices with largest_degree ought to be [0,3] since they share an edge with [1]
    let largest_degrees = get_n_largest_degree(2, &graph, &[0, 1, 3], Some(&[1]));

    assert_eq!(largest_degrees, vec![0, 3]);

    // There are no edges between the vertex 2 in the subgraph induced by [0,1,3]
    // But we don't count the edges within the induced subgraph: instead, we use the subset
    // parameter as a `filter`
    //
    // As in, to only consider these vertices, but the overall edges.
    //
    // Hence, when we remove an edge outside the induced subgraph,
    // the return value should be updated accordingly
    graph.sub_edge(0, 2);
    let largest_degrees = get_n_largest_degree(2, &graph, &[0, 1, 3], Some(&[2]));

    assert_eq!(largest_degrees, vec![1, 3]);
}

#[test]
fn test_count_remaining_edges() {
    let graph = myciel3();
    let list = vec![0, 1, 2];
    let num_edges = count_remaining_edges(&graph, &list);

    assert_eq!(num_edges, 2);
}

#[test]
fn test_grasp_wrapper() {
    // Asserts GRASP provides a solution
    let graph = myciel5();
    let (_, coloring) = grasp_wrapper(&graph, 10, 5, 5);

    assert!(is_coloring_valid(&graph, &coloring));
}

#[test]
fn test_improve_phase() {
    let mut graph = AdjList::new(6);
    graph.add_edge(0, 1);
    graph.add_edge(1, 2);
    graph.add_edge(2, 3);
    graph.add_edge(2, 4);
    graph.add_edge(2, 5);

    let mut num_classes = 4;
    let mut class_list = vec![vec![1], vec![2], vec![4, 5], vec![0, 3]];

    improve_phase(&graph, &mut num_classes, &mut class_list);

    assert!(num_classes <= 4);

    // Since the algorithm is randomized, we can't compare to an expected result
    // But it should still be valid nonetheless
    let coloring = get_coloring_from_class_list(6, &class_list);

    assert!(is_coloring_valid(&graph, &coloring));
}

#[test]
fn test_get_forbidden_vertices() {
    // The complete graph
    let graph = AdjList::complete(5);
    let color_classes = vec![vec![0], vec![1], vec![2, 3, 4]];

    let (count, forbidden) = get_forbidden_vertices(&graph, &color_classes);

    assert_eq!(forbidden, HashSet::from([2, 3, 4]));
    assert_eq!(count, 3)
}

#[test]
fn test_local_search() {
    // Basically a linked list colored as 1---2---2---3
    let mut graph = AdjList::new(4);
    graph.add_edge(0, 1);
    graph.add_edge(1, 2);
    graph.add_edge(2, 3);
    let mut color_classes = vec![vec![0], vec![1, 2], vec![3]];

    let num_forbidden = local_search(&graph, &mut color_classes);

    assert_eq!(num_forbidden, 0);
}

#[test]
fn test_get_coloring_from_class_list() {
    let class_list = vec![vec![0], vec![1, 2], vec![3]];
    let coloring = get_coloring_from_class_list(4, &class_list);

    assert_eq!(coloring, [1, 2, 2, 3])
}

#[test]
fn test_count_forbidden_per_vertex() {
    let graph = AdjList::complete(5);
    let coloring = [1, 1, 1, 1, 1];

    let num_forbidden = count_forbidden_per_vertex(&graph, &coloring, 1);

    assert_eq!(num_forbidden, 4);
}

#[test]
fn grasp_colors_a_cycle() {
    let mut graph = AdjList::new(5);
    for v in 0..5 {
        graph.add_edge(v, (v + 1) % 5);
    }
    let (num_colors, coloring) = grasp_wrapper(&graph, 10, 5, 5);
    assert!(is_coloring_valid(&graph, &coloring));
    assert!(num_colors >= 3);
    assert!(coloring.iter().all(|&c| 1 <= c && c <= num_colors));
}

#[test]
fn grasp_colors_a_complete_graph_with_a_color_per_vertex() {
    let graph = AdjList::complete(5);
    let (num_colors, coloring) = grasp_wrapper(&graph, 3, 2, 2);
    assert_eq!(num_colors, 5);
    assert_eq!(count_colors(&coloring), 5);
    assert!(is_coloring_valid(&graph, &coloring));
}

#[test]
fn grasp_colors_a_graph_without_edges_with_one_color() {
    let graph = AdjList::new(4);
    let (num_colors, coloring) = grasp_attempt(&graph, 1, 1);
    assert_eq!((num_colors, coloring), (1, vec![1, 1, 1, 1]));
    let graph = AdjList::new(0);
    assert_eq!(grasp_attempt(&graph, 1, 1), (0, vec![]));
}

#[test]
fn grasp_keeps_as_many_solutions_as_asked_for() {
    let graph = myciel3();
    let pool = grasp(&graph, 4, 2, 3, 3);
    assert_eq!(pool.len(), 3);
    let solutions = pool.into_sorted_vec();
    for window in solutions.windows(2) {
        assert!(window[0] <= window[1]);
    }
    for (num_colors, coloring) in solutions {
        assert!(is_coloring_valid(&graph, &coloring));
        assert!(count_colors(&coloring) <= num_colors);
    }
    assert_eq!(grasp(&graph, 2, 2, 3, 5).len(), 2);
    assert_eq!(grasp(&graph, 0, 2, 3, 5).len(), 0);
    assert_eq!(grasp(&graph, -3, 2, 3, 5).len(), 0);
    assert_eq!(grasp(&graph, 3, 2, 3, 0).len(), 0);
}

#[test]
fn keep_best_replaces_the_worst_only_by_fewer_colors() {
    let all = vec![
        (4, vec![1, 2, 3, 4]),
        (3, vec![1, 2, 3, 3]),
        (3, vec![1, 2, 3, 1]),
        (3, vec![1, 1, 2, 3]),
        (2, vec![1, 2, 1, 2]),
    ];
    let pool = keep_best(all, 2);
    assert_eq!(
        pool.into_sorted_vec(),
        vec![(2, vec![1, 2, 1, 2]), (3, vec![1, 2, 3, 1])]
    );
}

#[test]
fn pool_hands_out_the_worst_first() {
    let mut pool = SolutionPool::new();
    pool.push((3, vec![2, 1]));
    pool.push((2, vec![9, 9]));
    pool.push((3, vec![1, 7]));
    pool.push((3, vec![1]));
    assert_eq!(pool.len(), 4);
    assert_eq!(pool.peek(), Some(&(3, vec![2, 1])));
    assert_eq!(pool.pop(), Some((3, vec![2, 1])));
    assert_eq!(pool.pop(), Some((3, vec![1, 7])));
    pool.try_insert((3, vec![0]), 2);
    assert_eq!(pool.len(), 2);
    pool.try_insert((1, vec![5]), 2);
    assert_eq!(pool.into_sorted_vec(), vec![(1, vec![5]), (2, vec![9, 9])]);
    let mut empty = SolutionPool::new();
    assert_eq!(empty.pop(), None);
    assert_eq!(empty.peek(), None);
}

#[test]
fn recolor_vertex_moves_to_the_first_best_color() {
    let mut graph = AdjList::new(4);
    graph.add_edge(0, 1);
    graph.add_edge(1, 2);
    graph.add_edge(2, 3);
    let mut classes = vec![vec![0], vec![1, 2], vec![3]];
    // Vertex 1 has a conflict under the first two colours and none under the
    // third.
    assert!(recolor_vertex(&graph, &mut classes, 1));
    assert_eq!(classes, vec![vec![0], vec![2], vec![3, 1]]);
    assert_eq!(get_forbidden_vertices(&graph, &classes).0, 0);
    // Without a conflict a vertex stays where it is.
    assert!(!recolor_vertex(&graph, &mut classes, 1));
    assert!(!recolor_vertex(&graph, &mut classes, 0));
    assert_eq!(classes, vec![vec![0], vec![2], vec![3, 1]]);
    // Of two colours that are as good the first is taken.
    let mut classes = vec![vec![0], vec![1, 2], vec![3], vec![]];
    assert!(recolor_vertex(&graph, &mut classes, 2));
    assert_eq!(classes, vec![vec![0, 2], vec![1], vec![3], vec![]]);
}

#[test]
fn local_search_leaves_a_proper_coloring_alone() {
    let mut graph = AdjList::new(3);
    graph.add_edge(0, 1);
    graph.add_edge(1, 2);
    let mut classes = vec![vec![0, 2], vec![1], vec![]];
    assert_eq!(local_search(&graph, &mut classes), 0);
    assert_eq!(classes, vec![vec![0, 2], vec![1], vec![]]);
}

#[test]
fn local_search_cannot_repair_one_class_with_an_edge() {
    let mut graph = AdjList::new(2);
    graph.add_edge(0, 1);
    let mut classes = vec![vec![0, 1]];
    assert_eq!(local_search(&graph, &mut classes), 1);
    assert_eq!(classes, vec![vec![0, 1]]);
}

#[test]
fn smallest_classes_are_merged_first() {
    let classes = vec![vec![1], vec![], vec![4, 5], vec![2], vec![0, 3], vec![]];
    assert_eq!(smallest_class(&classes, 5, None), Some(3));
    assert_eq!(smallest_class(&classes, 5, Some(3)), Some(0));
    assert_eq!(smallest_class(&classes, 2, Some(0)), None);
    assert_eq!(
        merge_smallest_classes(&classes, 5),
        Some(vec![vec![2, 1], vec![4, 5], vec![0, 3]])
    );
    assert_eq!(merge_smallest_classes(&vec![vec![0, 1], vec![]], 2), None);
    assert_eq!(merge_smallest_classes(&vec![], 0), None);
}

#[test]
fn improve_phase_merges_all_classes_of_a_graph_without_edges() {
    let graph = AdjList::new(3);
    let mut num_classes = 3;
    let mut class_list = vec![vec![0], vec![1], vec![2]];
    improve_phase(&graph, &mut num_classes, &mut class_list);
    assert_eq!(num_classes, 1);
    // The last two classes are merged first, and the first joins them after.
    assert_eq!(class_list, vec![vec![0, 2, 1], vec![], vec![]]);
}

#[test]
fn improve_phase_keeps_what_cannot_be_merged() {
    let graph = AdjList::complete(3);
    let mut num_classes = 3;
    let mut class_list = vec![vec![0], vec![1], vec![2]];
    improve_phase(&graph, &mut num_classes, &mut class_list);
    assert_eq!(num_classes, 3);
    assert_eq!(class_list, vec![vec![0], vec![1], vec![2]]);
}

#[test]
fn count_remaining_edges_counts_the_edges_among_the_vertices_listed() {
    let graph = myciel3();
    assert_eq!(count_remaining_edges(&graph, &[5, 6, 7, 8, 9, 10]), 5);
    assert_eq!(count_remaining_edges(&graph, &[10, 5, 3, 20]), 2);
    assert_eq!(count_remaining_edges(&graph, &[]), 0);
}

#[test]
fn vertices_leave_a_list_in_order() {
    assert_eq!(without(&[4, 1, 3, 2], &[3, 9, 4]), vec![1, 2]);
    assert_eq!(apart_from(&[4, 1, 3, 2, 0], &[3, 9], 1), vec![4, 2, 0]);
}

#[test]
fn add_to_class_rules_out_the_neighbors() {
    let graph = myciel3();
    let mut class = vec![];
    let mut admissible = vec![0, 1, 2, 3, 4, 5];
    let mut inadmissible = vec![];
    add_to_class(&graph, 0, &mut class, &mut admissible, &mut inadmissible);
    assert_eq!(class, vec![0]);
    assert_eq!(admissible, vec![2, 4, 5]);
    assert_eq!(inadmissible, vec![1, 3, 6, 8]);
}

#[test]
fn keep_if_better_keeps_the_class_that_leaves_fewer_edges() {
    let graph = myciel3();
    let vertex_set: Vec<usize> = (0..11).collect();
    let mut class_list = vec![vec![]; 11];
    let mut fewest = usize::MAX;
    keep_if_better(&vertex_set, vec![10], &graph, &mut fewest, &mut class_list, 1);
    assert_eq!(fewest, 15);
    assert_eq!(class_list[0], vec![10]);
    keep_if_better(&vertex_set, vec![0], &graph, &mut fewest, &mut class_list, 1);
    assert_eq!(fewest, 15);
    assert_eq!(class_list[0], vec![10]);
    keep_if_better(&vertex_set, vec![10, 0, 1], &graph, &mut fewest, &mut class_list, 1);
    assert_eq!(fewest, 8);
    assert_eq!(class_list[0], vec![10, 0, 1]);
}

#[test]
fn assign_color_builds_a_class_without_edges() {
    let graph = myciel3();
    let vertex_set: Vec<usize> = (0..11).collect();
    let mut class_list = vec![vec![]; 11];
    let mut fewest = usize::MAX;
    assign_color(&vertex_set, 3, &graph, &mut fewest, &mut class_list, 1);
    let class = class_list[0].clone();
    assert!(!class.is_empty());
    for &u in &class {
        for &v in &class {
            assert!(!graph.adj_list()[u].contains(&v));
        }
    }
    for v in 0..11 {
        assert!(class.contains(&v) || class.iter().any(|&u| graph.adj_list()[u].contains(&v)));
    }
    assert_eq!(fewest, count_remaining_edges(&graph, &without(&vertex_set, &class)));
}

#[test]
fn get_n_largest_degree_ranks_by_degree_then_by_vertex() {
    let graph = myciel3();
    assert_eq!(get_n_largest_degree(0, &graph, &[1, 2], None), vec![]);
    assert_eq!(get_n_largest_degree(2, &graph, &[], None), vec![]);
    assert_eq!(get_n_largest_degree(9, &graph, &[4, 30, 4, 2], None), vec![2, 4]);
    assert_eq!(
        get_n_largest_degree(3, &graph, &[0, 5, 10], Some(&[5, 6, 7, 8, 9])),
        vec![10, 0, 5]
    );
}

#[test]
fn class_list_and_coloring_turn_into_each_other() {
    let coloring = vec![2, 4, 1, 2, 0, 4];
    let class_list = get_class_list_from_coloring(&coloring);
    assert_eq!(class_list, vec![vec![2], vec![0, 3], vec![], vec![1, 5]]);
    assert_eq!(get_coloring_from_class_list(6, &class_list), coloring);
    assert_eq!(get_class_list_from_coloring(&[]), Vec::<Vec<usize>>::new());
    assert_eq!(get_class_list_from_coloring(&[0, 0]), Vec::<Vec<usize>>::new());
    assert_eq!(get_coloring_from_class_list(3, &[]), vec![0, 0, 0]);
}

#[test]
fn a_coloring_uses_as_many_colors_as_classes_hold_a_vertex() {
    let class_list = vec![vec![3], vec![], vec![0, 1], vec![], vec![2, 4]];
    let coloring = get_coloring_from_class_list(5, &class_list);
    assert_eq!(coloring, vec![3, 3, 5, 1, 5]);
    assert_eq!(count_colors(&coloring), 3);
    assert_eq!(class_list.iter().filter(|class| !class.is_empty()).count(), 3);
}

#[test]
fn two_vertices_of_a_complete_graph_cannot_share_a_class() {
    let graph = AdjList::complete(5);
    let (count, forbidden) =
        get_forbidden_vertices(&graph, &[vec![0], vec![1], vec![2], vec![3, 4]]);
    assert_eq!(count, 1);
    assert_eq!(forbidden, HashSet::from([3, 4]));
    let coloring = get_coloring_from_class_list(5, &[vec![0, 4], vec![1], vec![2], vec![3]]);
    assert!(!is_coloring_valid(&graph, &coloring));
    let (count, forbidden) =
        get_forbidden_vertices(&graph, &[vec![0], vec![1], vec![2], vec![3], vec![4]]);
    assert_eq!(count, 0);
    assert!(forbidden.is_empty());
}

#[test]
fn local_search_never_leaves_more_forbidden_edges() {
    let graph = myciel3();
    let mut classes = vec![vec![0, 1, 2, 3, 4, 5], vec![6, 7, 8, 9, 10], vec![]];
    let before = get_forbidden_vertices(&graph, &classes).0;
    assert_eq!(before, 11);
    let after = local_search(&graph, &mut classes);
    assert!(after <= before);
    assert_eq!(after, get_forbidden_vertices(&graph, &classes).0);
    assert_eq!(classes.len(), 3);
    let mut vertices: Vec<usize> = classes.concat();
    vertices.sort();
    assert_eq!(vertices, (0..11).collect::<Vec<usize>>());
}

#[test]
fn forbidden_edges_count_repeated_edges_as_often_as_they_were_added() {
    let mut graph = AdjList::new(2);
    graph.add_edge(0, 1);
    graph.add_edge(1, 0);
    assert_eq!(get_forbidden_vertices(&graph, &[vec![0, 1]]).0, 2);
    assert_eq!(count_forbidden_per_vertex(&graph, &[1, 1], 0), 2);
}

#[test]
fn grasp_gets_by_with_one_color_more_than_the_largest_degree() {
    let graph = myciel3();
    for _ in 0..5 {
        let (num_colors, coloring) = grasp_attempt(&graph, 2, 3);
        assert!(num_colors <= 6);
        assert!(is_coloring_valid(&graph, &coloring));
    }
    let mut star = AdjList::new(5);
    for leaf in 1..5 {
        star.add_edge(0, leaf);
    }
    let (num_colors, coloring) = grasp_attempt(&star, 1, 1);
    assert_eq!(num_colors, 2);
    assert!(is_coloring_valid(&star, &coloring));
}

#[test]
fn resize_classes_pads_with_empty_classes() {
    let mut classes = vec![vec![1], vec![0]];
    resize_classes(&mut classes, 4);
    assert_eq!(classes, vec![vec![1], vec![0], vec![], vec![]]);
    resize_classes(&mut classes, 1);
    assert_eq!(classes, vec![vec![1]]);
}
