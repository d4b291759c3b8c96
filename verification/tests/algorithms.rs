use graph_coloring::algorithms::{count_colors, is_coloring_valid, is_valid_color_assignment};
use graph_coloring::graph::adj_list::AdjList;

#[test]
fn mod_test_count_colors() {
    assert_eq!(count_colors(&[1]), 1);
    assert_eq!(count_colors(&[3, 1, 6, 6, 1, 5]), 4);
    assert_eq!(count_colors(&[2, 1, 3, 1, 1, 4, 5, 10, 4, 3, 3]), 6);
    assert_eq!(count_colors(&[]), 0);
}

#[test]
fn mod_test_valid_color_assignment() {
    let mut graph = AdjList::new(4);
    graph.add_edge(0, 1);
    graph.add_edge(0, 2);
    graph.add_edge(1, 2);
    graph.add_edge(2, 3);

    assert!(is_valid_color_assignment(&graph, &[1, 2, 3, 1], 2));
    assert!(!is_valid_color_assignment(&graph, &[1, 2, 2, 1], 2));
}

#[test]
fn test_is_coloring_valid() {
    let mut graph = AdjList::new(4);
    graph.add_edge(0, 1);
    graph.add_edge(0, 2);
    graph.add_edge(1, 2);
    graph.add_edge(2, 3);

    assert!(is_coloring_valid(&graph, &[1, 2, 3, 1]));
    assert!(!is_coloring_valid(&graph, &[1, 2, 2, 1]));
}

#[test]
fn count_colors_leaves_out_the_uncolored() {
    assert_eq!(count_colors(&[0, 0, 2, 2]), 1);
    assert_eq!(count_colors(&[0]), 0);
}

#[test]
fn count_colors_is_the_same_after_relabeling() {
    let coloring = [2, 1, 3, 1, 1, 4];
    let relabeled: Vec<usize> = coloring.iter().map(|c| 10 * c + 7).collect();
    assert_eq!(count_colors(&coloring), count_colors(&relabeled));
}

#[test]
fn complete_graph_needs_a_color_per_vertex() {
    let graph = AdjList::complete(5);
    assert!(is_coloring_valid(&graph, &[1, 2, 3, 4, 5]));
    assert_eq!(count_colors(&[1, 2, 3, 4, 5]), 5);
    assert!(!is_coloring_valid(&graph, &[1, 2, 3, 4, 4]));
    assert!(!is_coloring_valid(&graph, &[1, 2, 1, 4, 5]));
}
