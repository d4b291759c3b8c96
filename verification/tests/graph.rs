use graph_coloring::graph::adj_list::AdjList;
use graph_coloring::graph::adj_matrix::AdjMatrix;
use graph_coloring::graph::Graph;
use graph_coloring::input::parse_graph;

const MYCIEL3_TEXT: &str = "c FILE: myciel3.col
c SOURCE: Michael Trick (trick@cmu.edu)
c DESCRIPTION: Graph based on Mycielski transformation.
c              Triangle free (clique number 2) but increasing
c              coloring number
p edge 11 20
e 1 2
e 1 4
e 1 7
e 1 9
e 2 3
e 2 6
e 2 8
e 3 5
e 3 7
e 3 10
e 4 5
e 4 6
e 4 10
e 5 8
e 5 9
e 6 11
e 7 11
e 8 11
e 9 11
e 10 11
";

/// The Mycielski graph on 11 vertices, read from its DIMACS instance.
fn myciel3_lists() -> AdjList {
    parse_graph(MYCIEL3_TEXT.as_bytes()).unwrap().unwrap()
}

#[test]
fn adj_list_test_get_degree_in_list() {
    let graph = myciel3_lists();
    let list = vec![0, 1, 2];
    let num_vertices = graph.num_vertices();
    let degree = graph.get_degree_in_list(1, &list);

    assert_eq!(degree, 2);

    let degree = graph.get_degree_in_list(num_vertices + 1, &list);
    assert_eq!(degree, 0);
}

#[test]
fn adj_matrix_test_get_neighbors() {
    let graph = myciel3_lists();
    let adj_matrix = graph.to_adj_matrix();
    let neighbors = adj_matrix.get_neighbors(10);
    assert_eq!(neighbors, vec![5, 6, 7, 8, 9]);

    let neighbors = adj_matrix.get_neighbors(11);
    assert_eq!(neighbors, vec![]);
}

#[test]
fn mod_test_get_degree_in_list() {
    let graph = myciel3_lists().to_graph();
    let list = vec![0, 1, 2];
    let num_vertices = graph.num_vertices();
    let degree = graph.get_degree_in_list(&1, &list);

    assert_eq!(degree, 2);

    let degree = graph.get_degree_in_list(&(num_vertices + 1), &list);
    assert_eq!(degree, 0);
}

#[test]
fn mod_test_get_neighbors() {
    let graph = myciel3_lists().to_graph();
    let neighbors = graph.get_neighbors(10);
    assert_eq!(neighbors, vec![5, 6, 7, 8, 9]);

    let neighbors = graph.get_neighbors(11);
    assert_eq!(neighbors, vec![]);
}

#[test]
fn adj_list_new_has_no_edges() {
    let graph = AdjList::new(3);
    assert_eq!(graph.num_vertices(), 3);
    assert_eq!(graph.adj_list(), &[vec![], vec![], vec![]]);
}

#[test]
fn adj_list_add_edge_is_symmetric_and_keeps_repetitions() {
    let mut graph = AdjList::new(3);
    graph.add_edge(0, 2);
    graph.add_edge(2, 0);
    assert_eq!(graph.adj_list(), &[vec![2, 2], vec![], vec![0, 0]]);
    assert_eq!(graph.get_degree_in_list(0, &[2]), 2);
}

#[test]
fn adj_list_add_edge_rejects_bad_endpoints() {
    let mut graph = AdjList::new(3);
    graph.add_edge(0, 3);
    graph.add_edge(7, 1);
    graph.add_edge(1, 1);
    assert_eq!(graph.adj_list(), &[vec![], vec![], vec![]]);
}

#[test]
fn adj_list_complete_lists_every_other_vertex() {
    let graph = AdjList::complete(4);
    assert_eq!(
        graph.adj_list(),
        &[vec![1, 2, 3], vec![0, 2, 3], vec![0, 1, 3], vec![0, 1, 2]]
    );
}

#[test]
fn adj_list_sub_edge_swaps_the_last_entry_in() {
    let mut graph = AdjList::complete(4);
    graph.sub_edge(0, 1);
    assert_eq!(graph.adj_list()[0], vec![3, 2]);
    assert_eq!(graph.adj_list()[1], vec![3, 2]);
    graph.sub_edge(0, 1);
    assert_eq!(graph.adj_list()[0], vec![3, 2]);
    graph.sub_edge(0, 9);
    assert_eq!(graph.adj_list()[0], vec![3, 2]);
}

#[test]
fn adj_list_mut_changes_the_lists() {
    let mut graph = AdjList::new(2);
    graph.adj_list_mut()[0].push(1);
    graph.adj_list_mut()[1].push(0);
    assert_eq!(graph.adj_list(), &[vec![1], vec![0]]);
    assert_eq!(graph.num_vertices(), 2);
}

#[test]
fn adj_list_limits_hold_for_small_graphs() {
    assert!(AdjList::complete(6).check_limits());
    assert!(AdjList::new(0).check_limits());
}

#[test]
fn adj_matrix_edges_can_be_added_and_removed() {
    let mut graph = AdjMatrix::new(3);
    assert_eq!(graph.num_vertices(), 3);
    assert_eq!(graph.adjacency_matrix(), vec![vec![false; 3]; 3]);
    graph.add_edge(0, 2);
    graph.add_edge(0, 3);
    graph.add_edge(1, 1);
    assert_eq!(
        graph.adjacency_matrix(),
        vec![
            vec![false, false, true],
            vec![false, false, false],
            vec![true, false, false]
        ]
    );
    assert_eq!(graph.get_neighbors(0), vec![2]);
    graph.remove_edge(2, 0);
    graph.remove_edge(5, 0);
    assert_eq!(graph.adjacency_matrix(), vec![vec![false; 3]; 3]);
}

#[test]
fn adj_matrix_complete_has_a_false_diagonal() {
    let graph = AdjMatrix::complete(3);
    assert_eq!(
        graph.adjacency_matrix(),
        vec![
            vec![false, true, true],
            vec![true, false, true],
            vec![true, true, false]
        ]
    );
    assert_eq!(graph.get_neighbors(1), vec![0, 2]);
}

#[test]
fn graph_edges_can_be_added_and_removed() {
    let mut graph = Graph::new(4);
    graph.add_edge(0, 1);
    graph.add_edge(0, 2);
    graph.add_edge(1, 2);
    graph.add_edge(2, 3);
    graph.add_edge(2, 4);
    assert_eq!(graph.num_vertices(), 4);
    assert_eq!(graph.get_neighbors(2), vec![0, 1, 3]);
    assert_eq!(graph.get_degree_in_list(&2, &[0, 3, 3]), 2);
    graph.remove_edge(2, 0);
    assert_eq!(graph.get_neighbors(2), vec![1, 3]);
    assert_eq!(graph.adjacency_matrix()[0], vec![false, true, false, false]);
}

#[test]
fn graph_complete_joins_all_vertices() {
    let graph = Graph::complete(4);
    assert_eq!(graph.get_neighbors(3), vec![0, 1, 2]);
    assert_eq!(graph.get_degree_in_list(&0, &[0, 1, 2]), 2);
}

#[test]
fn conversions_keep_the_edges() {
    let mut lists = AdjList::new(3);
    lists.add_edge(0, 1);
    lists.add_edge(0, 1);
    lists.add_edge(1, 2);
    let matrix = lists.to_adj_matrix();
    assert_eq!(
        matrix.adjacency_matrix(),
        vec![
            vec![false, true, false],
            vec![true, false, true],
            vec![false, true, false]
        ]
    );
    assert_eq!(lists.to_graph().get_neighbors(1), vec![0, 2]);
}

#[test]
fn has_edge_sees_an_edge_from_both_ends() {
    let mut lists = AdjList::new(3);
    lists.add_edge(0, 2);
    assert!(lists.has_edge(0, 2) && lists.has_edge(2, 0));
    assert!(!lists.has_edge(0, 1) && !lists.has_edge(0, 0) && !lists.has_edge(0, 3));
    let matrix = lists.to_adj_matrix();
    assert!(matrix.has_edge(0, 2) && matrix.has_edge(2, 0));
    assert!(!matrix.has_edge(1, 2) && !matrix.has_edge(2, 2) && !matrix.has_edge(5, 0));
    let graph = lists.to_graph();
    assert!(graph.has_edge(0, 2) && graph.has_edge(2, 0));
    assert!(!graph.has_edge(1, 0) && !graph.has_edge(0, 7));
}
