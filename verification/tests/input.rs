use graph_coloring::algorithms::is_coloring_valid;
use graph_coloring::input::{parse_graph, parse_number, split_bytes, split_words, ParseError};
use graph_coloring::solver::{check_settings, solve, Algorithm, Settings};

const MYCIEL3: &str = "c FILE: myciel3.col
c SOURCE: Michael Trick (trick@cmu.edu)
c DESCRIPTION: Graph based on Mycielski transformation.
c              Triangle free (clique number 2) but increasing
c              coloring number
p edge 11 20
e 1 2
e 1 4
e 1 7
e 1 9
e 2 3
e 2 6
e 2 8
e 3 5
e 3 7
e 3 10
e 4 5
e 4 6
e 4 10
e 5 8
e 5 9
e 6 11
e 7 11
e 8 11
e 9 11
e 10 11
";

fn default_settings() -> Settings {
    Settings {
        pr_solutions: None,
        grasp_iterations: None,
        color_iterations: None,
        color_list_size: None,
        generations: None,
        population_size: None,
        offspring_size: None,
        mutation_rate: None,
        elite_limit: None,
    }
}

#[test]
fn parse_graph_reads_an_instance() {
    let graph = parse_graph(MYCIEL3.as_bytes()).unwrap().unwrap();
    assert_eq!(graph.num_vertices(), 11);
    assert_eq!(graph.adj_list()[0], vec![1, 3, 6, 8]);
    assert_eq!(graph.adj_list()[10], vec![5, 6, 7, 8, 9]);
    let entries: usize = graph.adj_list().iter().map(|list| list.len()).sum();
    assert_eq!(entries, 40);
}

#[test]
fn parse_graph_skips_what_it_does_not_know() {
    let text = "\n   \nx 1 2\ne 1 2\np edge 3\n\te\t1  3\r\ne 2\nedge 1 2\np\np edge\ne 3 2 7\n";
    let graph = parse_graph(text.as_bytes()).unwrap().unwrap();
    assert_eq!(graph.adj_list(), &[vec![2], vec![2], vec![0, 1]]);
}

#[test]
fn parse_graph_without_a_problem_line_gives_no_graph() {
    assert!(parse_graph(b"").unwrap().is_none());
    assert!(parse_graph(b"c nothing\ne 1 2\n").unwrap().is_none());
    assert!(parse_graph(b"e one two").unwrap().is_none());
}

#[test]
fn parse_graph_ignores_vertices_that_are_not_there() {
    let graph = parse_graph(b"p edge 2 3\ne 0 1\ne 1 3\ne 2 2\ne 2 1").unwrap().unwrap();
    assert_eq!(graph.adj_list(), &[vec![1], vec![0]]);
}

#[test]
fn parse_graph_starts_over_at_a_second_problem_line() {
    let graph = parse_graph(b"p edge 2 1\ne 1 2\np col 3 0\ne +3 01").unwrap().unwrap();
    assert_eq!(graph.adj_list(), &[vec![2], vec![], vec![0]]);
}

#[test]
fn parse_graph_fails_on_a_bad_number() {
    assert_eq!(
        parse_graph(b"p edge many 2").err(),
        Some(ParseError::InvalidNumber { line: 0 })
    );
    assert_eq!(
        parse_graph(b"c\np edge 3 2\ne 1 2\ne 2 x\ne 1 3").err(),
        Some(ParseError::InvalidNumber { line: 3 })
    );
    assert_eq!(
        parse_graph(b"p edge 3 2\ne -1 2").err(),
        Some(ParseError::InvalidNumber { line: 1 })
    );
    assert_eq!(
        parse_graph(b"p edge 3 2\ne 1 99999999999999999999999999").err(),
        Some(ParseError::InvalidNumber { line: 1 })
    );
}

#[test]
fn parse_number_reads_decimal_digits() {
    assert_eq!(parse_number(&b"0".to_vec()), Some(0));
    assert_eq!(parse_number(&b"0042".to_vec()), Some(42));
    assert_eq!(parse_number(&b"+7".to_vec()), Some(7));
    assert_eq!(parse_number(&usize::MAX.to_string().into_bytes()), Some(usize::MAX));
    assert_eq!(parse_number(&b"".to_vec()), None);
    assert_eq!(parse_number(&b"+".to_vec()), None);
    assert_eq!(parse_number(&b"++1".to_vec()), None);
    assert_eq!(parse_number(&b"1+".to_vec()), None);
    assert_eq!(parse_number(&b"12a".to_vec()), None);
    assert_eq!(parse_number(&b"1.5".to_vec()), None);
    let mut too_large = usize::MAX.to_string().into_bytes();
    too_large.push(b'0');
    assert_eq!(parse_number(&too_large), None);
}

#[test]
fn split_bytes_keeps_empty_pieces() {
    assert_eq!(
        split_bytes(b"a\n\nbc\n", true),
        vec![b"a".to_vec(), vec![], b"bc".to_vec(), vec![]]
    );
    assert_eq!(split_bytes(b"", true), vec![Vec::<u8>::new()]);
    assert_eq!(
        split_bytes(b"a b\tc", false),
        vec![b"a".to_vec(), b"b".to_vec(), b"c".to_vec()]
    );
}

#[test]
fn split_words_drops_the_space_between_words() {
    assert_eq!(
        split_words(b"  p edge\t11  20 \r"),
        vec![b"p".to_vec(), b"edge".to_vec(), b"11".to_vec(), b"20".to_vec()]
    );
    assert_eq!(split_words(b" \t "), Vec::<Vec<u8>>::new());
    assert_eq!(split_words(b""), Vec::<Vec<u8>>::new());
}

#[test]
fn solve_runs_each_algorithm() {
    let graph = parse_graph(MYCIEL3.as_bytes()).unwrap().unwrap();
    let mut settings = default_settings();
    settings.generations = Some(50);
    settings.population_size = Some(10);
    for algorithm in [Algorithm::Genetic, Algorithm::Grasp, Algorithm::GraspPR] {
        assert!(check_settings(&graph, &algorithm, &settings));
        let (num_colors, coloring) = solve(&graph, &algorithm, &settings);
        assert!(is_coloring_valid(&graph, &coloring));
        assert!(num_colors >= 4);
        assert!(num_colors <= 11);
    }
}

#[test]
fn check_settings_refuses_what_cannot_run() {
    let graph = parse_graph(MYCIEL3.as_bytes()).unwrap().unwrap();
    let empty = parse_graph(b"p edge 0 0").unwrap().unwrap();
    let mut settings = default_settings();
    assert!(!check_settings(&empty, &Algorithm::Genetic, &settings));
    assert!(check_settings(&empty, &Algorithm::Grasp, &settings));
    settings.color_list_size = Some(0);
    assert!(!check_settings(&graph, &Algorithm::Grasp, &settings));
    assert!(check_settings(&graph, &Algorithm::GraspPR, &settings));
    settings.color_list_size = None;
    settings.grasp_iterations = Some(0);
    assert!(!check_settings(&graph, &Algorithm::Grasp, &settings));
    settings.grasp_iterations = None;
    settings.color_iterations = Some(-1);
    assert!(!check_settings(&graph, &Algorithm::Grasp, &settings));
    settings.pr_solutions = Some(0);
    assert!(!check_settings(&graph, &Algorithm::GraspPR, &settings));
    settings.population_size = Some(4);
    assert!(!check_settings(&graph, &Algorithm::Genetic, &settings));
    settings.elite_limit = Some(1);
    assert!(check_settings(&graph, &Algorithm::Genetic, &settings));
    settings.population_size = Some(1);
    assert!(!check_settings(&graph, &Algorithm::Genetic, &settings));
}
