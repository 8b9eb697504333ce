use fast_paths::graph_text::parse_number;
use fast_paths::graph_text::parse_numbers;
use fast_paths::graph_text::write_number;
use fast_paths::graph_text::DimacsError;
use fast_paths::input_graph::Edge;
use fast_paths::input_graph::InputGraph;

fn ends(g: &InputGraph) -> Vec<(usize, usize, usize)> {
    g.get_edges().iter().map(|e| (e.from, e.to, e.weight)).collect()
}

#[test]
fn numbers_are_read_from_digits() {
    assert_eq!(Some(0), parse_number(b"0", 0, 1));
    assert_eq!(Some(1203), parse_number(b"x1203 ", 1, 5));
    assert_eq!(Some(7), parse_number(b"+7", 0, 2));
    assert_eq!(Some(7), parse_number(b"007", 0, 3));
    assert_eq!(None, parse_number(b"", 0, 0));
    assert_eq!(None, parse_number(b"+", 0, 1));
    assert_eq!(None, parse_number(b"-7", 0, 2));
    assert_eq!(None, parse_number(b"7a", 0, 2));
    let largest = format!("{}", usize::MAX);
    assert_eq!(Some(usize::MAX), parse_number(largest.as_bytes(), 0, largest.len()));
    let too_large = format!("{}0", usize::MAX);
    assert_eq!(None, parse_number(too_large.as_bytes(), 0, too_large.len()));
    let one_more = format!("{}", usize::MAX as u128 + 1);
    assert_eq!(None, parse_number(one_more.as_bytes(), 0, one_more.len()));
}

#[test]
fn numbers_are_read_to_the_end_of_the_line() {
    assert_eq!(Some(vec![1, 22, 333]), parse_numbers(b"a 1 22\t 333  ", 2, 3));
    assert_eq!(Some(vec![]), parse_numbers(b"  ", 0, 0));
    assert_eq!(None, parse_numbers(b"a 1 22", 2, 3));
    assert_eq!(None, parse_numbers(b"a 1 22 333 4", 2, 3));
    assert_eq!(None, parse_numbers(b"a 1 x 333", 2, 3));
}

#[test]
fn arc_lines_hold_three_numbers() {
    assert_eq!(Some((4, 5, 6)), InputGraph::read_arc_line(b"a 4 5 6"));
    assert_eq!(Some((4, 5, 6)), InputGraph::read_arc_line(b"a   4  5 6 "));
    assert_eq!(None, InputGraph::read_arc_line(b"a 4 5"));
    assert_eq!(None, InputGraph::read_arc_line(b"a 4 5 6 7"));
    assert_eq!(None, InputGraph::read_arc_line(b"a 4 5 six"));
}

#[test]
fn graph_is_read_from_arc_lines() {
    let text = b"c a comment\na 0 1 5\r\nsomething else\na 1 2 3\n\na 0 1 4\na 2 2 9\na 2 0 0\n";
    let g = InputGraph::from_text(text).unwrap();
    assert!(g.check_frozen());
    assert_eq!(3, g.get_num_nodes());
    assert_eq!(vec![(0, 1, 4), (1, 2, 3)], ends(&g));
    assert!(InputGraph::from_text(b"a 0 1 5\na 1 2\n").is_none());
    let empty = InputGraph::from_text(b"").unwrap();
    assert_eq!(0, empty.get_num_edges());
    let last_line_without_end = InputGraph::from_text(b"a 3 1 2").unwrap();
    assert_eq!(vec![(3, 1, 2)], ends(&last_line_without_end));
}

#[test]
fn graph_is_written_as_arc_lines_and_read_again() {
    let mut g = InputGraph::new();
    g.add_edge(10, 2, 7);
    g.add_edge(0, 13, 120);
    g.freeze();
    let text = g.to_text();
    assert_eq!(b"a 0 13 120\na 10 2 7\n".to_vec(), text);
    let again = InputGraph::from_text(&text).unwrap();
    assert_eq!(ends(&g), ends(&again));
    assert_eq!(g.get_num_nodes(), again.get_num_nodes());
}

#[test]
fn graph_is_read_from_dimacs() {
    let text = b"c comment\n\np sp 3 2\na 1 2 5\nc more\na 2 3 4\n";
    let g = InputGraph::from_dimacs_text(text).unwrap();
    assert_eq!(vec![(0, 1, 5), (1, 2, 4)], ends(&g));
    assert_eq!(3, g.get_num_nodes());
}

#[test]
fn what_is_wrong_with_a_dimacs_text_is_told() {
    let error = |text: &[u8]| InputGraph::from_dimacs_text(text).err();
    assert_eq!(Some(DimacsError::SecondProblemLine), error(b"p sp 3 2\np sp 3 2\n"));
    assert_eq!(Some(DimacsError::InvalidProblemLine), error(b"p sp 3\n"));
    assert_eq!(Some(DimacsError::InvalidProblemLine), error(b"p sp 3 2 1\n"));
    assert_eq!(Some(DimacsError::MissingProblemLine), error(b"a 1 2 5\np sp 3 1\n"));
    assert_eq!(Some(DimacsError::InvalidArcLine), error(b"p sp 3 1\na 1 2\n"));
    assert_eq!(Some(DimacsError::InvalidNodes), error(b"p sp 3 1\na 1 4 5\n"));
    assert_eq!(Some(DimacsError::InvalidNodes), error(b"p sp 3 1\na 0 2 5\n"));
    assert_eq!(Some(DimacsError::TooManyArcLines), error(b"p sp 3 1\na 1 2 5\na 2 3 5\n"));
    assert_eq!(Some(DimacsError::NotEnoughArcLines), error(b"p sp 3 2\na 1 2 5\n"));
    assert_eq!(Some(DimacsError::InvalidLine), error(b"p sp 3 1\nx 1 2 5\n"));
    assert_eq!(Some(DimacsError::InvalidLine), error(b"p 3 1\n"));
    assert_eq!(None, error(b"p sp 0 0\n"));
}

#[test]
fn graph_is_written_as_dimacs_and_read_again() {
    let mut g = InputGraph::new();
    g.add_edge(1, 0, 9);
    g.add_edge(0, 2, 49);
    g.freeze();
    let text = g.to_dimacs_text();
    assert_eq!(b"p sp 3 2\na 1 3 49\na 2 1 9\n".to_vec(), text);
    let again = InputGraph::from_dimacs_text(&text).unwrap();
    assert_eq!(ends(&g), ends(&again));
}

#[test]
fn numbers_are_written_as_digits() {
    let mut text = b"n=".to_vec();
    write_number(&mut text, 0);
    text.push(b' ');
    write_number(&mut text, 9075);
    text.push(b' ');
    write_number(&mut text, usize::MAX);
    assert_eq!(format!("n=0 9075 {}", usize::MAX).into_bytes(), text);
}

#[test]
fn graph_is_written_as_calls_that_build_it() {
    assert_eq!("g.add_edge(3, 14, 15);", Edge::new(3, 14, 15).unit_test_output_string());
    let mut g = InputGraph::new();
    g.add_edge(1, 0, 9);
    g.add_edge(0, 2, 49);
    g.freeze();
    assert_eq!(
        "g.add_edge(0, 2, 49);\ng.add_edge(1, 0, 9);\n",
        g.unit_test_output_string()
    );
}
