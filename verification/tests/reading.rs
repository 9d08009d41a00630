use ena_graph::error::GraphError;
use ena_graph::graph::adjacency_list;
use ena_graph::parse::{
    parse_edges, parse_line, parse_lines, parse_node, parse_spaced_edges, parse_spaced_line,
    read_lines, Fault,
};
use ena_graph::paths::bfs;

#[test]
fn an_error_keeps_its_description() {
    let error = GraphError::new("Could not open file");
    assert_eq!(error.details, "Could not open file");
    assert_eq!(error.message(), "Could not open file");
}

#[test]
fn edges_are_read_line_by_line() {
    let text = b"# Nodes: 4 Edges: 3\n1\t2\n2\t3\r\n+3\t4\textra\n";
    let edges = parse_edges(text).unwrap();
    assert_eq!(edges, vec![(1, 2), (2, 3), (3, 4)]);
}

#[test]
fn the_last_line_needs_no_line_feed() {
    assert_eq!(parse_edges(b"7\t8").unwrap(), vec![(7, 8)]);
    assert_eq!(parse_edges(b"").unwrap(), vec![]);
    assert_eq!(parse_edges(b"#only a comment").unwrap(), vec![]);
}

#[test]
fn a_line_without_a_tab_is_refused() {
    let error = parse_edges(b"1\t2\n3 4\n").unwrap_err();
    assert_eq!(error.details, "Line format is incorrect");
    let blank = parse_edges(b"1\t2\n\n3\t4\n").unwrap_err();
    assert_eq!(blank.details, "Line format is incorrect");
}

#[test]
fn a_field_that_is_no_number_is_refused() {
    for text in [&b"a\t2\n"[..], b"1\tb\n", b"1\t\n", b"\t1\n", b"-1\t2\n", b"1 \t2\n", b"+\t2\n"] {
        let error = parse_edges(text).unwrap_err();
        assert_eq!(error.details, "Invalid node format");
    }
}

#[test]
fn identifiers_fill_thirty_two_bits() {
    assert_eq!(parse_edges(b"4294967295\t0\n").unwrap(), vec![(4294967295, 0)]);
    let error = parse_edges(b"4294967296\t0\n").unwrap_err();
    assert_eq!(error.details, "Invalid node format");
    let long = parse_edges(b"99999999999999999999999\t0\n").unwrap_err();
    assert_eq!(long.details, "Invalid node format");
    assert_eq!(parse_edges(b"0000000000000000000012\t0\n").unwrap(), vec![(12, 0)]);
}

#[test]
fn nodes_and_lines_by_position() {
    let text = b"xx12\t+34yy";
    assert_eq!(parse_node(text, 2, 4), Some(12));
    assert_eq!(parse_node(text, 5, 8), Some(34));
    assert_eq!(parse_node(text, 0, 4), None);
    assert_eq!(parse_node(text, 4, 4), None);
    assert_eq!(parse_line(text, 2, 8), Ok(Some((12, 34))));
    assert_eq!(parse_line(text, 2, 4), Err(Fault::LineFormat));
    assert_eq!(parse_line(text, 0, 10), Err(Fault::NodeFormat));
    assert_eq!(parse_line(b"#1\t2", 0, 4), Ok(None));
}

#[test]
fn the_first_fault_ends_the_reading() {
    let error = parse_edges(b"1\t2\nx\ty\nno tab\n").unwrap_err();
    assert_eq!(error.details, "Invalid node format");
    assert_eq!(Fault::LineFormat.to_error().details, "Line format is incorrect");
    assert_eq!(Fault::NodeFormat.to_error().details, "Invalid node format");
}

#[test]
fn text_to_distances() {
    let edges = parse_edges(b"1\t2\n2\t3\n3\t4\n4\t5\n5\t6\n").unwrap();
    let graph = adjacency_list(&edges);
    let distances = bfs(1, &graph);
    for node in 1..=6u32 {
        assert_eq!(distances[&node], node - 1);
    }
    assert_eq!(distances.len(), 6);
}

#[test]
fn a_carriage_return_is_dropped_before_a_line_feed_only() {
    assert_eq!(parse_edges(b"1\t2\r\n").unwrap(), vec![(1, 2)]);
    assert_eq!(parse_edges(b"1\t2\r\n3\t4\r\n").unwrap(), vec![(1, 2), (3, 4)]);
    let error = parse_edges(b"1\t2\r").unwrap_err();
    assert_eq!(error.details, "Invalid node format");
    let inner = parse_edges(b"1\t2\r\r\n").unwrap_err();
    assert_eq!(inner.details, "Invalid node format");
    assert_eq!(parse_edges(b"1\t2\t\r").unwrap(), vec![(1, 2)]);
}

#[test]
fn spaced_edges_are_read_line_by_line() {
    let text = b"# Nodes: 3\n1 2\n\n  3\t4  extra\n   \t \n5\xC2\xA06\n+7\xE2\x80\x838\r\n";
    assert_eq!(parse_spaced_edges(text).unwrap(), vec![(1, 2), (3, 4), (5, 6), (7, 8)]);
    assert_eq!(parse_spaced_edges(b"").unwrap(), vec![]);
    assert_eq!(parse_spaced_edges(b"1 2\r").unwrap(), vec![(1, 2)]);
    assert_eq!(parse_spaced_edges(b"9\x0B10\x0C").unwrap(), vec![(9, 10)]);
}

#[test]
fn spaced_lines_with_a_fault() {
    let one = parse_spaced_edges(b"1 2\n12\n").unwrap_err();
    assert_eq!(one.details, "Line format is incorrect");
    let word = parse_spaced_edges(b"1 2\nabc\n").unwrap_err();
    assert_eq!(word.details, "Invalid node format");
    let second = parse_spaced_edges(b"1 x\n").unwrap_err();
    assert_eq!(second.details, "Invalid node format");
    let large = parse_spaced_edges(b"1 4294967296\n").unwrap_err();
    assert_eq!(large.details, "Invalid node format");
    let tabbed = parse_edges(b"1 2\n").unwrap_err();
    assert_eq!(tabbed.details, "Line format is incorrect");
}

#[test]
fn spaced_lines_by_position() {
    let text = b"..  12   34 56..";
    assert_eq!(parse_spaced_line(text, 2, 14), Ok(Some((12, 34))));
    assert_eq!(parse_spaced_line(text, 2, 9), Err(Fault::LineFormat));
    assert_eq!(parse_spaced_line(text, 2, 4), Ok(None));
    assert_eq!(parse_spaced_line(text, 0, 16), Err(Fault::NodeFormat));
    assert_eq!(parse_spaced_line(b"#1 2", 0, 4), Ok(None));
    assert_eq!(parse_spaced_line(b" #1 2", 0, 5), Err(Fault::NodeFormat));
}

#[test]
fn both_forms_through_one_reader() {
    assert_eq!(parse_lines(b"1\t2\n", false), Ok(vec![(1, 2)]));
    assert_eq!(parse_lines(b"1\t2\n", true), Ok(vec![(1, 2)]));
    assert_eq!(parse_lines(b"1 2\n", true), Ok(vec![(1, 2)]));
    assert_eq!(parse_lines(b"1 2\n", false), Err(Fault::LineFormat));
    assert_eq!(parse_lines(b"\n", true), Ok(vec![]));
    assert_eq!(parse_lines(b"\n", false), Err(Fault::LineFormat));
}

#[test]
fn a_line_that_cannot_be_read_ends_the_reading() {
    let text = b"1\t2\n3\t4\n\xFF\t5\n6\t7\n";
    let error = read_lines(text, 8, false).unwrap_err();
    assert_eq!(error.details, "Could not read line");
    let inside = b"1\t2\n3\t\xFF\n";
    assert_eq!(read_lines(inside, 6, false).unwrap_err().details, "Could not read line");
    let comment = b"1 2\n# caf\xE9\n3 4\n";
    assert_eq!(read_lines(comment, 9, true).unwrap_err().details, "Could not read line");
    let first = b"\xFF";
    assert_eq!(read_lines(first, 0, false).unwrap_err().details, "Could not read line");
}

#[test]
fn an_earlier_fault_comes_first() {
    let text = b"x\ty\n\xFF\n";
    assert_eq!(read_lines(text, 4, false).unwrap_err().details, "Invalid node format");
    let short = b"1\t2\n3\n\xFF\n";
    assert_eq!(read_lines(short, 6, false).unwrap_err().details, "Line format is incorrect");
}

#[test]
fn a_text_that_can_be_read_whole() {
    let text = b"1\t2\n3\t4\n";
    assert_eq!(read_lines(text, text.len(), false).unwrap(), vec![(1, 2), (3, 4)]);
    assert_eq!(read_lines(text, text.len() + 5, false).unwrap(), vec![(1, 2), (3, 4)]);
    assert_eq!(read_lines(b"1 2\n3 4", 7, true).unwrap(), vec![(1, 2), (3, 4)]);
    assert_eq!(Fault::Unreadable.to_error().details, "Could not read line");
}
