use social_graph::graph::{read_graph, Graphs, MAX_RECORDS};
use social_graph::parse::{
    blank, parse_line, parse_number, read_edges, run, trim, LineFault, ParseError,
};

#[test]
fn numbers_are_decimal_identifiers() {
    assert_eq!(parse_number(b"0"), Some(0));
    assert_eq!(parse_number(b"7"), Some(7));
    assert_eq!(parse_number(b"007"), Some(7));
    assert_eq!(parse_number(b"+12"), Some(12));
    assert_eq!(parse_number(b"4294967295"), Some(u32::MAX));
    assert_eq!(parse_number(b"4294967296"), None);
    assert_eq!(parse_number(b"99999999999999999999999"), None);
    assert_eq!(parse_number(b""), None);
    assert_eq!(parse_number(b"+"), None);
    assert_eq!(parse_number(b"-1"), None);
    assert_eq!(parse_number(b"++1"), None);
    assert_eq!(parse_number(b"1+"), None);
    assert_eq!(parse_number(b" 1"), None);
    assert_eq!(parse_number(b"1 "), None);
    assert_eq!(parse_number(b"12a"), None);
    assert_eq!(parse_number(b"1.5"), None);
    assert_eq!(parse_number(b"42949672950x"), None);
}

#[test]
fn numbers_agree_with_the_standard_parser() {
    let fields = ["0", "15", "+3", "0042", "4294967295", "4294967296", "", "+", "-3", "3 ", "x"];
    for field in fields {
        assert_eq!(parse_number(field.as_bytes()), field.parse::<u32>().ok());
    }
}

#[test]
fn trimming_takes_the_blanks_at_both_ends() {
    assert_eq!(trim(b"  1,2 \r"), b"1,2");
    assert_eq!(trim(b"\t\x0b\x0c 1 , 2\n"), b"1 , 2");
    assert_eq!(trim(b"1,2"), b"1,2");
    assert_eq!(trim(b" \t\r "), b"");
    assert_eq!(trim(b""), b"");
    assert!(blank(b' '));
    assert!(blank(b'\r'));
    assert!(!blank(b'0'));
    assert!(!blank(8));
    assert!(!blank(14));
}

#[test]
fn runs_end_at_the_stop() {
    assert_eq!(run(b"12,34", b','), 2);
    assert_eq!(run(b",34", b','), 0);
    assert_eq!(run(b"1234", b','), 4);
    assert_eq!(run(b"", b','), 0);
}

#[test]
fn lines_hold_a_connection_or_nothing() {
    assert_eq!(parse_line(b"1,2"), Ok(Some((1, 2))));
    assert_eq!(parse_line(b"  10,20\r"), Ok(Some((10, 20))));
    assert_eq!(parse_line(b"3,4,ignored"), Ok(Some((3, 4))));
    assert_eq!(parse_line(b"3,4,"), Ok(Some((3, 4))));
    assert_eq!(parse_line(b""), Ok(None));
    assert_eq!(parse_line(b"   \r"), Ok(None));
    assert_eq!(parse_line(b"12"), Err(LineFault::MissingField));
    assert_eq!(parse_line(b"abc"), Err(LineFault::MissingField));
    assert_eq!(parse_line(b"1, 2"), Err(LineFault::BadNumber));
    assert_eq!(parse_line(b"1,"), Err(LineFault::BadNumber));
    assert_eq!(parse_line(b",2"), Err(LineFault::BadNumber));
    assert_eq!(parse_line(b"a,b"), Err(LineFault::BadNumber));
    assert_eq!(parse_line(b"1,-2"), Err(LineFault::BadNumber));
    assert_eq!(parse_line(b"1,4294967296"), Err(LineFault::BadNumber));
}

#[test]
fn the_header_and_blank_lines_are_skipped() {
    let text = b"node_1,node_2\n0,747\n\n1,4257\r\n   \n1,2194\n";
    assert_eq!(read_edges(text, 10), Ok(vec![(0, 747), (1, 4257), (1, 2194)]));
    // no line feed after the last line
    assert_eq!(read_edges(b"a,b\n5,6", 10), Ok(vec![(5, 6)]));
    // the header may be anything, a connection too
    assert_eq!(read_edges(b"1,2\n3,4\n", 10), Ok(vec![(3, 4)]));
    assert_eq!(read_edges(b"", 10), Ok(vec![]));
    assert_eq!(read_edges(b"header", 10), Ok(vec![]));
    assert_eq!(read_edges(b"\n\n\n", 10), Ok(vec![]));
}

#[test]
fn reading_stops_at_the_limit() {
    let text = b"h\n1,2\n3,4\n5,6\nnot a connection\n";
    assert_eq!(read_edges(text, 3), Ok(vec![(1, 2), (3, 4), (5, 6)]));
    assert_eq!(read_edges(text, 2), Ok(vec![(1, 2), (3, 4)]));
    assert_eq!(read_edges(text, 0), Ok(vec![]));
    assert_eq!(
        read_edges(text, 4),
        Err(ParseError { line: 4, fault: LineFault::MissingField })
    );
    // blank lines do not count
    assert_eq!(read_edges(b"h\n\n1,2\n\n3,4\n5,6\n", 2), Ok(vec![(1, 2), (3, 4)]));
}

#[test]
fn the_first_wrong_line_is_reported() {
    assert_eq!(
        read_edges(b"h\n1,2\nx,4\n5\n", 10),
        Err(ParseError { line: 2, fault: LineFault::BadNumber })
    );
    assert_eq!(
        read_edges(b"h\n\n\n7\n1,b\n", 10),
        Err(ParseError { line: 3, fault: LineFault::MissingField })
    );
    assert_eq!(
        read_edges(b"h\n1,2", 10),
        Ok(vec![(1, 2)])
    );
    assert_eq!(
        read_edges(b"h\n1;2", 10),
        Err(ParseError { line: 1, fault: LineFault::MissingField })
    );
}

#[test]
fn a_text_becomes_a_graph() {
    let graph = read_graph(b"node_1,node_2\n7,3\n3,9\n\n7,9\n2,7\n").unwrap();
    assert_eq!(graph.node_count(), 4);
    assert_eq!(graph.edge_count(), 4);
    let ids: Vec<u32> = graph.node_indices().map(|i| graph[i]).collect();
    assert_eq!(ids, vec![7, 3, 9, 2]);
    let graphs = Graphs::new(graph);
    assert_eq!(graphs.connected_components().len(), 1);
    assert_eq!(graphs.person_spread(2, 1), Ok(2));
    assert!(matches!(
        read_graph(b"h\n1,2\n3\n"),
        Err(ParseError { line: 2, fault: LineFault::MissingField })
    ));
}

#[test]
fn a_graph_takes_a_thousand_connections() {
    let mut text = String::from("node_1,node_2\n");
    for k in 0..1500u32 {
        text.push_str(&format!("{},{}\n", k, k + 1));
    }
    let graph = read_graph(text.as_bytes()).unwrap();
    assert_eq!(MAX_RECORDS, 1000);
    assert_eq!(graph.edge_count(), 1000);
    assert_eq!(graph.node_count(), 1001);
    let graphs = Graphs::new(graph);
    assert_eq!(graphs.connected_components().len(), 1);
    assert_eq!(graphs.person_spread(0, 10), Ok(11));
    assert_eq!(graphs.person_spread(500, 10), Ok(21));
}
