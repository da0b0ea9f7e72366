use graph_coloring::color::InstanceError;
use graph_coloring::dimacs::{parse_line, read_dimacs, DimacsLine};

fn bytes(s: &str) -> Vec<u8> {
    s.as_bytes().to_vec()
}

#[test]
fn read_comment_and_header() {
    let r = read_dimacs(&bytes("c this is a test comment\np edge 2 1\ne 1 2")).unwrap();
    assert_eq!(r, (2, 1, vec![(0, 1)]));
}

#[test]
fn read_header_col() {
    let r = read_dimacs(&bytes("p col 2 1\ne 1 2\n")).unwrap();
    assert_eq!(r, (2, 1, vec![(0, 1)]));
}

#[test]
fn read_four_cycle() {
    let r = read_dimacs(&bytes("p edge 4 4\ne 1 2\ne 2 3\ne 3 4\ne 4 1\n")).unwrap();
    assert_eq!(r.0, 4);
    assert_eq!(r.2, vec![(0, 1), (1, 2), (2, 3), (3, 0)]);
}

#[test]
fn both_directions_count_twice() {
    let r = read_dimacs(&bytes("p edge 2 1\ne 1 2\ne 2 1\n")).unwrap();
    assert_eq!(r.2.len(), 2);
}

#[test]
fn edge_count_mismatch() {
    assert_eq!(
        read_dimacs(&bytes("p edge 3 3\ne 1 2\ne 2 3\n")),
        Err(InstanceError::EdgeCountMismatch(2, 3))
    );
}

#[test]
fn missing_header() {
    assert_eq!(read_dimacs(&bytes("e 1 2\n")), Err(InstanceError::MissingHeader));
    assert_eq!(read_dimacs(&bytes("c nothing\n")), Err(InstanceError::MissingHeader));
}

#[test]
fn endpoint_out_of_range() {
    assert_eq!(
        read_dimacs(&bytes("p edge 2 1\ne 1 3\n")),
        Err(InstanceError::EndpointOutOfRange(1, 3))
    );
}

#[test]
fn malformed_line() {
    assert_eq!(read_dimacs(&bytes("p edge 2 1\nx 1 2\n")), Err(InstanceError::MalformedLine(2)));
}

#[test]
fn carriage_returns_are_blanks() {
    let r = read_dimacs(&bytes("p edge 2 1\r\ne 1 2\r\n")).unwrap();
    assert_eq!(r, (2, 1, vec![(0, 1)]));
}

#[test]
fn line_kinds() {
    let b = bytes("  c x\np edge 5 10\ne 12 7\n\n");
    assert_eq!(parse_line(&b, 0, 5), DimacsLine::Comment);
    assert_eq!(parse_line(&b, 6, 17), DimacsLine::Header(5, 10));
    assert_eq!(parse_line(&b, 18, 24), DimacsLine::Edge(12, 7));
    assert_eq!(parse_line(&b, 25, 25), DimacsLine::Blank);
}

#[test]
fn read_edge() {
    let b = bytes("e 1 2\n");
    assert_eq!(parse_line(&b, 0, 5), DimacsLine::Edge(1, 2));
}
