use graph_coloring::color::{checker, CheckerResult, DimacsInstance, InstanceError};

fn cycle4() -> DimacsInstance {
    DimacsInstance::from_edges(4, &vec![(0, 1), (1, 2), (2, 3), (3, 0)]).unwrap()
}

#[test]
fn checker_accepts_proper_coloring() {
    let g = cycle4();
    assert_eq!(checker(&g, &vec![vec![0, 2], vec![1, 3]]), CheckerResult::Feasible(2));
}

#[test]
fn checker_finds_vertex_twice() {
    let g = cycle4();
    assert_eq!(checker(&g, &vec![vec![0, 2], vec![1, 3, 0]]), CheckerResult::VertexAddedTwice(0));
}

#[test]
fn checker_finds_uncolored_vertex() {
    let g = cycle4();
    assert_eq!(checker(&g, &vec![vec![0, 2], vec![1]]), CheckerResult::VertexNotColored(3));
}

#[test]
fn checker_finds_conflicting_edge() {
    let g = cycle4();
    assert_eq!(checker(&g, &vec![vec![0, 1], vec![2, 3]]), CheckerResult::ConflictingEdge(0, 1));
}

#[test]
fn graph_from_edges_dedups_both_directions() {
    let g = DimacsInstance::from_edges(3, &vec![(0, 1), (1, 0), (1, 2)]).unwrap();
    assert_eq!(g.degree(0), 1);
    assert_eq!(g.degree(1), 2);
    assert_eq!(g.neighbors(1).clone(), vec![0, 2]);
    assert!(g.are_adjacent(2, 1));
    assert!(!g.are_adjacent(0, 2));
}

#[test]
fn graph_from_edges_rejects_bad_edges() {
    assert!(matches!(
        DimacsInstance::from_edges(3, &vec![(0, 3)]),
        Err(InstanceError::EndpointOutOfRange(0, 3))
    ));
    assert!(matches!(
        DimacsInstance::from_edges(3, &vec![(0, 1), (2, 2)]),
        Err(InstanceError::SelfLoop(2))
    ));
}

#[test]
fn graph_edges_listed_once() {
    let g = DimacsInstance::from_edges(4, &vec![(1, 0), (2, 1), (0, 1), (3, 0)]).unwrap();
    assert_eq!(g.edges(), vec![(0, 1), (0, 3), (1, 2)]);
    assert_eq!(g.nb_edges(), 3);
}
