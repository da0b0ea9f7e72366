use graph_coloring::clique::{greedy_clique, CLIQUESpace};
use graph_coloring::color::{ColoringInstance, DimacsInstance};

fn complete(n: usize) -> DimacsInstance {
    let mut edges = Vec::new();
    for i in 0..n {
        for j in 0..i {
            edges.push((i, j));
        }
    }
    DimacsInstance::from_edges(n, &edges).unwrap()
}

#[test]
fn greedy_clique_on_complete_graph() {
    let g = complete(5);
    let mut c = greedy_clique(&g);
    c.sort();
    assert_eq!(c, vec![0, 1, 2, 3, 4]);
}

#[test]
fn greedy_clique_takes_dense_part() {
    // a triangle 0-1-2 with a pendant vertex 3 on 2
    let g = DimacsInstance::from_edges(4, &vec![(0, 1), (1, 2), (2, 0), (2, 3)]).unwrap();
    let mut c = greedy_clique(&g);
    c.sort();
    assert_eq!(c, vec![0, 1, 2]);
}

#[test]
fn clique_space_add_vertex_drops_non_neighbors() {
    let g = DimacsInstance::from_edges(4, &vec![(0, 1), (1, 2), (2, 0), (2, 3)]).unwrap();
    let space = CLIQUESpace::new(&g);
    let root = space.initial(&g);
    assert_eq!(root.candidates.elements().len(), 4);
    let n1 = space.add_vertex(&g, &root, 3);
    assert_eq!(n1.clique, vec![3]);
    assert_eq!(n1.candidates.elements(), vec![2]);
    let n2 = space.add_vertex(&g, &n1, 2);
    assert_eq!(n2.clique, vec![3, 2]);
    assert!(n2.candidates.elements().is_empty());
}

#[test]
fn coloring_instance_interface() {
    let g = DimacsInstance::from_edges(3, &vec![(0, 1), (1, 2)]).unwrap();
    let inst: &dyn ColoringInstance = &g;
    assert_eq!(inst.nb_vertices(), 3);
    assert_eq!(inst.degree(1), 2);
    assert_eq!(inst.neighbors(1), vec![0, 2]);
    assert!(inst.are_adjacent(1, 2));
    assert!(!inst.are_adjacent(0, 2));
}

use graph_coloring::clique_conflict_weighting::{clique_conflict_weighting, CliqueConflictWeighting};

fn is_clique_of(g: &DimacsInstance, c: &[usize]) -> bool {
    for i in 0..c.len() {
        for j in 0..c.len() {
            if i != j && (c[i] == c[j] || !g.are_adjacent(c[i], c[j])) {
                return false;
            }
        }
    }
    true
}

#[test]
fn clique_search_finds_k5() {
    let g = complete(5);
    let c = clique_conflict_weighting(&g, &vec![2], 100);
    assert_eq!(c.len(), 5);
    assert!(is_clique_of(&g, &c));
}

#[test]
fn clique_search_petersen_stays_at_edges() {
    let mut edges = Vec::new();
    for i in 0..5 {
        edges.push((i, (i + 1) % 5));
        edges.push((i, i + 5));
        edges.push((5 + i, 5 + (i + 2) % 5));
    }
    let g = DimacsInstance::from_edges(10, &edges).unwrap();
    let c = clique_conflict_weighting(&g, &vec![0], 2000);
    // the Petersen graph has no triangle
    assert_eq!(c.len(), 2);
    assert!(is_clique_of(&g, &c));
}

#[test]
fn clique_search_escapes_small_clique() {
    // a triangle 0-1-2 and a K4 on 3..7; start from the triangle
    let mut edges = vec![(0, 1), (1, 2), (2, 0), (2, 3)];
    for i in 3..7 {
        for j in 3..i {
            edges.push((i, j));
        }
    }
    let g = DimacsInstance::from_edges(7, &edges).unwrap();
    let c = clique_conflict_weighting(&g, &vec![0, 1, 2], 5000);
    assert!(c.len() >= 3);
    assert!(is_clique_of(&g, &c));
}

#[test]
fn clique_weights_track_missing_pairs() {
    // path 0-1-2: 0 and 2 are not adjacent
    let g = DimacsInstance::from_edges(3, &vec![(0, 1), (1, 2)]).unwrap();
    let mut ls = CliqueConflictWeighting::initialize(&g, &vec![0, 1]);
    assert_eq!(ls.total_weight, 0);
    assert_eq!(ls.weight_adj_clique, vec![0, 0, 1]);
    ls.add_vertex(&g, 2);
    assert_eq!(ls.total_weight, 1);
    assert_eq!(ls.weight_adj_clique, vec![1, 0, 1]);
    // removing 0 drops the conflict
    ls.remove_vertex(&g, 0);
    assert_eq!(ls.total_weight, 0);
    assert_eq!(ls.weights[2][0], 1);
    assert_eq!(ls.weight_adj_clique, vec![1, 0, 0]);
    // the non-edge 0-2 grows heavier: 0 now misses more
    ls.increase_weight(&g, 0, 2);
    assert_eq!(ls.weights[2][0], 2);
    assert_eq!(ls.weight_adj_clique, vec![2, 0, 0]);
    assert_eq!(ls.total_weight, 0);
}

use graph_coloring::clique_partial_weighting::{clique_partial_weighting, CliquePartialWeighting};

#[test]
fn clique_pwls_finds_k5() {
    let g = complete(5);
    let r = clique_partial_weighting(&g, &vec![1], 100);
    assert_eq!(r.len(), 2);
    assert_eq!(r[0].len(), 5);
    assert!(is_clique_of(&g, &r[0]));
    assert!(r[1].is_empty());
}

#[test]
fn clique_pwls_finds_the_k4() {
    // a triangle 0-1-2 and a K4 on 3..7 joined by the edge 2-3
    let mut edges = vec![(0, 1), (1, 2), (2, 0), (2, 3)];
    for i in 3..7 {
        for j in 3..i {
            edges.push((i, j));
        }
    }
    let g = DimacsInstance::from_edges(7, &edges).unwrap();
    let r = clique_partial_weighting(&g, &vec![0, 1, 2], 1000);
    assert_eq!(r[0].len(), 4);
    assert!(is_clique_of(&g, &r[0]));
    assert_eq!(r[1], vec![0, 1, 2]);
}

#[test]
fn clique_pwls_insertion_drops_non_neighbors() {
    let g = DimacsInstance::from_edges(4, &vec![(0, 1), (1, 2), (2, 0), (2, 3)]).unwrap();
    let mut ls = CliquePartialWeighting::initialize(&g, &vec![0, 1, 2]);
    assert_eq!(ls.total_weight, 3);
    assert_eq!(ls.weight_cost_inserting, vec![0, 0, 0, 2]);
    ls.add_vertex(&g, 3);
    let mut members = ls.inside_clique.elements();
    members.sort();
    assert_eq!(members, vec![2, 3]);
    assert_eq!(ls.total_weight, 2);
    assert_eq!(ls.weight_cost_inserting, vec![1, 1, 0, 0]);
    assert_eq!(ls.configuration.elements(), vec![2]);
    // the best clique is still the triangle
    assert_eq!(ls.current_sol.len(), 3);
}

use graph_coloring::clique::clique_vec_to_vecvec;

#[test]
fn clique_as_two_classes() {
    let r = clique_vec_to_vecvec(&vec![4, 1], 6);
    assert_eq!(r, vec![vec![4, 1], vec![0, 2, 3, 5]]);
}

#[test]
fn clique_searches_accept_empty_graph() {
    let g = DimacsInstance::from_edges(0, &vec![]).unwrap();
    assert!(clique_conflict_weighting(&g, &vec![], 10).is_empty());
    let r = clique_partial_weighting(&g, &vec![], 10);
    assert_eq!(r, vec![Vec::<usize>::new(), Vec::new()]);
}
