use graph_coloring::color::{checker, CheckerResult, DimacsInstance};
use graph_coloring::coloring_conflict_weighting::{
    coloring_conflict_weighting, ConflictWeightingLocalSearch,
};
use graph_coloring::tabu::{Decision, TabuColTenure};

fn singletons(n: usize) -> Vec<Vec<usize>> {
    (0..n).map(|v| vec![v]).collect()
}

fn complete(n: usize) -> DimacsInstance {
    let mut edges = Vec::new();
    for i in 0..n {
        for j in 0..i {
            edges.push((i, j));
        }
    }
    DimacsInstance::from_edges(n, &edges).unwrap()
}

fn petersen() -> DimacsInstance {
    let mut edges = Vec::new();
    for i in 0..5 {
        edges.push((i, (i + 1) % 5));
        edges.push((i, i + 5));
        edges.push((5 + i, 5 + (i + 2) % 5));
    }
    DimacsInstance::from_edges(10, &edges).unwrap()
}

#[test]
fn four_cycle_needs_two_colors() {
    let g = DimacsInstance::from_edges(4, &vec![(0, 1), (1, 2), (2, 3), (3, 0)]).unwrap();
    let sol = coloring_conflict_weighting(&g, &singletons(4), 1000);
    assert_eq!(sol.len(), 2);
    assert_eq!(checker(&g, &sol), CheckerResult::Feasible(2));
}

#[test]
fn complete_graph_keeps_five_colors() {
    let g = complete(5);
    let sol = coloring_conflict_weighting(&g, &singletons(5), 2000);
    assert_eq!(sol.len(), 5);
    assert_eq!(checker(&g, &sol), CheckerResult::Feasible(5));
}

#[test]
fn petersen_graph_reaches_three_colors() {
    let g = petersen();
    let sol = coloring_conflict_weighting(&g, &singletons(10), 50000);
    assert_eq!(sol.len(), 3);
    assert_eq!(checker(&g, &sol), CheckerResult::Feasible(3));
}

#[test]
fn initial_state_has_no_conflict() {
    let g = petersen();
    let ls = ConflictWeightingLocalSearch::initialize(&g, &singletons(10));
    assert!(ls.is_goal());
    assert_eq!(ls.nb_conflicting_edges, 0);
    assert_eq!(ls.colors_vertex_number, vec![1; 10]);
    // vertex 0 has neighbors 1, 4 and 5, each alone in its class
    assert_eq!(ls.weights_neigh_colors[0][1], 1);
    assert_eq!(ls.weights_neigh_colors[0][4], 1);
    assert_eq!(ls.weights_neigh_colors[0][5], 1);
    assert_eq!(ls.weights_neigh_colors[0][2], 0);
}

#[test]
fn recolor_creates_conflict_and_grows_weight() {
    let g = DimacsInstance::from_edges(3, &vec![(0, 1), (1, 2)]).unwrap();
    let mut ls = ConflictWeightingLocalSearch::initialize(&g, &singletons(3));
    ls.change_vertex_color(&g, 0, 1);
    // edge 0-1 conflicts: its weight grows from 1 to 2
    assert_eq!(ls.nb_conflicting_edges, 1);
    assert_eq!(ls.vertex_nb_conflicts, vec![1, 1, 0]);
    assert_eq!(ls.weights[1][0], 2);
    assert_eq!(ls.total_weight, 2);
    assert_eq!(ls.weights_neigh_colors[1][1], 2);
    assert_eq!(ls.weights_neigh_colors[0][1], 2);
    assert_eq!(ls.colors_vertex_number, vec![0, 2, 1]);
    assert!(!ls.is_goal());
    // moving 0 back removes the conflict, the weight stays
    ls.change_vertex_color(&g, 0, 0);
    assert_eq!(ls.nb_conflicting_edges, 0);
    assert_eq!(ls.total_weight, 0);
    assert_eq!(ls.weights[1][0], 2);
    assert!(ls.is_goal());
}

#[test]
fn merge_removes_one_class_per_round() {
    // a path 0-1-2: merging never needs more than two colors
    let g = DimacsInstance::from_edges(3, &vec![(0, 1), (1, 2)]).unwrap();
    let mut ls = ConflictWeightingLocalSearch::initialize(&g, &singletons(3));
    ls.merge_colors(&g);
    let sol = ls.get_solution(&g);
    assert!(sol.len() <= 3);
    assert_eq!(sol.len(), ls.best_so_far_colors);
    assert!(matches!(checker(&g, &sol), CheckerResult::Feasible(_)));
    // 0 and 2 share a class in the best coloring
    assert_eq!(sol.len(), 2);
}

#[test]
fn best_move_is_least_weight() {
    let g = DimacsInstance::from_edges(3, &vec![(0, 1), (1, 2)]).unwrap();
    let mut ls = ConflictWeightingLocalSearch::initialize(&g, &singletons(3));
    ls.change_vertex_color(&g, 0, 1);
    let node = ls.find_best_move(&g).unwrap();
    assert_eq!(node.total_penalties, 0);
    assert!(node.vertex == 0 || node.vertex == 1);
}

#[test]
fn tabu_tenure_marks_recent_moves() {
    let mut t = TabuColTenure::new(1, 0, 1, 2, 2);
    assert!(!t.contains(&Decision { v: 0, c: 1 }));
    t.insert(&Decision { v: 0, c: 1 }, 0);
    // with l = 1 and lambda = 0 the threshold is 0: the move is tabu only now
    assert_eq!(t.threshold, 0);
    assert!(t.contains(&Decision { v: 0, c: 1 }));
    assert!(!t.contains(&Decision { v: 0, c: 0 }));
    t.increment_iter();
    assert!(!t.contains(&Decision { v: 0, c: 1 }));
}

#[test]
fn tabu_threshold_grows_with_infeasibility() {
    let mut t = TabuColTenure::new(10, 3, 5, 2, 2);
    t.insert(&Decision { v: 1, c: 0 }, 100);
    assert!(t.threshold >= 60 && t.threshold < 70);
    for _ in 0..59 {
        t.increment_iter();
    }
    assert!(t.contains(&Decision { v: 1, c: 0 }));
}

use graph_coloring::greedy_rlf::greedy_rlf;

#[test]
fn rlf_colors_cycle_with_two_colors() {
    let g = DimacsInstance::from_edges(4, &vec![(0, 1), (1, 2), (2, 3), (3, 0)]).unwrap();
    let sol = greedy_rlf(&g);
    assert_eq!(checker(&g, &sol), CheckerResult::Feasible(2));
}

#[test]
fn rlf_complete_graph_and_petersen() {
    let k5 = complete(5);
    assert_eq!(checker(&k5, &greedy_rlf(&k5)), CheckerResult::Feasible(5));
    let p = petersen();
    let sol = greedy_rlf(&p);
    assert!(matches!(checker(&p, &sol), CheckerResult::Feasible(k) if k >= 3 && k <= 4));
}

#[test]
fn rlf_seed_then_local_search() {
    let p = petersen();
    let seed = greedy_rlf(&p);
    let sol = coloring_conflict_weighting(&p, &seed, 20000);
    assert_eq!(checker(&p, &sol), CheckerResult::Feasible(3));
}

use graph_coloring::greedy_dsatur::greedy_dsatur;

#[test]
fn dsatur_colors_cycle_and_complete_graph() {
    let g = DimacsInstance::from_edges(4, &vec![(0, 1), (1, 2), (2, 3), (3, 0)]).unwrap();
    assert_eq!(checker(&g, &greedy_dsatur(&g)), CheckerResult::Feasible(2));
    let k5 = complete(5);
    assert_eq!(checker(&k5, &greedy_dsatur(&k5)), CheckerResult::Feasible(5));
}

#[test]
fn dsatur_petersen_is_proper() {
    let p = petersen();
    let sol = greedy_dsatur(&p);
    assert!(matches!(checker(&p, &sol), CheckerResult::Feasible(k) if k >= 3 && k <= 4));
}

#[test]
fn dsatur_odd_cycle_needs_three() {
    let g = DimacsInstance::from_edges(5, &vec![(0, 1), (1, 2), (2, 3), (3, 4), (4, 0)]).unwrap();
    assert_eq!(checker(&g, &greedy_dsatur(&g)), CheckerResult::Feasible(3));
}

#[test]
fn coloring_searches_accept_empty_graph() {
    let g = DimacsInstance::from_edges(0, &vec![]).unwrap();
    assert!(coloring_conflict_weighting(&g, &vec![], 10).is_empty());
    assert!(graph_coloring::coloring_partial_weighting::coloring_partial_weighting(&g, &vec![], 10).is_empty());
}

use graph_coloring::greedy_dsatur::DSATURSpace;

#[test]
fn dsatur_space_ranks_by_degree() {
    // star centred on 2, plus the edge 0-1
    let g = DimacsInstance::from_edges(5, &vec![(2, 0), (2, 1), (2, 3), (2, 4), (0, 1)]).unwrap();
    let sp = DSATURSpace::new(&g);
    assert_eq!(sp.ranked_vertices, vec![2, 0, 1, 3, 4]);
    assert_eq!(sp.vertex_ranks, vec![1, 2, 0, 3, 4]);
}
