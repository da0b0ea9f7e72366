use graph_coloring::color::{checker, CheckerResult, DimacsInstance};
use graph_coloring::coloring_partial_weighting::{
    coloring_partial_weighting, PartialWeightingLocalSearch,
};

fn singletons(n: usize) -> Vec<Vec<usize>> {
    (0..n).map(|v| vec![v]).collect()
}

fn petersen() -> DimacsInstance {
    let mut edges = Vec::new();
    for i in 0..5 {
        edges.push((i, (i + 1) % 5));
        edges.push((i, i + 5));
        edges.push((5 + i, 5 + (i + 2) % 5));
    }
    DimacsInstance::from_edges(10, &edges).unwrap()
}

#[test]
fn pwls_four_cycle_two_colors() {
    let g = DimacsInstance::from_edges(4, &vec![(0, 1), (1, 2), (2, 3), (3, 0)]).unwrap();
    let sol = coloring_partial_weighting(&g, &singletons(4), 2000);
    assert_eq!(sol.len(), 2);
    assert_eq!(checker(&g, &sol), CheckerResult::Feasible(2));
}

#[test]
fn pwls_petersen_three_colors() {
    let g = petersen();
    let sol = coloring_partial_weighting(&g, &singletons(10), 50000);
    assert_eq!(sol.len(), 3);
    assert_eq!(checker(&g, &sol), CheckerResult::Feasible(3));
}

#[test]
fn pwls_complete_graph_keeps_all_colors() {
    let mut edges = Vec::new();
    for i in 0..5 {
        for j in 0..i {
            edges.push((i, j));
        }
    }
    let g = DimacsInstance::from_edges(5, &edges).unwrap();
    let sol = coloring_partial_weighting(&g, &singletons(5), 2000);
    assert_eq!(sol.len(), 5);
}

#[test]
fn pwls_color_uncolors_conflicting_neighbors() {
    // path 0-1-2, colored 0 / 1 / 0
    let g = DimacsInstance::from_edges(3, &vec![(0, 1), (1, 2)]).unwrap();
    let mut ls = PartialWeightingLocalSearch::initialize(&g, &vec![vec![0, 2], vec![1]]);
    assert_eq!(ls.total_weight, 0);
    assert_eq!(ls.cost_coloring[1], vec![2, 0]);
    ls.uncolor_vertex(&g, 1);
    assert_eq!(ls.total_weight, 1);
    assert_eq!(ls.cost_coloring[0], vec![0, 0]);
    assert_eq!(ls.colors_vertex_number, vec![2, 0]);
    // coloring 1 with color 0 grows its weight, then uncolors 0 and 2
    ls.color_vertex(&g, 1, 0);
    assert_eq!(ls.weights, vec![1, 2, 1]);
    assert_eq!(ls.colors, vec![None, Some(0), None]);
    assert_eq!(ls.total_weight, 2);
    assert_eq!(ls.cost_coloring[0], vec![2, 0]);
    assert_eq!(ls.colors_vertex_number, vec![1, 0]);
}

#[test]
fn pwls_delete_color_takes_largest_class() {
    let g = DimacsInstance::from_edges(3, &vec![(0, 1), (1, 2)]).unwrap();
    let mut ls = PartialWeightingLocalSearch::initialize(&g, &vec![vec![0, 2], vec![1]]);
    assert_eq!(ls.delete_color(&g), Some(0));
    assert_eq!(ls.colors, vec![None, Some(1), None]);
    assert_eq!(ls.total_weight, 2);
    let mv = ls.find_best_move(&g).unwrap();
    assert_eq!(mv.color, 1);
}
