use graph_coloring::cgshop::CGSHOPSolution;

#[test]
fn solution_round_trip_keeps_colors() {
    let s = CGSHOPSolution::new("tiny".to_string(), 3, vec![2, 0, 1, 0, 2]);
    assert_eq!(s.sol_type, "Solution_CGSHOP2022");
    let p = s.to_solution();
    assert_eq!(p, vec![vec![1, 3], vec![2], vec![0, 4]]);
    let back = CGSHOPSolution::from_solution("tiny".to_string(), &p);
    assert_eq!(back.colors, s.colors);
    assert_eq!(back.num_colors, 3);
    assert_eq!(back.instance, "tiny");
}

#[test]
fn from_solution_reads_class_indices() {
    let s = CGSHOPSolution::from_solution("x".to_string(), &vec![vec![2], vec![0, 1]]);
    assert_eq!(s.colors, vec![1, 1, 0]);
    assert_eq!(s.num_colors, 2);
}

#[test]
fn degree_cache_round_trip() {
    let d: Vec<usize> = vec![0, 3, 17, 2, 40000];
    let text = serde_json::to_string(&d).unwrap();
    assert_eq!(text, "[0,3,17,2,40000]");
    let back: Vec<usize> = serde_json::from_str(&text).unwrap();
    assert_eq!(back, d);
}
