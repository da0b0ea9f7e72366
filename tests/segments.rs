use graph_coloring::cgshop::{are_intersecting, on_segment, orientation, segment_graph, Orientation};

#[test]
fn colinear_with_same_point() {
    let a = ((0, 0), (0, 1));
    let b = ((0, 0), (0, 5));
    assert!(are_intersecting(&a, &b));
}

#[test]
fn test_are_intersecting_1() {
    let a = ((1, 1), (10, 1));
    let b = ((1, 2), (10, 2));
    assert!(!are_intersecting(&a, &b));
}

#[test]
fn test_are_intersecting_2() {
    let a = ((10, 0), (0, 10));
    let b = ((0, 0), (10, 10));
    assert!(are_intersecting(&a, &b));
}

#[test]
fn test_are_intersecting_3() {
    let a = ((-5, -4), (0, 0));
    let b = ((1, 1), (10, 10));
    assert!(!are_intersecting(&a, &b));
}

#[test]
fn test_are_intersecting_4() {
    let a = ((0, 0), (0, 5));
    let b = ((0, 0), (5, 0));
    assert!(!are_intersecting(&a, &b));
}

#[test]
fn orientation_signs() {
    assert_eq!(orientation(&(0, 0), &(1, 1), &(2, 2)), Orientation::Collinear);
    assert_eq!(orientation(&(0, 0), &(0, 1), &(1, 1)), Orientation::Clockwise);
    assert_eq!(orientation(&(0, 0), &(1, 0), &(1, 1)), Orientation::CounterClockwise);
}

#[test]
fn on_segment_bounding_box() {
    assert!(on_segment(&(0, 0), &(1, 1), &(2, 2)));
    assert!(on_segment(&(2, 2), &(1, 1), &(0, 0)));
    assert!(!on_segment(&(0, 0), &(3, 1), &(2, 2)));
}

#[test]
fn large_coordinates_stay_exact() {
    let m = 1_000_000_000i64;
    let a = ((-m, -m), (m, m));
    let b = ((-m, m), (m, -m));
    assert!(are_intersecting(&a, &b));
    let c = ((-m, -m), (m, m - 1));
    let d = ((-m, -m + 2), (m, m + 1 - 2));
    assert!(!are_intersecting(&c, &d));
}

#[test]
fn collinear_overlap_without_shared_end() {
    let a = ((0, 0), (4, 0));
    let b = ((2, 0), (6, 0));
    assert!(are_intersecting(&a, &b));
}

#[test]
fn segment_graph_edges() {
    // a cross, a parallel segment, and a segment touching the first at an end
    let segs = vec![
        ((10, 0), (0, 10)),
        ((0, 0), (10, 10)),
        ((20, 0), (20, 5)),
        ((10, 0), (15, -3)),
    ];
    let g = segment_graph(&segs);
    assert_eq!(g.nb_vertices(), 4);
    assert!(g.are_adjacent(0, 1));
    assert!(g.are_adjacent(1, 0));
    assert!(!g.are_adjacent(0, 2));
    assert!(!g.are_adjacent(0, 3));
    assert_eq!(g.degree(0), 1);
    assert_eq!(g.degree(2), 0);
}

#[test]
fn collinear_touching_at_shared_end_only() {
    let a = ((0, 0), (0, 1));
    let b = ((0, 0), (0, -5));
    assert!(!are_intersecting(&a, &b));
    assert!(!are_intersecting(&b, &a));
    let c = ((0, 0), (3, 3));
    let d = ((3, 3), (5, 5));
    assert!(!are_intersecting(&c, &d));
}

#[test]
fn collinear_overlap_with_shared_end() {
    let a = ((0, 0), (0, 5));
    let b = ((0, 0), (0, 1));
    assert!(are_intersecting(&a, &b));
    let c = ((0, 5), (0, 0));
    let d = ((0, 1), (0, 0));
    assert!(are_intersecting(&c, &d));
}
