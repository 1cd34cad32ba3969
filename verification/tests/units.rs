use graph_lib::adj_matrix::AdjacencyMatrix;
use graph_lib::point::Point;

#[test]
fn point_accessors() {
    let p = Point::new(-7, 42);
    assert_eq!(p.row(), -7);
    assert_eq!(p.col(), 42);
    assert_eq!(p, Point::new(-7, 42));
}

#[test]
fn point_distance_exact_squares() {
    let a = Point::new(0, 0);
    assert_eq!(a.dist(&Point::new(3, 4)), 5);
    assert_eq!(a.dist(&Point::new(0, 3)), 3);
    assert_eq!(a.dist(&Point::new(4, 0)), 4);
    assert_eq!(a.dist(&a), 0);
    assert_eq!(Point::new(0, 3).dist(&Point::new(4, 3)), 4);
}

#[test]
fn point_distance_rounds_down() {
    let a = Point::new(0, 0);
    // sqrt(2) = 1.41..
    assert_eq!(a.dist(&Point::new(1, 1)), 1);
    // sqrt(8) = 2.82..
    assert_eq!(a.dist(&Point::new(2, 2)), 2);
    // sqrt(5000) = 70.71..
    assert_eq!(a.dist(&Point::new(50, 50)), 70);
}

#[test]
fn point_distance_is_symmetric_with_negatives() {
    let a = Point::new(-3, 0);
    let b = Point::new(0, 4);
    assert_eq!(a.dist(&b), 5);
    assert_eq!(b.dist(&a), 5);
    // the extreme corners of the coordinate space still work
    let far = Point::new(i32::MIN, i32::MIN);
    let near = Point::new(i32::MAX, i32::MAX);
    assert_eq!(far.dist(&far), 0);
    assert_eq!(near.dist(&near), 0);
    assert!(far.dist(&near) > 6_000_000_000);
}

#[test]
fn adjacency_matrix_set_and_clear() {
    let mut m = AdjacencyMatrix::new(3, 2);
    assert_eq!(m.get_adjacency(0), &vec![false, false, false]);
    assert_eq!(m.get_adjacency(1), &vec![false, false, false]);
    m.set_adjacency(1, 2);
    m.set_adjacency(0, 0);
    assert_eq!(m.get_adjacency(0), &vec![true, false, false]);
    assert_eq!(m.get_adjacency(1), &vec![false, false, true]);
    m.clear_adjacency(0, 0);
    assert_eq!(m.get_adjacency(0), &vec![false, false, false]);
    assert_eq!(m.get_adjacency(1), &vec![false, false, true]);
}
