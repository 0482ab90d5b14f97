use spectral_clustering::matrix::{accumulate_edges, select_columns, split_rows, square_side, Matrix};

#[test]
fn new_at_and_set() {
    let mut m = Matrix::new(2, 3, vec![1, 2, 3, 4, 5, 6]);
    assert_eq!(m.rows, 2);
    assert_eq!(m.cols, 3);
    assert_eq!(m.at(1, 2), 6);
    assert_eq!(m.at(0, 1), 2);
    m.set(1, 0, 40);
    assert_eq!(m.at(1, 0), 40);
    assert_eq!(m.data, vec![1, 2, 3, 40, 5, 6]);
}

#[test]
fn symmetrize_averages_mirrored_pairs() {
    let mut m = Matrix::new(3, 3, vec![1.0, 2.0, 3.0, 4.0, 5.0, 6.0, 7.0, 8.0, 9.0]);
    m.symmetrize(|a: f64, b: f64| (a + b) / 2.0);
    assert_eq!(m.data, vec![1.0, 3.0, 5.0, 3.0, 5.0, 7.0, 5.0, 7.0, 9.0]);
    assert!(m.is_symmetric(|a: f64, b: f64| !((a - b).abs() > 1e-10)));
}

#[test]
fn symmetrize_keeps_rows_beyond_the_columns() {
    let mut m = Matrix::new(3, 2, vec![1, 2, 3, 4, 5, 6]);
    m.symmetrize(|a: i32, b: i32| a + b);
    // pair (0, 1) <-> (1, 0): 2 + 3; row 2 untouched
    assert_eq!(m.data, vec![1, 5, 5, 4, 5, 6]);
}

#[test]
fn is_symmetric_detects_a_mismatch() {
    let m = Matrix::new(2, 2, vec![0.0, 1.0, 1.5, 0.0]);
    assert!(!m.is_symmetric(|a: f64, b: f64| !((a - b).abs() > 1e-10)));
    let close = Matrix::new(2, 2, vec![0.0, 1.0, 1.0 + 1e-12, 0.0]);
    assert!(close.is_symmetric(|a: f64, b: f64| !((a - b).abs() > 1e-10)));
}

#[test]
fn mirror_average_covers_every_entry() {
    let m = Matrix::new(2, 2, vec![1.0, 2.0, 4.0, 3.0]);
    let s = m.mirror_average(|a: f64, b: f64| (a + b) / 2.0);
    assert_eq!(s.data, vec![1.0, 3.0, 3.0, 3.0]);
    assert_eq!((s.rows, s.cols), (2, 2));
    // the averaging function sees (entry, mirror) in that order
    let d = m.mirror_average(|a: f64, b: f64| a - b);
    assert_eq!(d.data, vec![0.0, -2.0, 2.0, 0.0]);
}

#[test]
fn square_side_of_perfect_squares() {
    assert_eq!(square_side(0), Some(0));
    assert_eq!(square_side(1), Some(1));
    assert_eq!(square_side(16), Some(4));
    assert_eq!(square_side(400), Some(20));
    assert_eq!(square_side(1_000_000_000_000), Some(1_000_000));
}

#[test]
fn square_side_rejects_non_squares() {
    assert_eq!(square_side(2), None);
    assert_eq!(square_side(15), None);
    assert_eq!(square_side(17), None);
    assert_eq!(square_side(99), None);
    assert_eq!(square_side(4_000_000_000), None);
}

#[test]
fn split_rows_reshapes() {
    let flat = vec![1, 2, 3, 4, 5, 6, 7];
    let rows = split_rows(&flat, 3, 2);
    assert_eq!(rows, vec![vec![1, 2], vec![3, 4], vec![5, 6]]);
    let none = split_rows(&flat, 0, 5);
    assert!(none.is_empty());
}

#[test]
fn select_columns_reorders() {
    // 3 x 3, pick columns 2 then 0
    let v = vec![1, 2, 3, 4, 5, 6, 7, 8, 9];
    let out = select_columns(&v, 3, &vec![2, 0, 1], 2);
    assert_eq!(out, vec![3, 1, 6, 4, 9, 7]);
}

#[test]
fn accumulate_edges_adds_both_directions() {
    let edges = [(0, 1, 1.0), (1, 2, 2.0), (0, 1, 0.5), (2, 2, 3.0)];
    let adj = accumulate_edges(3, 0.0, &edges, |a: f64, w: f64| a + w);
    assert_eq!(adj, vec![0.0, 1.5, 0.0, 1.5, 0.0, 2.0, 0.0, 2.0, 6.0]);
}

#[test]
fn accumulate_edges_folds_in_order() {
    // a non-commutative fold shows the order of contributions
    let edges = [(0, 1, 1), (1, 0, 2)];
    let adj = accumulate_edges(2, 0, &edges, |a: i64, w: i64| a * 10 + w);
    assert_eq!(adj, vec![0, 12, 12, 0]);
}

#[test]
fn is_symmetric_stops_before_a_missing_mirror() {
    // 2 x 3: entry (0, 1) = 1 differs from its mirror slot 3 = 5, so the check
    // answers false before it would reach the mirror of (0, 2)
    let m = Matrix::new(2, 3, vec![0u64, 1, 2, 5, 4, 6]);
    assert!(!m.is_symmetric(|a: u64, b: u64| a == b));
}
