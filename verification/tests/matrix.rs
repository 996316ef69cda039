use aco_vrp::matrix::Matrix;

#[test]
fn matrix_index() {
    let mut m = Matrix::filled_with(3, 2.5);
    assert_eq!(m.get(1, 2), 2.5);
    m.update(1, 2, |v| v + 1.0);
    assert_eq!(m.get(1, 2), 3.5);
    assert_eq!(m.size(), 3);
}

#[test]
fn matrix_update_touches_one_cell() {
    let mut m = Matrix::filled_with(3, 2.5);
    m.update(1, 2, |v| v + 1.0);
    for i in 0..3 {
        for j in 0..3 {
            let expected = if (i, j) == (1, 2) { 3.5 } else { 2.5 };
            assert_eq!(m.get(i, j), expected);
        }
    }
}

#[test]
fn matrix_new_is_zero_filled() {
    let m: Matrix<f64> = Matrix::new(4);
    assert_eq!(m.size(), 4);
    for i in 0..4 {
        assert_eq!(m.row(i), &[0.0, 0.0, 0.0, 0.0]);
    }
    let n: Matrix<u32> = Matrix::new(2);
    assert_eq!(n.get(1, 1), 0);
}

#[test]
fn matrix_without_cells() {
    let m: Matrix<u8> = Matrix::new(0);
    assert_eq!(m.size(), 0);
}

#[test]
fn matrix_set_and_row() {
    let mut m: Matrix<u64> = Matrix::new(3);
    m.set(0, 1, 7);
    m.set(2, 0, 9);
    m.set(2, 2, 11);
    assert_eq!(m.row(0), &[0, 7, 0]);
    assert_eq!(m.row(1), &[0, 0, 0]);
    assert_eq!(m.row(2), &[9, 0, 11]);
    assert_eq!(m.get(2, 0), 9);
    assert_eq!(m.get(0, 2), 0);
}

#[test]
fn matrix_of_distances() {
    let distance = |a: (u64, u64), b: (u64, u64)| {
        let (dx, dy) = (b.0 as f64 - a.0 as f64, b.1 as f64 - a.1 as f64);
        (dy.powi(2) + dx.powi(2)).sqrt()
    };
    let m = Matrix::adjacency(&[(0, 0), (3, 4), (3, 0)], distance);
    assert_eq!(m.size(), 3);
    assert_eq!(m.row(0), &[0.0, 5.0, 3.0]);
    assert_eq!(m.row(1), &[5.0, 0.0, 4.0]);
    assert_eq!(m.row(2), &[3.0, 4.0, 0.0]);
}

#[test]
fn matrix_of_distances_goes_row_by_row() {
    let lopsided = |a: (u64, u64), b: (u64, u64)| 100 * a.0 + 10 * a.1 + b.0;
    let m = Matrix::adjacency(&[(1, 2), (3, 4)], lopsided);
    assert_eq!(m.row(0), &[121, 123]);
    assert_eq!(m.row(1), &[341, 343]);
    let none: Matrix<u8> = Matrix::adjacency(&[], |_, _| 1);
    assert_eq!(none.size(), 0);
}
