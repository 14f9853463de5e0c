use raytracer::matrix::Matrix;

#[test]
fn matrix_new_initializes_members() {
    let m = Matrix::new(4, 4, 0.0f64);

    assert_eq!(m.height(), 4);
    assert_eq!(m.width(), 4);
    assert_eq!(m.values().len(), 16);
    assert!(m.values().iter().all(|v| *v == 0.0));
}

#[test]
fn index_4x4_matrix_reads_values() {
    let m = Matrix::from_values(4, 4, vec![
        1.0, 2.0, 3.0, 4.0,
        5.5, 6.5, 7.5, 8.5,
        9.0, 10.0, 11.0, 12.0,
        13.5, 14.5, 15.5, 16.5,
    ]);

    assert_eq!(m.get(0, 0), 1.0);
    assert_eq!(m.get(0, 3), 4.0);
    assert_eq!(m.get(1, 0), 5.5);
    assert_eq!(m.get(1, 2), 7.5);
    assert_eq!(m.get(2, 2), 11.0);
    assert_eq!(m.get(3, 0), 13.5);
    assert_eq!(m.get(3, 2), 15.5);
}

#[test]
fn index_mut_2x2_matrix_assigns_values() {
    let mut m = Matrix::new(2, 2, 0.0f64);

    m.set(0, 0, -3.0);
    m.set(0, 1, 5.0);
    m.set(1, 0, 1.0);
    m.set(1, 1, -2.0);

    assert_eq!(m.get(0, 0), -3.0);
    assert_eq!(m.get(0, 1), 5.0);
    assert_eq!(m.get(1, 0), 1.0);
    assert_eq!(m.get(1, 1), -2.0);
}

#[test]
fn index_3x3_matrix_reads_values() {
    let m = Matrix::from_values(3, 3, vec![
        -3.0, 5.0, 0.0,
        1.0, -2.0, -7.0,
        0.0, 1.0, 1.0,
    ]);

    assert_eq!(m.get(0, 0), -3.0);
    assert_eq!(m.get(1, 1), -2.0);
    assert_eq!(m.get(2, 2), 1.0);
}

#[test]
fn identity_creates_identity_matrix() {
    let m = Matrix::identity(4, 4, 0.0f64, 1.0f64);

    assert_eq!(m, Matrix::from_values(4, 4, vec![
        1.0, 0.0, 0.0, 0.0,
        0.0, 1.0, 0.0, 0.0,
        0.0, 0.0, 1.0, 0.0,
        0.0, 0.0, 0.0, 1.0,
    ]));
}

#[test]
fn identity_of_non_square_shape() {
    let m = Matrix::identity(2, 3, 0i32, 1i32);

    assert_eq!(m, Matrix::from_values(2, 3, vec![
        1, 0, 0,
        0, 1, 0,
    ]));
}

#[test]
fn transpose_transposes_matrix() {
    let a = Matrix::from_values(4, 4, vec![
        0.0, 9.0, 3.0, 0.0,
        9.0, 8.0, 0.0, 8.0,
        1.0, 8.0, 5.0, 3.0,
        0.0, 0.0, 5.0, 8.0,
    ]);

    let b = a.transpose();

    assert_eq!(b, Matrix::from_values(4, 4, vec![
        0.0, 9.0, 1.0, 0.0,
        9.0, 8.0, 8.0, 0.0,
        3.0, 0.0, 5.0, 5.0,
        0.0, 8.0, 3.0, 8.0,
    ]));
}

#[test]
fn transpose_identity_matrix_is_identity_matrix() {
    let a = Matrix::identity(4, 4, 0.0f64, 1.0f64);

    let b = a.transpose();

    assert_eq!(b, Matrix::identity(4, 4, 0.0f64, 1.0f64));
}

#[test]
fn transpose_swaps_shape() {
    let a = Matrix::from_values(2, 3, vec![
        1, 2, 3,
        4, 5, 6,
    ]);

    let b = a.transpose();

    assert_eq!(b.height(), 3);
    assert_eq!(b.width(), 2);
    assert_eq!(b, Matrix::from_values(3, 2, vec![
        1, 4,
        2, 5,
        3, 6,
    ]));
    assert_eq!(b.transpose(), a);
}

#[test]
fn submatrix_3x3_matrix_extracts_2x2_matrix() {
    let a = Matrix::from_values(3, 3, vec![
        1.0, 5.0, 0.0,
        -3.0, 2.0, 7.0,
        0.0, 6.0, -3.0,
    ]);

    let b = a.submatrix(0, 2);

    assert_eq!(b, Matrix::from_values(2, 2, vec![
        -3.0, 2.0,
        0.0, 6.0,
    ]));
}

#[test]
fn submatrix_4x4_matrix_extracts_3x3_matrix() {
    let a = Matrix::from_values(4, 4, vec![
        -6.0, 1.0, 1.0, 6.0,
        -8.0, 5.0, 8.0, 6.0,
        -1.0, 0.0, 8.0, 2.0,
        -7.0, 1.0, -1.0, 1.0,
    ]);

    let b = a.submatrix(2, 1);

    assert_eq!(b, Matrix::from_values(3, 3, vec![
        -6.0, 1.0, 6.0,
        -8.0, 8.0, 6.0,
        -7.0, -1.0, 1.0,
    ]));
}

#[test]
fn submatrix_of_1x1_matrix_is_empty() {
    let a = Matrix::from_values(1, 1, vec![9u8]);

    let b = a.submatrix(0, 0);

    assert_eq!(b.height(), 0);
    assert_eq!(b.width(), 0);
    assert!(b.values().is_empty());
}

#[test]
fn submatrix_drops_last_row_and_first_column() {
    let a = Matrix::from_values(3, 2, vec![
        1, 2,
        3, 4,
        5, 6,
    ]);

    let b = a.submatrix(2, 0);

    assert_eq!(b, Matrix::from_values(2, 1, vec![2, 4]));
}
