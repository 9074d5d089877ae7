use ray_tracer_challenge::matrix::Matrix;

fn eq_f64(a: f64, b: f64) -> bool {
    (a - b).abs() < 0.00001
}

/// Build a matrix from its rows, as scenes write them down.
fn matrix_from(rows: Vec<Vec<f64>>) -> Matrix<f64> {
    let height = rows.len();
    let width = rows[0].len();
    let mut m = Matrix::new(width, height, 0.0);
    for (y, row) in rows.into_iter().enumerate() {
        assert_eq!(width, row.len());
        for (x, v) in row.into_iter().enumerate() {
            m.set(y, x, v);
        }
    }
    m
}

fn assert_same(expected: &Matrix<f64>, got: &Matrix<f64>) {
    assert_eq!(expected.width(), got.width());
    assert_eq!(expected.height(), got.height());
    for y in 0..expected.height() {
        for x in 0..expected.width() {
            assert!(
                eq_f64(expected.get(y, x), got.get(y, x)),
                "differ at ({}, {})",
                y,
                x
            );
        }
    }
}

#[test]
fn constructing_and_inspecting_a_4x4_matrix() {
    let inner = vec![
        vec![1.0, 2.0, 3.0, 4.0],
        vec![5.5, 6.5, 7.5, 8.5],
        vec![9.0, 10.0, 11.0, 12.0],
        vec![13.5, 14.5, 15.5, 16.5],
    ];
    let m = matrix_from(inner);

    assert!(eq_f64(1.0, m.get(0, 0)));
    assert!(eq_f64(4.0, m.get(0, 3)));
    assert!(eq_f64(5.5, m.get(1, 0)));
    assert!(eq_f64(7.5, m.get(1, 2)));
    assert!(eq_f64(11.0, m.get(2, 2)));
    assert!(eq_f64(13.5, m.get(3, 0)));
    assert!(eq_f64(15.5, m.get(3, 2)));
}

#[test]
fn constructing_and_inspecting_a_2x2_matrix() {
    let inner = vec![vec![-3.0, 5.0], vec![1.0, -2.0]];
    let m = matrix_from(inner);

    assert!(eq_f64(-3.0, m.get(0, 0)));
    assert!(eq_f64(5.0, m.get(0, 1)));
    assert!(eq_f64(1.0, m.get(1, 0)));
    assert!(eq_f64(-2.0, m.get(1, 1)));
}

#[test]
fn constructing_and_inspecting_a_3x3_matrix() {
    let inner = vec![
        vec![-3.0, 5.0, 0.0],
        vec![1.0, -2.0, -7.0],
        vec![0.0, 11.0, 1.0],
    ];
    let m = matrix_from(inner);

    assert!(eq_f64(-3.0, m.get(0, 0)));
    assert!(eq_f64(-2.0, m.get(1, 1)));
    assert!(eq_f64(1.0, m.get(2, 2)));
}

#[test]
fn row_returns_slice_of_values_of_nth_row() {
    let a = matrix_from(vec![
        vec![1.0, 2.0, 3.0, 4.0],
        vec![5.0, 6.0, 7.0, 8.0],
        vec![9.0, 8.0, 7.0, 6.0],
        vec![5.0, 4.0, 3.0, 2.0],
    ]);

    assert_eq!(vec![1.0, 2.0, 3.0, 4.0], a.row(0));
    assert_eq!(vec![5.0, 6.0, 7.0, 8.0], a.row(1));
    assert_eq!(vec![9.0, 8.0, 7.0, 6.0], a.row(2));
    assert_eq!(vec![5.0, 4.0, 3.0, 2.0], a.row(3));
}

#[test]
fn column_returns_slice_of_values_of_nth_column() {
    let a = matrix_from(vec![
        vec![1.0, 2.0, 3.0, 4.0],
        vec![5.0, 6.0, 7.0, 8.0],
        vec![9.0, 8.0, 7.0, 6.0],
        vec![5.0, 4.0, 3.0, 2.0],
    ]);

    assert_eq!(vec![1.0, 5.0, 9.0, 5.0], a.column(0));
    assert_eq!(vec![2.0, 6.0, 8.0, 4.0], a.column(1));
    assert_eq!(vec![3.0, 7.0, 7.0, 3.0], a.column(2));
    assert_eq!(vec![4.0, 8.0, 6.0, 2.0], a.column(3));
}

#[test]
fn transposing_a_matrix() {
    let a = matrix_from(vec![
        vec![0.0, 9.0, 3.0, 0.0],
        vec![9.0, 8.0, 0.0, 8.0],
        vec![1.0, 8.0, 5.0, 3.0],
        vec![0.0, 0.0, 5.0, 8.0],
    ]);
    let expected = matrix_from(vec![
        vec![0.0, 9.0, 1.0, 0.0],
        vec![9.0, 8.0, 8.0, 0.0],
        vec![3.0, 0.0, 5.0, 5.0],
        vec![0.0, 8.0, 3.0, 8.0],
    ]);

    assert_same(&expected, &a.transpose());
}

#[test]
fn transposing_twice_returns_the_original() {
    let a = matrix_from(vec![
        vec![0.0, 9.0, 3.0, 0.0],
        vec![9.0, 8.0, 0.0, 8.0],
        vec![1.0, 8.0, 5.0, 3.0],
    ]);
    assert_same(&a, &a.transpose().transpose());
}

#[test]
fn a_submatrix_of_a_3x3_matrix_is_a_2x2_matrix() {
    let a = matrix_from(vec![
        vec![1.0, 5.0, 0.0],
        vec![-3.0, 2.0, 7.0],
        vec![0.0, 6.0, -3.0],
    ]);
    let expected = matrix_from(vec![vec![-3.0, 2.0], vec![0.0, 6.0]]);

    assert_same(&expected, &a.sub_matrix(0, 2));
}

#[test]
fn a_submatrix_of_a_4x4_matrix_is_a_3x3_matrix() {
    let a = matrix_from(vec![
        vec![-6.0, 1.0, 1.0, 6.0],
        vec![-8.0, 5.0, 8.0, 6.0],
        vec![-1.0, 0.0, 8.0, 2.0],
        vec![-7.0, 1.0, -1.0, 1.0],
    ]);
    let expected = matrix_from(vec![
        vec![-6.0, 1.0, 6.0],
        vec![-8.0, 8.0, 6.0],
        vec![-7.0, -1.0, 1.0],
    ]);

    assert_same(&expected, &a.sub_matrix(2, 1));
}

#[test]
fn the_identity_matrix_is_one_on_the_diagonal() {
    let m: Matrix<f64> = Matrix::identity(4, 0.0, 1.0);
    assert_eq!(4, m.width());
    assert_eq!(4, m.height());
    for y in 0..4 {
        for x in 0..4 {
            let expected: f64 = if y == x { 1.0 } else { 0.0 };
            assert!(eq_f64(expected, m.get(y, x)));
        }
    }
}
