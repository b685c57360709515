use ray_tracer::matrix::{cofactor_changes_sign, Matrix};

fn rows_of(m: &Matrix<f64>) -> Vec<Vec<f64>> {
    let mut rows = vec![];
    for i in 0..m.size() {
        let mut row = vec![];
        for j in 0..m.size() {
            row.push(m.get(i, j));
        }
        rows.push(row);
    }
    rows
}

fn product(a: &Matrix<f64>, b: &Matrix<f64>) -> Matrix<f64> {
    assert_eq!(a.size(), b.size());
    let mut res = Matrix::new(a.size(), 0.0);
    for row in 0..a.size() {
        for col in 0..a.size() {
            let mut sum = 0.0;
            for i in 0..a.size() {
                sum += a.get(row, i) * b.get(i, col);
            }
            res.set(row, col, sum);
        }
    }
    res
}

#[test]
fn matrix_identity() {
    let i = Matrix::identity(4, 0.0, 1.0);
    let a = Matrix::from_rows(&vec![
        vec![1.0, 2.0, 3.0, 4.0],
        vec![2.0, 4.0, 4.0, 2.0],
        vec![8.0, 6.0, 4.0, 1.0],
        vec![0.0, 0.0, 0.0, 1.0],
    ])
    .unwrap();

    let b = product(&a, &i);
    assert!(rows_of(&a) == rows_of(&b));
}

#[test]
fn matrix_transpose() {
    let mut a = Matrix::from_rows(&vec![
        vec![0.0, 9.0, 3.0, 0.0],
        vec![9.0, 8.0, 0.0, 8.0],
        vec![1.0, 8.0, 5.0, 3.0],
        vec![0.0, 0.0, 5.0, 8.0],
    ])
    .unwrap();

    let res = vec![
        vec![0.0, 9.0, 1.0, 0.0],
        vec![9.0, 8.0, 8.0, 0.0],
        vec![3.0, 0.0, 5.0, 5.0],
        vec![0.0, 8.0, 3.0, 8.0],
    ];

    a.transpose();
    assert!(rows_of(&a) == res);
}

#[test]
fn matrix_submatrix_3x3() {
    let a = Matrix::from_rows(&vec![
        vec![1.0, 5.0, 0.0],
        vec![-3.0, 2.0, 7.0],
        vec![0.0, 6.0, -3.0],
    ])
    .unwrap();

    let res = vec![vec![-3.0, 2.0], vec![0.0, 6.0]];

    let s_a = a.sub_matrix(0, 2);
    assert!(rows_of(&s_a) == res);
}

#[test]
fn matrix_submatrix_4x4() {
    let a = Matrix::from_rows(&vec![
        vec![-6.0, 1.0, 1.0, 6.0],
        vec![-8.0, 5.0, 8.0, 6.0],
        vec![-1.0, 0.0, 8.0, 2.0],
        vec![-7.0, 1.0, -1.0, 1.0],
    ])
    .unwrap();

    let res = vec![
        vec![-6.0, 1.0, 6.0],
        vec![-8.0, 8.0, 6.0],
        vec![-7.0, -1.0, 1.0],
    ];

    let s_a = a.sub_matrix(2, 1);
    assert!(rows_of(&s_a) == res);
}

#[test]
fn identity_has_ones_on_the_diagonal() {
    for size in 0..6 {
        let m = Matrix::identity(size, 'o', 'I');
        assert_eq!(m.size(), size);
        for i in 0..size {
            for j in 0..size {
                assert_eq!(m.get(i, j), if i == j { 'I' } else { 'o' });
            }
        }
    }
}

#[test]
fn new_matrix_shows_the_fill() {
    let m = Matrix::new(3, 7u8);
    assert_eq!(m.size(), 3);
    assert_eq!(rows_of_bytes(&m), vec![vec![7, 7, 7], vec![7, 7, 7], vec![7, 7, 7]]);
    let m = Matrix::new(0, 7u8);
    assert_eq!(m.size(), 0);
}

fn rows_of_bytes(m: &Matrix<u8>) -> Vec<Vec<u8>> {
    let mut rows = vec![];
    for i in 0..m.size() {
        let mut row = vec![];
        for j in 0..m.size() {
            row.push(m.get(i, j));
        }
        rows.push(row);
    }
    rows
}

#[test]
fn setting_an_entry_changes_that_entry_only() {
    let mut m = Matrix::new(3, 0u8);
    m.set(1, 2, 9);
    assert_eq!(rows_of_bytes(&m), vec![vec![0, 0, 0], vec![0, 0, 9], vec![0, 0, 0]]);
    m.set(2, 1, 4);
    assert_eq!(rows_of_bytes(&m), vec![vec![0, 0, 0], vec![0, 0, 9], vec![0, 4, 0]]);
}

#[test]
fn rows_must_make_a_square() {
    assert!(Matrix::from_rows(&vec![vec![1u8, 2], vec![3]]).is_none());
    assert!(Matrix::from_rows(&vec![vec![1u8, 2, 3], vec![4, 5, 6]]).is_none());
    assert!(Matrix::from_rows(&vec![vec![1u8], vec![2]]).is_none());
    assert!(Matrix::from_rows(&vec![Vec::<u8>::new()]).is_none());
    let empty: Vec<Vec<u8>> = vec![];
    assert_eq!(Matrix::from_rows(&empty).unwrap().size(), 0);
    let m = Matrix::from_rows(&vec![vec![1u8, 2], vec![3, 4]]).unwrap();
    assert_eq!(rows_of_bytes(&m), vec![vec![1, 2], vec![3, 4]]);
}

#[test]
fn transposing_twice_gives_the_matrix_back() {
    let rows = vec![vec![1u8, 2, 3], vec![4, 5, 6], vec![7, 8, 9]];
    let mut m = Matrix::from_rows(&rows).unwrap();
    m.transpose();
    assert_eq!(rows_of_bytes(&m), vec![vec![1, 4, 7], vec![2, 5, 8], vec![3, 6, 9]]);
    m.transpose();
    assert_eq!(rows_of_bytes(&m), rows);
    let mut one = Matrix::new(1, 5u8);
    one.transpose();
    assert_eq!(one.get(0, 0), 5);
    let mut none = Matrix::new(0, 5u8);
    none.transpose();
    assert_eq!(none.size(), 0);
}

#[test]
fn sub_matrix_of_every_corner() {
    let m = Matrix::from_rows(&vec![vec![1u8, 2, 3], vec![4, 5, 6], vec![7, 8, 9]]).unwrap();
    assert_eq!(rows_of_bytes(&m.sub_matrix(0, 0)), vec![vec![5, 6], vec![8, 9]]);
    assert_eq!(rows_of_bytes(&m.sub_matrix(2, 2)), vec![vec![1, 2], vec![4, 5]]);
    assert_eq!(rows_of_bytes(&m.sub_matrix(1, 1)), vec![vec![1, 3], vec![7, 9]]);
    assert_eq!(rows_of_bytes(&m.sub_matrix(2, 0)), vec![vec![2, 3], vec![5, 6]]);
    let one = Matrix::new(1, 5u8);
    assert_eq!(one.sub_matrix(0, 0).size(), 0);
}

#[test]
fn a_copy_is_its_own_matrix() {
    let m = Matrix::from_rows(&vec![vec![1u8, 2], vec![3, 4]]).unwrap();
    let mut copy = m.clone();
    copy.set(0, 0, 9);
    assert_eq!(rows_of_bytes(&m), vec![vec![1, 2], vec![3, 4]]);
    assert_eq!(rows_of_bytes(&copy), vec![vec![9, 2], vec![3, 4]]);
}

#[test]
fn cofactors_change_sign_at_odd_places() {
    assert!(!cofactor_changes_sign(0, 0));
    assert!(cofactor_changes_sign(1, 0));
    assert!(cofactor_changes_sign(0, 1));
    assert!(!cofactor_changes_sign(1, 1));
    assert!(cofactor_changes_sign(2, 3));
    assert!(!cofactor_changes_sign(usize::MAX, usize::MAX));
    assert!(cofactor_changes_sign(usize::MAX, 0));
}
