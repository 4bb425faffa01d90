use lehopt::primitives::matrix::csc_structure::{CscStructure, SparseRow};
use lehopt::util::indices_complement;

type Mat = CscStructure<f64, usize>;

fn mat(num_rows: usize, num_cols: usize, cb: Vec<usize>, ri: Vec<usize>, vals: Vec<f64>) -> Mat {
    CscStructure::new(num_rows, num_cols, cb, ri, vals).expect("valid matrix")
}

fn row(indices: Vec<usize>, values: Vec<f64>) -> SparseRow<f64, usize> {
    SparseRow { indices, values }
}

fn check(m: &Mat, num_rows: usize, num_cols: usize, cb: Vec<usize>, ri: Vec<usize>, vals: Vec<f64>) {
    assert_eq!(m.num_rows, num_rows);
    assert_eq!(m.num_cols, num_cols);
    assert_eq!(m.col_boundaries, cb);
    assert_eq!(m.row_indices, ri);
    assert_eq!(m.values, vals);
}

#[test]
fn test_append_rows_inplace_000() {
    let mut m = mat(1, 5, vec![0, 0, 1, 1, 2, 2], vec![0, 0], vec![1.0, 2.0]);

    m.append_rows_inplace(vec![row(vec![2], vec![3.0])]);
    check(&m, 2, 5, vec![0, 0, 1, 2, 3, 3], vec![0, 1, 0], vec![1.0, 3.0, 2.0]);

    m.append_rows_inplace(vec![row(vec![4], vec![4.0]), row(vec![4], vec![5.0])]);
    check(&m, 4, 5, vec![0, 0, 1, 2, 3, 5], vec![0, 1, 0, 2, 3], vec![1.0, 3.0, 2.0, 4.0, 5.0]);

    m.append_rows_inplace(vec![row(vec![0], vec![6.0])]);
    check(&m, 5, 5, vec![0, 1, 2, 3, 4, 6], vec![4, 0, 1, 0, 2, 3], vec![6.0, 1.0, 3.0, 2.0, 4.0, 5.0]);

    m.append_rows_inplace(vec![row(vec![0, 1, 2, 3, 4], vec![9.0, 9.0, 9.0, 9.0, 9.0])]);
    check(
        &m,
        6,
        5,
        vec![0, 2, 4, 6, 8, 11],
        vec![4, 5, 0, 5, 1, 5, 0, 5, 2, 3, 5],
        vec![6.0, 9.0, 1.0, 9.0, 3.0, 9.0, 2.0, 9.0, 4.0, 5.0, 9.0],
    );
}

#[test]
fn test_append_rows_inplace_interleaved() {
    let mut m = mat(2, 3, vec![0, 1, 2, 3], vec![0, 1, 0], vec![1.0, 2.0, 3.0]);
    m.append_rows_inplace(vec![
        row(vec![0, 2], vec![4.0, 5.0]),
        row(vec![], vec![]),
        row(vec![1, 2], vec![6.0, 7.0]),
    ]);
    check(
        &m,
        5,
        3,
        vec![0, 2, 4, 7],
        vec![0, 2, 1, 4, 0, 2, 4],
        vec![1.0, 4.0, 2.0, 6.0, 3.0, 5.0, 7.0],
    );
    m.append_rows_inplace(vec![]);
    assert_eq!(m.num_rows, 5);
    assert_eq!(m.col_boundaries, vec![0, 2, 4, 7]);
}

#[test]
fn test_col_submatrix_000() {
    let m = mat(
        5,
        6,
        vec![0, 2, 3, 5, 5, 7, 11],
        vec![0, 1, 0, 0, 3, 0, 2, 0, 1, 3, 4],
        vec![2.0, 4.0, 6.0, 8.0, 10.0, 12.0, 14.0, 16.0, 18.0, 20.0, 22.0],
    );

    let sm1 = m.col_submatrix(&vec![2, 5, 0]);
    check(&sm1, 5, 3, vec![0, 2, 6, 8], vec![0, 3, 0, 1, 3, 4, 0, 1], vec![8.0, 10.0, 16.0, 18.0, 20.0, 22.0, 2.0, 4.0]);

    let sm2 = m.col_submatrix(&vec![4, 1]);
    check(&sm2, 5, 2, vec![0, 2, 3], vec![0, 2, 0], vec![12.0, 14.0, 6.0]);
}

#[test]
fn csc_matrix_test_new_000() {
    let m1 = mat(
        5,
        5,
        vec![0, 2, 2, 4, 6, 10],
        vec![0, 1, 0, 3, 0, 2, 0, 1, 3, 4],
        vec![1.0, 2.0, 8.0, 16.0, 32.0, 64.0, 128.0, 256.0, 512.0, 1024.0],
    );
    check(
        &m1,
        5,
        5,
        vec![0, 2, 2, 4, 6, 10],
        vec![0, 1, 0, 3, 0, 2, 0, 1, 3, 4],
        vec![1.0, 2.0, 8.0, 16.0, 32.0, 64.0, 128.0, 256.0, 512.0, 1024.0],
    );

    let m2 = mat(5, 1, vec![0, 2], vec![1, 4], vec![4.0, 9.0]);
    check(&m2, 5, 1, vec![0, 2], vec![1, 4], vec![4.0, 9.0]);

    let m3 = mat(1, 5, vec![0, 0, 1, 1, 2, 2], vec![0, 0], vec![1.0, 2.0]);
    check(&m3, 1, 5, vec![0, 0, 1, 1, 2, 2], vec![0, 0], vec![1.0, 2.0]);
}

#[test]
fn test_new_refuses_broken_parts() {
    // no rows
    assert!(Mat::new(0, 1, vec![0, 0], vec![], vec![]).is_none());
    // no columns
    assert!(Mat::new(1, 0, vec![0], vec![], vec![]).is_none());
    // boundaries of the wrong length
    assert!(Mat::new(1, 2, vec![0, 0], vec![], vec![]).is_none());
    // values and row indices of different lengths
    assert!(Mat::new(2, 1, vec![0, 1], vec![0, 1], vec![1.0]).is_none());
    // last boundary not the number of values
    assert!(Mat::new(2, 1, vec![0, 1], vec![0, 1], vec![1.0, 2.0]).is_none());
    // decreasing boundaries
    assert!(Mat::new(2, 2, vec![1, 0, 1], vec![0], vec![1.0]).is_none());
    // row index out of range
    assert!(Mat::new(2, 1, vec![0, 1], vec![2], vec![1.0]).is_none());
    // rows not ascending in a column
    assert!(Mat::new(2, 1, vec![0, 2], vec![1, 0], vec![1.0, 2.0]).is_none());
    // a repeated row in a column
    assert!(Mat::new(2, 1, vec![0, 2], vec![1, 1], vec![1.0, 2.0]).is_none());
    // the same rows in two columns are fine
    assert!(Mat::new(2, 2, vec![0, 1, 2], vec![1, 1], vec![1.0, 2.0]).is_some());
}

#[test]
fn new_from_columns_000() {
    let m1 = Mat::new_from_columns(
        5,
        vec![
            row(vec![0, 1], vec![1.0, 2.0]),
            row(vec![], vec![]),
            row(vec![0, 3], vec![8.0, 16.0]),
            row(vec![0, 2], vec![32.0, 64.0]),
            row(vec![0, 1, 3, 4], vec![128.0, 256.0, 512.0, 1024.0]),
        ],
    );
    check(
        &m1,
        5,
        5,
        vec![0, 2, 2, 4, 6, 10],
        vec![0, 1, 0, 3, 0, 2, 0, 1, 3, 4],
        vec![1.0, 2.0, 8.0, 16.0, 32.0, 64.0, 128.0, 256.0, 512.0, 1024.0],
    );
}

fn pop_rows_base() -> Mat {
    mat(
        6,
        5,
        vec![0, 2, 4, 6, 8, 11],
        vec![4, 5, 0, 5, 1, 5, 0, 5, 2, 3, 5],
        vec![6.0, 9.0, 1.0, 9.0, 3.0, 9.0, 2.0, 9.0, 4.0, 5.0, 9.0],
    )
}

#[test]
fn test_pop_rows_inplace_000() {
    let mut m0 = pop_rows_base();
    m0.pop_rows_inplace(0usize);
    check(
        &m0,
        6,
        5,
        vec![0, 2, 4, 6, 8, 11],
        vec![4, 5, 0, 5, 1, 5, 0, 5, 2, 3, 5],
        vec![6.0, 9.0, 1.0, 9.0, 3.0, 9.0, 2.0, 9.0, 4.0, 5.0, 9.0],
    );

    let mut m1 = pop_rows_base();
    m1.pop_rows_inplace(1usize);
    check(&m1, 5, 5, vec![0, 1, 2, 3, 4, 6], vec![4, 0, 1, 0, 2, 3], vec![6.0, 1.0, 3.0, 2.0, 4.0, 5.0]);

    let mut m2 = pop_rows_base();
    m2.pop_rows_inplace(2usize);
    check(&m2, 4, 5, vec![0, 0, 1, 2, 3, 5], vec![0, 1, 0, 2, 3], vec![1.0, 3.0, 2.0, 4.0, 5.0]);

    let mut m3 = pop_rows_base();
    m3.pop_rows_inplace(3usize);
    check(&m3, 3, 5, vec![0, 0, 1, 2, 3, 4], vec![0, 1, 0, 2], vec![1.0, 3.0, 2.0, 4.0]);

    let mut m4 = pop_rows_base();
    m4.pop_rows_inplace(4usize);
    check(&m4, 2, 5, vec![0, 0, 1, 2, 3, 3], vec![0, 1, 0], vec![1.0, 3.0, 2.0]);

    let mut m5 = pop_rows_base();
    m5.pop_rows_inplace(5usize);
    assert_eq!(m5.num_rows, 1);
    assert_eq!(m5.num_cols, 5);
    assert_eq!(m5.col_boundaries, vec![0, 0, 1, 1, 2, 2]);
    assert_eq!(m5.values, vec![1.0, 2.0]);
}

fn remove_cols_base() -> Mat {
    mat(
        5,
        6,
        vec![0, 2, 3, 3, 5, 7, 11],
        vec![0, 1, 0, 0, 3, 0, 2, 0, 1, 3, 4],
        vec![2.0, 4.0, 6.0, 8.0, 10.0, 12.0, 14.0, 16.0, 18.0, 20.0, 22.0],
    )
}

#[test]
fn test_remove_cols_inplace_000() {
    let mut mat1 = remove_cols_base();
    mat1.remove_cols_inplace(&vec![0usize]);
    check(
        &mat1,
        5,
        5,
        vec![0, 1, 1, 3, 5, 9],
        vec![0, 0, 3, 0, 2, 0, 1, 3, 4],
        vec![6.0, 8.0, 10.0, 12.0, 14.0, 16.0, 18.0, 20.0, 22.0],
    );

    let mut mat2 = remove_cols_base();
    mat2.remove_cols_inplace(&vec![5usize]);
    check(&mat2, 5, 5, vec![0, 2, 3, 3, 5, 7], vec![0, 1, 0, 0, 3, 0, 2], vec![2.0, 4.0, 6.0, 8.0, 10.0, 12.0, 14.0]);

    let mut mat3 = remove_cols_base();
    mat3.remove_cols_inplace(&vec![1usize, 4]);
    check(&mat3, 5, 4, vec![0, 2, 2, 4, 8], vec![0, 1, 0, 3, 0, 1, 3, 4], vec![2.0, 4.0, 8.0, 10.0, 16.0, 18.0, 20.0, 22.0]);

    let mut mat4 = remove_cols_base();
    mat4.remove_cols_inplace::<i32>(&vec![]);
    let base = remove_cols_base();
    check(&mat4, base.num_rows, base.num_cols, base.col_boundaries, base.row_indices, base.values);
}

#[test]
fn test_remove_cols_inplace_unsorted_indices() {
    let mut m = remove_cols_base();
    m.remove_cols_inplace(&vec![4usize, 1]);
    check(&m, 5, 4, vec![0, 2, 2, 4, 8], vec![0, 1, 0, 3, 0, 1, 3, 4], vec![2.0, 4.0, 8.0, 10.0, 16.0, 18.0, 20.0, 22.0]);
}

#[test]
fn test_append_and_pop_cols_inplace() {
    let mut m = mat(3, 2, vec![0, 1, 2], vec![0, 2], vec![1.0, 2.0]);
    m.append_cols_inplace(vec![row(vec![1, 2], vec![3.0, 4.0]), row(vec![], vec![])]);
    check(&m, 3, 4, vec![0, 1, 2, 4, 4], vec![0, 2, 1, 2], vec![1.0, 2.0, 3.0, 4.0]);
    m.pop_cols_inplace(2usize);
    check(&m, 3, 2, vec![0, 1, 2], vec![0, 2], vec![1.0, 2.0]);
    m.pop_cols_inplace(0usize);
    check(&m, 3, 2, vec![0, 1, 2], vec![0, 2], vec![1.0, 2.0]);
}

#[test]
fn test_append_then_pop_rows_restores() {
    let base = || mat(2, 3, vec![0, 1, 2, 3], vec![0, 1, 0], vec![1.0, 2.0, 3.0]);
    let mut m = base();
    m.append_rows_inplace(vec![row(vec![0, 2], vec![4.0, 5.0]), row(vec![1], vec![6.0])]);
    m.pop_rows_inplace(2usize);
    let b = base();
    check(&m, b.num_rows, b.num_cols, b.col_boundaries, b.row_indices, b.values);
}

#[test]
fn test_remove_cols_matches_submatrix_of_complement() {
    for idx in [vec![0usize], vec![5], vec![1, 4], vec![4, 1, 2], vec![0, 2, 3, 5]] {
        let mut removed = remove_cols_base();
        removed.remove_cols_inplace(&idx);
        let base = remove_cols_base();
        let comp = indices_complement(&idx, base.num_cols);
        let sub = base.col_submatrix(&comp);
        check(&removed, sub.num_rows, sub.num_cols, sub.col_boundaries, sub.row_indices, sub.values);
    }
}
