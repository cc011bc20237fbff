use matrix_solver::matrix::Matrix;

fn sample() -> Matrix<u32> {
    Matrix::new(2, 3, vec![1, 2, 3, 4, 5, 6])
}

fn cells(m: &Matrix<u32>) -> Vec<u32> {
    let mut out = Vec::new();
    for r in 0..m.rows() {
        for c in 0..m.cols() {
            out.push(m.row(r)[c]);
        }
    }
    out
}

#[test]
fn new_keeps_dimensions() {
    let m = sample();
    assert_eq!(m.rows(), 2);
    assert_eq!(m.cols(), 3);
}

#[test]
fn new_is_row_major() {
    let m = sample();
    assert_eq!(m.row(0)[0], 1);
    assert_eq!(m.row(0)[2], 3);
    assert_eq!(m.row(1)[0], 4);
    assert_eq!(m.row(1)[2], 6);
}

#[test]
fn empty_matrix_has_no_cells() {
    let m: Matrix<u32> = Matrix::new(0, 0, Vec::new());
    assert_eq!(m.rows(), 0);
    assert_eq!(m.cols(), 0);
    let wide: Matrix<u32> = Matrix::new(0, 4, Vec::new());
    assert_eq!(wide.rows(), 0);
    assert_eq!(wide.cols(), 4);
}

#[test]
fn col_reads_down_a_column() {
    let m = sample();
    assert_eq!(m.col(0)[0], 1);
    assert_eq!(m.col(0)[1], 4);
    assert_eq!(m.col(2)[0], 3);
    assert_eq!(m.col(2)[1], 6);
}

#[test]
fn col_reaches_every_row_of_a_tall_matrix() {
    let m = Matrix::new(3, 2, vec![1u32, 2, 3, 4, 5, 6]);
    assert_eq!(m.col(1)[0], 2);
    assert_eq!(m.col(1)[1], 4);
    assert_eq!(m.col(1)[2], 6);
}

#[test]
fn row_mut_reads_and_writes_one_cell() {
    let mut m = sample();
    {
        let mut row = m.row_mut(1);
        assert_eq!(row[1], 5);
        row[1] = 50;
        assert_eq!(row[1], 50);
    }
    assert_eq!(cells(&m), vec![1, 2, 3, 4, 50, 6]);
}

#[test]
fn col_mut_reads_and_writes_one_cell() {
    let mut m = sample();
    {
        let mut col = m.col_mut(2);
        assert_eq!(col[0], 3);
        col[0] = 30;
        assert_eq!(col[0], 30);
    }
    assert_eq!(cells(&m), vec![1, 2, 30, 4, 5, 6]);
}

#[test]
fn swap_rows_exchanges_two_rows() {
    let mut m = Matrix::new(3, 2, vec![1u32, 2, 3, 4, 5, 6]);
    m.swap_rows(0, 2);
    assert_eq!(cells(&m), vec![5, 6, 3, 4, 1, 2]);
}

#[test]
fn swap_rows_with_itself_changes_nothing() {
    let mut m = sample();
    m.swap_rows(1, 1);
    assert_eq!(cells(&m), vec![1, 2, 3, 4, 5, 6]);
}

#[test]
fn swap_rows_twice_is_identity() {
    let mut m = Matrix::new(3, 2, vec![1u32, 2, 3, 4, 5, 6]);
    m.swap_rows(0, 1);
    assert_eq!(cells(&m), vec![3, 4, 1, 2, 5, 6]);
    m.swap_rows(0, 1);
    assert_eq!(cells(&m), vec![1, 2, 3, 4, 5, 6]);
}

#[test]
fn clone_is_independent() {
    let m = sample();
    let mut copy = m.clone();
    copy.swap_rows(0, 1);
    assert_eq!(cells(&m), vec![1, 2, 3, 4, 5, 6]);
    assert_eq!(cells(&copy), vec![4, 5, 6, 1, 2, 3]);
}
