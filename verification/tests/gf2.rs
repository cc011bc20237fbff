use matrix_solver::elimination::{
    solve_system_of_linear_equations, to_echelon_form, to_reduced_echelon_form,
};
use matrix_solver::gf2::Gf2;
use matrix_solver::matrix::Matrix;
use matrix_solver::scalar::Scalar;

fn bits(values: &[u8]) -> Vec<Gf2> {
    values.iter().map(|v| Gf2(*v == 1)).collect()
}

fn cells(m: &Matrix<Gf2>) -> Vec<u8> {
    let mut out = Vec::new();
    for r in 0..m.rows() {
        for c in 0..m.cols() {
            out.push(if m.row(r)[c].0 { 1 } else { 0 });
        }
    }
    out
}

#[test]
fn gf2_addition_is_exclusive_or() {
    assert_eq!(Gf2(false).add(&Gf2(false)), Gf2(false));
    assert_eq!(Gf2(false).add(&Gf2(true)), Gf2(true));
    assert_eq!(Gf2(true).add(&Gf2(false)), Gf2(true));
    assert_eq!(Gf2(true).add(&Gf2(true)), Gf2(false));
}

#[test]
fn gf2_multiplication_is_conjunction() {
    assert_eq!(Gf2(false).mul(&Gf2(false)), Gf2(false));
    assert_eq!(Gf2(false).mul(&Gf2(true)), Gf2(false));
    assert_eq!(Gf2(true).mul(&Gf2(false)), Gf2(false));
    assert_eq!(Gf2(true).mul(&Gf2(true)), Gf2(true));
}

#[test]
fn gf2_constants_and_inverses() {
    assert_eq!(Gf2::zero(), Gf2(false));
    assert_eq!(Gf2::one(), Gf2(true));
    assert!(Gf2::zero().is_zero());
    assert!(!Gf2::one().is_zero());
    assert_eq!(Gf2(true).neg(), Gf2(true));
    assert_eq!(Gf2(false).neg(), Gf2(false));
    assert_eq!(Gf2(true).inv(), Gf2(true));
}

#[test]
fn gf2_echelon_form_of_a_full_rank_matrix() {
    // x + y = 1, x + z = 0, y + z + x = 1
    let mut m = Matrix::new(3, 4, bits(&[1, 1, 0, 1, 1, 0, 1, 0, 1, 1, 1, 1]));
    to_echelon_form(&mut m);
    assert_eq!(cells(&m), vec![1, 1, 0, 1, 0, 1, 1, 1, 0, 0, 1, 0]);
    to_reduced_echelon_form(&mut m);
    assert_eq!(cells(&m), vec![1, 0, 0, 0, 0, 1, 0, 1, 0, 0, 1, 0]);
}

#[test]
fn gf2_solves_a_parity_system() {
    let m = Matrix::new(3, 4, bits(&[1, 1, 0, 1, 1, 0, 1, 0, 1, 1, 1, 1]));
    let found = solve_system_of_linear_equations(m);
    assert_eq!(found, Some(bits(&[0, 1, 0])));
}

#[test]
fn gf2_pivot_is_found_below_the_pivot_position() {
    // The first column is zero in the top row, so the second row is moved up.
    let mut m = Matrix::new(2, 3, bits(&[0, 1, 1, 1, 1, 0]));
    to_echelon_form(&mut m);
    assert_eq!(cells(&m), vec![1, 1, 0, 0, 1, 1]);
    to_reduced_echelon_form(&mut m);
    assert_eq!(cells(&m), vec![1, 0, 1, 0, 1, 1]);
}

#[test]
fn gf2_echelon_form_passes_over_a_zero_column() {
    let mut m = Matrix::new(2, 4, bits(&[0, 1, 1, 0, 0, 1, 0, 1]));
    to_echelon_form(&mut m);
    assert_eq!(cells(&m), vec![0, 1, 1, 0, 0, 0, 1, 1]);
    to_reduced_echelon_form(&mut m);
    assert_eq!(cells(&m), vec![0, 1, 0, 1, 0, 0, 1, 1]);
}

#[test]
fn gf2_equal_rows_have_no_solution() {
    let m = Matrix::new(2, 3, bits(&[1, 1, 1, 1, 1, 1]));
    assert_eq!(solve_system_of_linear_equations(m), None);
}

#[test]
fn gf2_identity_system_returns_right_hand_side() {
    let m = Matrix::new(3, 4, bits(&[1, 0, 0, 1, 0, 1, 0, 0, 0, 0, 1, 1]));
    assert_eq!(solve_system_of_linear_equations(m), Some(bits(&[1, 0, 1])));
}

#[test]
fn gf2_matrix_product() {
    let a = Matrix::new(2, 2, bits(&[1, 1, 0, 1]));
    let b = Matrix::new(2, 2, bits(&[1, 0, 1, 1]));
    let c = &a * &b;
    assert_eq!(cells(&c), vec![0, 1, 1, 1]);
}

#[test]
fn gf2_solution_meets_every_equation() {
    let rows = [[1u8, 1, 0, 1], [1, 0, 1, 0], [1, 1, 1, 1]];
    let flat: Vec<u8> = rows.iter().flat_map(|r| r.iter().copied()).collect();
    let found = solve_system_of_linear_equations(Matrix::new(3, 4, bits(&flat))).unwrap();
    for row in rows.iter() {
        let mut sum = Gf2::zero();
        for k in 0..3 {
            sum = sum.add(&Gf2(row[k] == 1).mul(&found[k]));
        }
        assert_eq!(sum, Gf2(row[3] == 1));
    }
}

#[test]
fn gf2_eliminating_twice_changes_nothing() {
    let mut m = Matrix::new(3, 4, bits(&[0, 1, 1, 0, 1, 1, 0, 1, 1, 0, 1, 1]));
    to_echelon_form(&mut m);
    to_reduced_echelon_form(&mut m);
    let once = cells(&m);
    to_echelon_form(&mut m);
    to_reduced_echelon_form(&mut m);
    assert_eq!(cells(&m), once);
}

#[test]
fn gf2_dependent_rows_leave_a_row_of_zeros() {
    // The third row is the sum of the first two.
    let mut m = Matrix::new(3, 4, bits(&[1, 0, 1, 1, 0, 1, 1, 0, 1, 1, 0, 1]));
    to_echelon_form(&mut m);
    to_reduced_echelon_form(&mut m);
    assert_eq!(cells(&m), vec![1, 0, 1, 1, 0, 1, 1, 0, 0, 0, 0, 0]);
    let again = Matrix::new(3, 4, bits(&[1, 0, 1, 1, 0, 1, 1, 0, 1, 1, 0, 1]));
    assert_eq!(solve_system_of_linear_equations(again), None);
}
