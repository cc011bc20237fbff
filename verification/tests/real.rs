use matrix_solver::elimination::{
    solve_system_of_linear_equations, to_echelon_form, to_reduced_echelon_form,
};
use matrix_solver::matrix::Matrix;
use matrix_solver::scalar::Scalar;

/// Double-precision numbers as matrix elements.
#[derive(Clone, Copy, Debug, PartialEq)]
struct Real(f64);

impl Scalar for Real {
    fn zero_spec() -> Real {
        Real(0.0)
    }

    fn one_spec() -> Real {
        Real(1.0)
    }

    fn add_spec(self, rhs: Real) -> Real {
        Real(self.0 + rhs.0)
    }

    fn mul_spec(self, rhs: Real) -> Real {
        Real(self.0 * rhs.0)
    }

    fn neg_spec(self) -> Real {
        Real(-self.0)
    }

    fn inv_spec(self) -> Real {
        Real(1.0 / self.0)
    }

    fn zero() -> Real {
        Real(0.0)
    }

    fn one() -> Real {
        Real(1.0)
    }

    fn add(&self, rhs: &Real) -> Real {
        Real(self.0 + rhs.0)
    }

    fn mul(&self, rhs: &Real) -> Real {
        Real(self.0 * rhs.0)
    }

    fn neg(&self) -> Real {
        Real(-self.0)
    }

    fn inv(&self) -> Real {
        Real(1.0 / self.0)
    }

    fn is_zero(&self) -> bool {
        self.0 == 0.0
    }
}

fn matrix(rows: usize, cols: usize, values: &[f64]) -> Matrix<Real> {
    Matrix::new(rows, cols, values.iter().map(|v| Real(*v)).collect())
}

fn cells(m: &Matrix<Real>) -> Vec<f64> {
    let mut out = Vec::new();
    for r in 0..m.rows() {
        for c in 0..m.cols() {
            out.push(m.row(r)[c].0);
        }
    }
    out
}

fn solve(rows: usize, cols: usize, values: &[f64]) -> Option<Vec<f64>> {
    solve_system_of_linear_equations(matrix(rows, cols, values))
        .map(|found| found.iter().map(|v| v.0).collect())
}

fn close(a: f64, b: f64) -> bool {
    (a - b).abs() < 1e-9
}

fn all_close(a: &[f64], b: &[f64]) -> bool {
    a.len() == b.len() && a.iter().zip(b.iter()).all(|(x, y)| close(*x, *y))
}

#[test]
fn multiply_row_scales_one_row() {
    let mut m = matrix(2, 2, &[1.0, 2.0, 3.0, 4.0]);
    m.multiply_row(1, &Real(2.5));
    assert_eq!(cells(&m), vec![1.0, 2.0, 7.5, 10.0]);
}

#[test]
fn multiply_row_then_reciprocal_restores_the_row() {
    let mut m = matrix(2, 3, &[1.0, -2.0, 3.5, 4.0, 5.0, 6.0]);
    m.multiply_row(0, &Real(3.0));
    assert_eq!(cells(&m), vec![3.0, -6.0, 10.5, 4.0, 5.0, 6.0]);
    m.multiply_row(0, &Real(3.0).inv());
    assert!(all_close(&cells(&m), &[1.0, -2.0, 3.5, 4.0, 5.0, 6.0]));
}

#[test]
fn multiply_row_by_power_of_two_is_restored_exactly() {
    let mut m = matrix(1, 3, &[0.1, 0.2, 0.3]);
    m.multiply_row(0, &Real(4.0));
    m.multiply_row(0, &Real(4.0).inv());
    assert_eq!(cells(&m), vec![0.1, 0.2, 0.3]);
}

#[test]
fn add_row_adds_the_second_row_to_the_first() {
    let mut m = matrix(2, 2, &[1.0, 2.0, 3.0, 4.0]);
    m.add_row(0, 1);
    assert_eq!(cells(&m), vec![4.0, 6.0, 3.0, 4.0]);
}

#[test]
fn add_row_to_itself_doubles_the_row() {
    let mut m = matrix(2, 2, &[1.0, 2.0, 3.0, 4.0]);
    m.add_row(1, 1);
    assert_eq!(cells(&m), vec![1.0, 2.0, 6.0, 8.0]);
}

#[test]
fn add_row_multiple_adds_a_scaled_row() {
    let mut m = matrix(2, 2, &[1.0, 2.0, 3.0, 4.0]);
    m.add_row_multiple(0, 1, &Real(-2.0));
    assert_eq!(cells(&m), vec![-5.0, -6.0, 3.0, 4.0]);
}

#[test]
fn matrix_product_of_rectangular_matrices() {
    let a = matrix(2, 3, &[1.0, 2.0, 3.0, 4.0, 5.0, 6.0]);
    let b = matrix(3, 2, &[7.0, 8.0, 9.0, 10.0, 11.0, 12.0]);
    let c = &a * &b;
    assert_eq!(c.rows(), 2);
    assert_eq!(c.cols(), 2);
    assert_eq!(cells(&c), vec![58.0, 64.0, 139.0, 154.0]);
}

#[test]
fn matrix_product_is_not_commutative() {
    let a = matrix(2, 2, &[1.0, 2.0, 3.0, 4.0]);
    let b = matrix(2, 2, &[0.0, 1.0, 1.0, 0.0]);
    assert_eq!(cells(&(&a * &b)), vec![2.0, 1.0, 4.0, 3.0]);
    assert_eq!(cells(&(&b * &a)), vec![3.0, 4.0, 1.0, 2.0]);
}

#[test]
fn matrix_product_takes_owned_and_borrowed_operands() {
    let a = matrix(2, 2, &[1.0, 2.0, 3.0, 4.0]);
    let b = matrix(2, 2, &[5.0, 6.0, 7.0, 8.0]);
    let expected = vec![19.0, 22.0, 43.0, 50.0];
    assert_eq!(cells(&(&a * &b)), expected);
    assert_eq!(cells(&(a.clone() * &b)), expected);
    assert_eq!(cells(&(&a * b.clone())), expected);
    assert_eq!(cells(&(a * b)), expected);
}

#[test]
fn matrix_product_with_identity() {
    let a = matrix(2, 3, &[1.0, 2.0, 3.0, 4.0, 5.0, 6.0]);
    let i = matrix(3, 3, &[1.0, 0.0, 0.0, 0.0, 1.0, 0.0, 0.0, 0.0, 1.0]);
    assert_eq!(cells(&(&a * &i)), vec![1.0, 2.0, 3.0, 4.0, 5.0, 6.0]);
}

#[test]
fn echelon_form_has_zeros_below_unit_pivots() {
    let mut m = matrix(3, 4, &[2.0, 4.0, -2.0, 2.0, 4.0, 9.0, -3.0, 8.0, -2.0, -3.0, 7.0, 10.0]);
    to_echelon_form(&mut m);
    let e = cells(&m);
    assert!(all_close(&e, &[1.0, 2.0, -1.0, 1.0, 0.0, 1.0, 1.0, 4.0, 0.0, 0.0, 1.0, 2.0]));
    assert_eq!(e[4], 0.0);
    assert_eq!(e[8], 0.0);
    assert_eq!(e[9], 0.0);
}

#[test]
fn reduced_echelon_form_clears_pivot_columns() {
    let mut m = matrix(3, 4, &[2.0, 4.0, -2.0, 2.0, 4.0, 9.0, -3.0, 8.0, -2.0, -3.0, 7.0, 10.0]);
    to_echelon_form(&mut m);
    to_reduced_echelon_form(&mut m);
    assert!(all_close(
        &cells(&m),
        &[1.0, 0.0, 0.0, -1.0, 0.0, 1.0, 0.0, 2.0, 0.0, 0.0, 1.0, 2.0]
    ));
}

#[test]
fn reduced_echelon_form_leaves_rows_below_the_pivots() {
    // Without forward elimination only the rows above each pivot change.
    let mut m = matrix(2, 3, &[1.0, 2.0, 3.0, 4.0, 1.0, 6.0]);
    to_reduced_echelon_form(&mut m);
    assert_eq!(cells(&m), vec![-7.0, 0.0, -9.0, 4.0, 1.0, 6.0]);
}

#[test]
fn echelon_form_moves_a_lower_row_to_the_pivot_position() {
    let mut m = matrix(2, 3, &[0.0, 1.0, 2.0, 1.0, 0.0, 3.0]);
    to_echelon_form(&mut m);
    assert_eq!(cells(&m), vec![1.0, 0.0, 3.0, 0.0, 1.0, 2.0]);
}

#[test]
fn solves_after_moving_a_lower_row_up() {
    // y = 2 and x = 3, given in this order.
    assert_eq!(solve(2, 3, &[0.0, 1.0, 2.0, 1.0, 0.0, 3.0]), Some(vec![3.0, 2.0]));
}

#[test]
fn identity_three_by_three_returns_last_column() {
    let found = solve(3, 3, &[1.0, 0.0, 0.0, 0.0, 1.0, 0.0, 0.0, 0.0, 1.0]);
    assert_eq!(found, Some(vec![0.0, 0.0, 1.0]));
}

#[test]
fn identity_system_returns_right_hand_side() {
    let found = solve(
        3,
        4,
        &[1.0, 0.0, 0.0, 2.5, 0.0, 1.0, 0.0, -1.0, 0.0, 0.0, 1.0, 4.0],
    );
    assert_eq!(found, Some(vec![2.5, -1.0, 4.0]));
}

#[test]
fn two_equations_two_unknowns() {
    let found = solve(2, 3, &[4.0, 3.0, 5.0, 2.0, 4.0, 7.0]).unwrap();
    assert_eq!(found.len(), 2);
    assert!(close(4.0 * found[0] + 3.0 * found[1], 5.0));
    assert!(close(2.0 * found[0] + 4.0 * found[1], 7.0));
    assert!(close(found[0], -0.1));
    assert!(close(found[1], 1.8));
}

#[test]
fn three_by_three_with_gaps() {
    let found = solve(3, 3, &[1.0, 0.0, 2.0, 0.0, 3.0, 0.0, 4.0, 0.0, 5.0]).unwrap();
    assert!(all_close(&found, &[0.0, 0.0, 1.0]));
}

#[test]
fn three_by_three_full() {
    let found = solve(3, 3, &[1.0, 2.0, 3.0, 4.0, 5.0, 6.0, 7.0, 8.0, 10.0]).unwrap();
    assert!(all_close(&found, &[0.0, 0.0, 1.0]));
}

#[test]
fn three_equations_three_unknowns() {
    let found = solve(
        3,
        4,
        &[2.0, 4.0, -2.0, 2.0, 4.0, 9.0, -3.0, 8.0, -2.0, -3.0, 7.0, 10.0],
    )
    .unwrap();
    assert!(all_close(&found, &[-1.0, 2.0, 2.0]));
}

#[test]
fn contradictory_row_among_dependent_rows_has_no_solution() {
    assert_eq!(solve(2, 3, &[0.0, 0.0, 1.0, 0.0, 0.0, 2.0]), None);
    assert_eq!(solve(3, 4, &[1.0, 2.0, 3.0, 4.0, 0.0, 0.0, 0.0, 5.0, 2.0, 4.0, 6.0, 8.0]), None);
}

#[test]
fn contradictory_row_among_independent_rows_is_read_as_a_pivot() {
    // 0 = 1 cannot hold, yet the scan finds the entry in the last column.
    assert_eq!(solve(2, 3, &[1.0, 0.0, 1.0, 0.0, 0.0, 1.0]), Some(vec![0.0, 1.0]));
    assert_eq!(solve(1, 3, &[0.0, 0.0, 1.0]), Some(vec![1.0]));
}

#[test]
fn dependent_rows_have_no_solution() {
    assert_eq!(solve(2, 3, &[1.0, 2.0, 3.0, 2.0, 4.0, 6.0]), None);
    assert_eq!(solve(2, 3, &[1.0, 2.0, 3.0, 1.0, 2.0, 3.0]), None);
}

#[test]
fn zero_row_has_no_solution() {
    assert_eq!(solve(2, 3, &[1.0, 2.0, 3.0, 0.0, 0.0, 0.0]), None);
    assert_eq!(solve(1, 1, &[0.0]), None);
}

#[test]
fn system_without_rows_has_empty_solution() {
    assert_eq!(solve(0, 0, &[]), Some(vec![]));
    assert_eq!(solve(0, 3, &[]), Some(vec![]));
}

#[test]
fn fewer_equations_than_unknowns_return_the_last_column() {
    // x + y = 2 has many solutions; the rows are independent, so the scan
    // succeeds and the right-hand side is returned.
    assert_eq!(solve(1, 3, &[1.0, 1.0, 2.0]), Some(vec![2.0]));
}

#[test]
fn single_equation() {
    assert_eq!(solve(1, 2, &[2.0, 8.0]), Some(vec![4.0]));
}
