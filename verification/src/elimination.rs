//! Gaussian elimination: reduction of a matrix to row-echelon form, then to
//! reduced row-echelon form, and the solution of a linear system read from
//! the reduced matrix.
//!
//! Pivots are chosen by order alone: in each column, the first row at or
//! below the pivot position with a nonzero entry becomes the pivot row. The
//! search goes on below the pivot position when the entry there is zero; a
//! rule that looked at the pivot position only would pass over the first
//! column of `[[0, 1], [1, 0]]` and leave that matrix out of row-echelon
//! form.

use crate::grid::{add_row, add_row_multiple, is_grid, scale_row, swap_rows, width};
use crate::matrix::Matrix;
use crate::scalar::Scalar;
use vstd::prelude::*;

verus! {

/// The first row at or after `from` whose entry in column `c` is nonzero,
/// or the number of rows if there is none.
pub open spec fn pivot_search<T: Scalar>(m: Seq<Seq<T>>, c: int, from: int) -> int
    decreases m.len() - from,
{
    if from >= m.len() {
        m.len() as int
    } else if m[from][c] != T::zero_spec() {
        from
    } else {
        pivot_search(m, c, from + 1)
    }
}

/// `m` with column `c` cleared below row `row`: every lower row with a
/// nonzero entry in that column is divided by the entry and has row `row`
/// added to it. The rows cancel where row `row` holds minus one in column
/// `c`.
pub open spec fn clear_below<T: Scalar>(m: Seq<Seq<T>>, c: int, row: int) -> Seq<Seq<T>> {
    Seq::new(
        m.len(),
        |r: int|
            if r > row && m[r][c] != T::zero_spec() {
                Seq::new(
                    m[r].len(),
                    |k: int| m[r][k].mul_spec(m[r][c].inv_spec()).add_spec(m[row][k]),
                )
            } else {
                m[r]
            },
    )
}

/// One step of forward elimination: row `p`, which holds a nonzero entry in
/// column `c`, is moved to position `row` and scaled to hold minus one
/// there, the column is cleared below it, and the row is negated to hold
/// one.
pub open spec fn pivot_step<T: Scalar>(m: Seq<Seq<T>>, c: int, row: int, p: int) -> Seq<Seq<T>> {
    let swapped = swap_rows(m, row, p);
    let scaled = scale_row(swapped, row, swapped[row][c].inv_spec().neg_spec());
    let cleared = clear_below(scaled, c, row);
    scale_row(cleared, row, T::one_spec().neg_spec())
}

/// Forward elimination of columns `c` to `cols - 1`, with `row` pivots
/// placed so far.
pub open spec fn echelon_from<T: Scalar>(m: Seq<Seq<T>>, c: int, row: int, cols: int) -> Seq<Seq<T>>
    decreases cols - c,
{
    if c < 0 || c >= cols || row >= m.len() {
        m
    } else {
        let p = pivot_search(m, c, row);
        if p >= m.len() {
            echelon_from(m, c + 1, row, cols)
        } else {
            echelon_from(pivot_step(m, c, row, p), c + 1, row + 1, cols)
        }
    }
}

/// The row-echelon form that forward elimination gives.
pub open spec fn echelon_form<T: Scalar>(m: Seq<Seq<T>>) -> Seq<Seq<T>> {
    echelon_from(m, 0, 0, width(m) as int)
}

/// `m` with column `c` cleared above row `row`: from every higher row, its
/// entry in column `c` times row `row` is taken away. The entry vanishes
/// where row `row` holds one in column `c`.
pub open spec fn clear_above<T: Scalar>(m: Seq<Seq<T>>, c: int, row: int) -> Seq<Seq<T>> {
    Seq::new(
        m.len(),
        |r: int|
            if r < row {
                Seq::new(
                    m[r].len(),
                    |k: int| m[r][k].add_spec(m[row][k].mul_spec(m[r][c].neg_spec())),
                )
            } else {
                m[r]
            },
    )
}

/// Backward elimination of columns `c` to `cols - 1`, with `row` pivots
/// passed so far: a column whose entry in row `row` is nonzero is a pivot
/// column and is cleared above that row.
pub open spec fn reduce_from<T: Scalar>(m: Seq<Seq<T>>, c: int, row: int, cols: int) -> Seq<Seq<T>>
    decreases cols - c,
{
    if c < 0 || c >= cols || row < 0 || row >= m.len() {
        m
    } else if m[row][c] == T::zero_spec() {
        reduce_from(m, c + 1, row, cols)
    } else {
        reduce_from(clear_above(m, c, row), c + 1, row + 1, cols)
    }
}

/// The matrix that backward elimination gives; for a matrix in row-echelon
/// form with unit pivots this is its reduced row-echelon form.
pub open spec fn reduced_form<T: Scalar>(m: Seq<Seq<T>>) -> Seq<Seq<T>> {
    reduce_from(m, 0, 0, width(m) as int)
}

/// The first position at or after `from` at which `s` is nonzero, or the
/// length of `s` if there is none.
pub open spec fn next_nonzero<T: Scalar>(s: Seq<T>, from: int) -> int
    decreases s.len() - from,
{
    if from >= s.len() {
        s.len() as int
    } else if s[from] != T::zero_spec() {
        from
    } else {
        next_nonzero(s, from + 1)
    }
}

/// The column at which the scan of row `r` stops: the first nonzero entry of
/// the row at or after the column where the scan of the row above stopped
/// (the first column, for the top row). The width of the grid if there is no
/// such entry.
pub open spec fn scan_column<T: Scalar>(m: Seq<Seq<T>>, r: int) -> int
    decreases r,
{
    if r <= 0 {
        next_nonzero(m[0], 0)
    } else {
        next_nonzero(m[r], scan_column(m, r - 1))
    }
}

/// Whether the scan finds a nonzero entry in every row.
pub open spec fn determined<T: Scalar>(m: Seq<Seq<T>>) -> bool {
    forall|r: int| 0 <= r < m.len() ==> scan_column(m, r) < width(m)
}

/// The solution read from an eliminated system: the last column, if the scan
/// finds a nonzero entry in every row.
pub open spec fn read_solution<T: Scalar>(m: Seq<Seq<T>>) -> Option<Seq<T>> {
    if determined(m) {
        Some(Seq::new(m.len(), |r: int| m[r][width(m) - 1]))
    } else {
        None
    }
}

/// The outcome of solving the augmented system `m`.
pub open spec fn solution<T: Scalar>(m: Seq<Seq<T>>) -> Option<Seq<T>> {
    read_solution(reduced_form(echelon_form(m)))
}

/// The first row at or after `row` with a nonzero entry in column `c`, or
/// the number of rows.
fn find_pivot<T: Scalar>(matrix: &Matrix<T>, c: usize, row: usize) -> (p: usize)
    requires
        matrix.wf(),
        row <= matrix.spec_rows(),
        c < matrix.spec_cols(),
    ensures
        p == pivot_search(matrix@, c as int, row as int),
        row <= p <= matrix.spec_rows(),
        p < matrix.spec_rows() ==> matrix@[p as int][c as int] != T::zero_spec(),
{
    proof {
        matrix.lemma_shape();
    }
    let rows = matrix.rows();
    let mut p = row;
    while p < rows && matrix.row(p)[c].is_zero()
        invariant
            matrix.wf(),
            rows == matrix.spec_rows(),
            is_grid(matrix@, matrix.spec_rows(), matrix.spec_cols()),
            c < matrix.spec_cols(),
            row <= p <= rows,
            pivot_search(matrix@, c as int, row as int) == pivot_search(matrix@, c as int, p as int),
        decreases rows - p,
    {
        p += 1;
    }
    p
}

/// Clears column `c` below row `row`, which holds minus one in that column.
fn clear_column_below<T: Scalar>(matrix: &mut Matrix<T>, c: usize, row: usize)
    requires
        old(matrix).wf(),
        row < old(matrix).spec_rows(),
        c < old(matrix).spec_cols(),
    ensures
        final(matrix).wf(),
        final(matrix).spec_rows() == old(matrix).spec_rows(),
        final(matrix).spec_cols() == old(matrix).spec_cols(),
        final(matrix)@ == clear_below(old(matrix)@, c as int, row as int),
{
    proof {
        matrix.lemma_shape();
    }
    let rows = matrix.rows();
    let mut r = row + 1;
    while r < rows
        invariant
            matrix.wf(),
            rows == matrix.spec_rows() == old(matrix).spec_rows(),
            matrix.spec_cols() == old(matrix).spec_cols(),
            is_grid(old(matrix)@, matrix.spec_rows(), matrix.spec_cols()),
            is_grid(matrix@, matrix.spec_rows(), matrix.spec_cols()),
            c < matrix.spec_cols(),
            row < r <= rows,
            forall|y: int| 0 <= y < r ==> matrix@[y] == #[trigger] clear_below(old(matrix)@, c as int, row as int)[y],
            forall|y: int| r <= y < rows ==> #[trigger] matrix@[y] == old(matrix)@[y],
            matrix@[row as int] == old(matrix)@[row as int],
        decreases rows - r,
    {
        if !matrix.row(r)[c].is_zero() {
            let ghost before = matrix@;
            let f = matrix.row(r)[c].inv();
            matrix.multiply_row(r, &f);
            let ghost scaled = matrix@;
            matrix.add_row(r, row);
            proof {
                matrix.lemma_shape();
                let goal = clear_below(old(matrix)@, c as int, row as int);
                assert(before[r as int] == old(matrix)@[r as int]);
                assert(scaled == scale_row(before, r as int, f));
                assert(matrix@ == add_row(scaled, r as int, row as int));
                assert(scaled[row as int] == old(matrix)@[row as int]);
                assert forall|k: int| 0 <= k < matrix.spec_cols() implies matrix@[r as int][k] == goal[r as int][k] by {
                    assert(scaled[r as int][k] == before[r as int][k].mul_spec(f));
                }
                assert(matrix@[r as int] =~= goal[r as int]);
            }
        }
        r += 1;
    }
    proof {
        assert(matrix@ =~= clear_below(old(matrix)@, c as int, row as int));
    }
}

/// Forward elimination: reduces the matrix to row-echelon form.
///
/// Columns are taken from left to right. In each, the first row at or below
/// the pivot position with a nonzero entry is moved to the pivot position
/// and scaled, and the column is cleared below it; a column without such a
/// row is passed over.
///
/// Over a field the result is a row-echelon form with unit pivots
/// ([`crate::echelon::law_echelon_form`]) that is row equivalent to the
/// matrix ([`crate::equivalence::law_echelon_form_equivalent`]).
pub fn to_echelon_form<T: Scalar>(matrix: &mut Matrix<T>)
    requires
        old(matrix).wf(),
        old(matrix).spec_rows() <= old(matrix).spec_cols(),
    ensures
        final(matrix).wf(),
        final(matrix).spec_rows() == old(matrix).spec_rows(),
        final(matrix).spec_cols() == old(matrix).spec_cols(),
        final(matrix)@ == echelon_form(old(matrix)@),
{
    proof {
        matrix.lemma_shape();
    }
    let rows = matrix.rows();
    let cols = matrix.cols();
    let mut row: usize = 0;
    let mut c: usize = 0;
    while c < cols && row < rows
        invariant
            matrix.wf(),
            rows == matrix.spec_rows() == old(matrix).spec_rows(),
            cols == matrix.spec_cols() == old(matrix).spec_cols(),
            0 <= c <= cols,
            0 <= row <= rows,
            is_grid(old(matrix)@, rows as nat, cols as nat),
            echelon_from(matrix@, c as int, row as int, cols as int) == echelon_form(old(matrix)@),
        decreases cols - c,
    {
        let ghost start = matrix@;
        proof {
            matrix.lemma_shape();
        }
        let p = find_pivot(matrix, c, row);
        if p < rows {
            matrix.swap_rows(row, p);
            let f = matrix.row(row)[c].inv().neg();
            matrix.multiply_row(row, &f);
            clear_column_below(matrix, c, row);
            let minus_one = T::one().neg();
            matrix.multiply_row(row, &minus_one);
            proof {
                assert(matrix@ == pivot_step(start, c as int, row as int, p as int));
            }
            row += 1;
        }
        c += 1;
    }
    proof {
        matrix.lemma_shape();
    }
}

/// Clears column `c` above row `row`, which holds one in that column.
fn clear_column_above<T: Scalar>(matrix: &mut Matrix<T>, c: usize, row: usize)
    requires
        old(matrix).wf(),
        row < old(matrix).spec_rows(),
        c < old(matrix).spec_cols(),
    ensures
        final(matrix).wf(),
        final(matrix).spec_rows() == old(matrix).spec_rows(),
        final(matrix).spec_cols() == old(matrix).spec_cols(),
        final(matrix)@ == clear_above(old(matrix)@, c as int, row as int),
{
    proof {
        matrix.lemma_shape();
    }
    let mut r: usize = 0;
    while r < row
        invariant
            matrix.wf(),
            matrix.spec_rows() == old(matrix).spec_rows(),
            matrix.spec_cols() == old(matrix).spec_cols(),
            is_grid(old(matrix)@, matrix.spec_rows(), matrix.spec_cols()),
            is_grid(matrix@, matrix.spec_rows(), matrix.spec_cols()),
            row < matrix.spec_rows(),
            c < matrix.spec_cols(),
            0 <= r <= row,
            forall|y: int| 0 <= y < r ==> matrix@[y] == #[trigger] clear_above(old(matrix)@, c as int, row as int)[y],
            forall|y: int| r <= y < matrix.spec_rows() ==> #[trigger] matrix@[y] == old(matrix)@[y],
        decreases row - r,
    {
        let ghost before = matrix@;
        let f = matrix.row(r)[c].neg();
        matrix.add_row_multiple(r, row, &f);
        proof {
            matrix.lemma_shape();
            let goal = clear_above(old(matrix)@, c as int, row as int);
            assert(matrix@ == add_row_multiple(before, r as int, row as int, f));
            assert(matrix@[r as int] =~= goal[r as int]);
        }
        r += 1;
    }
    proof {
        assert(matrix@ =~= clear_above(old(matrix)@, c as int, row as int));
    }
}

/// Backward elimination: clears every pivot column above its pivot.
///
/// Columns are taken from left to right with a pivot position that starts at
/// the top row. A column with a nonzero entry at the pivot position is
/// cleared above it and the position moves down one row; any other column is
/// passed over.
///
/// Over a field this brings a row-echelon form with unit pivots to reduced
/// row-echelon form ([`crate::echelon::law_reduced_form`]) by elementary row
/// operations ([`crate::equivalence::law_reduced_form_equivalent`]).
pub fn to_reduced_echelon_form<T: Scalar>(matrix: &mut Matrix<T>)
    requires
        old(matrix).wf(),
        old(matrix).spec_rows() <= old(matrix).spec_cols(),
    ensures
        final(matrix).wf(),
        final(matrix).spec_rows() == old(matrix).spec_rows(),
        final(matrix).spec_cols() == old(matrix).spec_cols(),
        final(matrix)@ == reduced_form(old(matrix)@),
{
    proof {
        matrix.lemma_shape();
    }
    let rows = matrix.rows();
    let cols = matrix.cols();
    let mut row: usize = 0;
    let mut c: usize = 0;
    while c < cols && row < rows
        invariant
            matrix.wf(),
            rows == matrix.spec_rows() == old(matrix).spec_rows(),
            cols == matrix.spec_cols() == old(matrix).spec_cols(),
            0 <= c <= cols,
            0 <= row <= rows,
            is_grid(old(matrix)@, rows as nat, cols as nat),
            reduce_from(matrix@, c as int, row as int, cols as int) == reduced_form(old(matrix)@),
        decreases cols - c,
    {
        proof {
            matrix.lemma_shape();
        }
        if !matrix.row(row)[c].is_zero() {
            clear_column_above(matrix, c, row);
            row += 1;
        }
        c += 1;
    }
    proof {
        matrix.lemma_shape();
    }
}

/// Solves the linear system whose augmented matrix is `system`: the
/// coefficients of each equation, followed by its right-hand side in the
/// last column.
///
/// The matrix is brought to reduced row-echelon form. Then the rows are
/// scanned from the top, and a column cursor moves right to the first
/// nonzero entry of each row in turn. If every row has such an entry, the
/// result is the last column, one value for each row; otherwise it is
/// `None`.
///
/// Over a field, a result is found exactly when the rows of the system are
/// linearly independent ([`crate::dependence::law_solved_iff_independent`]).
/// For as many equations as unknowns with independent coefficient rows it
/// is the one solution of the system
/// ([`crate::solutions::law_unique_solution`]). In other cases the result
/// need not meet the equations: a row that states `0 = 1` is read like any
/// other, and a system with dependent rows is given up even if it has
/// solutions.
pub fn solve_system_of_linear_equations<T: Scalar + Copy>(system: Matrix<T>) -> (found: Option<Vec<T>>)
    requires
        system.wf(),
        system.spec_rows() <= system.spec_cols(),
    ensures
        match found {
            Some(values) => solution(system@) == Some(values@),
            None => solution(system@).is_none(),
        },
{
    let mut system = system;
    to_echelon_form(&mut system);
    to_reduced_echelon_form(&mut system);
    read_off(&system)
}

/// Reads the solution from an eliminated system.
fn read_off<T: Scalar + Copy>(system: &Matrix<T>) -> (found: Option<Vec<T>>)
    requires
        system.wf(),
    ensures
        match found {
            Some(values) => read_solution(system@) == Some(values@),
            None => read_solution(system@).is_none(),
        },
{
    proof {
        system.lemma_shape();
    }
    let rows = system.rows();
    let cols = system.cols();
    let mut values: Vec<T> = Vec::new();
    let mut c: usize = 0;
    let mut r: usize = 0;
    while r < rows
        invariant
            system.wf(),
            rows == system.spec_rows(),
            cols == system.spec_cols(),
            is_grid(system@, rows as nat, cols as nat),
            0 <= r <= rows,
            0 <= c <= cols,
            r > 0 ==> c < cols && c == scan_column(system@, r - 1),
            r == 0 ==> c == 0,
            forall|y: int| 0 <= y < r ==> scan_column(system@, y) < cols,
            values@ =~= Seq::new(r as nat, |y: int| system@[y][cols - 1]),
        decreases rows - r,
    {
        let ghost from = c;
        while c < cols && system.row(r)[c].is_zero()
            invariant
                system.wf(),
                rows == system.spec_rows(),
                cols == system.spec_cols(),
                is_grid(system@, rows as nat, cols as nat),
                r < rows,
                from <= c <= cols,
                next_nonzero(system@[r as int], from as int) == next_nonzero(system@[r as int], c as int),
            decreases cols - c,
        {
            c += 1;
        }
        proof {
            assert(width(system@) == cols);
            assert(c == scan_column(system@, r as int));
        }
        if c >= cols {
            return None;
        }
        let last = system.row(r)[cols - 1];
        values.push(last);
        r += 1;
    }
    proof {
        assert(determined(system@));
    }
    Some(values)
}

} // verus!
