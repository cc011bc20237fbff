//! Laws of the row operations and of the solver, proved over any field.

use crate::algebra::{
    lemma_inv_one, lemma_mul_inv_cancel, lemma_mul_zero, lemma_neg_zero, lemma_negate_twice,
};
use crate::echelon::{
    is_echelon, is_reduced, law_eliminated_form, leading, lemma_next_nonzero, lemma_next_nonzero_is,
    lemma_pivot_search,
};
use crate::elimination::{
    clear_above, clear_below, determined, echelon_form, echelon_from, pivot_search, pivot_step,
    read_solution, reduce_from, reduced_form, scan_column, solution,
};
use crate::grid::{is_grid, scale_row, swap_rows, width};
use crate::scalar::{Field, Scalar};
use vstd::prelude::*;

verus! {

/// Exchanging two rows twice restores the matrix.
pub proof fn law_swap_rows_twice<T>(m: Seq<Seq<T>>, a: int, b: int)
    requires
        0 <= a < m.len(),
        0 <= b < m.len(),
    ensures
        swap_rows(swap_rows(m, a, b), a, b) == m,
{
    assert(swap_rows(swap_rows(m, a, b), a, b) =~= m);
}

/// Multiplying a row by a nonzero factor and then by its reciprocal restores
/// the matrix.
pub proof fn law_multiply_row_inverse<T: Field>(m: Seq<Seq<T>>, r: int, f: T)
    requires
        0 <= r < m.len(),
        f != T::zero_spec(),
    ensures
        scale_row(scale_row(m, r, f), r, f.inv_spec()) == m,
{
    let back = scale_row(scale_row(m, r, f), r, f.inv_spec());
    assert forall|k: int| 0 <= k < m[r].len() implies back[r][k] == m[r][k] by {
        lemma_mul_inv_cancel(m[r][k], f);
    }
    assert(back[r] =~= m[r]);
    assert(back =~= m);
}

/// In a row-echelon form the scan stops in each row at its leading entry.
pub proof fn lemma_scan_is_leading<T: Scalar>(m: Seq<Seq<T>>, r: int, rows: nat, cols: nat)
    requires
        is_grid(m, rows, cols),
        is_echelon(m),
        0 <= r < rows,
    ensures
        scan_column(m, r) == leading(m, r),
    decreases r,
{
    if r > 0 {
        lemma_scan_is_leading(m, r - 1, rows, cols);
        let above = leading(m, r - 1);
        let here = leading(m, r);
        lemma_next_nonzero(m[r - 1], 0);
        lemma_next_nonzero(m[r], 0);
        assert(above < here || here >= width(m));
        lemma_next_nonzero_is(m[r], above, here);
    }
}

/// From a row-echelon form a solution is read exactly when no row is zero.
pub proof fn law_read_solution_echelon<T: Scalar>(m: Seq<Seq<T>>, rows: nat, cols: nat)
    requires
        is_grid(m, rows, cols),
        is_echelon(m),
    ensures
        read_solution(m).is_some() <==> (forall|r: int| 0 <= r < rows ==> leading(m, r) < cols),
{
    if rows > 0 {
        assert(width(m) == cols);
        assert forall|r: int| 0 <= r < rows implies scan_column(m, r) == leading(m, r) by {
            lemma_scan_is_leading(m, r, rows, cols);
        }
        if determined(m) {
            assert forall|r: int| 0 <= r < rows implies leading(m, r) < cols by {
                assert(scan_column(m, r) == leading(m, r));
            }
        }
    }
}

/// The solver finds a solution exactly when the reduced row-echelon form of
/// the system has no row of zeros, and the solution is then the last column
/// of that form.
pub proof fn law_solution_characterised<T: Field>(m: Seq<Seq<T>>, rows: nat, cols: nat)
    requires
        is_grid(m, rows, cols),
    ensures
        solution(m).is_some() <==> (forall|r: int|
            0 <= r < rows ==> leading(reduced_form(echelon_form(m)), r) < cols),
        solution(m).is_some() ==> solution(m).unwrap() == Seq::new(
            rows,
            |r: int| reduced_form(echelon_form(m))[r][cols - 1],
        ),
{
    let e = reduced_form(echelon_form(m));
    law_eliminated_form(m, rows, cols);
    law_read_solution_echelon(e, rows, cols);
    if rows > 0 {
        assert(width(e) == cols);
    } else {
        assert(Seq::new(e.len(), |r: int| e[r][width(e) - 1]) =~= Seq::new(
            rows,
            |r: int| e[r][cols - 1],
        ));
    }
}

/// The first `row` rows, and no others, have their leading entry before
/// column `c`.
pub open spec fn pivots_before<T: Scalar>(m: Seq<Seq<T>>, c: int, row: int) -> bool {
    &&& forall|r: int| 0 <= r < row ==> #[trigger] leading(m, r) < c
    &&& forall|r: int| row <= r < m.len() ==> #[trigger] leading(m, r) >= c
}

/// In a reduced row-echelon form, the pivot position of column `c` holds
/// either the leading entry of its row, which is one, or zero together with
/// all rows below it.
proof fn lemma_pivot_position<T: Field>(m: Seq<Seq<T>>, c: int, row: int, rows: nat, cols: nat)
    requires
        is_grid(m, rows, cols),
        is_reduced(m),
        0 <= c < cols,
        0 <= row < rows,
        pivots_before(m, c, row),
    ensures
        m[row][c] != T::zero_spec() ==> leading(m, row) == c && m[row][c] == T::one_spec()
            && pivots_before(m, c + 1, row + 1),
        m[row][c] != T::zero_spec() ==> forall|r: int|
            0 <= r < rows && r != row ==> (#[trigger] m[r])[c] == T::zero_spec(),
        m[row][c] == T::zero_spec() ==> pivots_before(m, c + 1, row),
        m[row][c] == T::zero_spec() ==> forall|r: int|
            row <= r < rows ==> (#[trigger] m[r])[c] == T::zero_spec(),
{
    assert(width(m) == cols);
    lemma_next_nonzero(m[row], 0);
    assert(leading(m, row) >= c);
    if m[row][c] != T::zero_spec() {
        assert(leading(m, row) == c);
        assert forall|r: int| row + 1 <= r < m.len() implies #[trigger] leading(m, r) >= c + 1 by {
            assert(leading(m, row) < leading(m, r) || leading(m, r) >= width(m));
        }
        assert forall|r: int| 0 <= r < rows && r != row implies (#[trigger] m[r])[c]
            == T::zero_spec() by {
            assert(m[r][leading(m, row)] == T::zero_spec());
        }
    } else {
        assert(leading(m, row) > c);
        assert forall|r: int| row <= r < m.len() implies #[trigger] leading(m, r) >= c + 1 by {
            if r > row {
                assert(leading(m, row) < leading(m, r) || leading(m, r) >= width(m));
            }
        }
        assert forall|r: int| row <= r < rows implies (#[trigger] m[r])[c] == T::zero_spec() by {
            lemma_next_nonzero(m[r], 0);
            assert(leading(m, r) >= c + 1);
        }
    }
}

/// Forward elimination leaves a reduced row-echelon form as it is.
proof fn lemma_echelon_fixed<T: Field>(m: Seq<Seq<T>>, c: int, row: int, rows: nat, cols: nat)
    requires
        is_grid(m, rows, cols),
        is_reduced(m),
        0 <= c <= cols,
        0 <= row <= rows,
        pivots_before(m, c, row),
    ensures
        echelon_from(m, c, row, cols as int) == m,
    decreases cols - c,
{
    if c < cols && row < rows {
        lemma_pivot_position(m, c, row, rows, cols);
        lemma_pivot_search(m, c, row);
        if m[row][c] != T::zero_spec() {
            assert(pivot_search(m, c, row) == row);
            assert(swap_rows(m, row, row) =~= m);
            let f = m[row][c].inv_spec().neg_spec();
            let scaled = scale_row(m, row, f);
            let cleared = clear_below(scaled, c, row);
            assert forall|r: int| 0 <= r < rows implies cleared[r] == scaled[r] by {
                if r > row {
                    assert(scaled[r] == m[r]);
                    assert(m[r][c] == T::zero_spec());
                }
            }
            assert(cleared =~= scaled);
            let out = scale_row(scaled, row, T::one_spec().neg_spec());
            assert(out == pivot_step(m, c, row, row));
            lemma_inv_one::<T>();
            assert forall|k: int| 0 <= k < cols implies out[row][k] == m[row][k] by {
                assert(scaled[row][k] == m[row][k].mul_spec(f));
                lemma_negate_twice(m[row][k]);
            }
            assert(out[row] =~= m[row]);
            assert(out =~= m);
            lemma_echelon_fixed(m, c + 1, row + 1, rows, cols);
        } else {
            assert(pivot_search(m, c, row) == rows) by {
                let p = pivot_search(m, c, row);
                if p < rows {
                    assert(m[p][c] == T::zero_spec());
                }
            }
            lemma_echelon_fixed(m, c + 1, row, rows, cols);
        }
    }
}

/// Backward elimination leaves a reduced row-echelon form as it is.
proof fn lemma_reduce_fixed<T: Field>(m: Seq<Seq<T>>, c: int, row: int, rows: nat, cols: nat)
    requires
        is_grid(m, rows, cols),
        is_reduced(m),
        0 <= c <= cols,
        0 <= row <= rows,
        pivots_before(m, c, row),
    ensures
        reduce_from(m, c, row, cols as int) == m,
    decreases cols - c,
{
    if c < cols && row < rows {
        lemma_pivot_position(m, c, row, rows, cols);
        if m[row][c] != T::zero_spec() {
            let out = clear_above(m, c, row);
            assert forall|r: int| 0 <= r < rows implies out[r] =~= m[r] by {
                if r < row {
                    assert forall|k: int| 0 <= k < cols implies out[r][k] == m[r][k] by {
                        assert(m[r][c] == T::zero_spec());
                        lemma_neg_zero::<T>();
                        lemma_mul_zero(m[row][k]);
                        T::add_zero(m[r][k]);
                    }
                }
            }
            assert(out =~= m);
            lemma_reduce_fixed(m, c + 1, row + 1, rows, cols);
        } else {
            lemma_reduce_fixed(m, c + 1, row, rows, cols);
        }
    }
}

/// Elimination leaves a reduced row-echelon form as it is.
pub proof fn law_reduced_unchanged<T: Field>(m: Seq<Seq<T>>, rows: nat, cols: nat)
    requires
        is_grid(m, rows, cols),
        is_reduced(m),
    ensures
        echelon_form(m) == m,
        reduced_form(m) == m,
{
    if rows > 0 {
        assert(width(m) == cols);
        assert forall|r: int| 0 <= r < m.len() implies #[trigger] leading(m, r) >= 0 by {
            lemma_next_nonzero(m[r], 0);
        }
        lemma_echelon_fixed(m, 0, 0, rows, cols);
        lemma_reduce_fixed(m, 0, 0, rows, cols);
    }
}

/// Eliminating a second time changes nothing.
pub proof fn law_eliminate_twice<T: Field>(m: Seq<Seq<T>>, rows: nat, cols: nat)
    requires
        is_grid(m, rows, cols),
    ensures
        reduced_form(echelon_form(reduced_form(echelon_form(m)))) == reduced_form(echelon_form(m)),
{
    law_eliminated_form(m, rows, cols);
    law_reduced_unchanged(reduced_form(echelon_form(m)), rows, cols);
}

/// For a system that is given in reduced row-echelon form without a row of
/// zeros, the solver returns the last column.
pub proof fn law_reduced_system<T: Field>(m: Seq<Seq<T>>, rows: nat, cols: nat)
    requires
        is_grid(m, rows, cols),
        is_reduced(m),
        forall|r: int| 0 <= r < rows ==> leading(m, r) < cols,
    ensures
        solution(m) == Some(Seq::new(rows, |r: int| m[r][cols - 1])),
{
    law_reduced_unchanged(m, rows, cols);
    law_solution_characterised(m, rows, cols);
}

/// The augmented matrix `[I | b]`: the identity matrix with the column `b`
/// appended.
pub open spec fn identity_augmented<T: Scalar>(b: Seq<T>) -> Seq<Seq<T>> {
    Seq::new(
        b.len(),
        |r: int|
            Seq::new(
                b.len() + 1,
                |k: int|
                    if k == r {
                        T::one_spec()
                    } else if k == b.len() {
                        b[r]
                    } else {
                        T::zero_spec()
                    },
            ),
    )
}

/// `[I | b]` is in reduced row-echelon form with its leading entries on the
/// diagonal.
proof fn lemma_identity_reduced<T: Field>(b: Seq<T>)
    ensures
        is_grid(identity_augmented(b), b.len(), b.len() + 1),
        is_reduced(identity_augmented(b)),
        forall|r: int| 0 <= r < b.len() ==> leading(identity_augmented(b), r) == r,
{
    let m = identity_augmented(b);
    T::one_not_zero();
    assert forall|r: int| 0 <= r < b.len() implies leading(m, r) == r by {
        assert(m[r][r] == T::one_spec());
        assert forall|k: int| 0 <= k < r implies m[r][k] == T::zero_spec() by {}
        lemma_next_nonzero_is(m[r], 0, r);
    }
    assert forall|x: int, y: int| 0 <= x < y < m.len() implies #[trigger] leading(m, x)
        < #[trigger] leading(m, y) || leading(m, y) >= width(m) by {
        assert(leading(m, x) == x);
        assert(leading(m, y) == y);
    }
    assert forall|r: int| 0 <= r < m.len() && #[trigger] leading(m, r) < width(m) implies m[r][leading(
        m,
        r,
    )] == T::one_spec() by {
        assert(leading(m, r) == r);
    }
    assert forall|r: int, s: int|
        0 <= r < m.len() && 0 <= s < m.len() && r != s && leading(m, r) < width(m) implies #[trigger] m[s][#[trigger] leading(
        m,
        r,
    )] == T::zero_spec() by {
        assert(leading(m, r) == r);
    }
}

/// The solver returns `b` for the system `[I | b]`.
pub proof fn law_identity_system<T: Field>(b: Seq<T>)
    ensures
        solution(identity_augmented(b)) == Some(b),
{
    let m = identity_augmented(b);
    lemma_identity_reduced(b);
    law_reduced_system(m, b.len(), b.len() + 1);
    assert(Seq::new(b.len(), |r: int| m[r][b.len() + 1 - 1]) =~= b);
}

} // verus!
