//! Row-echelon form and reduced row-echelon form, and the proof that the two
//! passes of elimination establish them over any field.

use crate::algebra::{
    lemma_add_zero_multiple, lemma_mul_neg_inv, lemma_mul_neg_one, lemma_mul_zero, lemma_neg_neg,
    lemma_one_mul,
};
use crate::elimination::{
    clear_above, clear_below, echelon_form, echelon_from, next_nonzero, pivot_search, pivot_step,
    reduce_from, reduced_form,
};
use crate::grid::{is_grid, scale_row, swap_rows, width};
use crate::scalar::{Field, Scalar};
use vstd::prelude::*;

verus! {

/// The column of the leading entry of row `r`, that is of its first nonzero
/// entry; the length of the row if all its entries are zero.
pub open spec fn leading<T: Scalar>(m: Seq<Seq<T>>, r: int) -> int {
    next_nonzero(m[r], 0)
}

/// Row-echelon form: the leading entry of each row lies strictly to the
/// right of that of the row above, and rows of zeros come last.
pub open spec fn is_echelon<T: Scalar>(m: Seq<Seq<T>>) -> bool {
    forall|a: int, b: int|
        0 <= a < b < m.len() ==> #[trigger] leading(m, a) < #[trigger] leading(m, b) || leading(m, b)
            >= width(m)
}

/// Every leading entry is one.
pub open spec fn has_unit_pivots<T: Scalar>(m: Seq<Seq<T>>) -> bool {
    forall|r: int|
        0 <= r < m.len() && #[trigger] leading(m, r) < width(m) ==> m[r][leading(m, r)]
            == T::one_spec()
}

/// Every entry to the left of a leading entry is zero.
pub open spec fn zero_left_of_pivots<T: Scalar>(m: Seq<Seq<T>>) -> bool {
    forall|r: int, k: int|
        0 <= r < m.len() && 0 <= k < leading(m, r) && k < width(m) ==> #[trigger] m[r][k]
            == T::zero_spec()
}

/// Below a leading entry, its column is zero.
pub open spec fn zero_below_pivots<T: Scalar>(m: Seq<Seq<T>>) -> bool {
    forall|r: int, s: int|
        0 <= r < s < m.len() && leading(m, r) < width(m) ==> #[trigger] m[s][#[trigger] leading(m, r)]
            == T::zero_spec()
}

/// Apart from a leading entry, its column is zero.
pub open spec fn zero_beside_pivots<T: Scalar>(m: Seq<Seq<T>>) -> bool {
    forall|r: int, s: int|
        0 <= r < m.len() && 0 <= s < m.len() && r != s && leading(m, r) < width(m)
            ==> #[trigger] m[s][#[trigger] leading(m, r)] == T::zero_spec()
}

/// Reduced row-echelon form: row-echelon form in which every leading entry
/// is one and is the only nonzero entry of its column.
pub open spec fn is_reduced<T: Scalar>(m: Seq<Seq<T>>) -> bool {
    &&& is_echelon(m)
    &&& has_unit_pivots(m)
    &&& zero_beside_pivots(m)
}

/// `next_nonzero` returns a position at or after `from`, before which the
/// sequence is zero from `from` on, and at which it is nonzero.
pub proof fn lemma_next_nonzero<T: Scalar>(s: Seq<T>, from: int)
    requires
        0 <= from <= s.len(),
    ensures
        from <= next_nonzero(s, from) <= s.len(),
        forall|k: int| from <= k < next_nonzero(s, from) ==> s[k] == T::zero_spec(),
        next_nonzero(s, from) < s.len() ==> s[next_nonzero(s, from)] != T::zero_spec(),
    decreases s.len() - from,
{
    if from < s.len() && s[from] == T::zero_spec() {
        lemma_next_nonzero(s, from + 1);
    }
}

/// The position that `next_nonzero` returns is the only one with these
/// properties.
pub proof fn lemma_next_nonzero_is<T: Scalar>(s: Seq<T>, from: int, k: int)
    requires
        0 <= from <= k <= s.len(),
        forall|j: int| from <= j < k ==> s[j] == T::zero_spec(),
        k < s.len() ==> s[k] != T::zero_spec(),
    ensures
        next_nonzero(s, from) == k,
    decreases k - from,
{
    if from < k {
        lemma_next_nonzero_is(s, from + 1, k);
    }
}

/// `pivot_search` returns a row at or after `from`, before which column `c`
/// is zero from row `from` on, and in which it is nonzero.
pub proof fn lemma_pivot_search<T: Scalar>(m: Seq<Seq<T>>, c: int, from: int)
    requires
        0 <= from <= m.len(),
    ensures
        from <= pivot_search(m, c, from) <= m.len(),
        forall|r: int| from <= r < pivot_search(m, c, from) ==> m[r][c] == T::zero_spec(),
        pivot_search(m, c, from) < m.len() ==> m[pivot_search(m, c, from)][c] != T::zero_spec(),
    decreases m.len() - from,
{
    if from < m.len() && m[from][c] == T::zero_spec() {
        lemma_pivot_search(m, c, from + 1);
    }
}

/// The state of forward elimination before column `c` with `row` pivots
/// placed: the first `row` rows have unit leading entries in strictly
/// increasing columns before `c`, and the other rows are zero before column
/// `c`.
pub open spec fn echelon_prefix<T: Scalar>(m: Seq<Seq<T>>, c: int, row: int) -> bool {
    &&& forall|r: int, k: int| row <= r < m.len() && 0 <= k < c ==> #[trigger] m[r][k] == T::zero_spec()
    &&& forall|r: int|
        0 <= r < row ==> #[trigger] leading(m, r) < c && m[r][leading(m, r)] == T::one_spec()
    &&& forall|a: int, b: int|
        0 <= a < b < row ==> #[trigger] leading(m, a) < #[trigger] leading(m, b)
}

/// What a pivot step does to each row: the rows above the pivot position
/// stay, the pivot row is the chosen row scaled twice, and each row below is
/// either kept or combined with the scaled pivot row.
proof fn lemma_pivot_step_rows<T: Scalar>(m: Seq<Seq<T>>, c: int, row: int, p: int, rows: nat, cols: nat)
    requires
        is_grid(m, rows, cols),
        0 <= c < cols,
        0 <= row <= p < rows,
    ensures
        is_grid(pivot_step(m, c, row, p), rows, cols),
        forall|r: int| 0 <= r < row ==> #[trigger] pivot_step(m, c, row, p)[r] == m[r],
        forall|k: int|
            0 <= k < cols ==> #[trigger] pivot_step(m, c, row, p)[row][k] == m[p][k].mul_spec(
                m[p][c].inv_spec().neg_spec(),
            ).mul_spec(T::one_spec().neg_spec()),
        forall|r: int, k: int|
            row < r < rows && 0 <= k < cols ==> #[trigger] pivot_step(m, c, row, p)[r][k] == ({
                let s = if r == p {
                    m[row]
                } else {
                    m[r]
                };
                if s[c] != T::zero_spec() {
                    s[k].mul_spec(s[c].inv_spec()).add_spec(
                        m[p][k].mul_spec(m[p][c].inv_spec().neg_spec()),
                    )
                } else {
                    s[k]
                }
            }),
{
    let swapped = swap_rows(m, row, p);
    let f = swapped[row][c].inv_spec().neg_spec();
    let scaled = scale_row(swapped, row, f);
    let cleared = clear_below(scaled, c, row);
    let out = scale_row(cleared, row, T::one_spec().neg_spec());
    assert(out == pivot_step(m, c, row, p));
    assert(is_grid(swapped, rows, cols));
    assert(is_grid(scaled, rows, cols));
    assert(is_grid(cleared, rows, cols)) by {
        assert forall|r: int| 0 <= r < rows implies (#[trigger] cleared[r]).len() == cols by {
            assert(scaled[r].len() == cols);
        }
    }
    assert(is_grid(out, rows, cols));
    assert(swapped[row] == m[p]);
    assert forall|k: int| 0 <= k < cols implies #[trigger] out[row][k] == m[p][k].mul_spec(
        m[p][c].inv_spec().neg_spec(),
    ).mul_spec(T::one_spec().neg_spec()) by {
        assert(scaled[row][k] == swapped[row][k].mul_spec(f));
        assert(cleared[row] == scaled[row]);
    }
    assert forall|r: int, k: int| row < r < rows && 0 <= k < cols implies #[trigger] out[r][k] == ({
        let s = if r == p {
            m[row]
        } else {
            m[r]
        };
        if s[c] != T::zero_spec() {
            s[k].mul_spec(s[c].inv_spec()).add_spec(m[p][k].mul_spec(m[p][c].inv_spec().neg_spec()))
        } else {
            s[k]
        }
    }) by {
        assert(out[r] == cleared[r]);
        assert(scaled[r] == swapped[r]);
        assert(scaled[row][k] == swapped[row][k].mul_spec(f));
    }
}

/// A pivot step extends the echelon prefix by one row and one column.
proof fn lemma_pivot_step<T: Field>(m: Seq<Seq<T>>, c: int, row: int, p: int, rows: nat, cols: nat)
    requires
        is_grid(m, rows, cols),
        0 <= c < cols,
        0 <= row <= p < rows,
        echelon_prefix(m, c, row),
        m[p][c] != T::zero_spec(),
    ensures
        is_grid(pivot_step(m, c, row, p), rows, cols),
        echelon_prefix(pivot_step(m, c, row, p), c + 1, row + 1),
{
    let out = pivot_step(m, c, row, p);
    let zero = T::zero_spec();
    let one = T::one_spec();
    let f = m[p][c].inv_spec().neg_spec();
    lemma_pivot_step_rows(m, c, row, p, rows, cols);
    // The new pivot row: zero before column `c`, one in it.
    assert forall|k: int| 0 <= k < c implies out[row][k] == zero by {
        assert(m[p][k] == zero);
        lemma_mul_zero(f);
        lemma_mul_zero(one.neg_spec());
    }
    assert(out[row][c] == one) by {
        lemma_mul_neg_inv(m[p][c]);
        lemma_mul_neg_one(one.neg_spec());
        lemma_neg_neg(one);
    }
    T::one_not_zero();
    lemma_next_nonzero_is(out[row], 0, c);
    assert(leading(out, row) == c);
    // The rows below: zero up to column `c`.
    assert forall|r: int, k: int| row + 1 <= r < out.len() && 0 <= k < c + 1 implies #[trigger] out[r][k]
        == zero by {
        let s = if r == p {
            m[row]
        } else {
            m[r]
        };
        assert(k < c ==> s[k] == zero);
        if s[c] != zero {
            if k < c {
                assert(m[p][k] == zero);
                lemma_mul_zero(s[c].inv_spec());
                lemma_mul_zero(f);
                T::add_zero(zero);
            } else {
                T::mul_inv(s[c]);
                lemma_mul_neg_inv(m[p][c]);
                T::add_neg(one);
            }
        }
    }
    // The rows above are as they were.
    assert forall|r: int| 0 <= r < row + 1 implies #[trigger] leading(out, r) < c + 1 && out[r][leading(
        out,
        r,
    )] == one by {
        if r < row {
            assert(out[r] == m[r]);
            assert(leading(m, r) < c);
        }
    }
    assert forall|a: int, b: int| 0 <= a < b < row + 1 implies #[trigger] leading(out, a)
        < #[trigger] leading(out, b) by {
        assert(out[a] == m[a]);
        assert(leading(m, a) < c);
        if b < row {
            assert(out[b] == m[b]);
            assert(leading(m, a) < leading(m, b));
        }
    }
}

/// An echelon prefix that covers all columns or all rows is a row-echelon
/// form with unit pivots.
proof fn lemma_prefix_complete<T: Scalar>(m: Seq<Seq<T>>, c: int, row: int, rows: nat, cols: nat)
    requires
        is_grid(m, rows, cols),
        0 <= c <= cols,
        0 <= row <= rows,
        c == cols || row == rows,
        echelon_prefix(m, c, row),
    ensures
        is_echelon(m),
        has_unit_pivots(m),
{
    assert forall|r: int| row <= r < rows implies leading(m, r) == cols by {
        assert forall|k: int| 0 <= k < cols implies m[r][k] == T::zero_spec() by {
            assert(m[r][k] == T::zero_spec());
        }
        lemma_next_nonzero_is(m[r], 0, cols as int);
    }
    assert forall|a: int, b: int| 0 <= a < b < m.len() implies #[trigger] leading(m, a)
        < #[trigger] leading(m, b) || leading(m, b) >= width(m) by {
        if b >= row {
            assert(leading(m, b) == cols);
        }
    }
    assert forall|r: int| 0 <= r < m.len() && #[trigger] leading(m, r) < width(m) implies m[r][leading(
        m,
        r,
    )] == T::one_spec() by {
        if r >= row {
            assert(leading(m, r) == cols);
        }
    }
}

/// Forward elimination completes an echelon prefix to a row-echelon form
/// with unit pivots.
proof fn lemma_echelon_from<T: Field>(m: Seq<Seq<T>>, c: int, row: int, rows: nat, cols: nat)
    requires
        is_grid(m, rows, cols),
        0 <= c <= cols,
        0 <= row <= rows,
        echelon_prefix(m, c, row),
    ensures
        is_grid(echelon_from(m, c, row, cols as int), rows, cols),
        is_echelon(echelon_from(m, c, row, cols as int)),
        has_unit_pivots(echelon_from(m, c, row, cols as int)),
    decreases cols - c,
{
    if c >= cols || row >= rows {
        lemma_prefix_complete(m, c, row, rows, cols);
    } else {
        let p = pivot_search(m, c, row);
        lemma_pivot_search(m, c, row);
        if p >= rows {
            assert forall|r: int, k: int| row <= r < m.len() && 0 <= k < c + 1 implies #[trigger] m[r][k]
                == T::zero_spec() by {
                if k == c {
                    assert(m[r][c] == T::zero_spec());
                }
            }
            lemma_echelon_from(m, c + 1, row, rows, cols);
        } else {
            lemma_pivot_step(m, c, row, p, rows, cols);
            lemma_echelon_from(pivot_step(m, c, row, p), c + 1, row + 1, rows, cols);
        }
    }
}

/// In a row-echelon form, the entries to the left of a leading entry and
/// the entries below it in its column are zero.
pub proof fn lemma_echelon_zeros<T: Scalar>(m: Seq<Seq<T>>, rows: nat, cols: nat)
    requires
        is_grid(m, rows, cols),
        is_echelon(m),
    ensures
        zero_left_of_pivots(m),
        zero_below_pivots(m),
{
    assert forall|r: int, k: int| 0 <= r < m.len() && 0 <= k < leading(m, r) && k < width(m) implies #[trigger] m[r][k]
        == T::zero_spec() by {
        lemma_next_nonzero(m[r], 0);
    }
    assert forall|r: int, s: int| 0 <= r < s < m.len() && leading(m, r) < width(m) implies #[trigger] m[s][#[trigger] leading(
        m,
        r,
    )] == T::zero_spec() by {
        lemma_next_nonzero(m[r], 0);
        lemma_next_nonzero(m[s], 0);
        assert(leading(m, r) < leading(m, s) || leading(m, s) >= width(m));
    }
}

/// Forward elimination gives a row-echelon form with unit pivots: the
/// leading entries move strictly to the right from row to row, rows of zeros
/// come last, and below every leading entry, as to its left, all entries
/// are zero.
pub proof fn law_echelon_form<T: Field>(m: Seq<Seq<T>>, rows: nat, cols: nat)
    requires
        is_grid(m, rows, cols),
    ensures
        is_grid(echelon_form(m), rows, cols),
        is_echelon(echelon_form(m)),
        has_unit_pivots(echelon_form(m)),
        zero_left_of_pivots(echelon_form(m)),
        zero_below_pivots(echelon_form(m)),
{
    if rows == 0 {
        assert(echelon_form(m) == m);
        assert(is_grid(m, rows, cols));
    } else {
        assert(width(m) == cols);
        lemma_echelon_from(m, 0, 0, rows, cols);
    }
    lemma_echelon_zeros(echelon_form(m), rows, cols);
}

/// The state of backward elimination before column `c` with `row` pivots
/// passed: the matrix is a row-echelon form with unit pivots, the rows with
/// a leading entry before column `c` are exactly the first `row` rows, and
/// the columns of their leading entries are zero in every other row.
pub open spec fn reduced_prefix<T: Scalar>(m: Seq<Seq<T>>, c: int, row: int) -> bool {
    &&& is_echelon(m)
    &&& has_unit_pivots(m)
    &&& forall|r: int| 0 <= r < row ==> #[trigger] leading(m, r) < c
    &&& forall|r: int| row <= r < m.len() ==> #[trigger] leading(m, r) >= c
    &&& forall|r: int, s: int|
        0 <= r < row && 0 <= s < m.len() && r != s ==> #[trigger] m[s][#[trigger] leading(m, r)]
            == T::zero_spec()
}

/// Clearing a pivot column above its pivot keeps every leading entry where
/// it is and extends the reduced prefix by one row and one column.
proof fn lemma_clear_above<T: Field>(m: Seq<Seq<T>>, c: int, row: int, rows: nat, cols: nat)
    requires
        is_grid(m, rows, cols),
        0 <= c < cols,
        0 <= row < rows,
        reduced_prefix(m, c, row),
        m[row][c] != T::zero_spec(),
    ensures
        is_grid(clear_above(m, c, row), rows, cols),
        reduced_prefix(clear_above(m, c, row), c + 1, row + 1),
        forall|r: int| 0 <= r < rows ==> leading(clear_above(m, c, row), r) == #[trigger] leading(m, r),
{
    let out = clear_above(m, c, row);
    let zero = T::zero_spec();
    let one = T::one_spec();
    assert(width(m) == cols);
    assert(width(out) == cols);
    assert(is_grid(out, rows, cols));
    // Column `c` holds the leading entry of row `row`, which is one.
    lemma_next_nonzero(m[row], 0);
    assert(leading(m, row) >= c);
    assert(leading(m, row) == c);
    assert(m[row][c] == one);
    assert forall|k: int| 0 <= k < c implies m[row][k] == zero by {}
    // The rows above keep their entries before column `c` and lose the one
    // in column `c`.
    assert forall|r: int, k: int| 0 <= r < row && 0 <= k < c implies #[trigger] out[r][k] == m[r][k] by {
        assert(m[row][k] == zero);
        lemma_add_zero_multiple(m[r][k], m[r][c].neg_spec());
    }
    assert forall|r: int| 0 <= r < row implies #[trigger] out[r][c] == zero by {
        lemma_one_mul(m[r][c].neg_spec());
        T::add_neg(m[r][c]);
    }
    assert forall|r: int| row <= r < rows implies #[trigger] out[r] == m[r] by {}
    assert forall|r: int| 0 <= r < rows implies leading(out, r) == #[trigger] leading(m, r) by {
        if r < row {
            let k = leading(m, r);
            lemma_next_nonzero(m[r], 0);
            assert(k < c);
            assert forall|j: int| 0 <= j < k implies out[r][j] == zero by {
                assert(out[r][j] == m[r][j]);
            }
            assert(out[r][k] == m[r][k]);
            lemma_next_nonzero_is(out[r], 0, k);
        } else {
            assert(out[r] == m[r]);
        }
    }
    assert forall|a: int, b: int| 0 <= a < b < out.len() implies #[trigger] leading(out, a)
        < #[trigger] leading(out, b) || leading(out, b) >= width(out) by {
        assert(leading(out, a) == leading(m, a));
        assert(leading(out, b) == leading(m, b));
    }
    assert forall|r: int| 0 <= r < out.len() && #[trigger] leading(out, r) < width(out) implies out[r][leading(
        out,
        r,
    )] == one by {
        assert(leading(out, r) == leading(m, r));
        if r < row {
            lemma_next_nonzero(m[r], 0);
            assert(leading(m, r) < c);
            assert(out[r][leading(m, r)] == m[r][leading(m, r)]);
        } else {
            assert(out[r] == m[r]);
        }
    }
    assert forall|r: int| 0 <= r < row + 1 implies #[trigger] leading(out, r) < c + 1 by {
        assert(leading(out, r) == leading(m, r));
    }
    assert forall|r: int| row + 1 <= r < out.len() implies #[trigger] leading(out, r) >= c + 1 by {
        assert(leading(out, r) == leading(m, r));
        assert(leading(m, row) < leading(m, r) || leading(m, r) >= width(m));
    }
    assert forall|r: int, s: int| 0 <= r < row + 1 && 0 <= s < out.len() && r != s implies #[trigger] out[s][#[trigger] leading(
        out,
        r,
    )] == zero by {
        assert(leading(out, r) == leading(m, r));
        if r < row {
            let k = leading(m, r);
            lemma_next_nonzero(m[r], 0);
            assert(k < c);
            assert(m[s][k] == zero);
            if s < row {
                assert(out[s][k] == m[s][k]);
            } else {
                assert(out[s] == m[s]);
            }
        } else {
            if s < row {
                assert(out[s][c] == zero);
            } else {
                assert(out[s] == m[s]);
                lemma_next_nonzero(m[s], 0);
                assert(leading(m, row) < leading(m, s) || leading(m, s) >= width(m));
            }
        }
    }
}

/// A reduced prefix that covers all columns or all rows is a reduced
/// row-echelon form.
proof fn lemma_reduced_complete<T: Scalar>(m: Seq<Seq<T>>, c: int, row: int, rows: nat, cols: nat)
    requires
        is_grid(m, rows, cols),
        0 <= c <= cols,
        0 <= row <= rows,
        c == cols || row == rows,
        reduced_prefix(m, c, row),
    ensures
        is_reduced(m),
{
    assert forall|r: int, s: int|
        0 <= r < m.len() && 0 <= s < m.len() && r != s && leading(m, r) < width(m) implies #[trigger] m[s][#[trigger] leading(
        m,
        r,
    )] == T::zero_spec() by {
        if r >= row {
            assert(leading(m, r) >= c);
        }
    }
}

/// Backward elimination completes a reduced prefix to a reduced row-echelon
/// form and moves no leading entry.
proof fn lemma_reduce_from<T: Field>(m: Seq<Seq<T>>, c: int, row: int, rows: nat, cols: nat)
    requires
        is_grid(m, rows, cols),
        0 <= c <= cols,
        0 <= row <= rows,
        reduced_prefix(m, c, row),
    ensures
        is_grid(reduce_from(m, c, row, cols as int), rows, cols),
        is_reduced(reduce_from(m, c, row, cols as int)),
        forall|r: int|
            0 <= r < rows ==> leading(reduce_from(m, c, row, cols as int), r) == #[trigger] leading(m, r),
    decreases cols - c,
{
    if c >= cols || row >= rows {
        lemma_reduced_complete(m, c, row, rows, cols);
    } else if m[row][c] == T::zero_spec() {
        lemma_next_nonzero(m[row], 0);
        assert(leading(m, row) >= c);
        assert forall|r: int| row <= r < m.len() implies #[trigger] leading(m, r) >= c + 1 by {
            if r > row {
                assert(leading(m, row) < leading(m, r) || leading(m, r) >= width(m));
            }
        }
        lemma_reduce_from(m, c + 1, row, rows, cols);
    } else {
        lemma_clear_above(m, c, row, rows, cols);
        let next = clear_above(m, c, row);
        lemma_reduce_from(next, c + 1, row + 1, rows, cols);
        assert forall|r: int| 0 <= r < rows implies leading(reduce_from(m, c, row, cols as int), r)
            == #[trigger] leading(m, r) by {
            assert(leading(next, r) == leading(m, r));
        }
    }
}

/// Backward elimination brings a row-echelon form with unit pivots to
/// reduced row-echelon form: every leading entry stays where it is, is one,
/// and is the only nonzero entry of its column.
pub proof fn law_reduced_form<T: Field>(m: Seq<Seq<T>>, rows: nat, cols: nat)
    requires
        is_grid(m, rows, cols),
        is_echelon(m),
        has_unit_pivots(m),
    ensures
        is_grid(reduced_form(m), rows, cols),
        is_reduced(reduced_form(m)),
        forall|r: int| 0 <= r < rows ==> leading(reduced_form(m), r) == #[trigger] leading(m, r),
{
    if rows == 0 {
        assert(reduced_form(m) == m);
        assert(is_reduced(m));
    } else {
        assert(width(m) == cols);
        assert forall|r: int| 0 <= r < m.len() implies #[trigger] leading(m, r) >= 0 by {
            lemma_next_nonzero(m[r], 0);
        }
        lemma_reduce_from(m, 0, 0, rows, cols);
    }
}

/// Both passes of elimination together bring any matrix to reduced
/// row-echelon form.
pub proof fn law_eliminated_form<T: Field>(m: Seq<Seq<T>>, rows: nat, cols: nat)
    requires
        is_grid(m, rows, cols),
    ensures
        is_grid(reduced_form(echelon_form(m)), rows, cols),
        is_reduced(reduced_form(echelon_form(m))),
{
    law_echelon_form(m, rows, cols);
    law_reduced_form(echelon_form(m), rows, cols);
}

} // verus!
