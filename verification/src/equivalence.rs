//! Row equivalence: elimination changes a matrix by elementary row
//! operations only.

use crate::algebra::{lemma_inv_nonzero, lemma_mul_inv_cancel, lemma_mul_neg, lemma_neg_nonzero};
use crate::echelon::lemma_pivot_search;
use crate::elimination::{
    clear_above, clear_below, echelon_form, echelon_from, pivot_search, pivot_step, reduce_from,
    reduced_form,
};
use crate::grid::{add_row, add_row_multiple, is_grid, scale_row, swap_rows, width};
use crate::scalar::{Field, Scalar};
use vstd::prelude::*;

verus! {

/// Whether `n` comes from `m` by one elementary row operation: an exchange
/// of two rows, the multiplication of a row by a nonzero factor, or the
/// addition of a multiple of one row to another.
pub open spec fn elementary_step<T: Scalar>(m: Seq<Seq<T>>, n: Seq<Seq<T>>) -> bool {
    ||| exists|a: int, b: int| 0 <= a < m.len() && 0 <= b < m.len() && n == #[trigger] swap_rows(m, a, b)
    ||| exists|r: int, f: T|
        0 <= r < m.len() && f != T::zero_spec() && n == #[trigger] scale_row(m, r, f)
    ||| exists|a: int, b: int, f: T|
        0 <= a < m.len() && 0 <= b < m.len() && a != b && n == #[trigger] add_row_multiple(m, a, b, f)
}

/// Whether `n` comes from `m` by exactly `steps` elementary row operations.
pub open spec fn reachable<T: Scalar>(m: Seq<Seq<T>>, n: Seq<Seq<T>>, steps: nat) -> bool
    decreases steps,
{
    if steps == 0 {
        n == m
    } else {
        exists|mid: Seq<Seq<T>>|
            #![trigger elementary_step(mid, n)]
            reachable(m, mid, (steps - 1) as nat) && elementary_step(mid, n)
    }
}

/// Whether `n` comes from `m` by elementary row operations.
pub open spec fn row_equivalent<T: Scalar>(m: Seq<Seq<T>>, n: Seq<Seq<T>>) -> bool {
    exists|steps: nat| reachable(m, n, steps)
}

/// Every matrix is row equivalent to itself.
pub proof fn lemma_equivalent_reflexive<T: Scalar>(m: Seq<Seq<T>>)
    ensures
        row_equivalent(m, m),
{
    assert(reachable(m, m, 0));
}

/// One more elementary row operation keeps row equivalence.
pub proof fn lemma_equivalent_step<T: Scalar>(m: Seq<Seq<T>>, mid: Seq<Seq<T>>, n: Seq<Seq<T>>)
    requires
        row_equivalent(m, mid),
        elementary_step(mid, n),
    ensures
        row_equivalent(m, n),
{
    let steps = choose|steps: nat| reachable(m, mid, steps);
    assert(reachable(m, mid, ((steps + 1) - 1) as nat));
    assert(reachable(m, n, steps + 1));
}

/// Row equivalence is transitive.
pub proof fn lemma_equivalent_transitive<T: Scalar>(m: Seq<Seq<T>>, mid: Seq<Seq<T>>, n: Seq<Seq<T>>)
    requires
        row_equivalent(m, mid),
        row_equivalent(mid, n),
    ensures
        row_equivalent(m, n),
{
    let steps = choose|steps: nat| reachable(mid, n, steps);
    lemma_reachable_after(m, mid, n, steps);
}

/// Elementary row operations after a row equivalence keep it.
proof fn lemma_reachable_after<T: Scalar>(m: Seq<Seq<T>>, mid: Seq<Seq<T>>, n: Seq<Seq<T>>, steps: nat)
    requires
        row_equivalent(m, mid),
        reachable(mid, n, steps),
    ensures
        row_equivalent(m, n),
    decreases steps,
{
    if steps > 0 {
        let before = choose|before: Seq<Seq<T>>|
            #![trigger elementary_step(before, n)]
            reachable(mid, before, (steps - 1) as nat) && elementary_step(before, n);
        lemma_reachable_after(m, mid, before, (steps - 1) as nat);
        lemma_equivalent_step(m, before, n);
    }
}

/// An elementary row operation keeps the shape of a matrix.
pub proof fn lemma_step_keeps_shape<T: Scalar>(m: Seq<Seq<T>>, n: Seq<Seq<T>>, rows: nat, cols: nat)
    requires
        is_grid(m, rows, cols),
        elementary_step(m, n),
    ensures
        is_grid(n, rows, cols),
{
}

/// Every elementary row operation is undone by another one.
pub proof fn lemma_step_reversible<T: Field>(m: Seq<Seq<T>>, n: Seq<Seq<T>>, rows: nat, cols: nat)
    requires
        is_grid(m, rows, cols),
        elementary_step(m, n),
    ensures
        elementary_step(n, m),
{
    if exists|a: int, b: int| 0 <= a < m.len() && 0 <= b < m.len() && n == #[trigger] swap_rows(m, a, b) {
        let (a, b) = choose|a: int, b: int|
            0 <= a < m.len() && 0 <= b < m.len() && n == #[trigger] swap_rows(m, a, b);
        assert(swap_rows(n, a, b) =~= m);
    } else if exists|r: int, f: T|
        0 <= r < m.len() && f != T::zero_spec() && n == #[trigger] scale_row(m, r, f) {
        let (r, f) = choose|r: int, f: T|
            0 <= r < m.len() && f != T::zero_spec() && n == #[trigger] scale_row(m, r, f);
        let back = scale_row(n, r, f.inv_spec());
        lemma_inv_nonzero(f);
        assert forall|k: int| 0 <= k < cols implies back[r][k] == m[r][k] by {
            lemma_mul_inv_cancel(m[r][k], f);
        }
        assert(back[r] =~= m[r]);
        assert(back =~= m);
    } else {
        let (a, b, f) = choose|a: int, b: int, f: T|
            0 <= a < m.len() && 0 <= b < m.len() && a != b && n == #[trigger] add_row_multiple(m, a, b, f);
        let back = add_row_multiple(n, a, b, f.neg_spec());
        assert forall|k: int| 0 <= k < cols implies back[a][k] == m[a][k] by {
            // (x + y f) + y (-f) == x + (y f + -(y f)) == x
            let x = m[a][k];
            let y = m[b][k];
            assert(n[b] == m[b]);
            lemma_mul_neg(y, f);
            T::add_associative(x, y.mul_spec(f), y.mul_spec(f).neg_spec());
            T::add_neg(y.mul_spec(f));
            T::add_zero(x);
        }
        assert(back[a] =~= m[a]);
        assert(back =~= m);
    }
}

/// Any number of elementary row operations keep the shape of a matrix and
/// can be undone by elementary row operations.
proof fn lemma_reachable_reversible<T: Field>(
    m: Seq<Seq<T>>,
    n: Seq<Seq<T>>,
    steps: nat,
    rows: nat,
    cols: nat,
)
    requires
        is_grid(m, rows, cols),
        reachable(m, n, steps),
    ensures
        is_grid(n, rows, cols),
        row_equivalent(n, m),
    decreases steps,
{
    if steps == 0 {
        lemma_equivalent_reflexive(m);
    } else {
        let mid = choose|mid: Seq<Seq<T>>|
            #![trigger elementary_step(mid, n)]
            reachable(m, mid, (steps - 1) as nat) && elementary_step(mid, n);
        lemma_reachable_reversible(m, mid, (steps - 1) as nat, rows, cols);
        lemma_step_keeps_shape(mid, n, rows, cols);
        lemma_step_reversible(mid, n, rows, cols);
        lemma_equivalent_reflexive(n);
        lemma_equivalent_step(n, n, mid);
        lemma_equivalent_transitive(n, mid, m);
    }
}

/// Row equivalence is symmetric and keeps the shape of a matrix.
pub proof fn lemma_equivalent_symmetric<T: Field>(m: Seq<Seq<T>>, n: Seq<Seq<T>>, rows: nat, cols: nat)
    requires
        is_grid(m, rows, cols),
        row_equivalent(m, n),
    ensures
        is_grid(n, rows, cols),
        row_equivalent(n, m),
{
    let steps = choose|steps: nat| reachable(m, n, steps);
    lemma_reachable_reversible(m, n, steps, rows, cols);
}

/// Exchanging two rows keeps row equivalence.
pub proof fn lemma_equivalent_swap<T: Scalar>(m: Seq<Seq<T>>, x: Seq<Seq<T>>, a: int, b: int)
    requires
        row_equivalent(m, x),
        0 <= a < x.len(),
        0 <= b < x.len(),
    ensures
        row_equivalent(m, swap_rows(x, a, b)),
{
    let n = swap_rows(x, a, b);
    assert(elementary_step(x, n));
    lemma_equivalent_step(m, x, n);
}

/// Multiplying a row by a nonzero factor keeps row equivalence.
pub proof fn lemma_equivalent_scale<T: Scalar>(m: Seq<Seq<T>>, x: Seq<Seq<T>>, r: int, f: T)
    requires
        row_equivalent(m, x),
        0 <= r < x.len(),
        f != T::zero_spec(),
    ensures
        row_equivalent(m, scale_row(x, r, f)),
{
    let n = scale_row(x, r, f);
    assert(elementary_step(x, n));
    lemma_equivalent_step(m, x, n);
}

/// Adding a multiple of a row to another row keeps row equivalence.
pub proof fn lemma_equivalent_add_multiple<T: Scalar>(
    m: Seq<Seq<T>>,
    x: Seq<Seq<T>>,
    a: int,
    b: int,
    f: T,
)
    requires
        row_equivalent(m, x),
        0 <= a < x.len(),
        0 <= b < x.len(),
        a != b,
    ensures
        row_equivalent(m, add_row_multiple(x, a, b, f)),
{
    let n = add_row_multiple(x, a, b, f);
    assert(elementary_step(x, n));
    lemma_equivalent_step(m, x, n);
}

/// Adding a row to another row keeps row equivalence.
pub proof fn lemma_equivalent_add<T: Field>(m: Seq<Seq<T>>, x: Seq<Seq<T>>, a: int, b: int)
    requires
        row_equivalent(m, x),
        0 <= a < x.len(),
        0 <= b < x.len(),
        a != b,
        x[a].len() == x[b].len(),
    ensures
        row_equivalent(m, add_row(x, a, b)),
{
    let n = add_row(x, a, b);
    let by_one = add_row_multiple(x, a, b, T::one_spec());
    assert forall|k: int| 0 <= k < x[a].len() implies n[a][k] == by_one[a][k] by {
        T::mul_one(x[b][k]);
    }
    assert(n[a] =~= by_one[a]);
    assert(n =~= by_one);
    lemma_equivalent_add_multiple(m, x, a, b, T::one_spec());
}

/// `m` with column `c` cleared in the rows after `row` and before `upto`.
pub open spec fn clear_below_until<T: Scalar>(m: Seq<Seq<T>>, c: int, row: int, upto: int) -> Seq<
    Seq<T>,
> {
    Seq::new(
        m.len(),
        |r: int|
            if row < r < upto && m[r][c] != T::zero_spec() {
                Seq::new(
                    m[r].len(),
                    |k: int| m[r][k].mul_spec(m[r][c].inv_spec()).add_spec(m[row][k]),
                )
            } else {
                m[r]
            },
    )
}

/// Clearing a column below a row, one row after the other, keeps row
/// equivalence.
proof fn lemma_clear_below_until<T: Field>(
    m: Seq<Seq<T>>,
    x: Seq<Seq<T>>,
    c: int,
    row: int,
    upto: int,
    rows: nat,
    cols: nat,
)
    requires
        is_grid(x, rows, cols),
        row_equivalent(m, x),
        0 <= c < cols,
        0 <= row < rows,
        row < upto <= rows,
    ensures
        row_equivalent(m, clear_below_until(x, c, row, upto)),
    decreases upto,
{
    if upto == row + 1 {
        assert(clear_below_until(x, c, row, upto) =~= x);
    } else {
        let r = upto - 1;
        let before = clear_below_until(x, c, row, r);
        let after = clear_below_until(x, c, row, upto);
        lemma_clear_below_until(m, x, c, row, r, rows, cols);
        if x[r][c] != T::zero_spec() {
            let g = x[r][c].inv_spec();
            lemma_inv_nonzero(x[r][c]);
            let scaled = scale_row(before, r, g);
            let added = add_row(scaled, r, row);
            assert(before[r] == x[r]);
            assert(before[row] == x[row]);
            assert forall|k: int| 0 <= k < cols implies added[r][k] == after[r][k] by {
                assert(scaled[r][k] == before[r][k].mul_spec(g));
            }
            assert(added[r] =~= after[r]);
            assert(added =~= after);
            lemma_equivalent_scale(m, before, r, g);
            lemma_equivalent_add(m, scaled, r, row);
        } else {
            assert(after =~= before);
        }
    }
}

/// `m` with column `c` cleared in the rows before `upto` and before `row`.
pub open spec fn clear_above_until<T: Scalar>(m: Seq<Seq<T>>, c: int, row: int, upto: int) -> Seq<
    Seq<T>,
> {
    Seq::new(
        m.len(),
        |r: int|
            if r < row && r < upto {
                Seq::new(
                    m[r].len(),
                    |k: int| m[r][k].add_spec(m[row][k].mul_spec(m[r][c].neg_spec())),
                )
            } else {
                m[r]
            },
    )
}

/// Clearing a column above a row, one row after the other, keeps row
/// equivalence.
proof fn lemma_clear_above_until<T: Field>(
    m: Seq<Seq<T>>,
    x: Seq<Seq<T>>,
    c: int,
    row: int,
    upto: int,
    rows: nat,
    cols: nat,
)
    requires
        is_grid(x, rows, cols),
        row_equivalent(m, x),
        0 <= c < cols,
        0 <= row < rows,
        0 <= upto <= row,
    ensures
        row_equivalent(m, clear_above_until(x, c, row, upto)),
    decreases upto,
{
    if upto == 0 {
        assert(clear_above_until(x, c, row, upto) =~= x);
    } else {
        let r = upto - 1;
        let before = clear_above_until(x, c, row, r);
        let after = clear_above_until(x, c, row, upto);
        lemma_clear_above_until(m, x, c, row, r, rows, cols);
        let added = add_row_multiple(before, r, row, x[r][c].neg_spec());
        assert(before[r] == x[r]);
        assert(before[row] == x[row]);
        assert(added[r] =~= after[r]);
        assert(added =~= after);
        lemma_equivalent_add_multiple(m, before, r, row, x[r][c].neg_spec());
    }
}

/// A pivot step keeps row equivalence.
proof fn lemma_pivot_step_equivalent<T: Field>(
    m: Seq<Seq<T>>,
    x: Seq<Seq<T>>,
    c: int,
    row: int,
    p: int,
    rows: nat,
    cols: nat,
)
    requires
        is_grid(x, rows, cols),
        row_equivalent(m, x),
        0 <= c < cols,
        0 <= row <= p < rows,
        x[p][c] != T::zero_spec(),
    ensures
        is_grid(pivot_step(x, c, row, p), rows, cols),
        row_equivalent(m, pivot_step(x, c, row, p)),
{
    let swapped = swap_rows(x, row, p);
    let f = swapped[row][c].inv_spec().neg_spec();
    let scaled = scale_row(swapped, row, f);
    let cleared = clear_below(scaled, c, row);
    let minus_one = T::one_spec().neg_spec();
    let out = scale_row(cleared, row, minus_one);
    assert(out == pivot_step(x, c, row, p));
    lemma_equivalent_swap(m, x, row, p);
    assert(swapped[row][c] == x[p][c]);
    lemma_inv_nonzero(x[p][c]);
    lemma_neg_nonzero(x[p][c].inv_spec());
    lemma_equivalent_scale(m, swapped, row, f);
    assert(is_grid(swapped, rows, cols));
    assert(is_grid(scaled, rows, cols));
    lemma_clear_below_until(m, scaled, c, row, rows as int, rows, cols);
    assert(clear_below_until(scaled, c, row, rows as int) =~= cleared);
    assert(is_grid(cleared, rows, cols)) by {
        assert forall|r: int| 0 <= r < rows implies (#[trigger] cleared[r]).len() == cols by {
            assert(scaled[r].len() == cols);
        }
    }
    T::one_not_zero();
    lemma_neg_nonzero(T::one_spec());
    lemma_equivalent_scale(m, cleared, row, minus_one);
    assert(is_grid(out, rows, cols));
}

/// Forward elimination from any state on keeps row equivalence.
proof fn lemma_echelon_from_equivalent<T: Field>(
    m: Seq<Seq<T>>,
    x: Seq<Seq<T>>,
    c: int,
    row: int,
    rows: nat,
    cols: nat,
)
    requires
        is_grid(x, rows, cols),
        row_equivalent(m, x),
        0 <= c <= cols,
        0 <= row <= rows,
    ensures
        row_equivalent(m, echelon_from(x, c, row, cols as int)),
    decreases cols - c,
{
    if c < cols && row < rows {
        let p = pivot_search(x, c, row);
        lemma_pivot_search(x, c, row);
        if p >= rows {
            lemma_echelon_from_equivalent(m, x, c + 1, row, rows, cols);
        } else {
            lemma_pivot_step_equivalent(m, x, c, row, p, rows, cols);
            lemma_echelon_from_equivalent(m, pivot_step(x, c, row, p), c + 1, row + 1, rows, cols);
        }
    }
}

/// Backward elimination from any state on keeps row equivalence.
proof fn lemma_reduce_from_equivalent<T: Field>(
    m: Seq<Seq<T>>,
    x: Seq<Seq<T>>,
    c: int,
    row: int,
    rows: nat,
    cols: nat,
)
    requires
        is_grid(x, rows, cols),
        row_equivalent(m, x),
        0 <= c <= cols,
        0 <= row <= rows,
    ensures
        row_equivalent(m, reduce_from(x, c, row, cols as int)),
    decreases cols - c,
{
    if c < cols && row < rows {
        if x[row][c] == T::zero_spec() {
            lemma_reduce_from_equivalent(m, x, c + 1, row, rows, cols);
        } else {
            let next = clear_above(x, c, row);
            lemma_clear_above_until(m, x, c, row, row, rows, cols);
            assert(clear_above_until(x, c, row, row) =~= next);
            assert(is_grid(next, rows, cols));
            lemma_reduce_from_equivalent(m, next, c + 1, row + 1, rows, cols);
        }
    }
}

/// Forward elimination changes a matrix by elementary row operations only.
pub proof fn law_echelon_form_equivalent<T: Field>(m: Seq<Seq<T>>, rows: nat, cols: nat)
    requires
        is_grid(m, rows, cols),
    ensures
        row_equivalent(m, echelon_form(m)),
{
    lemma_equivalent_reflexive(m);
    if rows > 0 {
        assert(width(m) == cols);
        lemma_echelon_from_equivalent(m, m, 0, 0, rows, cols);
    }
}

/// Backward elimination changes a matrix by elementary row operations only.
pub proof fn law_reduced_form_equivalent<T: Field>(m: Seq<Seq<T>>, rows: nat, cols: nat)
    requires
        is_grid(m, rows, cols),
    ensures
        row_equivalent(m, reduced_form(m)),
{
    lemma_equivalent_reflexive(m);
    if rows > 0 {
        assert(width(m) == cols);
        lemma_reduce_from_equivalent(m, m, 0, 0, rows, cols);
    }
}

/// Both passes of elimination together change a matrix by elementary row
/// operations only.
pub proof fn law_eliminated_form_equivalent<T: Field>(m: Seq<Seq<T>>, rows: nat, cols: nat)
    requires
        is_grid(m, rows, cols),
    ensures
        row_equivalent(m, reduced_form(echelon_form(m))),
        row_equivalent(reduced_form(echelon_form(m)), m),
{
    let e = echelon_form(m);
    law_echelon_form_equivalent(m, rows, cols);
    lemma_equivalent_symmetric(m, e, rows, cols);
    law_reduced_form_equivalent(e, rows, cols);
    lemma_equivalent_transitive(m, e, reduced_form(e));
    lemma_equivalent_symmetric(m, reduced_form(e), rows, cols);
}

} // verus!
