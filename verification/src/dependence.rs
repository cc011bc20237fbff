//! Linear dependence of the rows of a matrix: elementary row operations keep
//! it, a reduced row-echelon form without a row of zeros is free of it, and
//! so the solver finds no solution for a system with dependent rows.

use crate::algebra::{
    lemma_distributive_right, lemma_inv_nonzero, lemma_mul_neg, lemma_mul_nonzero, lemma_mul_zero,
    lemma_neg_zero, lemma_sum_single, lemma_sum_swap, lemma_sum_two_updates, lemma_sum_zeros,
    lemma_zero_add, sum,
};
use crate::echelon::{is_reduced, law_eliminated_form, leading, lemma_next_nonzero};
use crate::elimination::{echelon_form, reduced_form, solution};
use crate::equivalence::{
    elementary_step, law_eliminated_form_equivalent, lemma_step_keeps_shape, reachable, row_equivalent,
};
use crate::grid::{add_row_multiple, is_grid, scale_row, swap_rows, width};
use crate::laws::law_solution_characterised;
use crate::scalar::{Field, Scalar};
use vstd::prelude::*;

verus! {

/// The entries of column `k`, each multiplied by the weight of its row.
pub open spec fn weighted_column<T: Scalar>(w: Seq<T>, m: Seq<Seq<T>>, k: int) -> Seq<T> {
    Seq::new(m.len(), |r: int| w[r].mul_spec(m[r][k]))
}

/// Whether the rows of `m`, weighted by `w`, add up to the zero row.
pub open spec fn annihilates<T: Scalar>(w: Seq<T>, m: Seq<Seq<T>>) -> bool {
    &&& w.len() == m.len()
    &&& forall|k: int| 0 <= k < width(m) ==> sum(#[trigger] weighted_column(w, m, k)) == T::zero_spec()
}

/// Whether some weight is nonzero.
pub open spec fn is_nonzero<T: Scalar>(w: Seq<T>) -> bool {
    exists|i: int| 0 <= i < w.len() && #[trigger] w[i] != T::zero_spec()
}

/// Whether the rows of `m` are linearly dependent: some weights, not all
/// zero, make the rows add up to the zero row.
pub open spec fn rows_dependent<T: Scalar>(m: Seq<Seq<T>>) -> bool {
    exists|w: Seq<T>| is_nonzero(w) && #[trigger] annihilates(w, m)
}

/// An exchange of two rows keeps the rows dependent.
proof fn lemma_swap_dependent<T: Field>(m: Seq<Seq<T>>, a: int, b: int, rows: nat, cols: nat)
    requires
        is_grid(m, rows, cols),
        0 <= a < rows,
        0 <= b < rows,
        rows_dependent(m),
    ensures
        rows_dependent(swap_rows(m, a, b)),
{
    let n = swap_rows(m, a, b);
    let w = choose|w: Seq<T>| is_nonzero(w) && #[trigger] annihilates(w, m);
    let v = w.update(a, w[b]).update(b, w[a]);
    let i = choose|i: int| 0 <= i < w.len() && #[trigger] w[i] != T::zero_spec();
    let j = if i == a {
        b
    } else if i == b {
        a
    } else {
        i
    };
    assert(v[j] != T::zero_spec());
    assert(width(n) == width(m));
    assert forall|k: int| 0 <= k < width(n) implies sum(#[trigger] weighted_column(v, n, k))
        == T::zero_spec() by {
        let t = weighted_column(w, m, k);
        assert(weighted_column(v, n, k) =~= t.update(a, t[b]).update(b, t[a]));
        lemma_sum_swap(t, a, b);
    }
    assert(annihilates(v, n));
}

/// The multiplication of a row by a nonzero factor keeps the rows dependent.
proof fn lemma_scale_dependent<T: Field>(m: Seq<Seq<T>>, r: int, f: T, rows: nat, cols: nat)
    requires
        is_grid(m, rows, cols),
        0 <= r < rows,
        f != T::zero_spec(),
        rows_dependent(m),
    ensures
        rows_dependent(scale_row(m, r, f)),
{
    let n = scale_row(m, r, f);
    let w = choose|w: Seq<T>| is_nonzero(w) && #[trigger] annihilates(w, m);
    let v = w.update(r, w[r].mul_spec(f.inv_spec()));
    let i = choose|i: int| 0 <= i < w.len() && #[trigger] w[i] != T::zero_spec();
    lemma_inv_nonzero(f);
    if i == r {
        lemma_mul_nonzero(w[r], f.inv_spec());
    }
    assert(v[i] != T::zero_spec());
    assert(width(n) == width(m));
    assert forall|k: int| 0 <= k < width(n) implies sum(#[trigger] weighted_column(v, n, k))
        == T::zero_spec() by {
        let t = weighted_column(w, m, k);
        let u = weighted_column(v, n, k);
        assert(u[r] == t[r]) by {
            // (w * 1/f) * (x * f) == ((w * 1/f) * f) * x == w * x
            let g = f.inv_spec();
            let x = m[r][k];
            assert(u[r] == w[r].mul_spec(g).mul_spec(x.mul_spec(f)));
            T::mul_commutative(x, f);
            T::mul_associative(w[r].mul_spec(g), f, x);
            T::mul_associative(w[r], g, f);
            T::mul_commutative(g, f);
            T::mul_inv(f);
            T::mul_one(w[r]);
        }
        assert(u =~= t);
    }
    assert(annihilates(v, n));
}

/// The addition of a multiple of one row to another keeps the rows
/// dependent.
proof fn lemma_add_multiple_dependent<T: Field>(
    m: Seq<Seq<T>>,
    a: int,
    b: int,
    f: T,
    rows: nat,
    cols: nat,
)
    requires
        is_grid(m, rows, cols),
        0 <= a < rows,
        0 <= b < rows,
        a != b,
        rows_dependent(m),
    ensures
        rows_dependent(add_row_multiple(m, a, b, f)),
{
    let n = add_row_multiple(m, a, b, f);
    let zero = T::zero_spec();
    let w = choose|w: Seq<T>| is_nonzero(w) && #[trigger] annihilates(w, m);
    // The weight of row `b` gives back what row `a` took from it.
    let back = w[a].mul_spec(f).neg_spec();
    let v = w.update(b, w[b].add_spec(back));
    let i = choose|i: int| 0 <= i < w.len() && #[trigger] w[i] != zero;
    if w[a] == zero {
        lemma_mul_zero(f);
        lemma_neg_zero::<T>();
        T::add_zero(w[b]);
        assert(v[i] != zero);
    } else {
        assert(v[a] != zero);
    }
    assert(width(n) == width(m));
    assert forall|k: int| 0 <= k < width(n) implies sum(#[trigger] weighted_column(v, n, k))
        == zero by {
        let t = weighted_column(w, m, k);
        let u = weighted_column(v, n, k);
        let x = m[a][k];
        let y = m[b][k];
        let wa = w[a];
        let wb = w[b];
        let ua = wa.mul_spec(x.add_spec(y.mul_spec(f)));
        let ub = wb.add_spec(back).mul_spec(y);
        assert(u =~= t.update(a, ua).update(b, ub));
        // ua == wa x + wa (y f),  ub == wb y + -(wa f) y,  wa (y f) == (wa f) y
        T::distributive(wa, x, y.mul_spec(f));
        lemma_distributive_right(wb, back, y);
        T::mul_commutative(y, f);
        T::mul_associative(wa, f, y);
        let q = wa.mul_spec(f).mul_spec(y);
        T::mul_commutative(wa.mul_spec(f).neg_spec(), y);
        lemma_mul_neg(y, wa.mul_spec(f));
        T::mul_commutative(y, wa.mul_spec(f));
        assert(ua == t[a].add_spec(q));
        assert(ub == t[b].add_spec(q.neg_spec()));
        // (ta + q) + (tb + -q) == ta + tb
        T::add_associative(t[a], q, t[b].add_spec(q.neg_spec()));
        T::add_commutative(t[b], q.neg_spec());
        T::add_associative(q, q.neg_spec(), t[b]);
        T::add_neg(q);
        lemma_zero_add(t[b]);
        lemma_sum_two_updates(t, a, b, ua, ub);
    }
    assert(annihilates(v, n));
}

/// An elementary row operation keeps the rows dependent.
pub proof fn lemma_step_dependent<T: Field>(m: Seq<Seq<T>>, n: Seq<Seq<T>>, rows: nat, cols: nat)
    requires
        is_grid(m, rows, cols),
        elementary_step(m, n),
        rows_dependent(m),
    ensures
        rows_dependent(n),
{
    if exists|a: int, b: int| 0 <= a < m.len() && 0 <= b < m.len() && n == #[trigger] swap_rows(m, a, b) {
        let (a, b) = choose|a: int, b: int|
            0 <= a < m.len() && 0 <= b < m.len() && n == #[trigger] swap_rows(m, a, b);
        lemma_swap_dependent(m, a, b, rows, cols);
    } else if exists|r: int, f: T|
        0 <= r < m.len() && f != T::zero_spec() && n == #[trigger] scale_row(m, r, f) {
        let (r, f) = choose|r: int, f: T|
            0 <= r < m.len() && f != T::zero_spec() && n == #[trigger] scale_row(m, r, f);
        lemma_scale_dependent(m, r, f, rows, cols);
    } else {
        let (a, b, f) = choose|a: int, b: int, f: T|
            0 <= a < m.len() && 0 <= b < m.len() && a != b && n == #[trigger] add_row_multiple(m, a, b, f);
        lemma_add_multiple_dependent(m, a, b, f, rows, cols);
    }
}

/// Any number of elementary row operations keep the shape of a matrix and
/// keep its rows dependent.
proof fn lemma_reachable_dependent<T: Field>(
    m: Seq<Seq<T>>,
    n: Seq<Seq<T>>,
    steps: nat,
    rows: nat,
    cols: nat,
)
    requires
        is_grid(m, rows, cols),
        reachable(m, n, steps),
        rows_dependent(m),
    ensures
        is_grid(n, rows, cols),
        rows_dependent(n),
    decreases steps,
{
    if steps > 0 {
        let mid = choose|mid: Seq<Seq<T>>|
            #![trigger elementary_step(mid, n)]
            reachable(m, mid, (steps - 1) as nat) && elementary_step(mid, n);
        lemma_reachable_dependent(m, mid, (steps - 1) as nat, rows, cols);
        lemma_step_keeps_shape(mid, n, rows, cols);
        lemma_step_dependent(mid, n, rows, cols);
    }
}

/// Row-equivalent matrices have dependent rows together.
pub proof fn law_equivalent_dependent<T: Field>(m: Seq<Seq<T>>, n: Seq<Seq<T>>, rows: nat, cols: nat)
    requires
        is_grid(m, rows, cols),
        row_equivalent(m, n),
        rows_dependent(m),
    ensures
        rows_dependent(n),
{
    let steps = choose|steps: nat| reachable(m, n, steps);
    lemma_reachable_dependent(m, n, steps, rows, cols);
}

/// The rows of a reduced row-echelon form without a row of zeros are
/// independent.
pub proof fn law_reduced_independent<T: Field>(m: Seq<Seq<T>>, rows: nat, cols: nat)
    requires
        is_grid(m, rows, cols),
        is_reduced(m),
        forall|r: int| 0 <= r < rows ==> leading(m, r) < cols,
    ensures
        !rows_dependent(m),
{
    if rows_dependent(m) {
        let w = choose|w: Seq<T>| is_nonzero(w) && #[trigger] annihilates(w, m);
        let i = choose|i: int| 0 <= i < w.len() && #[trigger] w[i] != T::zero_spec();
        let k = leading(m, i);
        lemma_next_nonzero(m[i], 0);
        assert(width(m) == cols);
        let t = weighted_column(w, m, k);
        assert forall|j: int| 0 <= j < t.len() && j != i implies t[j] == T::zero_spec() by {
            assert(m[j][leading(m, i)] == T::zero_spec());
            lemma_mul_zero(w[j]);
        }
        lemma_sum_single(t, i);
        assert(m[i][k] == T::one_spec());
        T::mul_one(w[i]);
        assert(sum(t) == T::zero_spec());
        assert(false);
    }
}

/// The rows of a matrix with a row of zeros are dependent.
pub proof fn lemma_zero_row_dependent<T: Field>(m: Seq<Seq<T>>, r: int, rows: nat, cols: nat)
    requires
        is_grid(m, rows, cols),
        0 <= r < rows,
        forall|k: int| 0 <= k < cols ==> m[r][k] == T::zero_spec(),
    ensures
        rows_dependent(m),
{
    let w = Seq::new(
        rows,
        |j: int|
            if j == r {
                T::one_spec()
            } else {
                T::zero_spec()
            },
    );
    T::one_not_zero();
    assert(w[r] != T::zero_spec());
    assert forall|k: int| 0 <= k < width(m) implies sum(#[trigger] weighted_column(w, m, k))
        == T::zero_spec() by {
        let t = weighted_column(w, m, k);
        assert forall|j: int| 0 <= j < t.len() implies t[j] == T::zero_spec() by {
            lemma_mul_zero(m[j][k]);
            lemma_mul_zero(w[j]);
        }
        lemma_sum_zeros(t);
    }
    assert(annihilates(w, m));
}

/// The solver finds a solution exactly when the rows of the system are
/// linearly independent. In particular it finds none for a system with
/// dependent rows, whether or not the system has solutions.
pub proof fn law_solved_iff_independent<T: Field>(m: Seq<Seq<T>>, rows: nat, cols: nat)
    requires
        is_grid(m, rows, cols),
    ensures
        solution(m).is_none() <==> rows_dependent(m),
{
    let d = reduced_form(echelon_form(m));
    law_eliminated_form(m, rows, cols);
    law_eliminated_form_equivalent(m, rows, cols);
    law_solution_characterised(m, rows, cols);
    if rows_dependent(m) {
        law_equivalent_dependent(m, d, rows, cols);
        if solution(m).is_some() {
            law_reduced_independent(d, rows, cols);
        }
    }
    if solution(m).is_none() {
        let r = choose|r: int| 0 <= r < rows && !(leading(d, r) < cols);
        lemma_next_nonzero(d[r], 0);
        lemma_zero_row_dependent(d, r, rows, cols);
        law_equivalent_dependent(d, m, rows, cols);
    }
}

/// The solver finds no solution for a system whose rows are linearly
/// dependent.
pub proof fn law_dependent_rows_unsolved<T: Field>(m: Seq<Seq<T>>, rows: nat, cols: nat)
    requires
        is_grid(m, rows, cols),
        rows_dependent(m),
    ensures
        solution(m).is_none(),
{
    law_solved_iff_independent(m, rows, cols);
}

/// Whether row `r` states a contradiction: all its coefficients are zero
/// and its right-hand side is not.
pub open spec fn is_contradiction<T: Scalar>(m: Seq<Seq<T>>, r: int) -> bool {
    &&& 0 <= r < m.len()
    &&& forall|k: int| 0 <= k < width(m) - 1 ==> m[r][k] == T::zero_spec()
    &&& m[r][width(m) - 1] != T::zero_spec()
}

/// The solver finds no solution for a system with a contradictory row, if
/// the rows of the system are dependent. (Where they are independent, the
/// solver returns the last column of the reduced form, although the system
/// has no solution.)
pub proof fn law_contradiction_unsolved<T: Field>(m: Seq<Seq<T>>, r: int, rows: nat, cols: nat)
    requires
        is_grid(m, rows, cols),
        is_contradiction(m, r),
        rows_dependent(m),
    ensures
        solution(m).is_none(),
{
    law_solved_iff_independent(m, rows, cols);
}

} // verus!
