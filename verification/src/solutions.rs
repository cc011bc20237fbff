//! What the solver's result means for the equations: elementary row
//! operations keep the solutions of a system, and for a square system with
//! independent coefficient rows the solver returns the one solution.

use crate::algebra::{
    lemma_distributive_right, lemma_mul_exchange, lemma_mul_zero, lemma_one_mul, lemma_sum_of_sums,
    lemma_sum_scaled, lemma_sum_single, sum,
};
use crate::dependence::{law_equivalent_dependent, lemma_zero_row_dependent, rows_dependent};
use crate::echelon::{is_echelon, is_reduced, law_eliminated_form, leading, lemma_next_nonzero};
use crate::elimination::{echelon_form, reduced_form, solution};
use crate::equivalence::{
    elementary_step, law_eliminated_form_equivalent, lemma_equivalent_symmetric,
    lemma_step_keeps_shape, reachable, row_equivalent,
};
use crate::grid::{add_row_multiple, is_grid, scale_row, swap_rows, width};
use crate::laws::law_solution_characterised;
use crate::scalar::{Field, Scalar};
use vstd::prelude::*;

verus! {

/// The products of the coefficients of `row` with the values `x`.
pub open spec fn terms<T: Scalar>(row: Seq<T>, x: Seq<T>) -> Seq<T> {
    Seq::new(x.len(), |k: int| row[k].mul_spec(x[k]))
}

/// Whether the values `x` meet the equation that `row` states: the
/// coefficients times the values add up to the last entry of the row.
pub open spec fn meets<T: Scalar>(row: Seq<T>, x: Seq<T>) -> bool {
    sum(terms(row, x)) == row[x.len() as int]
}

/// Whether `x` is a solution of the augmented system `m`: it has a value
/// for each unknown and meets every equation.
pub open spec fn satisfies<T: Scalar>(m: Seq<Seq<T>>, x: Seq<T>) -> bool {
    forall|r: int| 0 <= r < m.len() ==> #[trigger] m[r].len() == x.len() + 1 && meets(m[r], x)
}

/// The coefficient part of an augmented system: every row without its last
/// entry.
pub open spec fn coefficients<T>(m: Seq<Seq<T>>) -> Seq<Seq<T>> {
    Seq::new(m.len(), |r: int| m[r].drop_last())
}

/// A solution stays one when a row is multiplied by a factor.
proof fn lemma_scale_meets<T: Field>(row: Seq<T>, x: Seq<T>, f: T)
    requires
        row.len() == x.len() + 1,
        meets(row, x),
    ensures
        meets(Seq::new(row.len(), |k: int| row[k].mul_spec(f)), x),
{
    let scaled = Seq::new(row.len(), |k: int| row[k].mul_spec(f));
    let t = terms(row, x);
    assert forall|k: int| 0 <= k < x.len() implies terms(scaled, x)[k] == t[k].mul_spec(f) by {
        lemma_mul_exchange(row[k], f, x[k]);
    }
    assert(terms(scaled, x) =~= Seq::new(t.len(), |k: int| t[k].mul_spec(f)));
    lemma_sum_scaled(t, f);
}

/// A solution stays one when a multiple of a row that it meets is added to
/// another row that it meets.
proof fn lemma_add_multiple_meets<T: Field>(row: Seq<T>, other: Seq<T>, x: Seq<T>, f: T)
    requires
        row.len() == x.len() + 1,
        other.len() == x.len() + 1,
        meets(row, x),
        meets(other, x),
    ensures
        meets(Seq::new(row.len(), |k: int| row[k].add_spec(other[k].mul_spec(f))), x),
{
    let added = Seq::new(row.len(), |k: int| row[k].add_spec(other[k].mul_spec(f)));
    let t = terms(row, x);
    let u = terms(other, x);
    let uf = Seq::new(u.len(), |k: int| u[k].mul_spec(f));
    assert forall|k: int| 0 <= k < x.len() implies terms(added, x)[k] == t[k].add_spec(uf[k]) by {
        lemma_distributive_right(row[k], other[k].mul_spec(f), x[k]);
        lemma_mul_exchange(other[k], f, x[k]);
    }
    assert(terms(added, x) =~= Seq::new(t.len(), |k: int| t[k].add_spec(uf[k])));
    lemma_sum_of_sums(t, uf);
    lemma_sum_scaled(u, f);
}

/// An elementary row operation keeps every solution.
pub proof fn lemma_step_satisfies<T: Field>(m: Seq<Seq<T>>, n: Seq<Seq<T>>, x: Seq<T>)
    requires
        elementary_step(m, n),
        satisfies(m, x),
    ensures
        satisfies(n, x),
{
    if exists|a: int, b: int| 0 <= a < m.len() && 0 <= b < m.len() && n == #[trigger] swap_rows(m, a, b) {
        let (a, b) = choose|a: int, b: int|
            0 <= a < m.len() && 0 <= b < m.len() && n == #[trigger] swap_rows(m, a, b);
        assert forall|r: int| 0 <= r < n.len() implies #[trigger] n[r].len() == x.len() + 1 && meets(
            n[r],
            x,
        ) by {
            let from = if r == a {
                b
            } else if r == b {
                a
            } else {
                r
            };
            assert(n[r] == m[from]);
            assert(m[from].len() == x.len() + 1);
        }
    } else if exists|r: int, f: T|
        0 <= r < m.len() && f != T::zero_spec() && n == #[trigger] scale_row(m, r, f) {
        let (r, f) = choose|r: int, f: T|
            0 <= r < m.len() && f != T::zero_spec() && n == #[trigger] scale_row(m, r, f);
        assert forall|y: int| 0 <= y < n.len() implies #[trigger] n[y].len() == x.len() + 1 && meets(
            n[y],
            x,
        ) by {
            assert(m[y].len() == x.len() + 1);
            if y == r {
                lemma_scale_meets(m[r], x, f);
            }
        }
    } else {
        let (a, b, f) = choose|a: int, b: int, f: T|
            0 <= a < m.len() && 0 <= b < m.len() && a != b && n == #[trigger] add_row_multiple(m, a, b, f);
        assert forall|y: int| 0 <= y < n.len() implies #[trigger] n[y].len() == x.len() + 1 && meets(
            n[y],
            x,
        ) by {
            assert(m[y].len() == x.len() + 1);
            if y == a {
                assert(m[b].len() == x.len() + 1);
                lemma_add_multiple_meets(m[a], m[b], x, f);
            }
        }
    }
}

/// Any number of elementary row operations keep every solution.
proof fn lemma_reachable_satisfies<T: Field>(m: Seq<Seq<T>>, n: Seq<Seq<T>>, steps: nat, x: Seq<T>)
    requires
        reachable(m, n, steps),
        satisfies(m, x),
    ensures
        satisfies(n, x),
    decreases steps,
{
    if steps > 0 {
        let mid = choose|mid: Seq<Seq<T>>|
            #![trigger elementary_step(mid, n)]
            reachable(m, mid, (steps - 1) as nat) && elementary_step(mid, n);
        lemma_reachable_satisfies(m, mid, (steps - 1) as nat, x);
        lemma_step_satisfies(mid, n, x);
    }
}

/// Row-equivalent systems have the same solutions.
pub proof fn law_equivalent_solutions<T: Field>(
    m: Seq<Seq<T>>,
    n: Seq<Seq<T>>,
    x: Seq<T>,
    rows: nat,
    cols: nat,
)
    requires
        is_grid(m, rows, cols),
        row_equivalent(m, n),
    ensures
        satisfies(m, x) <==> satisfies(n, x),
{
    if satisfies(m, x) {
        let steps = choose|steps: nat| reachable(m, n, steps);
        lemma_reachable_satisfies(m, n, steps, x);
    }
    if satisfies(n, x) {
        lemma_equivalent_symmetric(m, n, rows, cols);
        let steps = choose|steps: nat| reachable(n, m, steps);
        lemma_reachable_satisfies(n, m, steps, x);
    }
}

/// An elementary row operation on a system is the same operation on its
/// coefficient part.
proof fn lemma_step_coefficients<T: Field>(m: Seq<Seq<T>>, n: Seq<Seq<T>>, rows: nat, cols: nat)
    requires
        is_grid(m, rows, cols),
        cols >= 1,
        elementary_step(m, n),
    ensures
        elementary_step(coefficients(m), coefficients(n)),
{
    let cm = coefficients(m);
    let cn = coefficients(n);
    if exists|a: int, b: int| 0 <= a < m.len() && 0 <= b < m.len() && n == #[trigger] swap_rows(m, a, b) {
        let (a, b) = choose|a: int, b: int|
            0 <= a < m.len() && 0 <= b < m.len() && n == #[trigger] swap_rows(m, a, b);
        assert(cn =~= swap_rows(cm, a, b));
    } else if exists|r: int, f: T|
        0 <= r < m.len() && f != T::zero_spec() && n == #[trigger] scale_row(m, r, f) {
        let (r, f) = choose|r: int, f: T|
            0 <= r < m.len() && f != T::zero_spec() && n == #[trigger] scale_row(m, r, f);
        let goal = scale_row(cm, r, f);
        assert(cn[r] =~= goal[r]);
        assert(cn =~= goal);
    } else {
        let (a, b, f) = choose|a: int, b: int, f: T|
            0 <= a < m.len() && 0 <= b < m.len() && a != b && n == #[trigger] add_row_multiple(m, a, b, f);
        let goal = add_row_multiple(cm, a, b, f);
        assert(cn[a] =~= goal[a]);
        assert(cn =~= goal);
    }
}

/// Row operations on a system are the same operations on its coefficient
/// part.
proof fn lemma_reachable_coefficients<T: Field>(
    m: Seq<Seq<T>>,
    n: Seq<Seq<T>>,
    steps: nat,
    rows: nat,
    cols: nat,
)
    requires
        is_grid(m, rows, cols),
        cols >= 1,
        reachable(m, n, steps),
    ensures
        is_grid(n, rows, cols),
        reachable(coefficients(m), coefficients(n), steps),
    decreases steps,
{
    if steps > 0 {
        let mid = choose|mid: Seq<Seq<T>>|
            #![trigger elementary_step(mid, n)]
            reachable(m, mid, (steps - 1) as nat) && elementary_step(mid, n);
        lemma_reachable_coefficients(m, mid, (steps - 1) as nat, rows, cols);
        lemma_step_keeps_shape(mid, n, rows, cols);
        lemma_step_coefficients(mid, n, rows, cols);
        assert(elementary_step(coefficients(mid), coefficients(n)));
    }
}

/// The coefficient parts of row-equivalent systems are row equivalent.
pub proof fn lemma_equivalent_coefficients<T: Field>(m: Seq<Seq<T>>, n: Seq<Seq<T>>, rows: nat, cols: nat)
    requires
        is_grid(m, rows, cols),
        cols >= 1,
        row_equivalent(m, n),
    ensures
        row_equivalent(coefficients(m), coefficients(n)),
{
    let steps = choose|steps: nat| reachable(m, n, steps);
    lemma_reachable_coefficients(m, n, steps, rows, cols);
}

/// In a row-echelon form without a row of zeros, the leading entry of row
/// `r` lies at or after column `r`.
proof fn lemma_leading_from_top<T: Scalar>(m: Seq<Seq<T>>, r: int, rows: nat, cols: nat)
    requires
        is_grid(m, rows, cols),
        is_echelon(m),
        forall|y: int| 0 <= y < rows ==> leading(m, y) < cols,
        0 <= r < rows,
    ensures
        leading(m, r) >= r,
    decreases r,
{
    lemma_next_nonzero(m[r], 0);
    if r > 0 {
        lemma_leading_from_top(m, r - 1, rows, cols);
        assert(leading(m, r - 1) < leading(m, r) || leading(m, r) >= width(m));
    }
}

/// In a row-echelon form without a row of zeros, the leading entry of row
/// `r` lies as many columns before that of the last row as there are rows
/// between them, or more.
proof fn lemma_leading_from_bottom<T: Scalar>(m: Seq<Seq<T>>, r: int, rows: nat, cols: nat)
    requires
        is_grid(m, rows, cols),
        is_echelon(m),
        forall|y: int| 0 <= y < rows ==> leading(m, y) < cols,
        0 <= r < rows,
    ensures
        leading(m, r) + (rows - 1 - r) <= leading(m, rows - 1),
    decreases rows - r,
{
    if r < rows - 1 {
        lemma_leading_from_bottom(m, r + 1, rows, cols);
        assert(leading(m, r) < leading(m, r + 1) || leading(m, r + 1) >= width(m));
    }
}

/// A reduced row-echelon form whose leading entries fill the diagonal of a
/// square coefficient part is met by its last column and by nothing else.
proof fn lemma_diagonal_solution<T: Field>(m: Seq<Seq<T>>, x: Seq<T>, rows: nat)
    requires
        is_grid(m, rows, rows + 1),
        is_reduced(m),
        forall|r: int| 0 <= r < rows ==> leading(m, r) == r,
        x.len() == rows,
    ensures
        satisfies(m, x) <==> x == Seq::new(rows, |r: int| m[r][rows as int]),
{
    let last = Seq::new(rows, |r: int| m[r][rows as int]);
    if rows > 0 {
        assert(width(m) == rows + 1);
    }
    assert forall|r: int| 0 <= r < rows implies sum(#[trigger] terms(m[r], x)) == x[r] by {
        let t = terms(m[r], x);
        assert forall|k: int| 0 <= k < t.len() && k != r implies t[k] == T::zero_spec() by {
            assert(leading(m, k) == k);
            assert(m[r][leading(m, k)] == T::zero_spec());
            lemma_mul_zero(x[k]);
        }
        lemma_sum_single(t, r);
        assert(leading(m, r) == r);
        assert(m[r][leading(m, r)] == T::one_spec());
        lemma_one_mul(x[r]);
    }
    if satisfies(m, x) {
        assert forall|r: int| 0 <= r < rows implies x[r] == last[r] by {
            assert(m[r].len() == x.len() + 1 && meets(m[r], x));
            assert(sum(terms(m[r], x)) == x[r]);
        }
        assert(x =~= last);
    }
    if x == last {
        assert forall|r: int| 0 <= r < m.len() implies #[trigger] m[r].len() == x.len() + 1 && meets(
            m[r],
            x,
        ) by {
            assert(sum(terms(m[r], x)) == x[r]);
        }
    }
}

/// For as many equations as unknowns with linearly independent coefficient
/// rows, the solver finds a solution, which meets every equation, and no
/// other values do.
pub proof fn law_unique_solution<T: Field>(m: Seq<Seq<T>>, rows: nat)
    requires
        is_grid(m, rows, rows + 1),
        !rows_dependent(coefficients(m)),
    ensures
        solution(m).is_some(),
        satisfies(m, solution(m).unwrap()),
        forall|x: Seq<T>| x.len() == rows && satisfies(m, x) ==> x == solution(m).unwrap(),
{
    let cols = rows + 1;
    let d = reduced_form(echelon_form(m));
    law_eliminated_form(m, rows, cols);
    law_eliminated_form_equivalent(m, rows, cols);
    law_solution_characterised(m, rows, cols);
    lemma_equivalent_coefficients(d, m, rows, cols);
    assert(is_grid(coefficients(d), rows, rows));
    // No row of the reduced form is zero in its coefficient part.
    assert forall|r: int| 0 <= r < rows implies leading(d, r) < rows by {
        lemma_next_nonzero(d[r], 0);
        if leading(d, r) >= rows {
            assert forall|k: int| 0 <= k < rows implies coefficients(d)[r][k] == T::zero_spec() by {
                assert(d[r][k] == T::zero_spec());
            }
            lemma_zero_row_dependent(coefficients(d), r, rows, rows);
            law_equivalent_dependent(coefficients(d), coefficients(m), rows, rows);
        }
    }
    assert(solution(m).is_some());
    // So the leading entries fill the diagonal.
    assert forall|r: int| 0 <= r < rows implies leading(d, r) == r by {
        lemma_leading_from_top(d, r, rows, cols);
        lemma_leading_from_bottom(d, r, rows, cols);
        assert(leading(d, rows - 1) < rows);
    }
    let found = solution(m).unwrap();
    lemma_diagonal_solution(d, found, rows);
    law_equivalent_solutions(m, d, found, rows, cols);
    assert forall|x: Seq<T>| x.len() == rows && satisfies(m, x) implies x == found by {
        law_equivalent_solutions(m, d, x, rows, cols);
        lemma_diagonal_solution(d, x, rows);
    }
}

} // verus!
