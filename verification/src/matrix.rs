//! A dense rectangular matrix stored in row-major order, with views of single
//! rows and columns and in-place elementary row operations.

use crate::grid::{add_row, add_row_multiple, inner_product, is_grid, product, scale_row, swap_rows};
use crate::scalar::Scalar;
use std::ops::{Index, IndexMut, Mul};
use vstd::prelude::*;

verus! {

/// `std`'s `swap` on slices, which panics for a position outside the slice:
/// for two positions within the slice it exchanges the elements there and
/// leaves every other element where it was.
pub assume_specification<E>[ <[E]>::swap ](s: &mut [E], a: usize, b: usize)
    requires
        a < old(s)@.len(),
        b < old(s)@.len(),
    ensures
        final(s)@ == old(s)@.update(a as int, old(s)@[b as int]).update(b as int, old(s)@[a as int]),
;

/// A `rows × cols` grid of elements, stored row by row in one vector: the
/// element at row `r` and column `c` is kept at position `r * cols + c`.
#[derive(Debug)]
pub struct Matrix<T> {
    elems: Vec<T>,
    rows: usize,
    cols: usize,
}

/// The position of cell `(r, c)` lies within the backing store, and distinct
/// cells have distinct positions.
proof fn lemma_cell(rows: int, cols: int, r: int, c: int)
    requires
        0 <= r < rows,
        0 <= c < cols,
    ensures
        0 <= r * cols + c < rows * cols,
        0 <= r * cols <= rows * cols - cols,
        (r * cols + c) / cols == r,
        (r * cols + c) % cols == c,
{
    assert(0 <= r * cols <= rows * cols - cols) by (nonlinear_arith)
        requires
            0 <= r < rows,
            0 <= c < cols,
    ;
    vstd::arithmetic::div_mod::lemma_fundamental_div_mod_converse(r * cols + c, cols, r, c);
}

impl<T: Clone> Clone for Matrix<T> {
    /// A matrix of the same shape that holds a clone of every element.
    fn clone(&self) -> (copy: Matrix<T>)
        ensures
            self.wf() ==> copy.wf(),
            copy.spec_rows() == self.spec_rows(),
            copy.spec_cols() == self.spec_cols(),
            self.wf() ==> forall|r: int, c: int|
                0 <= r < self.spec_rows() && 0 <= c < self.spec_cols() ==> cloned(
                    self@[r][c],
                    #[trigger] copy@[r][c],
                ),
    {
        let copy = Matrix { elems: self.elems.clone(), rows: self.rows, cols: self.cols };
        proof {
            if self.wf() {
                assert forall|r: int, c: int|
                    0 <= r < self.spec_rows() && 0 <= c < self.spec_cols() implies cloned(
                    self@[r][c],
                    #[trigger] copy@[r][c],
                ) by {
                    lemma_cell(self.rows as int, self.cols as int, r, c);
                    let i = r * self.cols + c;
                    assert(cloned(self.elems[i], copy.elems[i]));
                }
            }
        }
        copy
    }
}

impl<T> View for Matrix<T> {
    type V = Seq<Seq<T>>;

    /// The elements as a sequence of rows.
    closed spec fn view(&self) -> Seq<Seq<T>> {
        Seq::new(
            self.rows as nat,
            |r: int| Seq::new(self.cols as nat, |c: int| self.elems@[r * self.cols + c]),
        )
    }
}

impl<T> Matrix<T> {
    /// The backing store holds exactly `rows * cols` elements.
    pub closed spec fn wf(self) -> bool {
        self.elems.len() == self.rows * self.cols
    }

    /// The number of rows.
    pub closed spec fn spec_rows(self) -> nat {
        self.rows as nat
    }

    /// The number of columns.
    pub closed spec fn spec_cols(self) -> nat {
        self.cols as nat
    }

    /// The view of a matrix has its number of rows, each of its number of
    /// columns.
    pub proof fn lemma_shape(self)
        ensures
            is_grid(self@, self.spec_rows(), self.spec_cols()),
    {
    }

    /// Builds a matrix from its elements in row-major order.
    pub fn new(rows: usize, cols: usize, elems: Vec<T>) -> (m: Matrix<T>)
        requires
            rows * cols == elems@.len(),
        ensures
            m.wf(),
            m.spec_rows() == rows,
            m.spec_cols() == cols,
            is_grid(m@, rows as nat, cols as nat),
            forall|r: int, c: int|
                0 <= r < rows && 0 <= c < cols ==> #[trigger] m@[r][c] == elems@[r * cols + c],
    {
        Matrix { elems, rows, cols }
    }

    /// The number of rows.
    pub fn rows(&self) -> (n: usize)
        ensures
            n == self.spec_rows(),
    {
        self.rows
    }

    /// The number of columns.
    pub fn cols(&self) -> (n: usize)
        ensures
            n == self.spec_cols(),
    {
        self.cols
    }

    /// Whether `n` is `self` with the stored element at position `i`
    /// replaced by `x`.
    spec fn stored_update(self, n: Matrix<T>, i: int, x: T) -> bool {
        n.rows == self.rows && n.cols == self.cols && n.elems@ == self.elems@.update(i, x)
    }

    /// Replacing the stored element of cell `(r, c)` replaces that entry of
    /// the view and no other.
    proof fn lemma_store_update(self, n: Matrix<T>, r: int, c: int, x: T)
        requires
            self.wf(),
            0 <= r < self.rows,
            0 <= c < self.cols,
            self.stored_update(n, r * self.cols + c, x),
        ensures
            n.wf(),
            n@ == self@.update(r, self@[r].update(c, x)),
    {
        let goal = self@.update(r, self@[r].update(c, x));
        lemma_cell(self.rows as int, self.cols as int, r, c);
        assert forall|y: int| 0 <= y < self.rows implies n@[y] =~= goal[y] by {
            assert forall|k: int| 0 <= k < self.cols implies n@[y][k] == goal[y][k] by {
                lemma_cell(self.rows as int, self.cols as int, y, k);
            }
        }
        assert(n@ =~= goal);
    }

    /// The element at row `r` and column `c`.
    fn cell(&self, r: usize, c: usize) -> (e: &T)
        requires
            self.wf(),
            r < self.spec_rows(),
            c < self.spec_cols(),
        ensures
            *e == self@[r as int][c as int],
    {
        proof {
            lemma_cell(self.rows as int, self.cols as int, r as int, c as int);
        }
        &self.elems[r * self.cols + c]
    }

    /// Replaces the element at row `r` and column `c`.
    fn set_cell(&mut self, r: usize, c: usize, value: T)
        requires
            old(self).wf(),
            r < old(self).spec_rows(),
            c < old(self).spec_cols(),
        ensures
            final(self).wf(),
            final(self).spec_rows() == old(self).spec_rows(),
            final(self).spec_cols() == old(self).spec_cols(),
            final(self)@ == old(self)@.update(r as int, old(self)@[r as int].update(c as int, value)),
    {
        proof {
            lemma_cell(self.rows as int, self.cols as int, r as int, c as int);
        }
        let i = r * self.cols + c;
        self.elems[i] = value;
        proof {
            old(self).lemma_store_update(*self, r as int, c as int, value);
        }
    }

    /// Exchanges rows `a` and `b`.
    pub fn swap_rows(&mut self, a: usize, b: usize)
        requires
            old(self).wf(),
            a < old(self).spec_rows(),
            b < old(self).spec_rows(),
        ensures
            final(self).wf(),
            final(self).spec_rows() == old(self).spec_rows(),
            final(self).spec_cols() == old(self).spec_cols(),
            final(self)@ == swap_rows(old(self)@, a as int, b as int),
    {
        proof {
            self.lemma_shape();
        }
        let cols = self.cols;
        let mut c: usize = 0;
        while c < cols
            invariant
                0 <= c <= cols,
                self.wf(),
                cols == self.spec_cols() == old(self).spec_cols(),
                self.spec_rows() == old(self).spec_rows(),
                a < self.spec_rows(),
                b < self.spec_rows(),
                is_grid(old(self)@, self.spec_rows(), self.spec_cols()),
                self@ =~~= Seq::new(
                    self.spec_rows(),
                    |r: int|
                        Seq::new(
                            cols as nat,
                            |k: int|
                                if k < c {
                                    swap_rows(old(self)@, a as int, b as int)[r][k]
                                } else {
                                    old(self)@[r][k]
                                },
                        ),
                ),
            decreases cols - c,
        {
            proof {
                lemma_cell(self.rows as int, cols as int, a as int, c as int);
                lemma_cell(self.rows as int, cols as int, b as int, c as int);
            }
            let ghost before = *self;
            self.elems.swap(a * cols + c, b * cols + c);
            proof {
                before.lemma_store_swap(*self, a as int, b as int, c as int);
            }
            c += 1;
        }
        assert(self@ =~~= swap_rows(old(self)@, a as int, b as int));
    }

    /// Exchanging the stored elements of cells `(a, c)` and `(b, c)`
    /// exchanges those two entries of the view and changes no other.
    proof fn lemma_store_swap(self, n: Matrix<T>, a: int, b: int, c: int)
        requires
            self.wf(),
            0 <= a < self.rows,
            0 <= b < self.rows,
            0 <= c < self.cols,
            n.rows == self.rows,
            n.cols == self.cols,
            n.elems@ == self.elems@.update(a * self.cols + c, self.elems@[b * self.cols + c]).update(
                b * self.cols + c,
                self.elems@[a * self.cols + c],
            ),
        ensures
            n.wf(),
            n@ == self@.update(a, self@[a].update(c, self@[b][c])).update(
                b,
                self@.update(a, self@[a].update(c, self@[b][c]))[b].update(c, self@[a][c]),
            ),
    {
        let rows = self.rows as int;
        let cols = self.cols as int;
        let mid = self@.update(a, self@[a].update(c, self@[b][c]));
        let goal = mid.update(b, mid[b].update(c, self@[a][c]));
        lemma_cell(rows, cols, a, c);
        lemma_cell(rows, cols, b, c);
        assert(n@.len() == goal.len());
        assert forall|y: int| 0 <= y < rows implies n@[y] =~= goal[y] by {
            assert(n@[y].len() == cols);
            assert(goal[y].len() == cols);
            assert forall|k: int| 0 <= k < cols implies n@[y][k] == goal[y][k] by {
                lemma_cell(rows, cols, y, k);
                let p = y * cols + k;
                assert(n@[y][k] == n.elems@[p]);
                assert(self@[y][k] == self.elems@[p]);
                assert(self@[a][c] == self.elems@[a * cols + c]);
                assert(self@[b][c] == self.elems@[b * cols + c]);
                if y == b && k == c {
                    assert(goal[y][k] == self@[a][c]);
                } else if y == a && k == c {
                    assert(p != b * cols + c);
                    assert(goal[y][k] == self@[b][c]);
                } else {
                    assert(p != a * cols + c);
                    assert(p != b * cols + c);
                    assert(goal[y][k] == self@[y][k]);
                }
            }
        }
        assert(n@ =~= goal);
    }

    /// Multiplies every element of row `row` by `f`.
    pub fn multiply_row(&mut self, row: usize, f: &T) where T: Scalar
        requires
            old(self).wf(),
            row < old(self).spec_rows(),
        ensures
            final(self).wf(),
            final(self).spec_rows() == old(self).spec_rows(),
            final(self).spec_cols() == old(self).spec_cols(),
            final(self)@ == scale_row(old(self)@, row as int, *f),
    {
        proof {
            self.lemma_shape();
        }
        let cols = self.cols;
        let mut c: usize = 0;
        while c < cols
            invariant
                0 <= c <= cols,
                self.wf(),
                cols == self.spec_cols() == old(self).spec_cols(),
                self.spec_rows() == old(self).spec_rows(),
                row < self.spec_rows(),
                is_grid(old(self)@, self.spec_rows(), self.spec_cols()),
                self@ =~~= old(self)@.update(
                    row as int,
                    Seq::new(
                        cols as nat,
                        |k: int|
                            if k < c {
                                old(self)@[row as int][k].mul_spec(*f)
                            } else {
                                old(self)@[row as int][k]
                            },
                    ),
                ),
            decreases cols - c,
        {
            let value = self.cell(row, c).mul(f);
            self.set_cell(row, c, value);
            c += 1;
        }
        assert(self@ =~~= scale_row(old(self)@, row as int, *f));
    }

    /// Adds row `b` to row `a`, element by element.
    pub fn add_row(&mut self, a: usize, b: usize) where T: Scalar
        requires
            old(self).wf(),
            a < old(self).spec_rows(),
            b < old(self).spec_rows(),
        ensures
            final(self).wf(),
            final(self).spec_rows() == old(self).spec_rows(),
            final(self).spec_cols() == old(self).spec_cols(),
            final(self)@ == add_row(old(self)@, a as int, b as int),
    {
        proof {
            self.lemma_shape();
        }
        let cols = self.cols;
        let mut c: usize = 0;
        while c < cols
            invariant
                0 <= c <= cols,
                self.wf(),
                cols == self.spec_cols() == old(self).spec_cols(),
                self.spec_rows() == old(self).spec_rows(),
                a < self.spec_rows(),
                b < self.spec_rows(),
                is_grid(old(self)@, self.spec_rows(), self.spec_cols()),
                self@ =~~= old(self)@.update(
                    a as int,
                    Seq::new(
                        cols as nat,
                        |k: int|
                            if k < c {
                                old(self)@[a as int][k].add_spec(old(self)@[b as int][k])
                            } else {
                                old(self)@[a as int][k]
                            },
                    ),
                ),
            decreases cols - c,
        {
            let value = self.cell(a, c).add(self.cell(b, c));
            self.set_cell(a, c, value);
            c += 1;
        }
        assert(self@ =~~= add_row(old(self)@, a as int, b as int));
    }

    /// Adds `f` times row `b` to row `a`, element by element.
    pub fn add_row_multiple(&mut self, a: usize, b: usize, f: &T) where T: Scalar
        requires
            old(self).wf(),
            a < old(self).spec_rows(),
            b < old(self).spec_rows(),
        ensures
            final(self).wf(),
            final(self).spec_rows() == old(self).spec_rows(),
            final(self).spec_cols() == old(self).spec_cols(),
            final(self)@ == add_row_multiple(old(self)@, a as int, b as int, *f),
    {
        proof {
            self.lemma_shape();
        }
        let cols = self.cols;
        let mut c: usize = 0;
        while c < cols
            invariant
                0 <= c <= cols,
                self.wf(),
                cols == self.spec_cols() == old(self).spec_cols(),
                self.spec_rows() == old(self).spec_rows(),
                a < self.spec_rows(),
                b < self.spec_rows(),
                is_grid(old(self)@, self.spec_rows(), self.spec_cols()),
                self@ =~~= old(self)@.update(
                    a as int,
                    Seq::new(
                        cols as nat,
                        |k: int|
                            if k < c {
                                old(self)@[a as int][k].add_spec(old(self)@[b as int][k].mul_spec(*f))
                            } else {
                                old(self)@[a as int][k]
                            },
                    ),
                ),
            decreases cols - c,
        {
            let scaled = self.cell(b, c).mul(f);
            let value = self.cell(a, c).add(&scaled);
            self.set_cell(a, c, value);
            c += 1;
        }
        assert(self@ =~~= add_row_multiple(old(self)@, a as int, b as int, *f));
    }
}

impl<T: Scalar> Matrix<T> {
    /// Whether the product `self × rhs` is defined and fits in memory: the
    /// inner dimensions agree and the number of cells of the result is a
    /// `usize`.
    pub open spec fn can_multiply(self, rhs: Matrix<T>) -> bool {
        &&& self.wf()
        &&& rhs.wf()
        &&& self.spec_cols() == rhs.spec_rows()
        &&& self.spec_rows() * rhs.spec_cols() <= usize::MAX
    }

    /// Whether `out` is the matrix product `self × rhs`.
    pub open spec fn is_product(self, rhs: Matrix<T>, out: Matrix<T>) -> bool {
        &&& out.wf()
        &&& out.spec_rows() == self.spec_rows()
        &&& out.spec_cols() == rhs.spec_cols()
        &&& out@ == product(self@, rhs@, rhs.spec_cols())
    }

    /// The sum over `k` of `self[i][k] * rhs[k][j]`.
    fn product_cell(&self, rhs: &Matrix<T>, i: usize, j: usize) -> (acc: T)
        requires
            self.wf(),
            rhs.wf(),
            self.spec_cols() == rhs.spec_rows(),
            i < self.spec_rows(),
            j < rhs.spec_cols(),
        ensures
            acc == inner_product(self@, rhs@, i as int, j as int, rhs.spec_rows()),
    {
        let inner = self.cols;
        let mut acc = T::zero();
        let mut k: usize = 0;
        while k < inner
            invariant
                0 <= k <= inner,
                self.wf(),
                rhs.wf(),
                inner == self.spec_cols() == rhs.spec_rows(),
                i < self.spec_rows(),
                j < rhs.spec_cols(),
                acc == inner_product(self@, rhs@, i as int, j as int, k as nat),
            decreases inner - k,
        {
            let term = self.cell(i, k).mul(rhs.cell(k, j));
            acc = acc.add(&term);
            k += 1;
        }
        acc
    }

    /// The matrix product `self × rhs`.
    fn multiply(&self, rhs: &Matrix<T>) -> (out: Matrix<T>)
        requires
            self.can_multiply(*rhs),
        ensures
            self.is_product(*rhs, out),
    {
        let rows = self.rows;
        let cols = rhs.cols;
        let ghost cell = |p: int| inner_product(self@, rhs@, p / (cols as int), p % (cols as int), rhs.spec_rows());
        let mut elems: Vec<T> = Vec::new();
        let mut i: usize = 0;
        while i < rows
            invariant
                0 <= i <= rows,
                self.can_multiply(*rhs),
                rows == self.spec_rows(),
                cols == rhs.spec_cols(),
                cell == |p: int| inner_product(self@, rhs@, p / (cols as int), p % (cols as int), rhs.spec_rows()),
                elems@ =~= Seq::new((i * cols) as nat, cell),
            decreases rows - i,
        {
            let mut j: usize = 0;
            while j < cols
                invariant
                    0 <= i < rows,
                    0 <= j <= cols,
                    self.can_multiply(*rhs),
                    rows == self.spec_rows(),
                    cols == rhs.spec_cols(),
                    cell == |p: int| inner_product(self@, rhs@, p / (cols as int), p % (cols as int), rhs.spec_rows()),
                    elems@ =~= Seq::new((i * cols + j) as nat, cell),
                decreases cols - j,
            {
                proof {
                    lemma_cell(rows as int, cols as int, i as int, j as int);
                }
                let value = self.product_cell(rhs, i, j);
                elems.push(value);
                j += 1;
            }
            proof {
                assert(i * cols + cols == (i + 1) * cols) by (nonlinear_arith);
            }
            i += 1;
        }
        let out = Matrix { elems, rows, cols };
        proof {
            let goal = product(self@, rhs@, rhs.spec_cols());
            self.lemma_shape();
            assert forall|y: int| 0 <= y < rows implies out@[y] =~= goal[y] by {
                assert forall|x: int| 0 <= x < cols implies out@[y][x] == goal[y][x] by {
                    lemma_cell(rows as int, cols as int, y, x);
                }
            }
            assert(out@ =~= goal);
        }
        out
    }
}

impl<'b, T: Scalar> vstd::std_specs::ops::MulSpecImpl<&'b Matrix<T>> for &'b Matrix<T> {
    /// The product is specified through its view by the contract of `mul`,
    /// not as a value: two matrices with equal views need not be equal.
    open spec fn obeys_mul_spec() -> bool {
        false
    }

    open spec fn mul_req(self, rhs: &'b Matrix<T>) -> bool {
        self.can_multiply(*rhs)
    }

    open spec fn mul_spec(self, rhs: &'b Matrix<T>) -> Matrix<T> {
        choose|out: Matrix<T>| self.is_product(*rhs, out)
    }
}

impl<'b, T: Scalar> Mul<&'b Matrix<T>> for &'b Matrix<T> {
    type Output = Matrix<T>;

    /// The matrix product `self × rhs`.
    fn mul(self, rhs: &'b Matrix<T>) -> (out: Matrix<T>)
        ensures
            self.is_product(*rhs, out),
    {
        self.multiply(rhs)
    }
}

impl<T: Scalar> vstd::std_specs::ops::MulSpecImpl<Matrix<T>> for Matrix<T> {
    /// The product is specified through its view by the contract of `mul`,
    /// not as a value: two matrices with equal views need not be equal.
    open spec fn obeys_mul_spec() -> bool {
        false
    }

    open spec fn mul_req(self, rhs: Matrix<T>) -> bool {
        self.can_multiply(rhs)
    }

    open spec fn mul_spec(self, rhs: Matrix<T>) -> Matrix<T> {
        choose|out: Matrix<T>| self.is_product(rhs, out)
    }
}

impl<T: Scalar> Mul<Matrix<T>> for Matrix<T> {
    type Output = Matrix<T>;

    /// The matrix product `self × rhs`.
    fn mul(self, rhs: Matrix<T>) -> (out: Matrix<T>)
        ensures
            self.is_product(rhs, out),
    {
        (&self).multiply(&rhs)
    }
}

impl<'b, T: Scalar> vstd::std_specs::ops::MulSpecImpl<&'b Matrix<T>> for Matrix<T> {
    /// The product is specified through its view by the contract of `mul`,
    /// not as a value: two matrices with equal views need not be equal.
    open spec fn obeys_mul_spec() -> bool {
        false
    }

    open spec fn mul_req(self, rhs: &'b Matrix<T>) -> bool {
        self.can_multiply(*rhs)
    }

    open spec fn mul_spec(self, rhs: &'b Matrix<T>) -> Matrix<T> {
        choose|out: Matrix<T>| self.is_product(*rhs, out)
    }
}

impl<'b, T: Scalar> Mul<&'b Matrix<T>> for Matrix<T> {
    type Output = Matrix<T>;

    /// The matrix product `self × rhs`.
    fn mul(self, rhs: &'b Matrix<T>) -> (out: Matrix<T>)
        ensures
            self.is_product(*rhs, out),
    {
        (&self).multiply(rhs)
    }
}

impl<'b, T: Scalar> vstd::std_specs::ops::MulSpecImpl<Matrix<T>> for &'b Matrix<T> {
    /// The product is specified through its view by the contract of `mul`,
    /// not as a value: two matrices with equal views need not be equal.
    open spec fn obeys_mul_spec() -> bool {
        false
    }

    open spec fn mul_req(self, rhs: Matrix<T>) -> bool {
        self.can_multiply(rhs)
    }

    open spec fn mul_spec(self, rhs: Matrix<T>) -> Matrix<T> {
        choose|out: Matrix<T>| self.is_product(rhs, out)
    }
}

impl<'b, T: Scalar> Mul<Matrix<T>> for &'b Matrix<T> {
    type Output = Matrix<T>;

    /// The matrix product `self × rhs`.
    fn mul(self, rhs: Matrix<T>) -> (out: Matrix<T>)
        ensures
            self.is_product(rhs, out),
    {
        self.multiply(&rhs)
    }
}

impl<T> Matrix<T> {
    /// A read-only view of row `row`.
    pub fn row(&self, row: usize) -> (v: Row<'_, T>)
        requires
            self.wf(),
            row < self.spec_rows(),
        ensures
            v@ == self@[row as int],
            v@.len() == self.spec_cols(),
    {
        proof {
            self.lemma_shape();
        }
        Row { matrix: self, row }
    }

    /// A read-write view of row `row`. What is written through the view is
    /// written to the matrix.
    pub fn row_mut(&mut self, row: usize) -> (v: RowMut<'_, T>)
        requires
            old(self).wf(),
            row < old(self).spec_rows(),
        ensures
            *v.matrix == *old(self),
            v.row == row,
            *final(self) == *final(v.matrix),
    {
        RowMut { matrix: self, row }
    }

    /// A read-only view of column `col`.
    pub fn col(&self, col: usize) -> (v: Col<'_, T>)
        requires
            self.wf(),
            col < self.spec_cols(),
        ensures
            v@.len() == self.spec_rows(),
            forall|r: int| 0 <= r < self.spec_rows() ==> v@[r] == #[trigger] self@[r][col as int],
    {
        Col { matrix: self, col }
    }

    /// A read-write view of column `col`. What is written through the view
    /// is written to the matrix.
    pub fn col_mut(&mut self, col: usize) -> (v: ColMut<'_, T>)
        requires
            old(self).wf(),
            col < old(self).spec_cols(),
        ensures
            *v.matrix == *old(self),
            v.col == col,
            *final(self) == *final(v.matrix),
    {
        ColMut { matrix: self, col }
    }
}

/// A read-only view of one row of a matrix.
pub struct Row<'a, T> {
    matrix: &'a Matrix<T>,
    row: usize,
}

impl<'a, T> View for Row<'a, T> {
    type V = Seq<T>;

    /// The elements of the row, by column.
    closed spec fn view(&self) -> Seq<T> {
        self.matrix@[self.row as int]
    }
}

impl<'a, T> Row<'a, T> {
    /// The view addresses a row of a well-formed matrix.
    #[verifier::type_invariant]
    spec fn in_range(self) -> bool {
        self.matrix.wf() && self.row < self.matrix.rows
    }
}

impl<'a, T> vstd::std_specs::core::IndexSpecImpl<usize> for Row<'a, T> {
    open spec fn index_req(&self, index: &usize) -> bool {
        *index < self@.len()
    }
}

impl<'a, T> Index<usize> for Row<'a, T> {
    type Output = T;

    /// The element of the row in column `idx`.
    fn index(&self, idx: usize) -> (e: &T)
        ensures
            *e == self@[idx as int],
    {
        proof {
            use_type_invariant(self);
        }
        self.matrix.cell(self.row, idx)
    }
}

/// A read-only view of one column of a matrix.
pub struct Col<'a, T> {
    matrix: &'a Matrix<T>,
    col: usize,
}

impl<'a, T> View for Col<'a, T> {
    type V = Seq<T>;

    /// The elements of the column, by row.
    closed spec fn view(&self) -> Seq<T> {
        Seq::new(self.matrix.rows as nat, |r: int| self.matrix@[r][self.col as int])
    }
}

impl<'a, T> Col<'a, T> {
    /// The view addresses a column of a well-formed matrix.
    #[verifier::type_invariant]
    spec fn in_range(self) -> bool {
        self.matrix.wf() && self.col < self.matrix.cols
    }
}

impl<'a, T> vstd::std_specs::core::IndexSpecImpl<usize> for Col<'a, T> {
    open spec fn index_req(&self, index: &usize) -> bool {
        *index < self@.len()
    }
}

impl<'a, T> Index<usize> for Col<'a, T> {
    type Output = T;

    /// The element of the column in row `idx`.
    fn index(&self, idx: usize) -> (e: &T)
        ensures
            *e == self@[idx as int],
    {
        proof {
            use_type_invariant(self);
        }
        self.matrix.cell(idx, self.col)
    }
}

/// A read-write view of one row of a matrix.
///
/// The fields are public so that contracts can speak of the matrix behind
/// the view, as it is and as it will be when the view is given up.
pub struct RowMut<'a, T> {
    /// The matrix that the view reads and writes.
    pub matrix: &'a mut Matrix<T>,
    /// The row that the view addresses.
    pub row: usize,
}

impl<'a, T> View for RowMut<'a, T> {
    type V = Seq<T>;

    /// The elements of the row as they are now, by column.
    open spec fn view(&self) -> Seq<T> {
        self.matrix@[self.row as int]
    }
}

impl<'a, T> RowMut<'a, T> {
    /// The view addresses a row of a well-formed matrix.
    pub open spec fn wf(self) -> bool {
        self.matrix.wf() && self.row < self.matrix.spec_rows()
    }
}

impl<'a, T> vstd::std_specs::core::IndexSpecImpl<usize> for RowMut<'a, T> {
    open spec fn index_req(&self, index: &usize) -> bool {
        self.wf() && *index < self.matrix.spec_cols()
    }
}

impl<'a, T> Index<usize> for RowMut<'a, T> {
    type Output = T;

    /// The element of the row in column `idx`.
    fn index(&self, idx: usize) -> (e: &T)
        ensures
            *e == self@[idx as int],
    {
        self.matrix.cell(self.row, idx)
    }
}

impl<'a, T> IndexMut<usize> for RowMut<'a, T> {
    /// The place of the element in column `idx`: what the caller writes
    /// there replaces that element of the matrix and no other.
    fn index_mut(&mut self, idx: usize) -> (e: &mut T)
        requires
            old(self).wf(),
            idx < old(self).matrix.spec_cols(),
        ensures
            *e == old(self).matrix@[old(self).row as int][idx as int],
            final(self).row == old(self).row,
            *final(final(self).matrix) == *final(old(self).matrix),
            final(self).matrix.wf(),
            final(self).matrix.spec_rows() == old(self).matrix.spec_rows(),
            final(self).matrix.spec_cols() == old(self).matrix.spec_cols(),
            final(self).matrix@ == old(self).matrix@.update(
                old(self).row as int,
                old(self).matrix@[old(self).row as int].update(idx as int, *final(e)),
            ),
    {
        proof {
            lemma_cell(self.matrix.rows as int, self.matrix.cols as int, self.row as int, idx as int);
            let before = *self.matrix;
            let r = self.row as int;
            let c = idx as int;
            assert forall|n: Matrix<T>, x: T|
                #![trigger n.view(), before.elems@.update(r * before.cols + c, x)]
                before.stored_update(n, r * before.cols + c, x) implies n.wf() && n@ == before@.update(
                r,
                before@[r].update(c, x),
            ) by {
                before.lemma_store_update(n, r, c, x);
            }
        }
        &mut self.matrix.elems[self.row * self.matrix.cols + idx]
    }
}

/// A read-write view of one column of a matrix.
///
/// The fields are public so that contracts can speak of the matrix behind
/// the view, as it is and as it will be when the view is given up.
pub struct ColMut<'a, T> {
    /// The matrix that the view reads and writes.
    pub matrix: &'a mut Matrix<T>,
    /// The column that the view addresses.
    pub col: usize,
}

impl<'a, T> View for ColMut<'a, T> {
    type V = Seq<T>;

    /// The elements of the column as they are now, by row.
    open spec fn view(&self) -> Seq<T> {
        Seq::new(self.matrix.spec_rows(), |r: int| self.matrix@[r][self.col as int])
    }
}

impl<'a, T> ColMut<'a, T> {
    /// The view addresses a column of a well-formed matrix.
    pub open spec fn wf(self) -> bool {
        self.matrix.wf() && self.col < self.matrix.spec_cols()
    }
}

impl<'a, T> vstd::std_specs::core::IndexSpecImpl<usize> for ColMut<'a, T> {
    open spec fn index_req(&self, index: &usize) -> bool {
        self.wf() && *index < self.matrix.spec_rows()
    }
}

impl<'a, T> Index<usize> for ColMut<'a, T> {
    type Output = T;

    /// The element of the column in row `idx`.
    fn index(&self, idx: usize) -> (e: &T)
        ensures
            *e == self@[idx as int],
    {
        self.matrix.cell(idx, self.col)
    }
}

impl<'a, T> IndexMut<usize> for ColMut<'a, T> {
    /// The place of the element in row `idx`: what the caller writes there
    /// replaces that element of the matrix and no other.
    fn index_mut(&mut self, idx: usize) -> (e: &mut T)
        requires
            old(self).wf(),
            idx < old(self).matrix.spec_rows(),
        ensures
            *e == old(self).matrix@[idx as int][old(self).col as int],
            final(self).col == old(self).col,
            *final(final(self).matrix) == *final(old(self).matrix),
            final(self).matrix.wf(),
            final(self).matrix.spec_rows() == old(self).matrix.spec_rows(),
            final(self).matrix.spec_cols() == old(self).matrix.spec_cols(),
            final(self).matrix@ == old(self).matrix@.update(
                idx as int,
                old(self).matrix@[idx as int].update(old(self).col as int, *final(e)),
            ),
    {
        proof {
            lemma_cell(self.matrix.rows as int, self.matrix.cols as int, idx as int, self.col as int);
            let before = *self.matrix;
            let r = idx as int;
            let c = self.col as int;
            assert forall|n: Matrix<T>, x: T|
                #![trigger n.view(), before.elems@.update(r * before.cols + c, x)]
                before.stored_update(n, r * before.cols + c, x) implies n.wf() && n@ == before@.update(
                r,
                before@[r].update(c, x),
            ) by {
                before.lemma_store_update(n, r, c, x);
            }
        }
        &mut self.matrix.elems[idx * self.matrix.cols + self.col]
    }
}

} // verus!
