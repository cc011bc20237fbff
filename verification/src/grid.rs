//! The mathematical model of a matrix: a sequence of rows of equal length,
//! and the elementary row operations on it.

use crate::scalar::Scalar;
use vstd::prelude::*;

verus! {

/// Whether `m` has `rows` rows of `cols` entries each.
pub open spec fn is_grid<T>(m: Seq<Seq<T>>, rows: nat, cols: nat) -> bool {
    &&& m.len() == rows
    &&& forall|r: int| 0 <= r < rows ==> (#[trigger] m[r]).len() == cols
}

/// The number of columns of a grid; zero for a grid without rows.
pub open spec fn width<T>(m: Seq<Seq<T>>) -> nat {
    if m.len() == 0 {
        0
    } else {
        m[0].len()
    }
}

/// `m` with rows `a` and `b` exchanged.
pub open spec fn swap_rows<T>(m: Seq<Seq<T>>, a: int, b: int) -> Seq<Seq<T>> {
    m.update(a, m[b]).update(b, m[a])
}

/// `m` with every entry of row `r` multiplied by `f`.
pub open spec fn scale_row<T: Scalar>(m: Seq<Seq<T>>, r: int, f: T) -> Seq<Seq<T>> {
    m.update(r, Seq::new(m[r].len(), |c: int| m[r][c].mul_spec(f)))
}

/// `m` with row `b` added, entry by entry, to row `a`.
pub open spec fn add_row<T: Scalar>(m: Seq<Seq<T>>, a: int, b: int) -> Seq<Seq<T>> {
    m.update(a, Seq::new(m[a].len(), |c: int| m[a][c].add_spec(m[b][c])))
}

/// `m` with `f` times row `b` added, entry by entry, to row `a`.
pub open spec fn add_row_multiple<T: Scalar>(m: Seq<Seq<T>>, a: int, b: int, f: T) -> Seq<Seq<T>> {
    m.update(a, Seq::new(m[a].len(), |c: int| m[a][c].add_spec(m[b][c].mul_spec(f))))
}

/// The sum of the first `n` products `a[i][k] * b[k][j]`, accumulated from
/// zero in the order of `k`.
pub open spec fn inner_product<T: Scalar>(a: Seq<Seq<T>>, b: Seq<Seq<T>>, i: int, j: int, n: nat) -> T
    decreases n,
{
    if n == 0 {
        T::zero_spec()
    } else {
        inner_product(a, b, i, j, (n - 1) as nat).add_spec(a[i][n - 1].mul_spec(b[n - 1][j]))
    }
}

/// The matrix product of an `n × k` grid `a` and a `k × cols` grid `b`.
pub open spec fn product<T: Scalar>(a: Seq<Seq<T>>, b: Seq<Seq<T>>, cols: nat) -> Seq<Seq<T>> {
    Seq::new(a.len(), |i: int| Seq::new(cols, |j: int| inner_product(a, b, i, j, b.len())))
}

} // verus!
