//! Consequences of the field laws that the proofs about elimination use.

use crate::scalar::{Field, Scalar};
use vstd::prelude::*;

verus! {

/// `0 + a == a`.
pub proof fn lemma_zero_add<T: Field>(a: T)
    ensures
        T::zero_spec().add_spec(a) == a,
{
    T::add_commutative(T::zero_spec(), a);
    T::add_zero(a);
}

/// `1 * a == a`.
pub proof fn lemma_one_mul<T: Field>(a: T)
    ensures
        T::one_spec().mul_spec(a) == a,
{
    T::mul_commutative(T::one_spec(), a);
    T::mul_one(a);
}

/// `(-a) + a == 0`.
pub proof fn lemma_neg_add<T: Field>(a: T)
    ensures
        a.neg_spec().add_spec(a) == T::zero_spec(),
{
    T::add_commutative(a.neg_spec(), a);
    T::add_neg(a);
}

/// A summand that is added on both sides can be cancelled.
pub proof fn lemma_add_cancel<T: Field>(a: T, b: T, c: T)
    requires
        a.add_spec(c) == b.add_spec(c),
    ensures
        a == b,
{
    T::add_zero(a);
    T::add_zero(b);
    T::add_neg(c);
    T::add_associative(a, c, c.neg_spec());
    T::add_associative(b, c, c.neg_spec());
}

/// The additive inverse is unique: if `a + b == 0` then `b == -a`.
pub proof fn lemma_neg_unique<T: Field>(a: T, b: T)
    requires
        a.add_spec(b) == T::zero_spec(),
    ensures
        b == a.neg_spec(),
{
    lemma_zero_add(b);
    lemma_neg_add(a);
    T::add_associative(a.neg_spec(), a, b);
    T::add_zero(a.neg_spec());
}

/// `a * 0 == 0` and `0 * a == 0`.
pub proof fn lemma_mul_zero<T: Field>(a: T)
    ensures
        a.mul_spec(T::zero_spec()) == T::zero_spec(),
        T::zero_spec().mul_spec(a) == T::zero_spec(),
{
    let z = T::zero_spec();
    let az = a.mul_spec(z);
    T::add_zero(z);
    T::distributive(a, z, z);
    lemma_zero_add(az);
    lemma_add_cancel(z, az, az);
    T::mul_commutative(z, a);
}

/// `-0 == 0`.
pub proof fn lemma_neg_zero<T: Field>()
    ensures
        T::zero_spec().neg_spec() == T::zero_spec(),
{
    T::add_zero(T::zero_spec());
    lemma_neg_unique(T::zero_spec(), T::zero_spec());
}

/// `-(-a) == a`.
pub proof fn lemma_neg_neg<T: Field>(a: T)
    ensures
        a.neg_spec().neg_spec() == a,
{
    lemma_neg_add(a);
    lemma_neg_unique(a.neg_spec(), a);
}

/// `a * (-b) == -(a * b)`.
pub proof fn lemma_mul_neg<T: Field>(a: T, b: T)
    ensures
        a.mul_spec(b.neg_spec()) == a.mul_spec(b).neg_spec(),
{
    T::distributive(a, b, b.neg_spec());
    T::add_neg(b);
    lemma_mul_zero(a);
    lemma_neg_unique(a.mul_spec(b), a.mul_spec(b.neg_spec()));
}

/// `a * (-1) == -a`.
pub proof fn lemma_mul_neg_one<T: Field>(a: T)
    ensures
        a.mul_spec(T::one_spec().neg_spec()) == a.neg_spec(),
{
    lemma_mul_neg(a, T::one_spec());
    T::mul_one(a);
}

/// The negative of a nonzero element is nonzero.
pub proof fn lemma_neg_nonzero<T: Field>(a: T)
    requires
        a != T::zero_spec(),
    ensures
        a.neg_spec() != T::zero_spec(),
{
    lemma_neg_neg(a);
    lemma_neg_zero::<T>();
}

/// The reciprocal of a nonzero element is nonzero.
pub proof fn lemma_inv_nonzero<T: Field>(a: T)
    requires
        a != T::zero_spec(),
    ensures
        a.inv_spec() != T::zero_spec(),
{
    T::mul_inv(a);
    lemma_mul_zero(a);
    T::one_not_zero();
}

/// `1 / 1 == 1`.
pub proof fn lemma_inv_one<T: Field>()
    ensures
        T::one_spec().inv_spec() == T::one_spec(),
{
    T::one_not_zero();
    T::mul_inv(T::one_spec());
    lemma_one_mul(T::one_spec().inv_spec());
}

/// A factor that is multiplied by and then divided by leaves the other
/// factor: `(a * f) * (1 / f) == a` for nonzero `f`.
pub proof fn lemma_mul_inv_cancel<T: Field>(a: T, f: T)
    requires
        f != T::zero_spec(),
    ensures
        a.mul_spec(f).mul_spec(f.inv_spec()) == a,
{
    T::mul_associative(a, f, f.inv_spec());
    T::mul_inv(f);
    T::mul_one(a);
}

/// Negating twice by multiplication restores an element:
/// `(a * (-1)) * (-1) == a`.
pub proof fn lemma_negate_twice<T: Field>(a: T)
    ensures
        a.mul_spec(T::one_spec().neg_spec()).mul_spec(T::one_spec().neg_spec()) == a,
{
    lemma_mul_neg_one(a);
    lemma_mul_neg_one(a.neg_spec());
    lemma_neg_neg(a);
}

/// A nonzero element times minus its reciprocal is minus one.
pub proof fn lemma_mul_neg_inv<T: Field>(a: T)
    requires
        a != T::zero_spec(),
    ensures
        a.mul_spec(a.inv_spec().neg_spec()) == T::one_spec().neg_spec(),
{
    lemma_mul_neg(a, a.inv_spec());
    T::mul_inv(a);
}

/// Adding a multiple of zero changes nothing: `a + 0 * f == a`.
pub proof fn lemma_add_zero_multiple<T: Field>(a: T, f: T)
    ensures
        a.add_spec(T::zero_spec().mul_spec(f)) == a,
{
    lemma_mul_zero(f);
    T::add_zero(a);
}

/// The product of two nonzero elements is nonzero.
pub proof fn lemma_mul_nonzero<T: Field>(a: T, b: T)
    requires
        a != T::zero_spec(),
        b != T::zero_spec(),
    ensures
        a.mul_spec(b) != T::zero_spec(),
{
    if a.mul_spec(b) == T::zero_spec() {
        // b == (1/a * a) * b == 1/a * (a * b) == 0
        T::mul_inv(a);
        T::mul_commutative(a, a.inv_spec());
        T::mul_associative(a.inv_spec(), a, b);
        lemma_one_mul(b);
        lemma_mul_zero(a.inv_spec());
    }
}

/// `(a + b) + c == (a + c) + b`.
pub proof fn lemma_add_exchange<T: Field>(a: T, b: T, c: T)
    ensures
        a.add_spec(b).add_spec(c) == a.add_spec(c).add_spec(b),
{
    T::add_associative(a, b, c);
    T::add_associative(a, c, b);
    T::add_commutative(b, c);
}

/// `(a * b) * c == (a * c) * b`.
pub proof fn lemma_mul_exchange<T: Field>(a: T, b: T, c: T)
    ensures
        a.mul_spec(b).mul_spec(c) == a.mul_spec(c).mul_spec(b),
{
    T::mul_associative(a, b, c);
    T::mul_associative(a, c, b);
    T::mul_commutative(b, c);
}

/// `(a + b) * c == a * c + b * c`.
pub proof fn lemma_distributive_right<T: Field>(a: T, b: T, c: T)
    ensures
        a.add_spec(b).mul_spec(c) == a.mul_spec(c).add_spec(b.mul_spec(c)),
{
    T::mul_commutative(a.add_spec(b), c);
    T::distributive(c, a, b);
    T::mul_commutative(c, a);
    T::mul_commutative(c, b);
}

/// The sum of the elements of `s`, accumulated from zero in their order.
pub open spec fn sum<T: Scalar>(s: Seq<T>) -> T
    decreases s.len(),
{
    if s.len() == 0 {
        T::zero_spec()
    } else {
        sum(s.drop_last()).add_spec(s.last())
    }
}

/// Replacing one element changes the sum by the difference:
/// `sum(s[i := x]) + s[i] == sum(s) + x`.
pub proof fn lemma_sum_update<T: Field>(s: Seq<T>, i: int, x: T)
    requires
        0 <= i < s.len(),
    ensures
        sum(s.update(i, x)).add_spec(s[i]) == sum(s).add_spec(x),
    decreases s.len(),
{
    let t = s.update(i, x);
    let init = sum(s.drop_last());
    if i == s.len() - 1 {
        assert(t.drop_last() =~= s.drop_last());
        lemma_add_exchange(init, x, s[i]);
    } else {
        assert(t.drop_last() =~= s.drop_last().update(i, x));
        lemma_sum_update(s.drop_last(), i, x);
        lemma_add_exchange(sum(t.drop_last()), s.last(), s[i]);
        lemma_add_exchange(init, x, s.last());
    }
}

/// The sum of zeros is zero.
pub proof fn lemma_sum_zeros<T: Field>(s: Seq<T>)
    requires
        forall|i: int| 0 <= i < s.len() ==> s[i] == T::zero_spec(),
    ensures
        sum(s) == T::zero_spec(),
    decreases s.len(),
{
    if s.len() > 0 {
        lemma_sum_zeros(s.drop_last());
        T::add_zero(T::zero_spec());
    }
}

/// A sum with at most one nonzero element is that element.
pub proof fn lemma_sum_single<T: Field>(s: Seq<T>, i: int)
    requires
        0 <= i < s.len(),
        forall|j: int| 0 <= j < s.len() && j != i ==> s[j] == T::zero_spec(),
    ensures
        sum(s) == s[i],
{
    let zeros = s.update(i, T::zero_spec());
    lemma_sum_zeros(zeros);
    lemma_sum_update(zeros, i, s[i]);
    assert(zeros.update(i, s[i]) =~= s);
    T::add_zero(sum(s));
    lemma_zero_add(s[i]);
}

/// Replacing two elements by two others with the same sum keeps the sum.
pub proof fn lemma_sum_two_updates<T: Field>(s: Seq<T>, a: int, b: int, x: T, y: T)
    requires
        0 <= a < s.len(),
        0 <= b < s.len(),
        a != b,
        x.add_spec(y) == s[a].add_spec(s[b]),
    ensures
        sum(s.update(a, x).update(b, y)) == sum(s),
{
    let s1 = s.update(a, x);
    let s2 = s1.update(b, y);
    lemma_sum_update(s, a, x);
    lemma_sum_update(s1, b, y);
    // sum(s2) + s[b] + s[a] == sum(s1) + y + s[a] == sum(s1) + s[a] + y
    //   == sum(s) + x + y == sum(s) + (s[a] + s[b])
    lemma_add_exchange(sum(s1), y, s[a]);
    T::add_associative(sum(s), x, y);
    T::add_associative(sum(s2), s[b], s[a]);
    T::add_commutative(s[b], s[a]);
    lemma_add_cancel(sum(s2), sum(s), s[a].add_spec(s[b]));
}

/// Exchanging two elements keeps the sum.
pub proof fn lemma_sum_swap<T: Field>(s: Seq<T>, a: int, b: int)
    requires
        0 <= a < s.len(),
        0 <= b < s.len(),
    ensures
        sum(s.update(a, s[b]).update(b, s[a])) == sum(s),
{
    if a == b {
        assert(s.update(a, s[b]).update(b, s[a]) =~= s);
    } else {
        T::add_commutative(s[b], s[a]);
        lemma_sum_two_updates(s, a, b, s[b], s[a]);
    }
}

/// The sum of element-wise sums is the sum of the sums.
pub proof fn lemma_sum_of_sums<T: Field>(s: Seq<T>, t: Seq<T>)
    requires
        s.len() == t.len(),
    ensures
        sum(Seq::new(s.len(), |k: int| s[k].add_spec(t[k]))) == sum(s).add_spec(sum(t)),
    decreases s.len(),
{
    let u = Seq::new(s.len(), |k: int| s[k].add_spec(t[k]));
    if s.len() == 0 {
        T::add_zero(T::zero_spec());
    } else {
        let s0 = s.drop_last();
        let t0 = t.drop_last();
        lemma_sum_of_sums(s0, t0);
        assert(u.drop_last() =~= Seq::new(s0.len(), |k: int| s0[k].add_spec(t0[k])));
        // (a + b) + (x + y) == (a + x) + (b + y)
        let a = sum(s0);
        let b = sum(t0);
        let x = s.last();
        let y = t.last();
        T::add_associative(a.add_spec(b), x, y);
        lemma_add_exchange(a, b, x);
        T::add_associative(a.add_spec(x), b, y);
    }
}

/// The sum of the elements times a factor is the sum times the factor.
pub proof fn lemma_sum_scaled<T: Field>(s: Seq<T>, f: T)
    ensures
        sum(Seq::new(s.len(), |k: int| s[k].mul_spec(f))) == sum(s).mul_spec(f),
    decreases s.len(),
{
    let u = Seq::new(s.len(), |k: int| s[k].mul_spec(f));
    if s.len() == 0 {
        lemma_mul_zero(f);
    } else {
        let s0 = s.drop_last();
        lemma_sum_scaled(s0, f);
        assert(u.drop_last() =~= Seq::new(s0.len(), |k: int| s0[k].mul_spec(f)));
        lemma_distributive_right(sum(s0), s.last(), f);
    }
}

} // verus!
