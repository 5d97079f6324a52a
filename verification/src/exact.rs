//! The laws of exact arithmetic, and finite sums under them.

use crate::scalar::Algebra;
use vstd::prelude::*;

verus! {

/// The laws of a commutative ring, of three numbers.
pub open spec fn laws_at<A: Algebra>(a: A, b: A, c: A) -> bool {
    &&& a + b == b + a
    &&& (a + b) + c == a + (b + c)
    &&& a + A::zero() == a
    &&& (a - b) + b == a
    &&& (a + b) - b == a
    &&& a + (-a) == A::zero()
    &&& a * b == b * a
    &&& (a * b) * c == a * (b * c)
    &&& a * (b + c) == a * b + a * c
    &&& a * A::one() == a
}

/// Addition, subtraction and multiplication are those of a commutative ring.
pub open spec fn ring<A: Algebra>() -> bool {
    forall|a: A, b: A, c: A| #[trigger] laws_at(a, b, c)
}

/// A quotient times its divisor is the dividend, unless the divisor is zero.
pub open spec fn divides_at<A: Algebra>(a: A, b: A) -> bool {
    b != A::zero() ==> a.over(b) * b == a
}

/// Division is exact.
pub open spec fn exact_division<A: Algebra>() -> bool {
    forall|a: A, b: A| #[trigger] divides_at(a, b)
}

pub proof fn law_add_comm<A: Algebra>(a: A, b: A)
    requires
        ring::<A>(),
    ensures
        a + b == b + a,
{
    assert(laws_at(a, b, b));
}

pub proof fn law_add_assoc<A: Algebra>(a: A, b: A, c: A)
    requires
        ring::<A>(),
    ensures
        (a + b) + c == a + (b + c),
{
    assert(laws_at(a, b, c));
}

pub proof fn law_add_zero<A: Algebra>(a: A)
    requires
        ring::<A>(),
    ensures
        a + A::zero() == a,
        A::zero() + a == a,
{
    assert(laws_at(a, a, a));
    law_add_comm(a, A::zero());
}

pub proof fn law_sub<A: Algebra>(a: A, b: A)
    requires
        ring::<A>(),
    ensures
        (a - b) + b == a,
        b + (a - b) == a,
        (a + b) - b == a,
        (b + a) - b == a,
{
    assert(laws_at(a, b, b));
    law_add_comm(a, b);
    law_add_comm(a - b, b);
}

pub proof fn law_mul_comm<A: Algebra>(a: A, b: A)
    requires
        ring::<A>(),
    ensures
        a * b == b * a,
{
    assert(laws_at(a, b, b));
}

pub proof fn law_mul_assoc<A: Algebra>(a: A, b: A, c: A)
    requires
        ring::<A>(),
    ensures
        (a * b) * c == a * (b * c),
{
    assert(laws_at(a, b, c));
}

pub proof fn law_distribute<A: Algebra>(a: A, b: A, c: A)
    requires
        ring::<A>(),
    ensures
        a * (b + c) == a * b + a * c,
        (b + c) * a == b * a + c * a,
{
    assert(laws_at(a, b, c));
    law_mul_comm(a, b + c);
    law_mul_comm(a, b);
    law_mul_comm(a, c);
}

pub proof fn law_mul_one<A: Algebra>(a: A)
    requires
        ring::<A>(),
    ensures
        a * A::one() == a,
        A::one() * a == a,
{
    assert(laws_at(a, a, a));
    law_mul_comm(a, A::one());
}

pub proof fn law_mul_zero<A: Algebra>(a: A)
    requires
        ring::<A>(),
    ensures
        a * A::zero() == A::zero(),
        A::zero() * a == A::zero(),
{
    let z = A::zero();
    let x = a * z;
    law_add_zero(z);
    law_distribute(a, z, z);
    assert(x == x + x);
    law_sub(x, x);
    law_add_zero(x);
    law_sub(z, x);
    assert(x - x == z);
    law_mul_comm(a, z);
}

pub proof fn law_exact_division<A: Algebra>(a: A, b: A)
    requires
        exact_division::<A>(),
        b != A::zero(),
    ensures
        a.over(b) * b == a,
{
    assert(divides_at(a, b));
}

// ---------------------------------------------------------------- sums

/// The sum of `f` over the integers from `lo` up to, but without, `hi`.
pub open spec fn sum<A: Algebra>(f: spec_fn(int) -> A, lo: int, hi: int) -> A
    decreases hi - lo,
{
    if lo < hi {
        sum(f, lo, hi - 1) + f(hi - 1)
    } else {
        A::zero()
    }
}

/// Sums of the same terms are the same.
pub proof fn lemma_sum_same<A: Algebra>(
    f: spec_fn(int) -> A,
    g: spec_fn(int) -> A,
    lo: int,
    hi: int,
)
    requires
        forall|i: int| lo <= i < hi ==> #[trigger] f(i) == g(i),
    ensures
        sum(f, lo, hi) == sum(g, lo, hi),
    decreases hi - lo,
{
    if lo < hi {
        lemma_sum_same(f, g, lo, hi - 1);
        assert(f(hi - 1) == g(hi - 1));
    }
}

/// A sum of zeros is zero.
pub proof fn lemma_sum_zero<A: Algebra>(f: spec_fn(int) -> A, lo: int, hi: int)
    requires
        ring::<A>(),
        forall|i: int| lo <= i < hi ==> #[trigger] f(i) == A::zero(),
    ensures
        sum(f, lo, hi) == A::zero(),
    decreases hi - lo,
{
    if lo < hi {
        lemma_sum_zero(f, lo, hi - 1);
        assert(f(hi - 1) == A::zero());
        law_add_zero(A::zero());
    }
}

/// A sum may be taken in two parts.
pub proof fn lemma_sum_split<A: Algebra>(f: spec_fn(int) -> A, lo: int, mid: int, hi: int)
    requires
        ring::<A>(),
        lo <= mid <= hi,
    ensures
        sum(f, lo, hi) == sum(f, lo, mid) + sum(f, mid, hi),
    decreases hi - mid,
{
    if mid < hi {
        lemma_sum_split(f, lo, mid, hi - 1);
        law_add_assoc(sum(f, lo, mid), sum(f, mid, hi - 1), f(hi - 1));
    } else {
        law_add_zero(sum(f, lo, mid));
    }
}

/// The sum of sums is a sum of sums of terms.
pub proof fn lemma_sum_add<A: Algebra>(f: spec_fn(int) -> A, g: spec_fn(int) -> A, lo: int, hi: int)
    requires
        ring::<A>(),
    ensures
        sum(|i: int| f(i) + g(i), lo, hi) == sum(f, lo, hi) + sum(g, lo, hi),
    decreases hi - lo,
{
    let h = |i: int| f(i) + g(i);
    if lo < hi {
        lemma_sum_add(f, g, lo, hi - 1);
        let (sf, sg, x, y) = (sum(f, lo, hi - 1), sum(g, lo, hi - 1), f(hi - 1), g(hi - 1));
        assert(sum(h, lo, hi) == (sf + sg) + (x + y));
        law_add_assoc(sf, sg, x + y);
        law_add_assoc(sg, x, y);
        law_add_comm(sg, x);
        law_add_assoc(x, sg, y);
        law_add_assoc(sf, x, sg + y);
    } else {
        law_add_zero(A::zero());
    }
}

/// A common factor may be taken out of a sum.
pub proof fn lemma_sum_scale<A: Algebra>(c: A, f: spec_fn(int) -> A, lo: int, hi: int)
    requires
        ring::<A>(),
    ensures
        sum(|i: int| c * f(i), lo, hi) == c * sum(f, lo, hi),
    decreases hi - lo,
{
    let h = |i: int| c * f(i);
    if lo < hi {
        lemma_sum_scale(c, f, lo, hi - 1);
        law_distribute(c, sum(f, lo, hi - 1), f(hi - 1));
    } else {
        law_mul_zero(c);
    }
}

/// A sum that has one term only.
pub proof fn lemma_sum_single<A: Algebra>(f: spec_fn(int) -> A, lo: int, hi: int, k: int)
    requires
        ring::<A>(),
        lo <= k < hi,
        forall|i: int| lo <= i < hi && i != k ==> #[trigger] f(i) == A::zero(),
    ensures
        sum(f, lo, hi) == f(k),
{
    lemma_sum_split(f, lo, k, hi);
    lemma_sum_zero(f, lo, k);
    lemma_sum_split(f, k, k + 1, hi);
    lemma_sum_zero(f, k + 1, hi);
    assert(sum(f, k, k + 1) == sum(f, k, k) + f(k));
    law_add_zero(f(k));
    law_add_zero(sum(f, k, hi));
}

/// The order of two summations does not matter.
pub proof fn lemma_sum_swap<A: Algebra>(
    f: spec_fn(int, int) -> A,
    lo1: int,
    hi1: int,
    lo2: int,
    hi2: int,
)
    requires
        ring::<A>(),
    ensures
        sum(|i: int| sum(|j: int| f(i, j), lo2, hi2), lo1, hi1) == sum(
            |j: int| sum(|i: int| f(i, j), lo1, hi1),
            lo2,
            hi2,
        ),
    decreases hi1 - lo1,
{
    let row = |i: int| sum(|j: int| f(i, j), lo2, hi2);
    let col = |j: int| sum(|i: int| f(i, j), lo1, hi1);
    if lo1 < hi1 {
        lemma_sum_swap(f, lo1, hi1 - 1, lo2, hi2);
        let rest = |j: int| sum(|i: int| f(i, j), lo1, hi1 - 1);
        let last = |j: int| f(hi1 - 1, j);
        lemma_sum_add(rest, last, lo2, hi2);
        assert forall|j: int| lo2 <= j < hi2 implies #[trigger] col(j) == rest(j) + last(j) by {
            let g = |i: int| f(i, j);
            assert(col(j) == sum(g, lo1, hi1));
            assert(rest(j) == sum(g, lo1, hi1 - 1));
        }
        lemma_sum_same(col, |j: int| rest(j) + last(j), lo2, hi2);
        assert(row(hi1 - 1) == sum(last, lo2, hi2));
    } else {
        assert forall|j: int| lo2 <= j < hi2 implies #[trigger] col(j) == A::zero() by {}
        lemma_sum_zero(col, lo2, hi2);
    }
}

} // verus!
