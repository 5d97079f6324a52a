//! Elementary facts about real numbers.

use vstd::prelude::*;

verus! {

pub proof fn real_mul_comm(a: real, b: real)
    ensures
        a * b == b * a,
{
    assert(a * b == b * a) by (nonlinear_arith);
}

pub proof fn real_mul_assoc(a: real, b: real, c: real)
    ensures
        (a * b) * c == a * (b * c),
{
    assert((a * b) * c == a * (b * c)) by (nonlinear_arith);
}

/// The second and the third of three factors may be exchanged.
pub proof fn real_swap(a: real, b: real, c: real)
    ensures
        (a * b) * c == (a * c) * b,
{
    real_mul_assoc(a, b, c);
    real_mul_comm(b, c);
    real_mul_assoc(a, c, b);
}

pub proof fn real_distribute(a: real, b: real, c: real)
    ensures
        a * (b + c) == a * b + a * c,
        a * (b - c) == a * b - a * c,
        (b + c) * a == b * a + c * a,
        (b - c) * a == b * a - c * a,
{
    assert(a * (b + c) == a * b + a * c) by (nonlinear_arith);
    assert(a * (b - c) == a * b - a * c) by (nonlinear_arith);
    assert((b + c) * a == b * a + c * a) by (nonlinear_arith);
    assert((b - c) * a == b * a - c * a) by (nonlinear_arith);
}

pub proof fn real_mul_zero(a: real)
    ensures
        a * 0real == 0real,
        0real * a == 0real,
{
    assert(a * 0real == 0real) by (nonlinear_arith);
    assert(0real * a == 0real) by (nonlinear_arith);
}

pub proof fn real_mul_one(a: real)
    ensures
        a * 1real == a,
        1real * a == a,
{
    assert(a * 1real == a) by (nonlinear_arith);
    assert(1real * a == a) by (nonlinear_arith);
}

pub proof fn real_mul_neg(a: real, b: real)
    ensures
        (-a) * b == -(a * b),
        a * (-b) == -(a * b),
{
    assert((-a) * b == -(a * b)) by (nonlinear_arith);
    assert(a * (-b) == -(a * b)) by (nonlinear_arith);
}

pub proof fn real_quotient(a: real, b: real)
    requires
        b != 0real,
    ensures
        (a / b) * b == a,
        b * (a / b) == a,
{
    let q = a / b;
    assert(q * b == a) by (nonlinear_arith)
        requires
            b != 0real,
            q == a / b,
    ;
    real_mul_comm(q, b);
}

pub proof fn real_no_divisors(a: real, b: real)
    requires
        a != 0real,
        b != 0real,
    ensures
        a * b != 0real,
{
    assert(a * b != 0real) by (nonlinear_arith)
        requires
            a != 0real,
            b != 0real,
    ;
}

/// A factor that is not zero can be cancelled.
pub proof fn real_cancel(k: real, x: real, y: real)
    requires
        k != 0real,
        k * x == k * y,
    ensures
        x == y,
{
    real_distribute(k, x, y);
    if x != y {
        real_no_divisors(k, x - y);
    }
}

/// A quotient is zero only where the dividend is.
pub proof fn real_quotient_nonzero(a: real, b: real)
    requires
        a != 0real,
        b != 0real,
    ensures
        a / b != 0real,
{
    real_quotient(a, b);
    real_mul_zero(b);
}

/// Numbers that are not negative and have the same square are the same.
pub proof fn real_same_square(a: real, b: real)
    requires
        0real <= a,
        0real <= b,
        a * a == b * b,
    ensures
        a == b,
{
    real_distribute(a + b, a, b);
    real_distribute(a, a, b);
    real_distribute(b, a, b);
    real_mul_comm(a, b);
    if a != b {
        real_no_divisors(a + b, a - b);
    }
}

/// The square of a product is the product of the squares.
pub proof fn real_square_of_product(a: real, b: real)
    ensures
        (a * b) * (a * b) == (a * a) * (b * b),
{
    real_mul_assoc(a, b, a * b);
    real_mul_assoc(b, a, b);
    real_mul_comm(b, a);
    real_mul_assoc(a, b, b);
    real_mul_assoc(a, a, b * b);
}

pub proof fn real_product_nonnegative(a: real, b: real)
    requires
        0real <= a,
        0real <= b,
    ensures
        0real <= a * b,
{
    assert(0real <= a * b) by (nonlinear_arith)
        requires
            0real <= a,
            0real <= b,
    ;
}

pub proof fn real_square_nonnegative(a: real)
    ensures
        0real <= a * a,
{
    assert(0real <= a * a) by (nonlinear_arith);
}

} // verus!
