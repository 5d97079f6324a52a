//! What holds of square roots in exact arithmetic.

use crate::complex::{is_real_root, real_root, Real};
use crate::reals::{
    real_distribute, real_mul_assoc, real_mul_comm, real_mul_neg, real_mul_zero, real_no_divisors,
    real_product_nonnegative, real_quotient, real_same_square,
    real_square_nonnegative, real_square_of_product,
};
use crate::scalar::{Algebra, Cx, Number};
use vstd::prelude::*;

verus! {

/// The real square roots that make up the principal root of `z` exist.
pub open spec fn has_roots(z: Cx<Real>) -> bool {
    let (a, b, h) = (z.re.v, z.im.v, z.magnitude().v);
    &&& is_real_root(a * a + b * b, h)
    &&& is_real_root(h, real_root(h))
    &&& h != 0real ==> is_real_root((h + a) / (h + h), real_root((h + a) / (h + h)))
    &&& h != 0real ==> is_real_root((h - a) / (h + h), real_root((h - a) / (h + h)))
}

/// A number whose square is zero is zero.
proof fn lemma_zero_square(a: real)
    requires
        a * a == 0real,
    ensures
        a == 0real,
{
    if a != 0real {
        real_no_divisors(a, a);
    }
}

/// Cosine and sine of half the angle: the difference of their squares and twice their
/// product, times the magnitude, are the parts of the number.
proof fn lemma_half_angle(a: real, b: real, h: real, c: real, s: real)
    requires
        0real < h,
        h * h == a * a + b * b,
        0real <= c,
        0real <= s,
        c * c == (h + a) / (h + h),
        s * s == (h - a) / (h + h),
    ensures
        h * (c * c) - h * (s * s) == a,
        0real <= b ==> (h + h) * (c * s) == b,
        b < 0real ==> (h + h) * (c * s) == -b,
{
    let w = h + h;
    let (cc, ss) = (c * c, s * s);
    real_quotient(h + a, w);
    real_quotient(h - a, w);
    // w cc = h + a and w ss = h - a
    real_distribute(cc, h, h);
    real_distribute(ss, h, h);
    assert(h * cc - h * ss == a);
    // (w (c s))^2 = (w cc) (w ss) = h^2 - a^2 = b^2
    let p = w * (c * s);
    real_square_of_product(w, c * s);
    real_square_of_product(c, s);
    real_mul_assoc(w * w, cc, ss);
    real_mul_assoc(w, w, cc);
    real_mul_comm(w, w * cc);
    real_mul_assoc(w * cc, w, ss);
    assert(p * p == (h + a) * (h - a));
    real_distribute(h + a, h, a);
    real_distribute(h, h, a);
    real_distribute(a, h, a);
    real_mul_comm(h, a);
    assert(p * p == b * b);
    real_product_nonnegative(c, s);
    real_product_nonnegative(w, c * s);
    real_mul_neg(b, b);
    real_mul_neg(b, -b);
    if 0real <= b {
        real_same_square(p, b);
    } else {
        real_same_square(p, -b);
    }
}

/// The principal root of a complex number is a square root of it. Its real part is
/// not negative, and its imaginary part has the sign of the number's.
pub proof fn lemma_principal_root(z: Cx<Real>)
    requires
        has_roots(z),
    ensures
        z.principal_root() * z.principal_root() == z,
        0real <= z.principal_root().re.v,
        z.im.v < 0real ==> z.principal_root().im.v < 0real,
        z.im.v > 0real ==> z.principal_root().im.v > 0real,
        z.im.v == 0real ==> z.principal_root().im.v >= 0real,
{
    let (a, b) = (z.re.v, z.im.v);
    let h = z.magnitude().v;
    let r = real_root(h);
    let w = z.principal_root();
    if h == 0real {
        lemma_zero_square(r);
        real_mul_zero(Real::half_angle(z.re, z.im).0.v);
        real_mul_zero(Real::half_angle(z.re, z.im).1.v);
        real_square_nonnegative(a);
        real_square_nonnegative(b);
        real_mul_zero(0real);
        assert(a * a == 0real && b * b == 0real);
        lemma_zero_square(a);
        lemma_zero_square(b);
    } else {
        let c = real_root((h + a) / (h + h));
        let s = real_root((h - a) / (h + h));
        lemma_half_angle(a, b, h, c, s);
        let t = if b < 0real {
            -s
        } else {
            s
        };
        assert(w.re.v == r * c && w.im.v == r * t);
        real_mul_neg(s, s);
        real_mul_neg(s, -s);
        assert(t * t == s * s);
        // The squares and the product of the two parts.
        real_square_of_product(r, c);
        real_square_of_product(r, t);
        assert(w.re.v * w.re.v - w.im.v * w.im.v == a);
        real_mul_neg(c, s);
        real_mul_neg(h + h, c * s);
        assert((h + h) * (c * t) == b);
        // (r c) (r t) = (r r) (c t)
        real_mul_assoc(r, c, r * t);
        real_mul_assoc(c, r, t);
        real_mul_comm(c, r);
        real_mul_assoc(r, c, t);
        real_mul_assoc(r, r, c * t);
        assert(w.re.v * w.im.v == h * (c * t));
        real_mul_comm(w.re.v, w.im.v);
        real_distribute(c * t, h, h);
        assert(w.re.v * w.im.v + w.im.v * w.re.v == b);
        real_product_nonnegative(r, c);
        real_product_nonnegative(r, s);
        real_mul_neg(r, s);
        real_mul_zero(w.re.v);
    }
}

} // verus!
