//! The complex numbers, as an arithmetic without rounding.

use crate::exact::{divides_at, exact_division, laws_at, ring};
use crate::scalar::{Algebra, Constants, Cx, Number};
use vstd::prelude::*;

verus! {

/// A real number, without rounding.
pub struct Real {
    pub v: real,
}

impl Algebra for Real {
    open spec fn zero() -> Self {
        Real { v: 0real }
    }

    open spec fn one() -> Self {
        Real { v: 1real }
    }

    open spec fn spec_add(self, o: Self) -> Self {
        Real { v: self.v + o.v }
    }

    open spec fn spec_sub(self, o: Self) -> Self {
        Real { v: self.v - o.v }
    }

    open spec fn spec_mul(self, o: Self) -> Self {
        Real { v: self.v * o.v }
    }

    open spec fn spec_neg(self) -> Self {
        Real { v: -self.v }
    }

    open spec fn over(self, o: Self) -> Self {
        Real { v: self.v / o.v }
    }
}

/// `r` is the square root of `x`.
pub open spec fn is_real_root(x: real, r: real) -> bool {
    0real <= r && r * r == x
}

/// The square root of `x`.
pub open spec fn real_root(x: real) -> real {
    choose|r: real| is_real_root(x, r)
}

/// `n` is `v` truncated.
pub open spec fn is_truncated(v: real, n: int) -> bool {
    if v >= 0real {
        (n as real) <= v < (n + 1) as real
    } else {
        ((n - 1) as real) < v <= n as real
    }
}

impl Number for Real {
    open spec fn less(self, o: Self) -> bool {
        self.v < o.v
    }

    open spec fn at_most(self, o: Self) -> bool {
        self.v <= o.v
    }

    open spec fn root(self) -> Self {
        Real { v: real_root(self.v) }
    }

    open spec fn hypotenuse(self, o: Self) -> Self {
        Real { v: real_root(self.v * self.v + o.v * o.v) }
    }

    /// The roots of half of one plus and minus the cosine, the sine with the sign of
    /// the imaginary part.
    open spec fn half_angle(re: Self, im: Self) -> (Self, Self) {
        let h = re.hypotenuse(im);
        let c = (h + re).over(h + h).root();
        let s = (h - re).over(h + h).root();
        (
            c,
            if im.v < 0real {
                -s
            } else {
                s
            },
        )
    }

    open spec fn number(n: usize) -> Self {
        Real { v: (n as int) as real }
    }

    open spec fn to_count(self) -> usize {
        if self.v < 0real {
            0
        } else if self.v > (usize::MAX as int) as real {
            usize::MAX
        } else {
            choose|n: usize| is_truncated(self.v, n as int)
        }
    }

    open spec fn to_id(self) -> i64 {
        if self.v < (i64::MIN as int) as real {
            i64::MIN
        } else if self.v > (i64::MAX as int) as real {
            i64::MAX
        } else {
            choose|n: i64| is_truncated(self.v, n as int)
        }
    }

    /// There is no largest and no lowest real number: two numbers beyond the extent
    /// of any model stand for them, and for a coordinate that cannot be read.
    open spec fn constants() -> Constants<Self> {
        let big = 1000000000000000000real * 1000000000000000000real;
        Constants {
            c0: Real { v: 299792458real },
            eta0: Real { v: 37673031346177066real / 100000000000000real },
            two_pi: Real { v: 6283185307179586477real / 1000000000000000000real },
            largest: Real { v: big },
            lowest: Real { v: -big },
            tiny: Real { v: 1real / (big * big) },
            nan: Real { v: big },
        }
    }
}

proof fn lemma_complex_mul_comm(a: Cx<Real>, b: Cx<Real>)
    ensures
        a * b == b * a,
{
    let (p, q, r, s) = (a.re.v, a.im.v, b.re.v, b.im.v);
    assert(p * r - q * s == r * p - s * q) by (nonlinear_arith);
    assert(p * s + q * r == r * q + s * p) by (nonlinear_arith);
}

proof fn lemma_complex_mul_one(a: Cx<Real>)
    ensures
        a * Cx::<Real>::one() == a,
{
    let (p, q) = (a.re.v, a.im.v);
    assert(p * 1real - q * 0real == p) by (nonlinear_arith);
    assert(p * 0real + q * 1real == q) by (nonlinear_arith);
}

proof fn lemma_complex_distribute(a: Cx<Real>, b: Cx<Real>, c: Cx<Real>)
    ensures
        a * (b + c) == a * b + a * c,
{
    let (p, q, r, s, t, u) = (a.re.v, a.im.v, b.re.v, b.im.v, c.re.v, c.im.v);
    assert(p * (r + t) - q * (s + u) == (p * r - q * s) + (p * t - q * u)) by (nonlinear_arith);
    assert(p * (s + u) + q * (r + t) == (p * s + q * r) + (p * u + q * t)) by (nonlinear_arith);
}

proof fn lemma_real_assoc(p: real, r: real, t: real)
    ensures
        (p * r) * t == p * (r * t),
{
    assert((p * r) * t == p * (r * t)) by (nonlinear_arith);
}

proof fn lemma_real_spread(p: real, x: real, y: real)
    ensures
        p * (x - y) == p * x - p * y,
        p * (x + y) == p * x + p * y,
        (x - y) * p == x * p - y * p,
        (x + y) * p == x * p + y * p,
{
    assert(p * (x - y) == p * x - p * y) by (nonlinear_arith);
    assert(p * (x + y) == p * x + p * y) by (nonlinear_arith);
    assert((x - y) * p == x * p - y * p) by (nonlinear_arith);
    assert((x + y) * p == x * p + y * p) by (nonlinear_arith);
}

proof fn lemma_complex_mul_assoc(a: Cx<Real>, b: Cx<Real>, c: Cx<Real>)
    ensures
        (a * b) * c == a * (b * c),
{
    let (p, q, r, s, t, u) = (a.re.v, a.im.v, b.re.v, b.im.v, c.re.v, c.im.v);
    lemma_real_spread(t, p * r, q * s);
    lemma_real_spread(u, p * s, q * r);
    lemma_real_spread(u, p * r, q * s);
    lemma_real_spread(t, p * s, q * r);
    lemma_real_spread(p, r * t, s * u);
    lemma_real_spread(q, r * u, s * t);
    lemma_real_spread(p, r * u, s * t);
    lemma_real_spread(q, r * t, s * u);
    lemma_real_assoc(p, r, t);
    lemma_real_assoc(q, s, t);
    lemma_real_assoc(p, s, u);
    lemma_real_assoc(q, r, u);
    lemma_real_assoc(p, r, u);
    lemma_real_assoc(q, s, u);
    lemma_real_assoc(p, s, t);
    lemma_real_assoc(q, r, t);
}

proof fn lemma_complex_quotient(a: Cx<Real>, b: Cx<Real>)
    requires
        b != Cx::<Real>::zero(),
    ensures
        a.over(b) * b == a,
{
    let (ar, ai, br, bi) = (a.re.v, a.im.v, b.re.v, b.im.v);
    assert(br != 0real || bi != 0real) by {
        if br == 0real && bi == 0real {
            assert(b.re == Real::zero() && b.im == Real::zero());
        }
    }
    let d = br * br + bi * bi;
    assert(d != 0real) by (nonlinear_arith)
        requires
            d == br * br + bi * bi,
            br != 0real || bi != 0real,
    ;
    let p = ar * br + ai * bi;
    let q = ai * br - ar * bi;
    let x = p / d;
    let y = q / d;
    assert(x * d == p) by (nonlinear_arith)
        requires
            d != 0real,
            x == p / d,
    ;
    assert(y * d == q) by (nonlinear_arith)
        requires
            d != 0real,
            y == q / d,
    ;
    let re = x * br - y * bi;
    let im = x * bi + y * br;
    assert((re - ar) * d == 0real) by (nonlinear_arith)
        requires
            x * d == p,
            y * d == q,
            d == br * br + bi * bi,
            p == ar * br + ai * bi,
            q == ai * br - ar * bi,
            re == x * br - y * bi,
    ;
    assert((im - ai) * d == 0real) by (nonlinear_arith)
        requires
            x * d == p,
            y * d == q,
            d == br * br + bi * bi,
            p == ar * br + ai * bi,
            q == ai * br - ar * bi,
            im == x * bi + y * br,
    ;
    assert(re == ar) by (nonlinear_arith)
        requires
            (re - ar) * d == 0real,
            d != 0real,
    ;
    assert(im == ai) by (nonlinear_arith)
        requires
            (im - ai) * d == 0real,
            d != 0real,
    ;
}

/// The complex numbers are a commutative ring.
pub proof fn lemma_complex_ring()
    ensures
        ring::<Cx<Real>>(),
{
    assert forall|a: Cx<Real>, b: Cx<Real>, c: Cx<Real>| #[trigger] laws_at(a, b, c) by {
        lemma_complex_mul_comm(a, b);
        lemma_complex_mul_assoc(a, b, c);
        lemma_complex_distribute(a, b, c);
        lemma_complex_mul_one(a);
    }
}

/// Division of complex numbers is exact.
pub proof fn lemma_complex_division()
    ensures
        exact_division::<Cx<Real>>(),
{
    assert forall|a: Cx<Real>, b: Cx<Real>| #[trigger] divides_at(a, b) by {
        if b != Cx::<Real>::zero() {
            lemma_complex_quotient(a, b);
        }
    }
}

} // verus!
