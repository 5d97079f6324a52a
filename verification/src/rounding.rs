//! How near fixed point results come to the exact ones.

use crate::fixed::{clamped, floor_quotient, integer_root, is_root, lemma_root_unique, Fixed, ONE};
use crate::scalar::{Algebra, Number};
use vstd::prelude::*;

verus! {

/// A number of units of the last place that a fixed point number can hold.
pub open spec fn fits(v: int) -> bool {
    i64::MIN <= v <= i64::MAX
}

/// Sums and differences that fit are exact; so is the negative.
pub proof fn lemma_fixed_sum(a: Fixed, b: Fixed)
    ensures
        fits(a.bits + b.bits) ==> (a + b).bits == a.bits + b.bits,
        fits(a.bits - b.bits) ==> (a - b).bits == a.bits - b.bits,
        fits(a.bits - b.bits) ==> (a - b) + b == a,
        a.bits > i64::MIN ==> a + (-a) == Fixed::zero(),
{
}

/// The number of units nearest to one that does not fit is the last on its side.
pub proof fn lemma_fixed_clamped(v: int, w: Fixed)
    ensures
        fits(v) ==> clamped(v).bits == v,
        v > i64::MAX ==> w.bits <= clamped(v).bits,
        v < i64::MIN ==> clamped(v).bits <= w.bits,
{
}

proof fn lemma_floor(n: int, d: int)
    requires
        d > 0,
    ensures
        n / d * d <= n < (n / d + 1) * d,
{
    vstd::arithmetic::div_mod::lemma_fundamental_div_mod(n, d);
    let (q, m) = (n / d, n % d);
    assert(0 <= m < d);
    assert(q * d <= n < (q + 1) * d) by (nonlinear_arith)
        requires
            n == d * q + m,
            0 <= m < d,
    ;
}

/// A product that fits is the exact one, rounded down to a unit of the last place.
pub proof fn lemma_fixed_product(a: Fixed, b: Fixed)
    requires
        i64::MIN * ONE <= a.bits * b.bits < i64::MAX * ONE,
    ensures
        (a * b).bits * ONE <= a.bits * b.bits < ((a * b).bits + 1) * ONE,
        a * b == b * a,
{
    let n = a.bits * b.bits;
    lemma_floor(n, ONE as int);
    assert(n == b.bits * a.bits) by (nonlinear_arith)
        requires
            n == a.bits * b.bits,
    ;
}

/// A quotient that fits is the exact one, rounded down: multiplied by the divisor it
/// misses the dividend by less than one unit of the divisor.
pub proof fn lemma_fixed_quotient(a: Fixed, b: Fixed)
    requires
        fits(floor_quotient(a.bits * ONE, b.bits as int)),
    ensures
        b.bits > 0 ==> a.over(b).bits * b.bits <= a.bits * ONE < (a.over(b).bits + 1) * b.bits,
        b.bits < 0 ==> (a.over(b).bits + 1) * b.bits < a.bits * ONE <= a.over(b).bits * b.bits,
        b.bits == 0 ==> a.over(b) == Fixed::zero(),
{
    let (n, d) = (a.bits * ONE, b.bits as int);
    if d > 0 {
        lemma_floor(n, d);
    } else if d < 0 {
        lemma_floor(-n, -d);
        let q = (-n) / (-d);
        assert(q * (-d) == -(q * d) && (q + 1) * (-d) == -((q + 1) * d)) by (nonlinear_arith);
    }
}

/// A root is the exact one, rounded down: the number lies between its square and that of
/// the next one.
pub proof fn lemma_fixed_root(a: Fixed, r: int)
    requires
        is_root(a.bits * ONE, r),
        fits(r),
    ensures
        a.root().bits == r,
        a.root().bits * a.root().bits <= a.bits * ONE < (a.root().bits + 1) * (a.root().bits + 1),
{
    lemma_root_unique(a.bits * ONE, r);
    assert(0 <= a.bits * ONE) by (nonlinear_arith)
        requires
            r * r <= a.bits * ONE,
    ;
}

/// The hypotenuse is that of the right triangle with the two sides, rounded down.
pub proof fn lemma_fixed_hypotenuse(a: Fixed, b: Fixed, r: int)
    requires
        is_root(a.bits * a.bits + b.bits * b.bits, r),
        fits(r),
    ensures
        a.hypotenuse(b).bits == r,
        a.hypotenuse(b) == b.hypotenuse(a),
{
    lemma_root_unique(a.bits * a.bits + b.bits * b.bits, r);
    assert(0 <= a.bits * a.bits + b.bits * b.bits) by (nonlinear_arith);
}

/// Whole numbers that fit are read back as they were.
pub proof fn lemma_fixed_number(n: usize)
    requires
        n * ONE <= i64::MAX,
    ensures
        Fixed::number(n).to_count() == n,
        Fixed::number(n).to_id() == n,
        (-Fixed::number(n)).to_id() == -n,
        n > 0 ==> (-Fixed::number(n)).to_count() == 0,
{
    vstd::arithmetic::div_mod::lemma_div_multiples_vanish(n as int, ONE as int);
}

/// The half angle lies on the side of the real axis on which the number lies, and turns
/// with it.
pub proof fn lemma_fixed_half_angle(re: Fixed, im: Fixed)
    requires
        im.bits > i64::MIN,
    ensures
        0 <= Fixed::half_angle(re, im).0.bits,
        im.bits < 0 ==> Fixed::half_angle(re, im).1.bits <= 0,
        im.bits >= 0 ==> 0 <= Fixed::half_angle(re, im).1.bits,
        im.bits > 0 ==> Fixed::half_angle(re, -im) == (
            Fixed::half_angle(re, im).0,
            -Fixed::half_angle(re, im).1,
        ),
{
    let h = re.hypotenuse(im);
    assert((-im.bits) * (-im.bits) == im.bits * im.bits) by (nonlinear_arith);
    lemma_root_sign((h + re).over(h + h));
    lemma_root_sign((h - re).over(h + h));
}

/// No root is negative.
proof fn lemma_root_sign(a: Fixed)
    ensures
        0 <= a.root().bits,
{
    let n = a.bits * ONE;
    if n >= 0 {
        lemma_root_exists(n);
        assert(is_root(n, integer_root(n)));
    }
}

/// Every integer that is not negative has a root, rounded down.
proof fn lemma_root_exists(n: int)
    requires
        0 <= n,
    ensures
        exists|r: int| is_root(n, r),
    decreases n,
{
    if n == 0 {
        assert(is_root(0, 0));
    } else {
        lemma_root_exists(n - 1);
        let m = n - 1;
        let r = choose|r: int| is_root(m, r);
        if (r + 1) * (r + 1) <= n {
            assert(is_root(n, r + 1)) by (nonlinear_arith)
                requires
                    0 <= r,
                    (r + 1) * (r + 1) <= n,
                    n - 1 < (r + 1) * (r + 1),
            ;
        } else {
            assert(is_root(n, r));
        }
    }
}

/// The constants: the speed of light in metres per second, the impedance of free space in
/// ohms, and the full angle in radians, to the last decimal that is written here.
pub proof fn lemma_fixed_constants()
    ensures
        Fixed::constants().c0 == Fixed::number(299792458),
        376_730_313 * ONE <= Fixed::constants().eta0.bits * 1_000_000 < 376_730_314 * ONE,
        6_283_185_307 * ONE <= Fixed::constants().two_pi.bits * 1_000_000_000 < 6_283_185_308 * ONE,
        forall|a: Fixed| #![trigger a.bits]
            Fixed::constants().lowest.bits <= a.bits <= Fixed::constants().largest.bits,
        forall|a: Fixed| #![trigger a.bits] a.less(Fixed::constants().tiny) <==> a.bits <= 0,
{
}

} // verus!
