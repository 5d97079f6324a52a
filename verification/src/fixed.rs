//! Fixed point numbers with 32 fractional bits. Every operation gives the exact
//! result, rounded down, and clamped where it is out of range.

use crate::scalar::{Algebra, Constants, Number, Scalar};
use vstd::prelude::*;

verus! {

/// One, in units of the last place.
pub const ONE: i128 = 4294967296;

/// A fixed point number: `bits` units of the last place.
#[derive(Clone, Copy, PartialEq, Eq, Structural, Debug)]
pub struct Fixed {
    pub bits: i64,
}

/// The number nearest to `v` units of the last place.
pub open spec fn clamped(v: int) -> Fixed {
    if v > i64::MAX {
        Fixed { bits: i64::MAX }
    } else if v < i64::MIN {
        Fixed { bits: i64::MIN }
    } else {
        Fixed { bits: v as i64 }
    }
}

/// The quotient of two integers, rounded down; zero where the divisor is zero.
pub open spec fn floor_quotient(n: int, d: int) -> int {
    if d == 0 {
        0
    } else if d > 0 {
        n / d
    } else {
        (-n) / (-d)
    }
}

/// `r` is the square root of `n`, rounded down.
pub open spec fn is_root(n: int, r: int) -> bool {
    0 <= r && r * r <= n < (r + 1) * (r + 1)
}

/// The square root of an integer, rounded down; zero for a negative one.
pub open spec fn integer_root(n: int) -> int {
    if n < 0 {
        0
    } else {
        choose|r: int| is_root(n, r)
    }
}

/// The quotient of an integer by a positive one, rounded towards zero.
pub open spec fn truncated(n: int, d: int) -> int {
    if n >= 0 {
        n / d
    } else {
        -((-n) / d)
    }
}

impl Algebra for Fixed {
    open spec fn zero() -> Self {
        Fixed { bits: 0 }
    }

    open spec fn one() -> Self {
        Fixed { bits: 4294967296 }
    }

    open spec fn spec_add(self, o: Self) -> Self {
        clamped(self.bits + o.bits)
    }

    open spec fn spec_sub(self, o: Self) -> Self {
        clamped(self.bits - o.bits)
    }

    open spec fn spec_mul(self, o: Self) -> Self {
        clamped(floor_quotient(self.bits * o.bits, ONE as int))
    }

    open spec fn spec_neg(self) -> Self {
        clamped(-self.bits)
    }

    open spec fn over(self, o: Self) -> Self {
        clamped(floor_quotient(self.bits * ONE, o.bits as int))
    }
}

fn clamp(v: i128) -> (r: Fixed)
    ensures
        r == clamped(v as int),
{
    if v > i64::MAX as i128 {
        Fixed { bits: i64::MAX }
    } else if v < i64::MIN as i128 {
        Fixed { bits: i64::MIN }
    } else {
        Fixed { bits: v as i64 }
    }
}

fn divide(n: i128, d: i128) -> (r: i128)
    requires
        -0x4000_0000_0000_0000_0000_0000_0000_0000 <= n <= 0x4000_0000_0000_0000_0000_0000_0000_0000,
        -0x1_0000_0000_0000_0000 <= d <= 0x1_0000_0000_0000_0000,
    ensures
        r == floor_quotient(n as int, d as int),
{
    if d == 0 {
        return 0;
    }
    let (a, b): (i128, i128) = if d > 0 {
        (n, d)
    } else {
        (-n, -d)
    };
    if a >= 0 {
        let q: u128 = (a as u128) / (b as u128);
        proof {
            vstd::arithmetic::div_mod::lemma_div_is_ordered_by_denominator(a as int, 1, b as int);
            vstd::arithmetic::div_mod::lemma_div_basics(a as int);
        }
        q as i128
    } else {
        let q: u128 = ((-a) as u128 + (b - 1) as u128) / (b as u128);
        proof {
            let (m, e) = ((-a) as int, b as int);
            vstd::arithmetic::div_mod::lemma_div_is_ordered_by_denominator(m + e - 1, 1, e);
            vstd::arithmetic::div_mod::lemma_div_basics(m + e - 1);
            lemma_round_up(a as int, e);
        }
        -(q as i128)
    }
}

/// Rounding a quotient down is rounding its negative up.
proof fn lemma_round_up(a: int, b: int)
    requires
        b > 0,
    ensures
        a / b == -((-a + b - 1) / b),
{
    let q = (-a + b - 1) / b;
    vstd::arithmetic::div_mod::lemma_fundamental_div_mod(-a + b - 1, b);
    let m = (-a + b - 1) % b;
    assert(0 <= m < b);
    assert(a == b * (-q) + (b - 1 - m)) by (nonlinear_arith)
        requires
            -a + b - 1 == b * q + m,
    ;
    vstd::arithmetic::div_mod::lemma_fundamental_div_mod_converse(a, b, -q, b - 1 - m);
}

pub proof fn lemma_root_unique(n: int, r: int)
    requires
        is_root(n, r),
    ensures
        integer_root(n) == r,
{
    assert(0 <= n) by (nonlinear_arith)
        requires
            r * r <= n,
    ;
    let s = choose|s: int| is_root(n, s);
    assert(is_root(n, s));
    assert(r == s) by (nonlinear_arith)
        requires
            0 <= r,
            0 <= s,
            r * r <= n < (r + 1) * (r + 1),
            s * s <= n < (s + 1) * (s + 1),
    ;
}

/// The square root of an integer, rounded down: bit by bit from the highest.
fn isqrt(n: u128) -> (r: u128)
    requires
        n < 0x8000_0000_0000_0000_0000_0000_0000_0000,
    ensures
        r == integer_root(n as int),
        r <= 0xffff_ffff_ffff_ffff,
{
    let mut lo: u128 = 0;
    let mut hi: u128 = 0x1_0000_0000_0000_0000;
    assert(hi * hi == 0x1_0000_0000_0000_0000_0000_0000_0000_0000) by (nonlinear_arith)
        requires
            hi == 0x1_0000_0000_0000_0000,
    ;
    while hi - lo > 1
        invariant
            lo < hi <= 0x1_0000_0000_0000_0000,
            lo * lo <= n < hi * hi,
        decreases hi - lo,
    {
        let mid: u128 = lo + (hi - lo) / 2;
        assert(mid < 0x1_0000_0000_0000_0000);
        assert(mid * mid <= 0xffff_ffff_ffff_ffff_ffff_ffff_ffff_ffff) by (nonlinear_arith)
            requires
                0 <= mid <= 0xffff_ffff_ffff_ffff,
        ;
        if mid * mid <= n {
            lo = mid;
        } else {
            hi = mid;
        }
    }
    proof {
        assert(hi == lo + 1);
        lemma_root_unique(n as int, lo as int);
    }
    lo
}

fn product(a: i64, b: i64) -> (r: i128)
    ensures
        r == a * b,
        -0x4000_0000_0000_0000_0000_0000_0000_0000 <= r <= 0x4000_0000_0000_0000_0000_0000_0000_0000,
{
    proof {
        let (x, y) = (a as int, b as int);
        assert(-0x4000_0000_0000_0000_0000_0000_0000_0000 <= x * y
            <= 0x4000_0000_0000_0000_0000_0000_0000_0000) by (nonlinear_arith)
            requires
                -0x8000_0000_0000_0000 <= x <= 0x8000_0000_0000_0000,
                -0x8000_0000_0000_0000 <= y <= 0x8000_0000_0000_0000,
        ;
    }
    (a as i128) * (b as i128)
}

impl Number for Fixed {
    open spec fn less(self, o: Self) -> bool {
        self.bits < o.bits
    }

    open spec fn at_most(self, o: Self) -> bool {
        self.bits <= o.bits
    }

    /// Zero for a negative number.
    open spec fn root(self) -> Self {
        clamped(integer_root(self.bits * ONE))
    }

    open spec fn hypotenuse(self, o: Self) -> Self {
        clamped(integer_root(self.bits * self.bits + o.bits * o.bits))
    }

    /// The roots of half of one plus and minus the cosine, the sine with the sign of
    /// the imaginary part; one and zero where the number is zero.
    open spec fn half_angle(re: Self, im: Self) -> (Self, Self) {
        let h = re.hypotenuse(im);
        if h.bits == 0 {
            (Fixed::one(), Fixed::zero())
        } else {
            let c = (h + re).over(h + h).root();
            let s = (h - re).over(h + h).root();
            (
                c,
                if im.bits < 0 {
                    -s
                } else {
                    s
                },
            )
        }
    }

    open spec fn number(n: usize) -> Self {
        clamped(n * ONE)
    }

    open spec fn to_count(self) -> usize {
        if self.bits < 0 {
            0
        } else {
            (self.bits as int / ONE as int) as usize
        }
    }

    open spec fn to_id(self) -> i64 {
        truncated(self.bits as int, ONE as int) as i64
    }

    open spec fn constants() -> Constants<Self> {
        Constants {
            c0: Fixed { bits: 1287598802697453568 },
            eta0: Fixed { bits: 1618044375730 },
            two_pi: Fixed { bits: 26986075409 },
            largest: Fixed { bits: i64::MAX },
            lowest: Fixed { bits: i64::MIN },
            tiny: Fixed { bits: 1 },
            nan: Fixed { bits: i64::MIN },
        }
    }
}

impl Scalar for Fixed {
    fn nil() -> (r: Self) {
        Fixed { bits: 0 }
    }

    fn unit() -> (r: Self) {
        Fixed { bits: 4294967296 }
    }

    fn add(self, o: Self) -> (r: Self) {
        clamp(self.bits as i128 + o.bits as i128)
    }

    fn sub(self, o: Self) -> (r: Self) {
        clamp(self.bits as i128 - o.bits as i128)
    }

    fn mul(self, o: Self) -> (r: Self) {
        clamp(divide(product(self.bits, o.bits), ONE))
    }

    fn neg(self) -> (r: Self) {
        clamp(-(self.bits as i128))
    }

    fn div(self, o: Self) -> (r: Self) {
        clamp(divide(self.bits as i128 * ONE, o.bits as i128))
    }

    fn lt(self, o: Self) -> (r: bool) {
        self.bits < o.bits
    }

    fn le(self, o: Self) -> (r: bool) {
        self.bits <= o.bits
    }

    fn sqrt(self) -> (r: Self) {
        if self.bits < 0 {
            Fixed { bits: 0 }
        } else {
            let r: u128 = isqrt((self.bits as i128 * ONE) as u128);
            clamp(r as i128)
        }
    }

    fn hypot(self, o: Self) -> (r: Self) {
        let (a, b): (i128, i128) = (product(self.bits, self.bits), product(o.bits, o.bits));
        proof {
            let (x, y) = (self.bits as int, o.bits as int);
            assert(0 <= x * x && 0 <= y * y) by (nonlinear_arith);
            assert(x * x + y * y < 0x8000_0000_0000_0000_0000_0000_0000_0000 || (a == b && a
                == 0x4000_0000_0000_0000_0000_0000_0000_0000));
        }
        let n: u128 = a as u128 + b as u128;
        if n == 0x8000_0000_0000_0000_0000_0000_0000_0000 {
            proof {
                let s: int = 13043817825332782212;
                assert(is_root(n as int, s)) by (nonlinear_arith)
                    requires
                        s == 13043817825332782212,
                        n == 0x8000_0000_0000_0000_0000_0000_0000_0000,
                ;
                lemma_root_unique(n as int, s);
            }
            return Fixed { bits: i64::MAX };
        }
        let r: u128 = isqrt(n);
        clamp(r as i128)
    }

    fn half_arg(re: Self, im: Self) -> (r: (Self, Self)) {
        let h = re.hypot(im);
        if h.bits == 0 {
            (Fixed::unit(), Fixed::nil())
        } else {
            let c = h.add(re).div(h.add(h)).sqrt();
            let s = h.sub(re).div(h.add(h)).sqrt();
            (
                c,
                if im.bits < 0 {
                    s.neg()
                } else {
                    s
                },
            )
        }
    }

    fn of(n: usize) -> (r: Self) {
        clamp(n as i128 * ONE)
    }

    fn as_usize(self) -> (r: usize) {
        if self.bits < 0 {
            0
        } else {
            (self.bits as u64 / 4294967296u64) as usize
        }
    }

    fn as_i64(self) -> (r: i64) {
        if self.bits >= 0 {
            (self.bits as u64 / 4294967296u64) as i64
        } else {
            let m: u64 = (-(self.bits as i128)) as u64;
            -((m / 4294967296u64) as i64)
        }
    }

    fn known() -> (r: Constants<Self>) {
        Constants {
            c0: Fixed { bits: 1287598802697453568 },
            eta0: Fixed { bits: 1618044375730 },
            two_pi: Fixed { bits: 26986075409 },
            largest: Fixed { bits: i64::MAX },
            lowest: Fixed { bits: i64::MIN },
            tiny: Fixed { bits: 1 },
            nan: Fixed { bits: i64::MIN },
        }
    }
}

} // verus!
