//! Numbers: what the solver asks of a real number type, and the complex numbers and
//! vectors built from it.

use vstd::prelude::*;

verus! {

/// The arithmetic of a number type as a mathematical object: each operation is
/// some function of its operands. Nothing is said here of what the functions
/// are: a type may round.
pub trait Algebra: Sized {
    spec fn zero() -> Self;

    spec fn one() -> Self;

    spec fn spec_add(self, o: Self) -> Self;

    spec fn spec_sub(self, o: Self) -> Self;

    spec fn spec_mul(self, o: Self) -> Self;

    spec fn spec_neg(self) -> Self;

    /// The quotient of `self` by `o`.
    spec fn over(self, o: Self) -> Self;
}

/// Constants of a number type.
pub struct Constants<T> {
    /// Speed of light in m/s.
    pub c0: T,
    /// Wave impedance of vacuum in ohms.
    pub eta0: T,
    /// Twice the circle constant.
    pub two_pi: T,
    /// The largest finite number.
    pub largest: T,
    /// The lowest finite number.
    pub lowest: T,
    /// Below this magnitude a pivot counts as zero.
    pub tiny: T,
    /// Stands for a coordinate that cannot be read.
    pub nan: T,
}

/// The order, the roots and the constants of a real number type.
pub trait Number: Algebra {
    /// Whether `self` is less than `o`.
    spec fn less(self, o: Self) -> bool;

    /// Whether `self` is at most `o`.
    spec fn at_most(self, o: Self) -> bool;

    /// The square root.
    spec fn root(self) -> Self;

    /// The length of the hypotenuse over two legs.
    spec fn hypotenuse(self, o: Self) -> Self;

    /// Cosine and sine of half the argument of the complex number with the given
    /// real and imaginary part.
    spec fn half_angle(re: Self, im: Self) -> (Self, Self);

    /// The number nearest to the count `n`.
    spec fn number(n: usize) -> Self;

    /// The number as a count: truncated, and clamped to the range of counts.
    spec fn to_count(self) -> usize;

    /// The number as an identifier: truncated, and clamped to the range.
    spec fn to_id(self) -> i64;

    spec fn constants() -> Constants<Self>;
}

/// A real number type the solver can run on.
pub trait Scalar: Number + Copy {
    fn nil() -> (r: Self)
        ensures
            r == Self::zero(),
    ;

    fn unit() -> (r: Self)
        ensures
            r == Self::one(),
    ;

    fn add(self, o: Self) -> (r: Self)
        ensures
            r == self + o,
    ;

    fn sub(self, o: Self) -> (r: Self)
        ensures
            r == self - o,
    ;

    fn mul(self, o: Self) -> (r: Self)
        ensures
            r == self * o,
    ;

    fn neg(self) -> (r: Self)
        ensures
            r == -self,
    ;

    fn div(self, o: Self) -> (r: Self)
        ensures
            r == self.over(o),
    ;

    fn lt(self, o: Self) -> (r: bool)
        ensures
            r == self.less(o),
    ;

    fn le(self, o: Self) -> (r: bool)
        ensures
            r == self.at_most(o),
    ;

    fn sqrt(self) -> (r: Self)
        ensures
            r == self.root(),
    ;

    fn hypot(self, o: Self) -> (r: Self)
        ensures
            r == self.hypotenuse(o),
    ;

    fn half_arg(re: Self, im: Self) -> (r: (Self, Self))
        ensures
            r == Self::half_angle(re, im),
    ;

    fn of(n: usize) -> (r: Self)
        ensures
            r == Self::number(n),
    ;

    fn as_usize(self) -> (r: usize)
        ensures
            r == self.to_count(),
    ;

    fn as_i64(self) -> (r: i64)
        ensures
            r == self.to_id(),
    ;

    fn known() -> (r: Constants<Self>)
        ensures
            r == Self::constants(),
    ;
}

// ---------------------------------------------------------------- complex

/// A complex number.
pub struct Cx<T> {
    pub re: T,
    pub im: T,
}

impl<T: Copy> Copy for Cx<T> {

}

impl<T: Copy> Clone for Cx<T> {
    fn clone(&self) -> (r: Self)
        ensures
            r == *self,
    {
        *self
    }
}

impl<T: Algebra> Algebra for Cx<T> {
    open spec fn zero() -> Self {
        Cx { re: T::zero(), im: T::zero() }
    }

    open spec fn one() -> Self {
        Cx { re: T::one(), im: T::zero() }
    }

    open spec fn spec_add(self, o: Self) -> Self {
        Cx { re: self.re + o.re, im: self.im + o.im }
    }

    open spec fn spec_sub(self, o: Self) -> Self {
        Cx { re: self.re - o.re, im: self.im - o.im }
    }

    open spec fn spec_mul(self, o: Self) -> Self {
        Cx { re: self.re * o.re - self.im * o.im, im: self.re * o.im + self.im * o.re }
    }

    open spec fn spec_neg(self) -> Self {
        Cx { re: -self.re, im: -self.im }
    }

    open spec fn over(self, o: Self) -> Self {
        let d = o.re * o.re + o.im * o.im;
        Cx {
            re: (self.re * o.re + self.im * o.im).over(d),
            im: (self.im * o.re - self.re * o.im).over(d),
        }
    }
}

impl<T: Algebra> Cx<T> {
    /// `self` scaled by a real number.
    pub open spec fn scaled(self, s: T) -> Cx<T> {
        Cx { re: self.re * s, im: self.im * s }
    }

    /// `self` times the imaginary unit times a real number.
    pub open spec fn turned(self, s: T) -> Cx<T> {
        Cx { re: -self.im * s, im: self.re * s }
    }
}

impl<T: Number> Cx<T> {
    /// The magnitude.
    pub open spec fn magnitude(self) -> T {
        self.re.hypotenuse(self.im)
    }

    /// The principal square root, in polar form.
    pub open spec fn principal_root(self) -> Cx<T> {
        let r = self.magnitude().root();
        let (c, s) = T::half_angle(self.re, self.im);
        Cx { re: r * c, im: r * s }
    }
}

/// The complex number with the given parts.
pub fn cx<T: Scalar>(re: T, im: T) -> (r: Cx<T>)
    ensures
        r == (Cx { re, im }),
{
    Cx { re, im }
}

impl<T: Scalar> Cx<T> {
    /// Zero.
    pub fn nil() -> (r: Cx<T>)
        ensures
            r == Cx::<T>::zero(),
    {
        cx(T::nil(), T::nil())
    }

    /// The sum.
    pub fn add(self, o: Cx<T>) -> (r: Cx<T>)
        ensures
            r == self + o,
    {
        cx(self.re.add(o.re), self.im.add(o.im))
    }

    /// The difference.
    pub fn sub(self, o: Cx<T>) -> (r: Cx<T>)
        ensures
            r == self - o,
    {
        cx(self.re.sub(o.re), self.im.sub(o.im))
    }

    /// The product.
    pub fn mul(self, o: Cx<T>) -> (r: Cx<T>)
        ensures
            r == self * o,
    {
        cx(
            self.re.mul(o.re).sub(self.im.mul(o.im)),
            self.re.mul(o.im).add(self.im.mul(o.re)),
        )
    }

    /// The quotient.
    pub fn div(self, o: Cx<T>) -> (r: Cx<T>)
        ensures
            r == self.over(o),
    {
        let d = o.re.mul(o.re).add(o.im.mul(o.im));
        cx(
            self.re.mul(o.re).add(self.im.mul(o.im)).div(d),
            self.im.mul(o.re).sub(self.re.mul(o.im)).div(d),
        )
    }

    /// The magnitude.
    pub fn mag(self) -> (r: T)
        ensures
            r == self.magnitude(),
    {
        self.re.hypot(self.im)
    }

    /// `self` scaled by a real number.
    pub fn rs(self, s: T) -> (r: Cx<T>)
        ensures
            r == self.scaled(s),
    {
        cx(self.re.mul(s), self.im.mul(s))
    }

    /// `self` times the imaginary unit times a real number.
    pub fn js(self, s: T) -> (r: Cx<T>)
        ensures
            r == self.turned(s),
    {
        cx(self.im.neg().mul(s), self.re.mul(s))
    }

    /// The principal square root.
    pub fn sqrt(self) -> (r: Cx<T>)
        ensures
            r == self.principal_root(),
    {
        let r = self.mag().sqrt();
        let (c, s) = T::half_arg(self.re, self.im);
        cx(r.mul(c), r.mul(s))
    }
}

// ---------------------------------------------------------------- vectors

/// A vector in space.
pub struct V3<T> {
    pub x: T,
    pub y: T,
    pub z: T,
}

impl<T: Copy> Copy for V3<T> {

}

impl<T: Copy> Clone for V3<T> {
    fn clone(&self) -> (r: Self)
        ensures
            r == *self,
    {
        *self
    }
}

impl<T: Algebra> V3<T> {
    /// The difference.
    pub open spec fn minus(self, o: V3<T>) -> V3<T> {
        V3 { x: self.x - o.x, y: self.y - o.y, z: self.z - o.z }
    }

    /// The inner product.
    pub open spec fn dot(self, o: V3<T>) -> T {
        self.x * o.x + self.y * o.y + self.z * o.z
    }

    /// The cross product.
    pub open spec fn cross(self, o: V3<T>) -> V3<T> {
        V3 {
            x: self.y * o.z - self.z * o.y,
            y: self.z * o.x - self.x * o.z,
            z: self.x * o.y - self.y * o.x,
        }
    }

    /// The vector scaled by a number.
    pub open spec fn times(self, s: T) -> V3<T> {
        V3 { x: self.x * s, y: self.y * s, z: self.z * s }
    }

    /// The zero vector.
    pub open spec fn origin() -> V3<T> {
        V3 { x: T::zero(), y: T::zero(), z: T::zero() }
    }
}

/// The difference of two vectors.
pub fn sub3<T: Scalar>(a: V3<T>, b: V3<T>) -> (r: V3<T>)
    ensures
        r == a.minus(b),
{
    V3 { x: a.x.sub(b.x), y: a.y.sub(b.y), z: a.z.sub(b.z) }
}

/// The inner product.
pub fn dot3<T: Scalar>(a: V3<T>, b: V3<T>) -> (r: T)
    ensures
        r == a.dot(b),
{
    a.x.mul(b.x).add(a.y.mul(b.y)).add(a.z.mul(b.z))
}

/// The cross product.
pub fn cross3<T: Scalar>(a: V3<T>, b: V3<T>) -> (r: V3<T>)
    ensures
        r == a.cross(b),
{
    V3 {
        x: a.y.mul(b.z).sub(a.z.mul(b.y)),
        y: a.z.mul(b.x).sub(a.x.mul(b.z)),
        z: a.x.mul(b.y).sub(a.y.mul(b.x)),
    }
}

/// A vector scaled by a number.
pub fn sc3<T: Scalar>(a: V3<T>, s: T) -> (r: V3<T>)
    ensures
        r == a.times(s),
{
    V3 { x: a.x.mul(s), y: a.y.mul(s), z: a.z.mul(s) }
}

/// The zero vector.
pub fn origin3<T: Scalar>() -> (r: V3<T>)
    ensures
        r == V3::<T>::origin(),
{
    V3 { x: T::nil(), y: T::nil(), z: T::nil() }
}

} // verus!
