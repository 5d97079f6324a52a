//! Whitney edge functions on one tetrahedron and on one triangle: the function of
//! the edge from corner `a` to corner `b` is `l_a grad l_b - l_b grad l_a` with the
//! barycentric coordinates `l`.

use crate::deck::nought;
use crate::edges::{tet_ends, tet_pair, tri_ends, tri_pair};
use crate::groups::Medium;
use crate::scalar::{cross3, cx, dot3, origin3, sc3, sub3, Algebra, Cx, Number, Scalar, V3};
use vstd::prelude::*;

verus! {

/// The coefficients of one matrix entry.
pub struct Entry<T> {
    /// Stands alone.
    pub s: Cx<T>,
    /// Multiplies the imaginary unit and the wave number.
    pub b: Cx<T>,
    /// Multiplies the negative square of the wave number.
    pub m: Cx<T>,
    /// Multiplies the square root of the wave number.
    pub w: Cx<T>,
}

impl<T: Copy> Copy for Entry<T> {

}

impl<T: Copy> Clone for Entry<T> {
    fn clone(&self) -> (r: Self)
        ensures
            r == *self,
    {
        *self
    }
}

impl<T: Algebra> Entry<T> {
    /// An entry without terms.
    pub open spec fn nothing() -> Entry<T> {
        Entry {
            s: Cx::<T>::zero(),
            b: Cx::<T>::zero(),
            m: Cx::<T>::zero(),
            w: Cx::<T>::zero(),
        }
    }

    /// The sum of two entries.
    pub open spec fn plus(self, o: Entry<T>) -> Entry<T> {
        Entry { s: self.s + o.s, b: self.b + o.b, m: self.m + o.m, w: self.w + o.w }
    }
}

impl<T: Number> Entry<T> {
    /// The entry at wave number `k0`.
    pub open spec fn at_wave(self, k0: T) -> Cx<T> {
        Cx::<T>::zero() + self.s + self.m.scaled(-k0 * k0) + self.b.turned(k0) + self.w.scaled(
            k0.root(),
        )
    }
}

impl<T: Scalar> Entry<T> {
    /// An entry without terms.
    pub fn nil() -> (r: Entry<T>)
        ensures
            r == Entry::<T>::nothing(),
    {
        let z: Cx<T> = Cx::nil();
        Entry { s: z, b: z, m: z, w: z }
    }

    /// The sum of two entries.
    pub fn add(self, o: Entry<T>) -> (r: Entry<T>)
        ensures
            r == self.plus(o),
    {
        Entry { s: self.s.add(o.s), b: self.b.add(o.b), m: self.m.add(o.m), w: self.w.add(o.w) }
    }

    /// The entry at wave number `k0`.
    pub fn at(self, k0: T) -> (r: Cx<T>)
        ensures
            r == self.at_wave(k0),
    {
        Cx::nil().add(self.s).add(self.m.rs(k0.neg().mul(k0))).add(self.b.js(k0)).add(
            self.w.rs(k0.sqrt()),
        )
    }
}

// ---------------------------------------------------------------- tetrahedron

/// A tetrahedron in space: its volume and the gradients of its barycentric
/// coordinates.
pub struct TetShape<T> {
    pub vol: T,
    pub g0: V3<T>,
    pub g1: V3<T>,
    pub g2: V3<T>,
    pub g3: V3<T>,
}

impl<T: Algebra> TetShape<T> {
    /// The gradient of barycentric coordinate `i`.
    pub open spec fn grad(self, i: int) -> V3<T> {
        if i == 0 {
            self.g0
        } else if i == 1 {
            self.g1
        } else if i == 2 {
            self.g2
        } else {
            self.g3
        }
    }

    /// The curl of the function of edge `i`, up to a factor of two.
    pub open spec fn curl(self, i: int) -> V3<T> {
        self.grad(tet_ends(i).0).cross(self.grad(tet_ends(i).1))
    }
}

/// Six times the signed volume.
pub open spec fn determinant<T: Algebra>(p0: V3<T>, p1: V3<T>, p2: V3<T>, p3: V3<T>) -> T {
    p1.minus(p0).dot(p2.minus(p0).cross(p3.minus(p0)))
}

/// The absolute value.
pub open spec fn absolute<T: Number>(x: T) -> T {
    if x.less(T::zero()) {
        -x
    } else {
        x
    }
}

/// The gradients of the barycentric coordinates that belong to the corners.
pub open spec fn gradients<T: Algebra>(
    vol: T,
    p0: V3<T>,
    p1: V3<T>,
    p2: V3<T>,
    p3: V3<T>,
) -> TetShape<T> {
    let (r1, r2, r3) = (p1.minus(p0), p2.minus(p0), p3.minus(p0));
    let inv = T::one().over(determinant(p0, p1, p2, p3));
    let g1 = r2.cross(r3).times(inv);
    let g2 = r3.cross(r1).times(inv);
    let g3 = r1.cross(r2).times(inv);
    TetShape { vol, g0: V3::<T>::origin().minus(g1).minus(g2).minus(g3), g1, g2, g3 }
}

/// The shape of a tetrahedron, unless it has no volume.
pub open spec fn tet_shape<T: Number>(p0: V3<T>, p1: V3<T>, p2: V3<T>, p3: V3<T>) -> Option<
    TetShape<T>,
> {
    let det = determinant(p0, p1, p2, p3);
    if nought(det) {
        None
    } else {
        Some(gradients(absolute(det).over(T::number(6)), p0, p1, p2, p3))
    }
}

/// The absolute value.
pub fn abs<T: Scalar>(x: T) -> (r: T)
    ensures
        r == absolute(x),
{
    if x.lt(T::nil()) {
        x.neg()
    } else {
        x
    }
}

/// Works out the shape of a tetrahedron.
pub fn shape_tet<T: Scalar>(p0: V3<T>, p1: V3<T>, p2: V3<T>, p3: V3<T>) -> (r: Option<TetShape<T>>)
    ensures
        r == tet_shape(p0, p1, p2, p3),
{
    let r1 = sub3(p1, p0);
    let r2 = sub3(p2, p0);
    let r3 = sub3(p3, p0);
    let det = dot3(r1, cross3(r2, r3));
    if det.le(T::nil()) && T::nil().le(det) {
        return None;
    }
    let vol = abs(det).div(T::of(6));
    let inv = T::unit().div(det);
    let g1 = sc3(cross3(r2, r3), inv);
    let g2 = sc3(cross3(r3, r1), inv);
    let g3 = sc3(cross3(r1, r2), inv);
    let g0 = sub3(sub3(sub3(origin3(), g1), g2), g3);
    Some(TetShape { vol, g0, g1, g2, g3 })
}

/// The inner product of two vectors under a diagonal tensor.
pub open spec fn weighted_dot<T: Algebra>(l: V3<Cx<T>>, u: V3<T>, v: V3<T>) -> Cx<T> {
    l.x.scaled(u.x * v.x) + l.y.scaled(u.y * v.y) + l.z.scaled(u.z * v.z)
}

pub open spec fn real_part_only<T: Algebra>(x: T) -> Cx<T> {
    Cx { re: x, im: T::zero() }
}

/// The inner product of two vectors under the inverse of a diagonal tensor.
pub open spec fn inverse_dot<T: Algebra>(l: V3<Cx<T>>, u: V3<T>, v: V3<T>) -> Cx<T> {
    real_part_only(u.x * v.x).over(l.x) + real_part_only(u.y * v.y).over(l.y) + real_part_only(
        u.z * v.z,
    ).over(l.z)
}

/// The integral of the product of two barycentric coordinates over a tetrahedron.
pub open spec fn tet_overlap<T: Number>(vol: T, p: int, q: int) -> T {
    vol * if p == q {
        T::one().over(T::number(10))
    } else {
        T::one().over(T::number(20))
    }
}

/// The integral of the product of the curls of two edge functions, under the
/// inverse of a tensor.
pub open spec fn tet_stiffness<T: Number>(t: TetShape<T>, l: V3<Cx<T>>, i: int, j: int) -> Cx<T> {
    inverse_dot(l, t.curl(i), t.curl(j)).scaled(T::number(4) * t.vol)
}

/// The integral of the product of two edge functions, under a tensor.
pub open spec fn tet_mass<T: Number>(t: TetShape<T>, l: V3<Cx<T>>, i: int, j: int) -> Cx<T> {
    let (a, b) = tet_ends(i);
    let (c, d) = tet_ends(j);
    weighted_dot(l, t.grad(b), t.grad(d)).scaled(tet_overlap(t.vol, a, c)) - weighted_dot(
        l,
        t.grad(b),
        t.grad(c),
    ).scaled(tet_overlap(t.vol, a, d)) - weighted_dot(l, t.grad(a), t.grad(d)).scaled(
        tet_overlap(t.vol, b, c),
    ) + weighted_dot(l, t.grad(a), t.grad(c)).scaled(tet_overlap(t.vol, b, d))
}

/// What a tetrahedron adds to the matrix entry of its edges `i` and `j`. The
/// stretch of coordinates acts on permittivity, permeability and conductivity.
pub open spec fn tet_part<T: Number>(t: TetShape<T>, m: Medium<T>, i: int, j: int) -> Entry<T> {
    let stiff = tet_stiffness(t, m.tensor, i, j);
    let mass = tet_mass(t, m.tensor, i, j);
    Entry {
        s: Cx { re: stiff.re.over(m.mur), im: stiff.im.over(m.mur) },
        b: mass.scaled(T::constants().eta0 * m.sigma),
        m: m.eps * mass,
        w: Cx::<T>::zero(),
    }
}

fn grad<T: Scalar>(t: &TetShape<T>, i: usize) -> (r: V3<T>)
    requires
        i < 4,
    ensures
        r == t.grad(i as int),
{
    if i == 0 {
        t.g0
    } else if i == 1 {
        t.g1
    } else if i == 2 {
        t.g2
    } else {
        t.g3
    }
}

fn wdot<T: Scalar>(l: V3<Cx<T>>, u: V3<T>, v: V3<T>) -> (r: Cx<T>)
    ensures
        r == weighted_dot(l, u, v),
{
    l.x.rs(u.x.mul(v.x)).add(l.y.rs(u.y.mul(v.y))).add(l.z.rs(u.z.mul(v.z)))
}

fn idot<T: Scalar>(l: V3<Cx<T>>, u: V3<T>, v: V3<T>) -> (r: Cx<T>)
    ensures
        r == inverse_dot(l, u, v),
{
    cx(u.x.mul(v.x), T::nil()).div(l.x).add(cx(u.y.mul(v.y), T::nil()).div(l.y)).add(
        cx(u.z.mul(v.z), T::nil()).div(l.z),
    )
}

fn overlap<T: Scalar>(vol: T, p: usize, q: usize) -> (r: T)
    ensures
        r == tet_overlap(vol, p as int, q as int),
{
    if p == q {
        vol.mul(T::unit().div(T::of(10)))
    } else {
        vol.mul(T::unit().div(T::of(20)))
    }
}

/// Works out what a tetrahedron adds to the matrix entry of two of its edges.
pub fn part_of_tet<T: Scalar>(t: &TetShape<T>, m: &Medium<T>, i: usize, j: usize) -> (r: Entry<T>)
    requires
        i < 6,
        j < 6,
    ensures
        r == tet_part(*t, *m, i as int, j as int),
{
    let (a, b) = tet_pair(i);
    let (c, d) = tet_pair(j);
    let (ga, gb, gc, gd) = (grad(t, a), grad(t, b), grad(t, c), grad(t, d));
    let stiff = idot(m.tensor, cross3(ga, gb), cross3(gc, gd)).rs(T::of(4).mul(t.vol));
    let mass = wdot(m.tensor, gb, gd).rs(overlap(t.vol, a, c)).sub(
        wdot(m.tensor, gb, gc).rs(overlap(t.vol, a, d)),
    ).sub(wdot(m.tensor, ga, gd).rs(overlap(t.vol, b, c))).add(
        wdot(m.tensor, ga, gc).rs(overlap(t.vol, b, d)),
    );
    Entry {
        s: cx(stiff.re.div(m.mur), stiff.im.div(m.mur)),
        b: mass.rs(T::known().eta0.mul(m.sigma)),
        m: m.eps.mul(mass),
        w: Cx::nil(),
    }
}

// ---------------------------------------------------------------- triangle

/// A triangle in space: its area and the gradients of its barycentric
/// coordinates within its plane.
pub struct TriShape<T> {
    pub area: T,
    pub g0: V3<T>,
    pub g1: V3<T>,
    pub g2: V3<T>,
}

impl<T: Algebra> TriShape<T> {
    /// The gradient of barycentric coordinate `i`.
    pub open spec fn grad(self, i: int) -> V3<T> {
        if i == 0 {
            self.g0
        } else if i == 1 {
            self.g1
        } else {
            self.g2
        }
    }
}

/// A vector normal to a triangle whose length is twice the area.
pub open spec fn normal<T: Algebra>(p0: V3<T>, p1: V3<T>, p2: V3<T>) -> V3<T> {
    p1.minus(p0).cross(p2.minus(p0))
}

/// The gradients of the barycentric coordinates that belong to the corners.
pub open spec fn face_gradients<T: Algebra>(
    area: T,
    p0: V3<T>,
    p1: V3<T>,
    p2: V3<T>,
) -> TriShape<T> {
    let (u, v) = (p1.minus(p0), p2.minus(p0));
    let n = normal(p0, p1, p2);
    let inv = T::one().over(n.dot(n));
    let g1 = v.cross(n).times(inv);
    let g2 = n.cross(u).times(inv);
    TriShape { area, g0: V3::<T>::origin().minus(g1).minus(g2), g1, g2 }
}

/// The shape of a triangle.
pub open spec fn tri_shape<T: Number>(p0: V3<T>, p1: V3<T>, p2: V3<T>) -> TriShape<T> {
    let n = normal(p0, p1, p2);
    face_gradients(n.dot(n).root().over(T::number(2)), p0, p1, p2)
}

/// Works out the shape of a triangle.
pub fn shape_tri<T: Scalar>(p0: V3<T>, p1: V3<T>, p2: V3<T>) -> (r: TriShape<T>)
    ensures
        r == tri_shape(p0, p1, p2),
{
    let u = sub3(p1, p0);
    let v = sub3(p2, p0);
    let n = cross3(u, v);
    let n2 = dot3(n, n);
    let area = n2.sqrt().div(T::of(2));
    let inv = T::unit().div(n2);
    let g1 = sc3(cross3(v, n), inv);
    let g2 = sc3(cross3(n, u), inv);
    let g0 = sub3(sub3(origin3(), g1), g2);
    TriShape { area, g0, g1, g2 }
}

/// The integral of the product of two barycentric coordinates over a triangle.
pub open spec fn tri_overlap<T: Number>(area: T, p: int, q: int) -> T {
    area * if p == q {
        T::one().over(T::number(6))
    } else {
        T::one().over(T::number(12))
    }
}

/// The integral of the product of two edge functions over a triangle.
pub open spec fn tri_mass<T: Number>(t: TriShape<T>, i: int, j: int) -> T {
    let (a, b) = tri_ends(i);
    let (c, d) = tri_ends(j);
    t.grad(b).dot(t.grad(d)) * tri_overlap(t.area, a, c) - t.grad(b).dot(t.grad(c)) * tri_overlap(
        t.area,
        a,
        d,
    ) - t.grad(a).dot(t.grad(d)) * tri_overlap(t.area, b, c) + t.grad(a).dot(t.grad(c))
        * tri_overlap(t.area, b, d)
}

/// The integral of the component of edge function `i` along a direction.
pub open spec fn tri_moment<T: Number>(t: TriShape<T>, dir: V3<T>, i: int) -> T {
    let (a, b) = tri_ends(i);
    t.area.over(T::number(3)) * dir.dot(t.grad(b).minus(t.grad(a)))
}

fn face_grad<T: Scalar>(t: &TriShape<T>, i: usize) -> (r: V3<T>)
    requires
        i < 3,
    ensures
        r == t.grad(i as int),
{
    if i == 0 {
        t.g0
    } else if i == 1 {
        t.g1
    } else {
        t.g2
    }
}

fn face_overlap<T: Scalar>(area: T, p: usize, q: usize) -> (r: T)
    ensures
        r == tri_overlap(area, p as int, q as int),
{
    if p == q {
        area.mul(T::unit().div(T::of(6)))
    } else {
        area.mul(T::unit().div(T::of(12)))
    }
}

/// Integrates the product of two edge functions over a triangle.
pub fn mass_of_tri<T: Scalar>(t: &TriShape<T>, i: usize, j: usize) -> (r: T)
    requires
        i < 3,
        j < 3,
    ensures
        r == tri_mass(*t, i as int, j as int),
{
    let (a, b) = tri_pair(i);
    let (c, d) = tri_pair(j);
    let (ga, gb) = (face_grad(t, a), face_grad(t, b));
    let (gc, gd) = (face_grad(t, c), face_grad(t, d));
    dot3(gb, gd).mul(face_overlap(t.area, a, c)).sub(
        dot3(gb, gc).mul(face_overlap(t.area, a, d)),
    ).sub(dot3(ga, gd).mul(face_overlap(t.area, b, c))).add(
        dot3(ga, gc).mul(face_overlap(t.area, b, d)),
    )
}

/// Integrates the component of an edge function along a direction.
pub fn moment_of_tri<T: Scalar>(t: &TriShape<T>, dir: V3<T>, i: usize) -> (r: T)
    requires
        i < 3,
    ensures
        r == tri_moment(*t, dir, i as int),
{
    let (a, b) = tri_pair(i);
    t.area.div(T::of(3)).mul(dot3(dir, sub3(face_grad(t, b), face_grad(t, a))))
}

} // verus!
