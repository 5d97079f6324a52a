//! What the element matrices are, in exact arithmetic: the integrals of the products of
//! edge functions and of their curls. An integral is taken by a rule of points that is
//! exact for polynomials of the second degree, and a curl is known by its flux through
//! the faces.

use crate::accuracy::lemma_cancel;
use crate::assembly::{tri_part, Sheet};
use crate::complex::{lemma_complex_division, lemma_complex_ring, Real};
use crate::edges::{tet_ends, tri_ends};
use crate::element::{
    determinant, gradients, tet_mass, tet_overlap, tet_part, tet_stiffness, tri_mass, tri_moment,
    TetShape, TriShape,
};
use crate::exact::{law_exact_division, law_mul_comm, law_mul_zero};
use crate::groups::Medium;
use crate::reals::{
    real_cancel, real_distribute, real_mul_assoc, real_mul_comm, real_mul_neg, real_mul_one,
    real_mul_zero, real_quotient, real_swap,
};
use crate::scalar::{Algebra, Cx, Number, V3};
use crate::whitney::{corner, delta, lemma_gradients};
use vstd::prelude::*;

verus! {

// ---------------------------------------------------------------- products

proof fn lemma_two_functions(
    a: real,
    b: real,
    c: real,
    d: real,
    p: real,
    q: real,
    r: real,
    s: real,
)
    ensures
        (b * p - a * q) * (d * r - c * s) == (p * r) * (b * d) - (p * s) * (b * c) - (q * r) * (a
            * d) + (q * s) * (a * c),
{
    real_distribute(d * r - c * s, b * p, a * q);
    real_distribute(b * p, d * r, c * s);
    real_mul_assoc(b * p, d, r);
    real_swap(b, p, d);
    real_mul_assoc(b * p, c, s);
    real_swap(b, p, c);
    real_distribute(a * q, d * r, c * s);
    real_mul_assoc(a * q, d, r);
    real_swap(a, q, d);
    real_mul_assoc(a * q, c, s);
    real_swap(a, q, c);
    real_mul_assoc(p * r, b, d);
    real_swap(p, r, b);
    real_mul_comm(p, b);
    real_swap(b * p, r, d);
    real_mul_assoc(p * s, b, c);
    real_swap(p, s, b);
    real_swap(b * p, s, c);
    real_mul_assoc(q * r, a, d);
    real_swap(q, r, a);
    real_mul_comm(q, a);
    real_swap(a * q, r, d);
    real_mul_assoc(q * s, a, c);
    real_swap(q, s, a);
    real_swap(a * q, s, c);
}

proof fn lemma_three_axes(
    lx: real,
    ly: real,
    lz: real,
    m1: real,
    m2: real,
    m3: real,
    m4: real,
    bdx: real,
    bdy: real,
    bdz: real,
    bcx: real,
    bcy: real,
    bcz: real,
    adx: real,
    ady: real,
    adz: real,
    acx: real,
    acy: real,
    acz: real,
)
    ensures
        lx * (m1 * bdx - m2 * bcx - m3 * adx + m4 * acx) + ly * (m1 * bdy - m2 * bcy - m3 * ady + m4
            * acy) + lz * (m1 * bdz - m2 * bcz - m3 * adz + m4 * acz) == m1 * (lx * bdx + ly * bdy
            + lz * bdz) - m2 * (lx * bcx + ly * bcy + lz * bcz) - m3 * (lx * adx + ly * ady + lz
            * adz) + m4 * (lx * acx + ly * acy + lz * acz),
{
    real_distribute(lx, m1 * bdx - m2 * bcx - m3 * adx, m4 * acx);
    real_distribute(lx, m1 * bdx - m2 * bcx, m3 * adx);
    real_distribute(lx, m1 * bdx, m2 * bcx);
    real_mul_comm(m1, bdx);
    real_mul_assoc(lx, bdx, m1);
    real_mul_comm(lx, bdx);
    real_mul_comm(m2, bcx);
    real_mul_assoc(lx, bcx, m2);
    real_mul_comm(lx, bcx);
    real_mul_comm(m3, adx);
    real_mul_assoc(lx, adx, m3);
    real_mul_comm(lx, adx);
    real_mul_comm(m4, acx);
    real_mul_assoc(lx, acx, m4);
    real_mul_comm(lx, acx);
    real_distribute(ly, m1 * bdy - m2 * bcy - m3 * ady, m4 * acy);
    real_distribute(ly, m1 * bdy - m2 * bcy, m3 * ady);
    real_distribute(ly, m1 * bdy, m2 * bcy);
    real_mul_comm(m1, bdy);
    real_mul_assoc(ly, bdy, m1);
    real_mul_comm(ly, bdy);
    real_mul_comm(m2, bcy);
    real_mul_assoc(ly, bcy, m2);
    real_mul_comm(ly, bcy);
    real_mul_comm(m3, ady);
    real_mul_assoc(ly, ady, m3);
    real_mul_comm(ly, ady);
    real_mul_comm(m4, acy);
    real_mul_assoc(ly, acy, m4);
    real_mul_comm(ly, acy);
    real_distribute(lz, m1 * bdz - m2 * bcz - m3 * adz, m4 * acz);
    real_distribute(lz, m1 * bdz - m2 * bcz, m3 * adz);
    real_distribute(lz, m1 * bdz, m2 * bcz);
    real_mul_comm(m1, bdz);
    real_mul_assoc(lz, bdz, m1);
    real_mul_comm(lz, bdz);
    real_mul_comm(m2, bcz);
    real_mul_assoc(lz, bcz, m2);
    real_mul_comm(lz, bcz);
    real_mul_comm(m3, adz);
    real_mul_assoc(lz, adz, m3);
    real_mul_comm(lz, adz);
    real_mul_comm(m4, acz);
    real_mul_assoc(lz, acz, m4);
    real_mul_comm(lz, acz);
    real_distribute(m1, lx * bdx + ly * bdy, lz * bdz);
    real_distribute(m1, lx * bdx, ly * bdy);
    real_mul_assoc(m1, bdx, lx);
    real_swap(bdx, m1, lx);
    real_mul_assoc(m1, bdy, ly);
    real_swap(bdy, m1, ly);
    real_mul_assoc(m1, bdz, lz);
    real_swap(bdz, m1, lz);
    real_distribute(m2, lx * bcx + ly * bcy, lz * bcz);
    real_distribute(m2, lx * bcx, ly * bcy);
    real_mul_assoc(m2, bcx, lx);
    real_swap(bcx, m2, lx);
    real_mul_assoc(m2, bcy, ly);
    real_swap(bcy, m2, ly);
    real_mul_assoc(m2, bcz, lz);
    real_swap(bcz, m2, lz);
    real_distribute(m3, lx * adx + ly * ady, lz * adz);
    real_distribute(m3, lx * adx, ly * ady);
    real_mul_assoc(m3, adx, lx);
    real_swap(adx, m3, lx);
    real_mul_assoc(m3, ady, ly);
    real_swap(ady, m3, ly);
    real_mul_assoc(m3, adz, lz);
    real_swap(adz, m3, lz);
    real_distribute(m4, lx * acx + ly * acy, lz * acz);
    real_distribute(m4, lx * acx, ly * acy);
    real_mul_assoc(m4, acx, lx);
    real_swap(acx, m4, lx);
    real_mul_assoc(m4, acy, ly);
    real_swap(acy, m4, ly);
    real_mul_assoc(m4, acz, lz);
    real_swap(acz, m4, lz);
}

/// The inner product of two cross products.
pub proof fn lemma_two_crosses(a: V3<Real>, b: V3<Real>, u: V3<Real>, v: V3<Real>)
    ensures
        a.cross(b).dot(u.cross(v)).v == a.dot(u).v * b.dot(v).v - a.dot(v).v * b.dot(u).v,
{
    let (ax, ay, az) = (a.x.v, a.y.v, a.z.v);
    let (bx, by, bz) = (b.x.v, b.y.v, b.z.v);
    let (ux, uy, uz) = (u.x.v, u.y.v, u.z.v);
    let (vx, vy, vz) = (v.x.v, v.y.v, v.z.v);
    real_distribute(uy * vz - uz * vy, ay * bz, az * by);
    real_distribute(ay * bz, uy * vz, uz * vy);
    real_mul_assoc(ay * bz, uy, vz);
    real_mul_assoc(ay * bz, uz, vy);
    real_distribute(az * by, uy * vz, uz * vy);
    real_mul_assoc(az * by, uy, vz);
    real_mul_assoc(az * by, uz, vy);
    real_distribute(uz * vx - ux * vz, az * bx, ax * bz);
    real_distribute(az * bx, uz * vx, ux * vz);
    real_mul_assoc(az * bx, uz, vx);
    real_mul_assoc(az * bx, ux, vz);
    real_distribute(ax * bz, uz * vx, ux * vz);
    real_mul_assoc(ax * bz, uz, vx);
    real_mul_assoc(ax * bz, ux, vz);
    real_distribute(ux * vy - uy * vx, ax * by, ay * bx);
    real_distribute(ax * by, ux * vy, uy * vx);
    real_mul_assoc(ax * by, ux, vy);
    real_mul_assoc(ax * by, uy, vx);
    real_distribute(ay * bx, ux * vy, uy * vx);
    real_mul_assoc(ay * bx, ux, vy);
    real_mul_assoc(ay * bx, uy, vx);
    real_distribute(bx * vx + by * vy + bz * vz, ax * ux + ay * uy, az * uz);
    real_distribute(bx * vx + by * vy + bz * vz, ax * ux, ay * uy);
    real_distribute(ax * ux, bx * vx + by * vy, bz * vz);
    real_distribute(ax * ux, bx * vx, by * vy);
    real_mul_assoc(ax * ux, bx, vx);
    real_swap(ax, ux, bx);
    real_mul_assoc(ax * ux, by, vy);
    real_swap(ax, ux, by);
    real_mul_assoc(ax * ux, bz, vz);
    real_swap(ax, ux, bz);
    real_distribute(ay * uy, bx * vx + by * vy, bz * vz);
    real_distribute(ay * uy, bx * vx, by * vy);
    real_mul_assoc(ay * uy, bx, vx);
    real_swap(ay, uy, bx);
    real_mul_assoc(ay * uy, by, vy);
    real_swap(ay, uy, by);
    real_mul_assoc(ay * uy, bz, vz);
    real_swap(ay, uy, bz);
    real_distribute(az * uz, bx * vx + by * vy, bz * vz);
    real_distribute(az * uz, bx * vx, by * vy);
    real_mul_assoc(az * uz, bx, vx);
    real_swap(az, uz, bx);
    real_mul_assoc(az * uz, by, vy);
    real_swap(az, uz, by);
    real_mul_assoc(az * uz, bz, vz);
    real_swap(az, uz, bz);
    real_distribute(bx * ux + by * uy + bz * uz, ax * vx + ay * vy, az * vz);
    real_distribute(bx * ux + by * uy + bz * uz, ax * vx, ay * vy);
    real_distribute(ax * vx, bx * ux + by * uy, bz * uz);
    real_distribute(ax * vx, bx * ux, by * uy);
    real_mul_assoc(ax * vx, bx, ux);
    real_swap(ax, vx, bx);
    real_swap(ax * bx, vx, ux);
    real_mul_assoc(ax * vx, by, uy);
    real_swap(ax, vx, by);
    real_swap(ax * by, vx, uy);
    real_mul_assoc(ax * vx, bz, uz);
    real_swap(ax, vx, bz);
    real_swap(ax * bz, vx, uz);
    real_distribute(ay * vy, bx * ux + by * uy, bz * uz);
    real_distribute(ay * vy, bx * ux, by * uy);
    real_mul_assoc(ay * vy, bx, ux);
    real_swap(ay, vy, bx);
    real_swap(ay * bx, vy, ux);
    real_mul_assoc(ay * vy, by, uy);
    real_swap(ay, vy, by);
    real_swap(ay * by, vy, uy);
    real_mul_assoc(ay * vy, bz, uz);
    real_swap(ay, vy, bz);
    real_swap(ay * bz, vy, uz);
    real_distribute(az * vz, bx * ux + by * uy, bz * uz);
    real_distribute(az * vz, bx * ux, by * uy);
    real_mul_assoc(az * vz, bx, ux);
    real_swap(az, vz, bx);
    real_swap(az * bx, vz, ux);
    real_mul_assoc(az * vz, by, uy);
    real_swap(az, vz, by);
    real_swap(az * by, vz, uy);
    real_mul_assoc(az * vz, bz, uz);
    real_swap(az, vz, bz);
    real_swap(az * bz, vz, uz);
}

// ---------------------------------------------------------------- rules of points

/// The sum over the first `n` points of what a function is there, times the weight of the
/// point.
pub open spec fn by_points(w: spec_fn(int) -> real, f: spec_fn(int) -> real, n: int) -> real
    decreases n,
{
    if n <= 0 {
        0real
    } else {
        by_points(w, f, n - 1) + w(n - 1) * f(n - 1)
    }
}

/// Barycentric coordinate `p` of a point of the rule for tetrahedra: first the four
/// corners, then the middles of the six edges.
pub open spec fn tet_point(k: int, p: int) -> real {
    if k < 4 {
        delta(p == k)
    } else if p == tet_ends(k - 4).0 || p == tet_ends(k - 4).1 {
        1real / 2real
    } else {
        0real
    }
}

/// The weights of the rule for tetrahedra. They add up to one.
pub open spec fn tet_weight() -> spec_fn(int) -> real {
    |k: int|
        if k < 4 {
            -1real / 20real
        } else {
            1real / 5real
        }
}

/// Barycentric coordinate `p` of the middle of edge `k` of a triangle.
pub open spec fn tri_point(k: int, p: int) -> real {
    if p == tri_ends(k).0 || p == tri_ends(k).1 {
        1real / 2real
    } else {
        0real
    }
}

/// The weights of the rule for triangles: the middles of the edges count alike.
pub open spec fn tri_weight() -> spec_fn(int) -> real {
    |k: int| 1real / 3real
}

/// An edge function at a point with the barycentric coordinates `la` and `lb` at the ends
/// of the edge, where the coordinates have the gradients `ga` and `gb`.
pub open spec fn edge_value(ga: V3<Real>, gb: V3<Real>, la: real, lb: real) -> V3<Real> {
    V3 {
        x: Real { v: gb.x.v * la - ga.x.v * lb },
        y: Real { v: gb.y.v * la - ga.y.v * lb },
        z: Real { v: gb.z.v * la - ga.z.v * lb },
    }
}

/// The product of two vectors, each axis with a weight.
pub open spec fn axis_product(lx: real, ly: real, lz: real, u: V3<Real>, v: V3<Real>) -> real {
    lx * (u.x.v * v.x.v) + ly * (u.y.v * v.y.v) + lz * (u.z.v * v.z.v)
}

proof fn lemma_pointwise(
    ga: V3<Real>,
    gb: V3<Real>,
    gc: V3<Real>,
    gd: V3<Real>,
    la: real,
    lb: real,
    lc: real,
    ld: real,
    lx: real,
    ly: real,
    lz: real,
)
    ensures
        axis_product(lx, ly, lz, edge_value(ga, gb, la, lb), edge_value(gc, gd, lc, ld)) == (la
            * lc) * axis_product(lx, ly, lz, gb, gd) - (la * ld) * axis_product(
            lx,
            ly,
            lz,
            gb,
            gc,
        ) - (lb * lc) * axis_product(lx, ly, lz, ga, gd) + (lb * ld) * axis_product(
            lx,
            ly,
            lz,
            ga,
            gc,
        ),
{
    lemma_two_functions(ga.x.v, gb.x.v, gc.x.v, gd.x.v, la, lb, lc, ld);
    lemma_two_functions(ga.y.v, gb.y.v, gc.y.v, gd.y.v, la, lb, lc, ld);
    lemma_two_functions(ga.z.v, gb.z.v, gc.z.v, gd.z.v, la, lb, lc, ld);
    lemma_three_axes(
        lx,
        ly,
        lz,
        la * lc,
        la * ld,
        lb * lc,
        lb * ld,
        gb.x.v * gd.x.v,
        gb.y.v * gd.y.v,
        gb.z.v * gd.z.v,
        gb.x.v * gc.x.v,
        gb.y.v * gc.y.v,
        gb.z.v * gc.z.v,
        ga.x.v * gd.x.v,
        ga.y.v * gd.y.v,
        ga.z.v * gd.z.v,
        ga.x.v * gc.x.v,
        ga.y.v * gc.y.v,
        ga.z.v * gc.z.v,
    );
}

/// A rule of points is linear.
proof fn lemma_points_linear(
    w: spec_fn(int) -> real,
    f: spec_fn(int) -> real,
    m1: spec_fn(int) -> real,
    m2: spec_fn(int) -> real,
    m3: spec_fn(int) -> real,
    m4: spec_fn(int) -> real,
    c1: real,
    c2: real,
    c3: real,
    c4: real,
    n: int,
)
    requires
        forall|k: int|
            0 <= k < n ==> #[trigger] f(k) == m1(k) * c1 - m2(k) * c2 - m3(k) * c3 + m4(k) * c4,
    ensures
        by_points(w, f, n) == by_points(w, m1, n) * c1 - by_points(w, m2, n) * c2 - by_points(
            w,
            m3,
            n,
        ) * c3 + by_points(w, m4, n) * c4,
    decreases n,
{
    if n <= 0 {
        real_mul_zero(c1);
        real_mul_zero(c2);
        real_mul_zero(c3);
        real_mul_zero(c4);
    } else {
        let k = n - 1;
        lemma_points_linear(w, f, m1, m2, m3, m4, c1, c2, c3, c4, k);
        assert(f(k) == m1(k) * c1 - m2(k) * c2 - m3(k) * c3 + m4(k) * c4);
        let (a, b, c, d) = (m1(k) * c1, m2(k) * c2, m3(k) * c3, m4(k) * c4);
        real_distribute(w(k), a - b - c, d);
        real_distribute(w(k), a - b, c);
        real_distribute(w(k), a, b);
        real_mul_assoc(w(k), m1(k), c1);
        real_mul_assoc(w(k), m2(k), c2);
        real_mul_assoc(w(k), m3(k), c3);
        real_mul_assoc(w(k), m4(k), c4);
        real_distribute(c1, by_points(w, m1, k), w(k) * m1(k));
        real_distribute(c2, by_points(w, m2, k), w(k) * m2(k));
        real_distribute(c3, by_points(w, m3, k), w(k) * m3(k));
        real_distribute(c4, by_points(w, m4, k), w(k) * m4(k));
    }
}

spec fn tet_moments(p: int, q: int) -> spec_fn(int) -> real {
    |k: int| tet_point(k, p) * tet_point(k, q)
}

spec fn tri_moments(p: int, q: int) -> spec_fn(int) -> real {
    |k: int| tri_point(k, p) * tri_point(k, q)
}

/// The product of two coordinates at a corner or at the middle of an edge.
proof fn lemma_halves(a: real, b: real)
    requires
        a == 0real || a == 1real / 2real || a == 1real,
        b == 0real || b == 1real / 2real || b == 1real,
    ensures
        a == 0real || b == 0real ==> a * b == 0real,
        a == 1real ==> a * b == b,
        b == 1real ==> a * b == a,
        a == 1real / 2real && b == 1real / 2real ==> a * b == 1real / 4real,
{
    real_mul_zero(a);
    real_mul_zero(b);
    real_mul_one(a);
    real_mul_one(b);
    assert((1real / 2real) * (1real / 2real) == 1real / 4real);
}

proof fn lemma_tet_step(p: int, q: int, k: int)
    requires
        0 <= p < 4,
        0 <= q < 4,
        0 <= k < 10,
    ensures
        by_points(tet_weight(), tet_moments(p, q), k + 1) == by_points(
            tet_weight(),
            tet_moments(p, q),
            k,
        ) + (if k < 4 {
            if p == k && q == k {
                -1real / 20real
            } else {
                0real
            }
        } else {
            let (c, d) = tet_ends(k - 4);
            if (p == c || p == d) && (q == c || q == d) {
                1real / 20real
            } else {
                0real
            }
        }),
{
    let m = tet_moments(p, q);
    let w = tet_weight();
    lemma_halves(tet_point(k, p), tet_point(k, q));
    assert(m(k) == tet_point(k, p) * tet_point(k, q));
    assert(m(k) == if k < 4 {
        if p == k && q == k {
            1real
        } else {
            0real
        }
    } else {
        let (c, d) = tet_ends(k - 4);
        if (p == c || p == d) && (q == c || q == d) {
            1real / 4real
        } else {
            0real
        }
    });
    assert(by_points(w, m, k + 1) == by_points(w, m, k) + w(k) * m(k));
    real_mul_zero(w(k));
    real_mul_one(w(k));
    assert((1real / 5real) * (1real / 4real) == 1real / 20real);
    assert(w(k) * m(k) == if k < 4 {
        (-1real / 20real) * m(k)
    } else {
        (1real / 5real) * m(k)
    });
}

proof fn lemma_tet_moments(p: int, q: int)
    requires
        0 <= p < 4,
        0 <= q < 4,
    ensures
        by_points(tet_weight(), tet_moments(p, q), 10) == if p == q {
            1real / 10real
        } else {
            1real / 20real
        },
{
    assert(by_points(tet_weight(), tet_moments(p, q), 0) == 0real);
    lemma_tet_step(p, q, 0);
    lemma_tet_step(p, q, 1);
    lemma_tet_step(p, q, 2);
    lemma_tet_step(p, q, 3);
    lemma_tet_step(p, q, 4);
    lemma_tet_step(p, q, 5);
    lemma_tet_step(p, q, 6);
    lemma_tet_step(p, q, 7);
    lemma_tet_step(p, q, 8);
    lemma_tet_step(p, q, 9);
}

proof fn lemma_tri_step(p: int, q: int, k: int)
    requires
        0 <= p < 3,
        0 <= q < 3,
        0 <= k < 3,
    ensures
        by_points(tri_weight(), tri_moments(p, q), k + 1) == by_points(
            tri_weight(),
            tri_moments(p, q),
            k,
        ) + (if (p == tri_ends(k).0 || p == tri_ends(k).1) && (q == tri_ends(k).0 || q == tri_ends(
            k,
        ).1) {
            1real / 12real
        } else {
            0real
        }),
{
    let m = tri_moments(p, q);
    let w = tri_weight();
    lemma_halves(tri_point(k, p), tri_point(k, q));
    assert(m(k) == tri_point(k, p) * tri_point(k, q));
    assert(by_points(w, m, k + 1) == by_points(w, m, k) + w(k) * m(k));
    real_mul_zero(w(k));
    assert((1real / 3real) * (1real / 4real) == 1real / 12real);
    assert(w(k) * m(k) == (1real / 3real) * m(k));
}

proof fn lemma_tri_moments(p: int, q: int)
    requires
        0 <= p < 3,
        0 <= q < 3,
    ensures
        by_points(tri_weight(), tri_moments(p, q), 3) == if p == q {
            1real / 6real
        } else {
            1real / 12real
        },
{
    assert(by_points(tri_weight(), tri_moments(p, q), 0) == 0real);
    lemma_tri_step(p, q, 0);
    lemma_tri_step(p, q, 1);
    lemma_tri_step(p, q, 2);
}

// ---------------------------------------------------------------- mass

/// The product of two edge functions of a tetrahedron at the points of the rule, each
/// axis with a weight.
pub open spec fn tet_products(
    t: TetShape<Real>,
    i: int,
    j: int,
    lx: real,
    ly: real,
    lz: real,
) -> spec_fn(int) -> real {
    let (a, b) = tet_ends(i);
    let (c, d) = tet_ends(j);
    |k: int|
        axis_product(
            lx,
            ly,
            lz,
            edge_value(t.grad(a), t.grad(b), tet_point(k, a), tet_point(k, b)),
            edge_value(t.grad(c), t.grad(d), tet_point(k, c), tet_point(k, d)),
        )
}

proof fn lemma_tet_rule(
    t: TetShape<Real>,
    i: int,
    j: int,
    lx: real,
    ly: real,
    lz: real,
)
    requires
        0 <= i < 6,
        0 <= j < 6,
    ensures
        ({
            let (a, b) = tet_ends(i);
            let (c, d) = tet_ends(j);
            let ov = |p: int, q: int| tet_overlap(t.vol, p, q).v;
            t.vol.v * by_points(tet_weight(), tet_products(t, i, j, lx, ly, lz), 10)
                == axis_product(lx, ly, lz, t.grad(b), t.grad(d)) * ov(a, c) - axis_product(
                lx,
                ly,
                lz,
                t.grad(b),
                t.grad(c),
            ) * ov(a, d) - axis_product(lx, ly, lz, t.grad(a), t.grad(d)) * ov(b, c)
                + axis_product(lx, ly, lz, t.grad(a), t.grad(c)) * ov(b, d)
        }),
{
    let (a, b) = tet_ends(i);
    let (c, d) = tet_ends(j);
    let (ga, gb, gc, gd) = (t.grad(a), t.grad(b), t.grad(c), t.grad(d));
    let f = tet_products(t, i, j, lx, ly, lz);
    let (m1, m2, m3, m4) = (
        tet_moments(a, c),
        tet_moments(a, d),
        tet_moments(b, c),
        tet_moments(b, d),
    );
    let (c1, c2, c3, c4) = (
        axis_product(lx, ly, lz, gb, gd),
        axis_product(lx, ly, lz, gb, gc),
        axis_product(lx, ly, lz, ga, gd),
        axis_product(lx, ly, lz, ga, gc),
    );
    assert forall|k: int| 0 <= k < 10 implies #[trigger] f(k) == m1(k) * c1 - m2(k) * c2 - m3(k)
        * c3 + m4(k) * c4 by {
        lemma_pointwise(
            ga,
            gb,
            gc,
            gd,
            tet_point(k, a),
            tet_point(k, b),
            tet_point(k, c),
            tet_point(k, d),
            lx,
            ly,
            lz,
        );
    }
    lemma_points_linear(tet_weight(), f, m1, m2, m3, m4, c1, c2, c3, c4, 10);
    lemma_tet_moments(a, c);
    lemma_tet_moments(a, d);
    lemma_tet_moments(b, c);
    lemma_tet_moments(b, d);
    assert(Real::number(10).v == 10real && Real::number(20).v == 20real);
    let (q1, q2, q3, q4) = (
        by_points(tet_weight(), m1, 10),
        by_points(tet_weight(), m2, 10),
        by_points(tet_weight(), m3, 10),
        by_points(tet_weight(), m4, 10),
    );
    lemma_four(t.vol.v, q1, q2, q3, q4, c1, c2, c3, c4);
}

proof fn lemma_four(
    v: real,
    q1: real,
    q2: real,
    q3: real,
    q4: real,
    c1: real,
    c2: real,
    c3: real,
    c4: real,
)
    ensures
        v * (q1 * c1 - q2 * c2 - q3 * c3 + q4 * c4) == c1 * (v * q1) - c2 * (v * q2) - c3 * (v * q3)
            + c4 * (v * q4),
{
    real_distribute(v, q1 * c1 - q2 * c2 - q3 * c3, q4 * c4);
    real_distribute(v, q1 * c1 - q2 * c2, q3 * c3);
    real_distribute(v, q1 * c1, q2 * c2);
    real_mul_assoc(v, q1, c1);
    real_mul_assoc(v, q2, c2);
    real_mul_assoc(v, q3, c3);
    real_mul_assoc(v, q4, c4);
    real_mul_comm(v * q1, c1);
    real_mul_comm(v * q2, c2);
    real_mul_comm(v * q3, c3);
    real_mul_comm(v * q4, c4);
}

/// The mass of two edges of a tetrahedron is the integral over it of the product of their
/// edge functions under the tensor: the volume times the mean over the points of the
/// rule, which is exact here.
pub proof fn lemma_tet_mass(t: TetShape<Real>, l: V3<Cx<Real>>, i: int, j: int)
    requires
        0 <= i < 6,
        0 <= j < 6,
    ensures
        tet_mass(t, l, i, j).re.v == t.vol.v * by_points(
            tet_weight(),
            tet_products(t, i, j, l.x.re.v, l.y.re.v, l.z.re.v),
            10,
        ),
        tet_mass(t, l, i, j).im.v == t.vol.v * by_points(
            tet_weight(),
            tet_products(t, i, j, l.x.im.v, l.y.im.v, l.z.im.v),
            10,
        ),
{
    lemma_tet_rule(t, i, j, l.x.re.v, l.y.re.v, l.z.re.v);
    lemma_tet_rule(t, i, j, l.x.im.v, l.y.im.v, l.z.im.v);
}

/// The product of two edge functions of a triangle at the points of the rule.
pub open spec fn tri_products(t: TriShape<Real>, i: int, j: int) -> spec_fn(int) -> real {
    let (a, b) = tri_ends(i);
    let (c, d) = tri_ends(j);
    |k: int|
        axis_product(
            1real,
            1real,
            1real,
            edge_value(t.grad(a), t.grad(b), tri_point(k, a), tri_point(k, b)),
            edge_value(t.grad(c), t.grad(d), tri_point(k, c), tri_point(k, d)),
        )
}

proof fn lemma_plain(u: V3<Real>, v: V3<Real>)
    ensures
        axis_product(1real, 1real, 1real, u, v) == u.dot(v).v,
{
    real_mul_one(u.x.v * v.x.v);
    real_mul_one(u.y.v * v.y.v);
    real_mul_one(u.z.v * v.z.v);
}

/// The mass of two edges of a triangle is the integral over it of the product of their
/// edge functions: the area times the mean over the middles of the edges.
pub proof fn lemma_tri_mass(t: TriShape<Real>, i: int, j: int)
    requires
        0 <= i < 3,
        0 <= j < 3,
    ensures
        tri_mass(t, i, j).v == t.area.v * by_points(tri_weight(), tri_products(t, i, j), 3),
{
    let (a, b) = tri_ends(i);
    let (c, d) = tri_ends(j);
    let (ga, gb, gc, gd) = (t.grad(a), t.grad(b), t.grad(c), t.grad(d));
    let f = tri_products(t, i, j);
    let (m1, m2, m3, m4) = (
        tri_moments(a, c),
        tri_moments(a, d),
        tri_moments(b, c),
        tri_moments(b, d),
    );
    let (c1, c2, c3, c4) = (gb.dot(gd).v, gb.dot(gc).v, ga.dot(gd).v, ga.dot(gc).v);
    lemma_plain(gb, gd);
    lemma_plain(gb, gc);
    lemma_plain(ga, gd);
    lemma_plain(ga, gc);
    assert forall|k: int| 0 <= k < 3 implies #[trigger] f(k) == m1(k) * c1 - m2(k) * c2 - m3(k) * c3
        + m4(k) * c4 by {
        lemma_pointwise(
            ga,
            gb,
            gc,
            gd,
            tri_point(k, a),
            tri_point(k, b),
            tri_point(k, c),
            tri_point(k, d),
            1real,
            1real,
            1real,
        );
    }
    lemma_points_linear(tri_weight(), f, m1, m2, m3, m4, c1, c2, c3, c4, 3);
    lemma_tri_moments(a, c);
    lemma_tri_moments(a, d);
    lemma_tri_moments(b, c);
    lemma_tri_moments(b, d);
    assert(Real::number(6).v == 6real && Real::number(12).v == 12real);
    let (q1, q2, q3, q4) = (
        by_points(tri_weight(), m1, 3),
        by_points(tri_weight(), m2, 3),
        by_points(tri_weight(), m3, 3),
        by_points(tri_weight(), m4, 3),
    );
    lemma_four(t.area.v, q1, q2, q3, q4, c1, c2, c3, c4);
}

/// The moment of an edge of a triangle is the integral over it of the component of the
/// edge function along a direction: the area times the component at the centroid, where
/// every barycentric coordinate is a third.
pub proof fn lemma_tri_moment(t: TriShape<Real>, dir: V3<Real>, i: int)
    requires
        0 <= i < 3,
    ensures
        tri_moment(t, dir, i).v == t.area.v * dir.dot(
            edge_value(
                t.grad(tri_ends(i).0),
                t.grad(tri_ends(i).1),
                1real / 3real,
                1real / 3real,
            ),
        ).v,
{
    let (a, b) = tri_ends(i);
    let (ga, gb) = (t.grad(a), t.grad(b));
    let th = 1real / 3real;
    let w = gb.minus(ga);
    real_distribute(th, gb.x.v, ga.x.v);
    real_distribute(th, gb.y.v, ga.y.v);
    real_distribute(th, gb.z.v, ga.z.v);
    real_mul_assoc(dir.x.v, w.x.v, th);
    real_mul_assoc(dir.y.v, w.y.v, th);
    real_mul_assoc(dir.z.v, w.z.v, th);
    real_distribute(th, dir.x.v * w.x.v + dir.y.v * w.y.v, dir.z.v * w.z.v);
    real_distribute(th, dir.x.v * w.x.v, dir.y.v * w.y.v);
    let d = dir.dot(w).v;
    assert(Real::number(3).v == 3real);
    let q = t.area.v / 3real;
    real_quotient(t.area.v, 3real);
    real_mul_comm(d, th);
    real_mul_assoc(t.area.v, th, d);
    real_cancel(3real, t.area.v * th, q);
}

// ---------------------------------------------------------------- stiffness

/// Which way edge `i` of a tetrahedron runs on the way from corner `k` to corner `m`:
/// along it, against it, or neither. That is what its edge function adds up to there.
pub open spec fn way(i: int, k: int, m: int) -> real {
    if tet_ends(i) == (k, m) {
        1real
    } else if tet_ends(i) == (m, k) {
        -1real
    } else {
        0real
    }
}

/// The flux of the curl of edge function `i` through the face with the corners `k`, `m`
/// and `n` is what the function adds up to around the face. The curl is twice the cross
/// product, and the face has half the cross product of two of its edges for an area.
pub proof fn lemma_stokes(
    vol: Real,
    p0: V3<Real>,
    p1: V3<Real>,
    p2: V3<Real>,
    p3: V3<Real>,
    i: int,
    k: int,
    m: int,
    n: int,
)
    requires
        determinant(p0, p1, p2, p3).v != 0real,
        0 <= i < 6,
        0 <= k < 4,
        0 <= m < 4,
        0 <= n < 4,
        k != m,
        m != n,
        n != k,
    ensures
        ({
            let (u, v) = (
                corner(p0, p1, p2, p3, m).minus(corner(p0, p1, p2, p3, k)),
                corner(p0, p1, p2, p3, n).minus(corner(p0, p1, p2, p3, k)),
            );
            gradients(vol, p0, p1, p2, p3).curl(i).dot(u.cross(v)).v == way(i, k, m) + way(i, m, n)
                + way(i, n, k)
        }),
{
    let t = gradients(vol, p0, p1, p2, p3);
    let (a, b) = tet_ends(i);
    let (u, v) = (
        corner(p0, p1, p2, p3, m).minus(corner(p0, p1, p2, p3, k)),
        corner(p0, p1, p2, p3, n).minus(corner(p0, p1, p2, p3, k)),
    );
    lemma_two_crosses(t.grad(a), t.grad(b), u, v);
    lemma_gradients(vol, p0, p1, p2, p3, a, k, m);
    lemma_gradients(vol, p0, p1, p2, p3, b, k, m);
    lemma_gradients(vol, p0, p1, p2, p3, a, k, n);
    lemma_gradients(vol, p0, p1, p2, p3, b, k, n);
    let (au, av) = (delta(a == m) - delta(a == k), delta(a == n) - delta(a == k));
    let (bu, bv) = (delta(b == m) - delta(b == k), delta(b == n) - delta(b == k));
    lemma_signs(au, bv);
    lemma_signs(av, bu);
}

proof fn lemma_signs(a: real, b: real)
    requires
        a == 0real || a == 1real || a == -1real,
        b == 0real || b == 1real || b == -1real,
    ensures
        a == 0real || b == 0real ==> a * b == 0real,
        a == 1real ==> a * b == b,
        a == -1real ==> a * b == -b,
{
    real_mul_zero(a);
    real_mul_zero(b);
    real_mul_one(b);
    real_mul_neg(1real, b);
}

/// `k` is the inverse of the tensor `l`.
pub open spec fn is_inverse(k: V3<Cx<Real>>, l: V3<Cx<Real>>) -> bool {
    &&& k.x * l.x == Cx::<Real>::one()
    &&& k.y * l.y == Cx::<Real>::one()
    &&& k.z * l.z == Cx::<Real>::one()
}

/// The product of the curls of two edge functions.
pub open spec fn curl_products(t: TetShape<Real>, i: int, j: int) -> V3<Real> {
    let (c, d) = (t.curl(i).times(Real { v: 2real }), t.curl(j).times(Real { v: 2real }));
    V3 { x: c.x * d.x, y: c.y * d.y, z: c.z * d.z }
}

proof fn lemma_one_quotient(a: real, l: Cx<Real>, k: Cx<Real>)
    requires
        k * l == Cx::<Real>::one(),
    ensures
        (Cx { re: Real { v: a }, im: Real { v: 0real } }).over(l) == k.scaled(Real { v: a }),
{
    lemma_complex_ring();
    lemma_complex_division();
    let z = Cx { re: Real { v: a }, im: Real { v: 0real } };
    let zero = Cx::<Real>::zero();
    if l == zero {
        law_mul_zero(k);
        assert(Cx::<Real>::one().re != zero.re);
    }
    law_exact_division(z, l);
    // (k a) l = (k l) a = a
    let y = k.scaled(Real { v: a });
    let (p, q, r, s) = (k.re.v, k.im.v, l.re.v, l.im.v);
    real_swap(p, a, r);
    real_swap(q, a, s);
    real_swap(p, a, s);
    real_swap(q, a, r);
    real_distribute(a, p * r, q * s);
    real_distribute(a, p * s, q * r);
    real_mul_one(a);
    real_mul_zero(a);
    assert(y * l == z);
    law_mul_comm(z.over(l), l);
    law_mul_comm(y, l);
    lemma_cancel(l, z.over(l), y);
}

/// The stiffness of two edges of a tetrahedron is the integral over it of the product of
/// the curls of their edge functions under the inverse of the tensor. The curls are
/// uniform.
pub proof fn lemma_stiffness(
    t: TetShape<Real>,
    l: V3<Cx<Real>>,
    k: V3<Cx<Real>>,
    i: int,
    j: int,
)
    requires
        is_inverse(k, l),
    ensures
        ({
            let c = curl_products(t, i, j);
            tet_stiffness(t, l, i, j) == (k.x.scaled(c.x) + k.y.scaled(c.y) + k.z.scaled(
                c.z,
            )).scaled(t.vol)
        }),
{
    let (u, v) = (t.curl(i), t.curl(j));
    let (x, y, z) = (u.x.v * v.x.v, u.y.v * v.y.v, u.z.v * v.z.v);
    lemma_one_quotient(x, l.x, k.x);
    lemma_one_quotient(y, l.y, k.y);
    lemma_one_quotient(z, l.z, k.z);
    assert(Real::number(4).v == 4real);
    lemma_fourfold(u.x.v, v.x.v);
    lemma_fourfold(u.y.v, v.y.v);
    lemma_fourfold(u.z.v, v.z.v);
    lemma_fourfold_sum(k.x.re.v, k.y.re.v, k.z.re.v, x, y, z, t.vol.v);
    lemma_fourfold_sum(k.x.im.v, k.y.im.v, k.z.im.v, x, y, z, t.vol.v);
}

proof fn lemma_fourfold(a: real, b: real)
    ensures
        (a * 2real) * (b * 2real) == 4real * (a * b),
{
    real_mul_assoc(a, 2real, b * 2real);
    real_mul_comm(2real, b * 2real);
    real_mul_assoc(b, 2real, 2real);
    real_mul_assoc(a, b, 4real);
    real_mul_comm(a * b, 4real);
}

proof fn lemma_fourfold_sum(p: real, q: real, r: real, x: real, y: real, z: real, v: real)
    ensures
        (p * x + q * y + r * z) * (4real * v) == (p * (4real * x) + q * (4real * y) + r * (4real
            * z)) * v,
{
    let s = p * x + q * y + r * z;
    real_mul_assoc(s, 4real, v);
    real_mul_assoc(p, 4real, x);
    real_mul_assoc(q, 4real, y);
    real_mul_assoc(r, 4real, z);
    real_mul_comm(p, 4real);
    real_mul_comm(q, 4real);
    real_mul_comm(r, 4real);
    real_mul_assoc(4real, p, x);
    real_mul_assoc(4real, q, y);
    real_mul_assoc(4real, r, z);
    real_mul_comm(s, 4real);
    real_distribute(4real, p * x + q * y, r * z);
    real_distribute(4real, p * x, q * y);
}

// ---------------------------------------------------------------- equations

/// The imaginary unit times a real number.
pub open spec fn imaginary(a: Real) -> Cx<Real> {
    Cx { re: Real { v: 0real }, im: a }
}

/// What a tetrahedron adds to the matrix is the equation of the field in it: the
/// stiffness over the permeability, less the square of the wave number times the
/// permittivity times the mass, plus the imaginary unit times the wave number, the wave
/// impedance of vacuum and the conductivity times the mass.
pub proof fn lemma_field_equation(t: TetShape<Real>, m: Medium<Real>, k0: Real, i: int, j: int)
    requires
        m.mur.v != 0real,
    ensures
        ({
            let mass = tet_mass(t, m.tensor, i, j);
            (tet_part(t, m, i, j).at_wave(k0) + (m.eps * mass).scaled(k0 * k0) - imaginary(
                k0 * Real::constants().eta0 * m.sigma,
            ) * mass).scaled(m.mur) == tet_stiffness(t, m.tensor, i, j)
        }),
{
    let mass = tet_mass(t, m.tensor, i, j);
    let stiff = tet_stiffness(t, m.tensor, i, j);
    let eta = Real::constants().eta0.v;
    let (k, s, u) = (k0.v, m.sigma.v, m.mur.v);
    let e = m.eps * mass;
    real_quotient(stiff.re.v, u);
    real_quotient(stiff.im.v, u);
    real_mul_neg(k, k);
    real_mul_neg(e.re.v, k * k);
    real_mul_neg(e.im.v, k * k);
    lemma_conducted(mass.re.v, k, eta, s);
    lemma_conducted(mass.im.v, k, eta, s);
    real_mul_neg(mass.im.v * (eta * s), k);
    real_mul_zero(mass.re.v);
    real_mul_zero(mass.im.v);
    real_mul_zero(k0.root().v);
}

proof fn lemma_conducted(x: real, k: real, eta: real, s: real)
    ensures
        (x * (eta * s)) * k == ((k * eta) * s) * x,
{
    real_mul_assoc(k, eta, s);
    real_mul_comm(x, eta * s);
    real_swap(eta * s, x, k);
    real_mul_comm(eta * s, k);
}

/// What a triangle with a sheet adds to the matrix: the imaginary unit times the wave
/// number times one coefficient of the sheet, plus the square root of the wave number
/// times the other, times the mass of the edges.
pub proof fn lemma_sheet_equation(
    t: TriShape<Real>,
    sheet: Sheet<Real>,
    k0: Real,
    i: int,
    j: int,
)
    ensures
        tri_part(t, sheet, i, j).at_wave(k0) == (imaginary(k0) * sheet.b + sheet.w.scaled(
            k0.root(),
        )).scaled(tri_mass(t, i, j)),
{
    let (m, k, r) = (tri_mass(t, i, j).v, k0.v, k0.root().v);
    let (b, w) = (sheet.b, sheet.w);
    real_mul_zero(-k * k);
    real_mul_zero(b.re.v);
    real_mul_zero(b.im.v);
    real_mul_neg(b.im.v * m, k);
    real_swap(b.im.v, m, k);
    real_swap(b.re.v, m, k);
    real_swap(w.re.v, m, r);
    real_swap(w.im.v, m, r);
    real_mul_comm(b.im.v, k);
    real_mul_comm(b.re.v, k);
    real_mul_neg(k * b.im.v, m);
    real_distribute(m, -(k * b.im.v), w.re.v * r);
    real_distribute(m, k * b.re.v, w.im.v * r);
}

} // verus!
