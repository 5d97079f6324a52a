//! What holds of the edge functions and of the element matrices in exact
//! arithmetic.

use crate::complex::Real;
use crate::edges::tet_ends;
use crate::element::{
    determinant, face_gradients, gradients, inverse_dot, normal, tet_mass, tet_part,
    tet_stiffness, tri_mass, weighted_dot,
    TetShape, TriShape,
};
use crate::groups::Medium;
use crate::reals::{
    real_distribute, real_mul_assoc, real_mul_comm, real_mul_neg, real_mul_one, real_mul_zero,
    real_quotient,
};
use crate::scalar::{Algebra, Cx, V3};
use vstd::prelude::*;

verus! {

// ---------------------------------------------------------------- products

/// The order of three factors does not matter.
pub proof fn lemma_three(a: real, b: real, c: real)
    ensures
        (a * b) * c == (a * c) * b,
        (a * b) * c == (b * a) * c,
        (a * b) * c == (b * c) * a,
        (a * b) * c == (c * a) * b,
        (a * b) * c == (c * b) * a,
{
    real_mul_assoc(a, b, c);
    real_mul_comm(b, c);
    real_mul_assoc(a, c, b);
    real_mul_comm(a, b);
    real_mul_comm(b * c, a);
    real_mul_comm(a, c);
}

/// A cross product is at right angles to its factors, and its product with a third
/// vector is the same in any cyclic order.
pub proof fn lemma_triple(a: V3<Real>, b: V3<Real>, c: V3<Real>)
    ensures
        b.cross(c).dot(b).v == 0real,
        b.cross(c).dot(c).v == 0real,
        b.cross(c).dot(a).v == a.dot(b.cross(c)).v,
        c.cross(a).dot(b).v == a.dot(b.cross(c)).v,
        a.cross(b).dot(c).v == a.dot(b.cross(c)).v,
{
    let (ax, ay, az) = (a.x.v, a.y.v, a.z.v);
    let (bx, by, bz) = (b.x.v, b.y.v, b.z.v);
    let (cx, cy, cz) = (c.x.v, c.y.v, c.z.v);
    // b x c against b
    real_distribute(bx, by * cz, bz * cy);
    real_distribute(by, bz * cx, bx * cz);
    real_distribute(bz, bx * cy, by * cx);
    lemma_three(by, cz, bx);
    lemma_three(bx, cz, by);
    lemma_three(bz, cy, bx);
    lemma_three(bx, cy, bz);
    lemma_three(bz, cx, by);
    lemma_three(by, cx, bz);
    // b x c against c
    real_distribute(cx, by * cz, bz * cy);
    real_distribute(cy, bz * cx, bx * cz);
    real_distribute(cz, bx * cy, by * cx);
    lemma_three(by, cz, cx);
    lemma_three(by, cx, cz);
    lemma_three(bz, cy, cx);
    lemma_three(bz, cx, cy);
    lemma_three(bx, cz, cy);
    lemma_three(bx, cy, cz);
    // b x c against a
    real_mul_comm(by * cz - bz * cy, ax);
    real_mul_comm(bz * cx - bx * cz, ay);
    real_mul_comm(bx * cy - by * cx, az);
    real_distribute(ax, by * cz, bz * cy);
    real_distribute(ay, bz * cx, bx * cz);
    real_distribute(az, bx * cy, by * cx);
    // c x a against b
    real_distribute(bx, cy * az, cz * ay);
    real_distribute(by, cz * ax, cx * az);
    real_distribute(bz, cx * ay, cy * ax);
    // a x b against c
    real_distribute(cx, ay * bz, az * by);
    real_distribute(cy, az * bx, ax * bz);
    real_distribute(cz, ax * by, ay * bx);
    lemma_three(by, cz, ax);
    lemma_three(bz, cy, ax);
    lemma_three(bz, cx, ay);
    lemma_three(bx, cz, ay);
    lemma_three(bx, cy, az);
    lemma_three(by, cx, az);
}

pub proof fn lemma_dot_linear(u: V3<Real>, v: V3<Real>, w: V3<Real>, s: Real)
    ensures
        u.times(s).dot(w).v == u.dot(w).v * s.v,
        u.minus(v).dot(w).v == u.dot(w).v - v.dot(w).v,
        w.dot(u.minus(v)).v == w.dot(u).v - w.dot(v).v,
{
    let (ux, uy, uz) = (u.x.v, u.y.v, u.z.v);
    let (vx, vy, vz) = (v.x.v, v.y.v, v.z.v);
    let (wx, wy, wz) = (w.x.v, w.y.v, w.z.v);
    let t = s.v;
    lemma_three(ux, t, wx);
    lemma_three(uy, t, wy);
    lemma_three(uz, t, wz);
    real_distribute(t, ux * wx, uy * wy);
    real_distribute(t, ux * wx + uy * wy, uz * wz);
    real_distribute(wx, ux, vx);
    real_distribute(wy, uy, vy);
    real_distribute(wz, uz, vz);
}

pub proof fn lemma_dot_origin(w: V3<Real>)
    ensures
        V3::<Real>::origin().dot(w).v == 0real,
{
    real_mul_zero(w.x.v);
    real_mul_zero(w.y.v);
    real_mul_zero(w.z.v);
}

// ---------------------------------------------------------------- gradients

/// Corner `i` of a tetrahedron.
pub open spec fn corner(
    p0: V3<Real>,
    p1: V3<Real>,
    p2: V3<Real>,
    p3: V3<Real>,
    i: int,
) -> V3<Real> {
    if i == 0 {
        p0
    } else if i == 1 {
        p1
    } else if i == 2 {
        p2
    } else {
        p3
    }
}

/// One where two things are the same, zero otherwise.
pub open spec fn delta(same: bool) -> real {
    if same {
        1real
    } else {
        0real
    }
}

proof fn lemma_gradient_of_edge(
    vol: Real,
    p0: V3<Real>,
    p1: V3<Real>,
    p2: V3<Real>,
    p3: V3<Real>,
    i: int,
    j: int,
)
    requires
        determinant(p0, p1, p2, p3).v != 0real,
        0 <= i < 4,
        1 <= j < 4,
    ensures
        gradients(vol, p0, p1, p2, p3).grad(i).dot(corner(p0, p1, p2, p3, j).minus(p0)).v == delta(
            i == j,
        ) - delta(i == 0),
{
    let (r1, r2, r3) = (p1.minus(p0), p2.minus(p0), p3.minus(p0));
    let det = determinant(p0, p1, p2, p3);
    let inv = Real { v: 1real / det.v };
    let g = gradients(vol, p0, p1, p2, p3);
    let w = corner(p0, p1, p2, p3, j).minus(p0);
    lemma_triple(r1, r2, r3);
    lemma_triple(r2, r3, r1);
    lemma_triple(r3, r1, r2);
    real_quotient(1real, det.v);
    real_mul_comm(det.v, inv.v);
    real_mul_zero(inv.v);
    let o = V3::<Real>::origin();
    lemma_dot_linear(r2.cross(r3), o, w, inv);
    lemma_dot_linear(r3.cross(r1), o, w, inv);
    lemma_dot_linear(r1.cross(r2), o, w, inv);
    assert(g.g1.dot(w).v == delta(j == 1));
    assert(g.g2.dot(w).v == delta(j == 2));
    assert(g.g3.dot(w).v == delta(j == 3));
    lemma_dot_origin(w);
    lemma_dot_linear(o, g.g1, w, inv);
    lemma_dot_linear(o.minus(g.g1), g.g2, w, inv);
    lemma_dot_linear(o.minus(g.g1).minus(g.g2), g.g3, w, inv);
}

/// The gradients belong to the barycentric coordinates: along an edge from corner
/// `j` to corner `k`, coordinate `i` grows by one where it belongs to `k`, falls by
/// one where it belongs to `j`, and does not change otherwise.
pub proof fn lemma_gradients(
    vol: Real,
    p0: V3<Real>,
    p1: V3<Real>,
    p2: V3<Real>,
    p3: V3<Real>,
    i: int,
    j: int,
    k: int,
)
    requires
        determinant(p0, p1, p2, p3).v != 0real,
        0 <= i < 4,
        0 <= j < 4,
        0 <= k < 4,
    ensures
        gradients(vol, p0, p1, p2, p3).grad(i).dot(
            corner(p0, p1, p2, p3, k).minus(corner(p0, p1, p2, p3, j)),
        ).v == delta(i == k) - delta(i == j),
{
    let g = gradients(vol, p0, p1, p2, p3).grad(i);
    let (a, b) = (corner(p0, p1, p2, p3, j), corner(p0, p1, p2, p3, k));
    let one = Real { v: 1real };
    // Both ends, seen from the first corner.
    if j > 0 {
        lemma_gradient_of_edge(vol, p0, p1, p2, p3, i, j);
    } else {
        lemma_dot_linear(a, p0, g, one);
    }
    if k > 0 {
        lemma_gradient_of_edge(vol, p0, p1, p2, p3, i, k);
    } else {
        lemma_dot_linear(b, p0, g, one);
    }
    lemma_dot_linear(b, a, g, one);
    lemma_dot_linear(b, p0, g, one);
    lemma_dot_linear(a, p0, g, one);
}

/// Corner `i` of a triangle.
pub open spec fn tri_corner_at(p0: V3<Real>, p1: V3<Real>, p2: V3<Real>, i: int) -> V3<Real> {
    if i == 0 {
        p0
    } else if i == 1 {
        p1
    } else {
        p2
    }
}

proof fn lemma_face_gradient_of_edge(
    area: Real,
    p0: V3<Real>,
    p1: V3<Real>,
    p2: V3<Real>,
    i: int,
    j: int,
)
    requires
        normal(p0, p1, p2).dot(normal(p0, p1, p2)).v != 0real,
        0 <= i < 3,
        1 <= j < 3,
    ensures
        face_gradients(area, p0, p1, p2).grad(i).dot(tri_corner_at(p0, p1, p2, j).minus(p0)).v
            == delta(i == j) - delta(i == 0),
{
    let (u, v) = (p1.minus(p0), p2.minus(p0));
    let n = normal(p0, p1, p2);
    let n2 = n.dot(n);
    let inv = Real { v: 1real / n2.v };
    let g = face_gradients(area, p0, p1, p2);
    let w = tri_corner_at(p0, p1, p2, j).minus(p0);
    lemma_triple(u, v, n);
    lemma_triple(v, n, u);
    real_quotient(1real, n2.v);
    real_mul_comm(n2.v, inv.v);
    real_mul_zero(inv.v);
    let o = V3::<Real>::origin();
    lemma_dot_linear(v.cross(n), o, w, inv);
    lemma_dot_linear(n.cross(u), o, w, inv);
    assert(g.g1.dot(w).v == delta(j == 1));
    assert(g.g2.dot(w).v == delta(j == 2));
    lemma_dot_origin(w);
    lemma_dot_linear(o, g.g1, w, inv);
    lemma_dot_linear(o.minus(g.g1), g.g2, w, inv);
}

/// The same holds within the plane of a triangle: along an edge from corner `j` to
/// corner `k`, coordinate `i` grows by one where it belongs to `k`, falls by one
/// where it belongs to `j`, and does not change otherwise.
pub proof fn lemma_face_gradients(
    area: Real,
    p0: V3<Real>,
    p1: V3<Real>,
    p2: V3<Real>,
    i: int,
    j: int,
    k: int,
)
    requires
        normal(p0, p1, p2).dot(normal(p0, p1, p2)).v != 0real,
        0 <= i < 3,
        0 <= j < 3,
        0 <= k < 3,
    ensures
        face_gradients(area, p0, p1, p2).grad(i).dot(
            tri_corner_at(p0, p1, p2, k).minus(tri_corner_at(p0, p1, p2, j)),
        ).v == delta(i == k) - delta(i == j),
{
    let g = face_gradients(area, p0, p1, p2).grad(i);
    let (a, b) = (tri_corner_at(p0, p1, p2, j), tri_corner_at(p0, p1, p2, k));
    let one = Real { v: 1real };
    if j > 0 {
        lemma_face_gradient_of_edge(area, p0, p1, p2, i, j);
    }
    if k > 0 {
        lemma_face_gradient_of_edge(area, p0, p1, p2, i, k);
    }
    lemma_dot_linear(b, a, g, one);
    lemma_dot_linear(b, p0, g, one);
    lemma_dot_linear(a, p0, g, one);
}

/// The component of an edge function along a vector, at the point with barycentric
/// coordinates `la` and `lb` at the ends of the edge.
pub open spec fn circulation(
    t: TetShape<Real>,
    i: int,
    la: real,
    lb: real,
    along: V3<Real>,
) -> real {
    let (a, b) = tet_ends(i);
    la * t.grad(b).dot(along).v - lb * t.grad(a).dot(along).v
}

/// Barycentric coordinate `a` of the point at fraction `s` of an edge.
pub open spec fn on_edge(j: int, s: real, a: int) -> real {
    let (c, d) = tet_ends(j);
    if a == c {
        1real - s
    } else if a == d {
        s
    } else {
        0real
    }
}

/// Along its own edge an edge function has the component one, and along every other
/// edge of the tetrahedron zero. Elements that share an edge therefore agree on the
/// field along it.
pub proof fn lemma_edge_function(
    vol: Real,
    p0: V3<Real>,
    p1: V3<Real>,
    p2: V3<Real>,
    p3: V3<Real>,
    i: int,
    j: int,
    s: real,
)
    requires
        determinant(p0, p1, p2, p3).v != 0real,
        0 <= i < 6,
        0 <= j < 6,
    ensures
        circulation(
            gradients(vol, p0, p1, p2, p3),
            i,
            on_edge(j, s, tet_ends(i).0),
            on_edge(j, s, tet_ends(i).1),
            corner(p0, p1, p2, p3, tet_ends(j).1).minus(corner(p0, p1, p2, p3, tet_ends(j).0)),
        ) == delta(i == j),
{
    let (a, b) = tet_ends(i);
    let (c, d) = tet_ends(j);
    lemma_gradients(vol, p0, p1, p2, p3, a, c, d);
    lemma_gradients(vol, p0, p1, p2, p3, b, c, d);
    let (la, lb) = (on_edge(j, s, a), on_edge(j, s, b));
    let (ga, gb) = (delta(a == d) - delta(a == c), delta(b == d) - delta(b == c));
    real_mul_one(la);
    real_mul_one(lb);
    real_mul_zero(la);
    real_mul_zero(lb);
    real_mul_neg(la, 1real);
    real_mul_neg(lb, 1real);
    real_mul_zero(ga);
    real_mul_zero(gb);
}

// ---------------------------------------------------------------- curls

/// One component of the curls of the edges among the corners that are not the
/// first, given that the gradients add up to nothing.
proof fn lemma_minor(y1: real, y2: real, y3: real, z1: real, z2: real, z3: real)
    ensures
        ({
            let (y0, z0) = (0real - y1 - y2 - y3, 0real - z1 - z2 - z3);
            let (a, b, d) = (y1 * z2 - z1 * y2, y1 * z3 - z1 * y3, y2 * z3 - z2 * y3);
            &&& y0 * z1 - z0 * y1 == a + b
            &&& y0 * z2 - z0 * y2 == d - a
            &&& y0 * z3 - z0 * y3 == 0real - b - d
        }),
{
    let (y0, z0) = (0real - y1 - y2 - y3, 0real - z1 - z2 - z3);
    lemma_spread(y1, y2, y3, z1);
    lemma_spread(y1, y2, y3, z2);
    lemma_spread(y1, y2, y3, z3);
    lemma_spread(z1, z2, z3, y1);
    lemma_spread(z1, z2, z3, y2);
    lemma_spread(z1, z2, z3, y3);
    real_mul_comm(y1, z1);
    real_mul_comm(y1, z2);
    real_mul_comm(y1, z3);
    real_mul_comm(y2, z1);
    real_mul_comm(y2, z2);
    real_mul_comm(y2, z3);
    real_mul_comm(y3, z1);
    real_mul_comm(y3, z2);
    real_mul_comm(y3, z3);
}

proof fn lemma_spread(a: real, b: real, c: real, t: real)
    ensures
        (0real - a - b - c) * t == 0real - a * t - b * t - c * t,
{
    real_distribute(t, 0real, a);
    real_distribute(t, 0real - a, b);
    real_distribute(t, 0real - a - b, c);
    real_mul_zero(t);
}

proof fn lemma_closed(f0: real, f1: real, f2: real, f3: real, a: real, b: real, d: real)
    ensures
        (f1 - f0) * (a + b) + (f2 - f0) * (d - a) + (f3 - f0) * (0real - b - d) + (f2 - f1) * a + (f3
            - f1) * b + (f3 - f2) * d == 0real,
{
    real_distribute(f1 - f0, a, b);
    real_distribute(f2 - f0, d, a);
    real_distribute(f3 - f0, 0real - b, d);
    real_distribute(f3 - f0, 0real, b);
    real_mul_zero(f3 - f0);
    real_distribute(a, f1, f0);
    real_distribute(b, f1, f0);
    real_distribute(d, f2, f0);
    real_distribute(a, f2, f0);
    real_distribute(b, f3, f0);
    real_distribute(d, f3, f0);
    real_distribute(a, f2, f1);
    real_distribute(b, f3, f1);
    real_distribute(d, f3, f2);
}

/// The sum of the curls of the edges, each times the growth of a function along the
/// edge.
pub open spec fn curl_sum(t: TetShape<Real>, f0: Real, f1: Real, f2: Real, f3: Real) -> V3<Real> {
    let (c0, c1, c2) = (t.curl(0).times(f1 - f0), t.curl(1).times(f2 - f0), t.curl(2).times(f3 - f0));
    let (c3, c4, c5) = (t.curl(3).times(f2 - f1), t.curl(4).times(f3 - f1), t.curl(5).times(f3 - f2));
    V3 {
        x: c0.x + c1.x + c2.x + c3.x + c4.x + c5.x,
        y: c0.y + c1.y + c2.y + c3.y + c4.y + c5.y,
        z: c0.z + c1.z + c2.z + c3.z + c4.z + c5.z,
    }
}

proof fn lemma_curl_component(
    f0: real,
    f1: real,
    f2: real,
    f3: real,
    y1: real,
    y2: real,
    y3: real,
    z1: real,
    z2: real,
    z3: real,
)
    ensures
        ({
            let (y0, z0) = (0real - y1 - y2 - y3, 0real - z1 - z2 - z3);
            (y0 * z1 - z0 * y1) * (f1 - f0) + (y0 * z2 - z0 * y2) * (f2 - f0) + (y0 * z3 - z0 * y3)
                * (f3 - f0) + (y1 * z2 - z1 * y2) * (f2 - f1) + (y1 * z3 - z1 * y3) * (f3 - f1) + (y2
                * z3 - z2 * y3) * (f3 - f2) == 0real
        }),
{
    let (a, b, d) = (y1 * z2 - z1 * y2, y1 * z3 - z1 * y3, y2 * z3 - z2 * y3);
    lemma_minor(y1, y2, y3, z1, z2, z3);
    lemma_closed(f0, f1, f2, f3, a, b, d);
    real_mul_comm(a + b, f1 - f0);
    real_mul_comm(d - a, f2 - f0);
    real_mul_comm(0real - b - d, f3 - f0);
    real_mul_comm(a, f2 - f1);
    real_mul_comm(b, f3 - f1);
    real_mul_comm(d, f3 - f2);
}

/// The curl of a gradient is zero: edge functions weighted with the growth of a
/// function of the corners along the edges have no curl, so that the stiffness
/// matrix does not see them.
pub proof fn lemma_curl_of_gradient(
    vol: Real,
    p0: V3<Real>,
    p1: V3<Real>,
    p2: V3<Real>,
    p3: V3<Real>,
    f0: Real,
    f1: Real,
    f2: Real,
    f3: Real,
)
    ensures
        curl_sum(gradients(vol, p0, p1, p2, p3), f0, f1, f2, f3) == V3::<Real>::origin(),
{
    let t = gradients(vol, p0, p1, p2, p3);
    let (g1, g2, g3) = (t.g1, t.g2, t.g3);
    lemma_curl_component(
        f0.v,
        f1.v,
        f2.v,
        f3.v,
        g1.y.v,
        g2.y.v,
        g3.y.v,
        g1.z.v,
        g2.z.v,
        g3.z.v,
    );
    lemma_curl_component(
        f0.v,
        f1.v,
        f2.v,
        f3.v,
        g1.z.v,
        g2.z.v,
        g3.z.v,
        g1.x.v,
        g2.x.v,
        g3.x.v,
    );
    lemma_curl_component(
        f0.v,
        f1.v,
        f2.v,
        f3.v,
        g1.x.v,
        g2.x.v,
        g3.x.v,
        g1.y.v,
        g2.y.v,
        g3.y.v,
    );
}

// ---------------------------------------------------------------- symmetry

proof fn lemma_weighted_symmetric(l: V3<Cx<Real>>, u: V3<Real>, v: V3<Real>)
    ensures
        weighted_dot(l, u, v) == weighted_dot(l, v, u),
        inverse_dot(l, u, v) == inverse_dot(l, v, u),
        u.dot(v) == v.dot(u),
{
    real_mul_comm(u.x.v, v.x.v);
    real_mul_comm(u.y.v, v.y.v);
    real_mul_comm(u.z.v, v.z.v);
}

/// Element matrices are symmetric: an element adds the same to the entry of two
/// edges in either order, so that the upper triangle says it all.
pub proof fn lemma_parts_symmetric(
    t: TetShape<Real>,
    m: Medium<Real>,
    s: TriShape<Real>,
    i: int,
    j: int,
)
    ensures
        tet_part(t, m, i, j) == tet_part(t, m, j, i),
        tri_mass(s, i, j) == tri_mass(s, j, i),
{
    let (a, b) = tet_ends(i);
    let (c, d) = tet_ends(j);
    let l = m.tensor;
    lemma_weighted_symmetric(l, t.curl(i), t.curl(j));
    assert(tet_stiffness(t, l, i, j) == tet_stiffness(t, l, j, i));
    lemma_weighted_symmetric(l, t.grad(b), t.grad(d));
    lemma_weighted_symmetric(l, t.grad(b), t.grad(c));
    lemma_weighted_symmetric(l, t.grad(a), t.grad(d));
    lemma_weighted_symmetric(l, t.grad(a), t.grad(c));
    assert(tet_mass(t, l, i, j) == tet_mass(t, l, j, i));
    let (p, q) = crate::edges::tri_ends(i);
    let (r, w) = crate::edges::tri_ends(j);
    lemma_weighted_symmetric(l, s.grad(q), s.grad(w));
    lemma_weighted_symmetric(l, s.grad(q), s.grad(r));
    lemma_weighted_symmetric(l, s.grad(p), s.grad(w));
    lemma_weighted_symmetric(l, s.grad(p), s.grad(r));
}

} // verus!
