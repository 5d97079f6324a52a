//! Uniform fields, in exact arithmetic: where every unknown is the component of a uniform
//! field along its edge, the field at the centroids is that field, and the integral over
//! a port sheet is its component along the direction times the area.

use crate::assembly::{
    driven, drives, excitation, lemma_undriven, shape_of_tet, shape_of_tri, strength, tri_drives,
    Numbering,
};
use crate::complex::Real;
use crate::element::{determinant, gradients, normal, tri_moment, tri_shape, TetShape, TriShape};
use crate::msh::{last_index, lemma_last_index, Tet, Tri};
use crate::ports::{on_port, port_area, tri_area};
use crate::reals::{
    real_cancel, real_distribute, real_mul_assoc, real_mul_comm, real_mul_one, real_mul_zero,
    real_quotient, real_swap,
};
use crate::scalar::{Algebra, Cx, Number, V3};
use crate::sweep::{at_centroid, centroid_field, field_integral};
use crate::system::System;
use crate::whitney::{lemma_dot_linear, lemma_dot_origin, lemma_face_gradients, lemma_triple};
use vstd::prelude::*;

verus! {

// ---------------------------------------------------------------- products

/// The products of the rises of two functions along the six edges of a tetrahedron.
proof fn lemma_six_edges(
    f0: real,
    f1: real,
    f2: real,
    f3: real,
    g0: real,
    g1: real,
    g2: real,
    g3: real,
)
    ensures
        (f1 - f0) * (g1 - g0) + (f2 - f0) * (g2 - g0) + (f3 - f0) * (g3 - g0) + (f2 - f1) * (g2
            - g1) + (f3 - f1) * (g3 - g1) + (f3 - f2) * (g3 - g2) == 4real * (f0 * g0 + f1 * g1 + f2
            * g2 + f3 * g3) - (f0 + f1 + f2 + f3) * (g0 + g1 + g2 + g3),
{
    real_distribute(g1 - g0, f1, f0);
    real_distribute(f1, g1, g0);
    real_distribute(f0, g1, g0);
    real_distribute(g2 - g0, f2, f0);
    real_distribute(f2, g2, g0);
    real_distribute(f0, g2, g0);
    real_distribute(g3 - g0, f3, f0);
    real_distribute(f3, g3, g0);
    real_distribute(f0, g3, g0);
    real_distribute(g2 - g1, f2, f1);
    real_distribute(f2, g2, g1);
    real_distribute(f1, g2, g1);
    real_distribute(g3 - g1, f3, f1);
    real_distribute(f3, g3, g1);
    real_distribute(f1, g3, g1);
    real_distribute(g3 - g2, f3, f2);
    real_distribute(f3, g3, g2);
    real_distribute(f2, g3, g2);
    real_distribute(4real, f0 * g0 + f1 * g1 + f2 * g2, f3 * g3);
    real_distribute(4real, f0 * g0 + f1 * g1, f2 * g2);
    real_distribute(4real, f0 * g0, f1 * g1);
    real_distribute(g0 + g1 + g2 + g3, f0 + f1 + f2, f3);
    real_distribute(g0 + g1 + g2 + g3, f0 + f1, f2);
    real_distribute(g0 + g1 + g2 + g3, f0, f1);
    real_distribute(f0, g0 + g1 + g2, g3);
    real_distribute(f0, g0 + g1, g2);
    real_distribute(f0, g0, g1);
    real_distribute(f1, g0 + g1 + g2, g3);
    real_distribute(f1, g0 + g1, g2);
    real_distribute(f1, g0, g1);
    real_distribute(f2, g0 + g1 + g2, g3);
    real_distribute(f2, g0 + g1, g2);
    real_distribute(f2, g0, g1);
    real_distribute(f3, g0 + g1 + g2, g3);
    real_distribute(f3, g0 + g1, g2);
    real_distribute(f3, g0, g1);
}

/// The products of the rises of two functions along the three edges of a triangle.
proof fn lemma_three_edges(f0: real, f1: real, f2: real, g0: real, g1: real, g2: real)
    ensures
        (f1 - f0) * (g1 - g0) + (f2 - f0) * (g2 - g0) + (f2 - f1) * (g2 - g1) == 3real * (f0 * g0
            + f1 * g1 + f2 * g2) - (f0 + f1 + f2) * (g0 + g1 + g2),
{
    real_distribute(g1 - g0, f1, f0);
    real_distribute(f1, g1, g0);
    real_distribute(f0, g1, g0);
    real_distribute(g2 - g0, f2, f0);
    real_distribute(f2, g2, g0);
    real_distribute(f0, g2, g0);
    real_distribute(g2 - g1, f2, f1);
    real_distribute(f2, g2, g1);
    real_distribute(f1, g2, g1);
    real_distribute(3real, f0 * g0 + f1 * g1, f2 * g2);
    real_distribute(3real, f0 * g0, f1 * g1);
    real_distribute(g0 + g1 + g2, f0 + f1, f2);
    real_distribute(g0 + g1 + g2, f0, f1);
    real_distribute(f0, g0 + g1, g2);
    real_distribute(f0, g0, g1);
    real_distribute(f1, g0 + g1, g2);
    real_distribute(f1, g0, g1);
    real_distribute(f2, g0 + g1, g2);
    real_distribute(f2, g0, g1);
}

/// Three inner products with one vector, weighted and added.
proof fn lemma_three_products(
    ex: real,
    ey: real,
    ez: real,
    x1: real,
    x2: real,
    x3: real,
    y1: real,
    y2: real,
    y3: real,
    z1: real,
    z2: real,
    z3: real,
    c1: real,
    c2: real,
    c3: real,
)
    ensures
        (ex * x1 + ey * y1 + ez * z1) * c1 + (ex * x2 + ey * y2 + ez * z2) * c2 + (ex * x3 + ey * y3
            + ez * z3) * c3 == ex * (c1 * x1 + c2 * x2 + c3 * x3) + ey * (c1 * y1 + c2 * y2 + c3
            * y3) + ez * (c1 * z1 + c2 * z2 + c3 * z3),
{
    real_distribute(c1, ex * x1 + ey * y1, ez * z1);
    real_distribute(c1, ex * x1, ey * y1);
    real_swap(ex, x1, c1);
    real_mul_comm(ex, c1);
    real_swap(ey, y1, c1);
    real_mul_comm(ey, c1);
    real_swap(ez, z1, c1);
    real_mul_comm(ez, c1);
    real_distribute(c2, ex * x2 + ey * y2, ez * z2);
    real_distribute(c2, ex * x2, ey * y2);
    real_swap(ex, x2, c2);
    real_mul_comm(ex, c2);
    real_swap(ey, y2, c2);
    real_mul_comm(ey, c2);
    real_swap(ez, z2, c2);
    real_mul_comm(ez, c2);
    real_distribute(c3, ex * x3 + ey * y3, ez * z3);
    real_distribute(c3, ex * x3, ey * y3);
    real_swap(ex, x3, c3);
    real_mul_comm(ex, c3);
    real_swap(ey, y3, c3);
    real_mul_comm(ey, c3);
    real_swap(ez, z3, c3);
    real_mul_comm(ez, c3);
    real_distribute(ex, c1 * x1 + c2 * x2, c3 * x3);
    real_distribute(ex, c1 * x1, c2 * x2);
    real_mul_assoc(ex, c1, x1);
    real_mul_assoc(ex, c2, x2);
    real_mul_assoc(ex, c3, x3);
    real_distribute(ey, c1 * y1 + c2 * y2, c3 * y3);
    real_distribute(ey, c1 * y1, c2 * y2);
    real_mul_assoc(ey, c1, y1);
    real_mul_assoc(ey, c2, y2);
    real_mul_assoc(ey, c3, y3);
    real_distribute(ez, c1 * z1 + c2 * z2, c3 * z3);
    real_distribute(ez, c1 * z1, c2 * z2);
    real_mul_assoc(ez, c1, z1);
    real_mul_assoc(ez, c2, z2);
    real_mul_assoc(ez, c3, z3);
}

/// A determinant is the same by rows and by columns.
proof fn lemma_transposed(
    x1: real,
    x2: real,
    x3: real,
    y1: real,
    y2: real,
    y3: real,
    z1: real,
    z2: real,
    z3: real,
)
    ensures
        x1 * (y2 * z3 - z2 * y3) + y1 * (z2 * x3 - x2 * z3) + z1 * (x2 * y3 - y2 * x3) == x1 * (y2
            * z3 - y3 * z2) + x2 * (y3 * z1 - y1 * z3) + x3 * (y1 * z2 - y2 * z1),
{
    real_distribute(x1, y2 * z3, z2 * y3);
    real_mul_assoc(x1, y2, z3);
    real_mul_comm(z2, y3);
    real_mul_assoc(x1, y3, z2);
    real_distribute(y1, z2 * x3, x2 * z3);
    real_mul_comm(z2, x3);
    real_mul_assoc(y1, x3, z2);
    real_mul_comm(y1, x3);
    real_mul_assoc(y1, x2, z3);
    real_mul_comm(y1, x2);
    real_distribute(z1, x2 * y3, y2 * x3);
    real_mul_assoc(z1, x2, y3);
    real_mul_comm(z1, x2);
    real_swap(x2, z1, y3);
    real_mul_comm(y2, x3);
    real_mul_assoc(z1, x3, y2);
    real_mul_comm(z1, x3);
    real_swap(x3, z1, y2);
    real_distribute(x1, y2 * z3, y3 * z2);
    real_distribute(x2, y3 * z1, y1 * z3);
    real_mul_assoc(x2, y3, z1);
    real_mul_assoc(x2, y1, z3);
    real_distribute(x3, y1 * z2, y2 * z1);
    real_mul_assoc(x3, y1, z2);
    real_mul_assoc(x3, y2, z1);
}

spec fn v3(x: real, y: real, z: real) -> V3<Real> {
    V3 { x: Real { v: x }, y: Real { v: y }, z: Real { v: z } }
}

/// A vector is the sum of the gradients of the barycentric coordinates, each times the
/// component of the vector along the edge from the first corner.
proof fn lemma_dual(vol: Real, p0: V3<Real>, p1: V3<Real>, p2: V3<Real>, p3: V3<Real>, e: V3<Real>)
    requires
        determinant(p0, p1, p2, p3).v != 0real,
    ensures
        ({
            let g = gradients(vol, p0, p1, p2, p3);
            let (f1, f2, f3) = (
                e.dot(p1.minus(p0)).v,
                e.dot(p2.minus(p0)).v,
                e.dot(p3.minus(p0)).v,
            );
            &&& f1 * g.g1.x.v + f2 * g.g2.x.v + f3 * g.g3.x.v == e.x.v
            &&& f1 * g.g1.y.v + f2 * g.g2.y.v + f3 * g.g3.y.v == e.y.v
            &&& f1 * g.g1.z.v + f2 * g.g2.z.v + f3 * g.g3.z.v == e.z.v
        }),
{
    let g = gradients(vol, p0, p1, p2, p3);
    let (r1, r2, r3) = (p1.minus(p0), p2.minus(p0), p3.minus(p0));
    let (x1, x2, x3) = (r1.x.v, r2.x.v, r3.x.v);
    let (y1, y2, y3) = (r1.y.v, r2.y.v, r3.y.v);
    let (z1, z2, z3) = (r1.z.v, r2.z.v, r3.z.v);
    let (x, y, z) = (v3(x1, x2, x3), v3(y1, y2, y3), v3(z1, z2, z3));
    let (ex, ey, ez) = (e.x.v, e.y.v, e.z.v);
    let det = determinant(p0, p1, p2, p3).v;
    let inv = 1real / det;
    real_quotient(1real, det);
    lemma_transposed(x1, x2, x3, y1, y2, y3, z1, z2, z3);
    lemma_triple(x, y, z);
    lemma_triple(y, z, x);
    lemma_triple(z, x, y);
    let (f1, f2, f3) = (e.dot(r1).v, e.dot(r2).v, e.dot(r3).v);
    // Each component: the cross products are those of the columns.
    let (a, b, c) = (y.cross(z), z.cross(x), x.cross(y));
    lemma_three_products(
        ex, ey, ez, x1, x2, x3, y1, y2, y3, z1, z2, z3, a.x.v, a.y.v, a.z.v,
    );
    lemma_three_products(
        ex, ey, ez, x1, x2, x3, y1, y2, y3, z1, z2, z3, b.x.v, b.y.v, b.z.v,
    );
    lemma_three_products(
        ex, ey, ez, x1, x2, x3, y1, y2, y3, z1, z2, z3, c.x.v, c.y.v, c.z.v,
    );
    lemma_columns(r1, r2, r3);
    real_mul_zero(ex);
    real_mul_zero(ey);
    real_mul_zero(ez);
    assert(a.dot(x).v == det && a.dot(y).v == 0real && a.dot(z).v == 0real);
    assert(b.dot(x).v == 0real && b.dot(y).v == det && b.dot(z).v == 0real);
    assert(c.dot(x).v == 0real && c.dot(y).v == 0real && c.dot(z).v == det);
    lemma_component(f1, f2, f3, a.x.v, a.y.v, a.z.v, ex, det, inv);
    lemma_component(f1, f2, f3, b.x.v, b.y.v, b.z.v, ey, det, inv);
    lemma_component(f1, f2, f3, c.x.v, c.y.v, c.z.v, ez, det, inv);
}

/// The cross products of the rows hold those of the columns.
proof fn lemma_columns(r1: V3<Real>, r2: V3<Real>, r3: V3<Real>)
    ensures
        ({
            let x = v3(r1.x.v, r2.x.v, r3.x.v);
            let y = v3(r1.y.v, r2.y.v, r3.y.v);
            let z = v3(r1.z.v, r2.z.v, r3.z.v);
            &&& r2.cross(r3).x == y.cross(z).x
            &&& r3.cross(r1).x == y.cross(z).y
            &&& r1.cross(r2).x == y.cross(z).z
            &&& r2.cross(r3).y == z.cross(x).x
            &&& r3.cross(r1).y == z.cross(x).y
            &&& r1.cross(r2).y == z.cross(x).z
            &&& r2.cross(r3).z == x.cross(y).x
            &&& r3.cross(r1).z == x.cross(y).y
            &&& r1.cross(r2).z == x.cross(y).z
        }),
{
    real_mul_comm(r2.z.v, r3.y.v);
    real_mul_comm(r3.z.v, r1.y.v);
    real_mul_comm(r1.z.v, r2.y.v);
    real_mul_comm(r2.x.v, r3.z.v);
    real_mul_comm(r3.x.v, r1.z.v);
    real_mul_comm(r1.x.v, r2.z.v);
    real_mul_comm(r2.y.v, r3.x.v);
    real_mul_comm(r3.y.v, r1.x.v);
    real_mul_comm(r1.y.v, r2.x.v);
}

proof fn lemma_component(
    f1: real,
    f2: real,
    f3: real,
    c1: real,
    c2: real,
    c3: real,
    e: real,
    det: real,
    inv: real,
)
    requires
        f1 * c1 + f2 * c2 + f3 * c3 == e * det,
        det * inv == 1real,
    ensures
        f1 * (c1 * inv) + f2 * (c2 * inv) + f3 * (c3 * inv) == e,
{
    real_mul_assoc(f1, c1, inv);
    real_mul_assoc(f2, c2, inv);
    real_mul_assoc(f3, c3, inv);
    real_distribute(inv, f1 * c1 + f2 * c2, f3 * c3);
    real_distribute(inv, f1 * c1, f2 * c2);
    real_mul_assoc(e, det, inv);
    real_mul_one(e);
}

// ---------------------------------------------------------------- centroids

/// The component of a field along a vector.
pub open spec fn along(e: V3<Cx<Real>>, v: V3<Real>) -> Cx<Real> {
    Cx {
        re: V3 { x: e.x.re, y: e.y.re, z: e.z.re }.dot(v),
        im: V3 { x: e.x.im, y: e.y.im, z: e.z.im }.dot(v),
    }
}

/// The vector along an edge of a mesh.
pub open spec fn edge_vector(nodes: Seq<V3<Real>>, e: (usize, usize)) -> V3<Real> {
    nodes[e.1 as int].minus(nodes[e.0 as int])
}

/// The unknown on the edge is the component of the uniform field `e` along it. An edge
/// without an unknown carries no field.
pub open spec fn agrees(
    num: Numbering,
    perm: Seq<usize>,
    nodes: Seq<V3<Real>>,
    x: Seq<Cx<Real>>,
    e: V3<Cx<Real>>,
    edge: (usize, usize),
) -> bool {
    match num.unknown(edge) {
        Some(d) => x[perm[d as int] as int] == along(e, edge_vector(nodes, edge)),
        None => along(e, edge_vector(nodes, edge)) == Cx::<Real>::zero(),
    }
}

/// The sum over the first `i` edges of a tetrahedron of what `e` rises by along the edge,
/// times `w` there.
spec fn woven(rise: spec_fn(int) -> real, w: spec_fn(int) -> real, i: int) -> real
    decreases i,
{
    if i <= 0 {
        0real
    } else {
        woven(rise, w, i - 1) + rise(i - 1) * w(i - 1)
    }
}

spec fn rises(nodes: Seq<V3<Real>>, t: Tet, e: V3<Real>) -> spec_fn(int) -> real {
    |i: int| e.dot(edge_vector(nodes, t.edge(i))).v
}

spec fn weights(shape: TetShape<Real>, axis: int) -> spec_fn(int) -> real {
    |i: int|
        if axis == 0 {
            at_centroid(shape, i).x.v
        } else if axis == 1 {
            at_centroid(shape, i).y.v
        } else {
            at_centroid(shape, i).z.v
        }
}

proof fn lemma_woven(
    num: Numbering,
    perm: Seq<usize>,
    nodes: Seq<V3<Real>>,
    x: Seq<Cx<Real>>,
    t: Tet,
    shape: TetShape<Real>,
    e: V3<Cx<Real>>,
    i: int,
)
    requires
        0 <= i <= 6,
        forall|k: int| 0 <= k < 6 ==> agrees(num, perm, nodes, x, e, #[trigger] t.edge(k)),
    ensures
        ({
            let c = centroid_field(num, perm, x, t, shape, i);
            let re = rises(nodes, t, V3 { x: e.x.re, y: e.y.re, z: e.z.re });
            let im = rises(nodes, t, V3 { x: e.x.im, y: e.y.im, z: e.z.im });
            &&& c.x.re.v == woven(re, weights(shape, 0), i)
            &&& c.x.im.v == woven(im, weights(shape, 0), i)
            &&& c.y.re.v == woven(re, weights(shape, 1), i)
            &&& c.y.im.v == woven(im, weights(shape, 1), i)
            &&& c.z.re.v == woven(re, weights(shape, 2), i)
            &&& c.z.im.v == woven(im, weights(shape, 2), i)
        }),
    decreases i,
{
    if i > 0 {
        lemma_woven(num, perm, nodes, x, t, shape, e, i - 1);
        assert(agrees(num, perm, nodes, x, e, t.edge(i - 1)));
        let v = at_centroid(shape, i - 1);
        real_mul_zero(v.x.v);
        real_mul_zero(v.y.v);
        real_mul_zero(v.z.v);
    }
}

/// The six edges together give the vector back.
proof fn lemma_all_woven(nodes: Seq<V3<Real>>, t: Tet, shape: TetShape<Real>, e: V3<Real>)
    requires
        shape_of_tet(nodes, t) == Some(shape),
    ensures
        woven(rises(nodes, t, e), weights(shape, 0), 6) == e.x.v,
        woven(rises(nodes, t, e), weights(shape, 1), 6) == e.y.v,
        woven(rises(nodes, t, e), weights(shape, 2), 6) == e.z.v,
{
    let (p0, p1, p2, p3) = (
        nodes[t.a as int],
        nodes[t.b as int],
        nodes[t.c as int],
        nodes[t.d as int],
    );
    let (f0, f1, f2, f3) = (e.dot(p0).v, e.dot(p1).v, e.dot(p2).v, e.dot(p3).v);
    let one = Real { v: 1real };
    lemma_dot_linear(p1, p0, e, one);
    lemma_dot_linear(p2, p0, e, one);
    lemma_dot_linear(p3, p0, e, one);
    lemma_dot_linear(p2, p1, e, one);
    lemma_dot_linear(p3, p1, e, one);
    lemma_dot_linear(p3, p2, e, one);
    lemma_dual(shape.vol, p0, p1, p2, p3, e);
    let (g0, g1, g2, g3) = (shape.g0, shape.g1, shape.g2, shape.g3);
    let rise = rises(nodes, t, e);
    assert(rise(0) == f1 - f0 && rise(1) == f2 - f0 && rise(2) == f3 - f0);
    assert(rise(3) == f2 - f1 && rise(4) == f3 - f1 && rise(5) == f3 - f2);
    lemma_axis(rise, weights(shape, 0), f0, f1, f2, f3, g0.x.v, g1.x.v, g2.x.v, g3.x.v);
    lemma_axis(rise, weights(shape, 1), f0, f1, f2, f3, g0.y.v, g1.y.v, g2.y.v, g3.y.v);
    lemma_axis(rise, weights(shape, 2), f0, f1, f2, f3, g0.z.v, g1.z.v, g2.z.v, g3.z.v);
}

proof fn lemma_axis(
    rise: spec_fn(int) -> real,
    w: spec_fn(int) -> real,
    f0: real,
    f1: real,
    f2: real,
    f3: real,
    g0: real,
    g1: real,
    g2: real,
    g3: real,
)
    requires
        rise(0) == f1 - f0,
        rise(1) == f2 - f0,
        rise(2) == f3 - f0,
        rise(3) == f2 - f1,
        rise(4) == f3 - f1,
        rise(5) == f3 - f2,
        w(0) == (g1 - g0) * (1real / 4real),
        w(1) == (g2 - g0) * (1real / 4real),
        w(2) == (g3 - g0) * (1real / 4real),
        w(3) == (g2 - g1) * (1real / 4real),
        w(4) == (g3 - g1) * (1real / 4real),
        w(5) == (g3 - g2) * (1real / 4real),
        g0 == 0real - g1 - g2 - g3,
    ensures
        woven(rise, w, 6) == (f1 - f0) * g1 + (f2 - f0) * g2 + (f3 - f0) * g3,
{
    reveal_with_fuel(woven, 7);
    let q = 1real / 4real;
    real_quotient(1real, 4real);
    real_mul_assoc(f1 - f0, g1 - g0, q);
    real_mul_assoc(f2 - f0, g2 - g0, q);
    real_mul_assoc(f3 - f0, g3 - g0, q);
    real_mul_assoc(f2 - f1, g2 - g1, q);
    real_mul_assoc(f3 - f1, g3 - g1, q);
    real_mul_assoc(f3 - f2, g3 - g2, q);
    lemma_six_edges(f0, f1, f2, f3, g0, g1, g2, g3);
    real_mul_zero(f0 + f1 + f2 + f3);
    // f0 g0 + f1 g1 + f2 g2 + f3 g3, seen from the first corner
    real_distribute(g1, f1, f0);
    real_distribute(g2, f2, f0);
    real_distribute(g3, f3, f0);
    real_distribute(f0, 0real - g1 - g2, g3);
    real_distribute(f0, 0real - g1, g2);
    real_distribute(f0, 0real, g1);
    real_mul_zero(f0);
}

/// The snapshot reproduces uniform fields: where the unknowns on the edges of a
/// tetrahedron with a volume are the components of a uniform field along the edges, the
/// field at the centroid is that field.
pub proof fn lemma_uniform_field(
    s: System<Real>,
    nodes: Seq<V3<Real>>,
    t: Tet,
    x: Seq<Cx<Real>>,
    e: V3<Cx<Real>>,
)
    requires
        determinant(
            nodes[t.a as int],
            nodes[t.b as int],
            nodes[t.c as int],
            nodes[t.d as int],
        ).v != 0real,
        forall|k: int|
            0 <= k < 6 ==> agrees(
                s.frame@,
                s.profile.perm@,
                nodes,
                x,
                e,
                #[trigger] t.edge(k),
            ),
    ensures
        s.field_in(nodes, t, x) == e,
{
    let shape = shape_of_tet(nodes, t).unwrap();
    lemma_woven(s.frame@, s.profile.perm@, nodes, x, t, shape, e, 6);
    lemma_all_woven(nodes, t, shape, V3 { x: e.x.re, y: e.y.re, z: e.z.re });
    lemma_all_woven(nodes, t, shape, V3 { x: e.x.im, y: e.y.im, z: e.z.im });
}

// ---------------------------------------------------------------- ports

/// The vector lies in the plane of the triangle.
pub open spec fn in_plane(d: V3<Real>, p0: V3<Real>, p1: V3<Real>, p2: V3<Real>) -> bool {
    exists|a: Real, b: Real| #[trigger] combined(p1.minus(p0), p2.minus(p0), a, b) == d
}

/// `a` times one vector and `b` times another.
pub open spec fn combined(u: V3<Real>, v: V3<Real>, a: Real, b: Real) -> V3<Real> {
    V3 { x: u.x * a + v.x * b, y: u.y * a + v.y * b, z: u.z * a + v.z * b }
}

proof fn lemma_combined(u: V3<Real>, v: V3<Real>, a: Real, b: Real, w: V3<Real>)
    ensures
        w.dot(combined(u, v, a, b)).v == w.dot(u).v * a.v + w.dot(v).v * b.v,
        combined(u, v, a, b).dot(w).v == w.dot(combined(u, v, a, b)).v,
{
    let (wx, wy, wz) = (w.x.v, w.y.v, w.z.v);
    let c = combined(u, v, a, b);
    real_distribute(wx, u.x.v * a.v, v.x.v * b.v);
    real_distribute(wy, u.y.v * a.v, v.y.v * b.v);
    real_distribute(wz, u.z.v * a.v, v.z.v * b.v);
    real_mul_assoc(wx, u.x.v, a.v);
    real_mul_assoc(wy, u.y.v, a.v);
    real_mul_assoc(wz, u.z.v, a.v);
    real_mul_assoc(wx, v.x.v, b.v);
    real_mul_assoc(wy, v.y.v, b.v);
    real_mul_assoc(wz, v.z.v, b.v);
    real_distribute(a.v, wx * u.x.v + wy * u.y.v, wz * u.z.v);
    real_distribute(a.v, wx * u.x.v, wy * u.y.v);
    real_distribute(b.v, wx * v.x.v + wy * v.y.v, wz * v.z.v);
    real_distribute(b.v, wx * v.x.v, wy * v.y.v);
    real_mul_comm(c.x.v, wx);
    real_mul_comm(c.y.v, wy);
    real_mul_comm(c.z.v, wz);
}

proof fn lemma_dot_comm(u: V3<Real>, v: V3<Real>)
    ensures
        u.dot(v).v == v.dot(u).v,
{
    real_mul_comm(u.x.v, v.x.v);
    real_mul_comm(u.y.v, v.y.v);
    real_mul_comm(u.z.v, v.z.v);
}

/// The moments of the three edges of a triangle, each times what a uniform field rises by
/// along the edge, add up to the component of the field along the direction times the
/// area, for a direction in the plane.
pub proof fn lemma_uniform_moment(
    p0: V3<Real>,
    p1: V3<Real>,
    p2: V3<Real>,
    dir: V3<Real>,
    e: V3<Real>,
)
    requires
        normal(p0, p1, p2).dot(normal(p0, p1, p2)).v != 0real,
        in_plane(dir, p0, p1, p2),
    ensures
        ({
            let t = tri_shape(p0, p1, p2);
            e.dot(p1.minus(p0)).v * tri_moment(t, dir, 0).v + e.dot(p2.minus(p0)).v * tri_moment(
                t,
                dir,
                1,
            ).v + e.dot(p2.minus(p1)).v * tri_moment(t, dir, 2).v == e.dot(dir).v * t.area.v
        }),
{
    let t = tri_shape(p0, p1, p2);
    let (u, v) = (p1.minus(p0), p2.minus(p0));
    let (al, be) = choose|a: Real, b: Real| #[trigger] combined(u, v, a, b) == dir;
    let one = Real { v: 1real };
    // What the coordinates rise by along the direction.
    let (d0, d1, d2) = (dir.dot(t.g0).v, dir.dot(t.g1).v, dir.dot(t.g2).v);
    lemma_face_gradients(t.area, p0, p1, p2, 1, 0, 1);
    lemma_face_gradients(t.area, p0, p1, p2, 1, 0, 2);
    lemma_face_gradients(t.area, p0, p1, p2, 2, 0, 1);
    lemma_face_gradients(t.area, p0, p1, p2, 2, 0, 2);
    lemma_combined(u, v, al, be, t.g1);
    lemma_combined(u, v, al, be, t.g2);
    lemma_combined(u, v, al, be, e);
    real_mul_one(al.v);
    real_mul_one(be.v);
    real_mul_zero(al.v);
    real_mul_zero(be.v);
    assert(d1 == al.v && d2 == be.v);
    // The rises of the coordinates and of the field along the edges.
    let o = V3::<Real>::origin();
    lemma_dot_linear(o, t.g1, dir, one);
    lemma_dot_linear(o.minus(t.g1), t.g2, dir, one);
    lemma_dot_origin(dir);
    lemma_dot_comm(o, dir);
    assert(d0 == 0real - d1 - d2);
    lemma_dot_linear(t.g1, t.g0, dir, one);
    lemma_dot_linear(t.g2, t.g0, dir, one);
    lemma_dot_linear(t.g2, t.g1, dir, one);
    let (f0, f1, f2) = (e.dot(p0).v, e.dot(p1).v, e.dot(p2).v);
    lemma_dot_linear(p1, p0, e, one);
    lemma_dot_linear(p2, p0, e, one);
    lemma_dot_linear(p2, p1, e, one);
    lemma_three_edges(f0, f1, f2, d0, d1, d2);
    real_mul_zero(f0 + f1 + f2);
    real_distribute(d1, f1, f0);
    real_distribute(d2, f2, f0);
    real_distribute(f0, 0real - d1, d2);
    real_distribute(f0, 0real, d1);
    real_mul_zero(f0);
    let k = (f1 - f0) * d1 + (f2 - f0) * d2;
    assert(k == e.dot(dir).v);
    // Each moment is a third of the area times a rise.
    let a3 = t.area.v / 3real;
    real_quotient(t.area.v, 3real);
    assert(Real::number(3).v == 3real);
    lemma_factor(f1 - f0, a3, d1 - d0);
    lemma_factor(f2 - f0, a3, d2 - d0);
    lemma_factor(f2 - f1, a3, d2 - d1);
    let (x, y, z) = ((f1 - f0) * (d1 - d0), (f2 - f0) * (d2 - d0), (f2 - f1) * (d2 - d1));
    assert(x + y + z == 3real * k);
    real_distribute(a3, x + y, z);
    real_distribute(a3, x, y);
    real_mul_assoc(3real, a3, k);
    real_swap(3real, k, a3);
    real_mul_comm(t.area.v, k);
}

proof fn lemma_factor(f: real, a: real, d: real)
    ensures
        f * (a * d) == (f * d) * a,
{
    real_mul_assoc(f, a, d);
    real_swap(f, a, d);
}

/// The sum of the terms of a drive, each times the unknown that it drives.
spec fn paired(terms: Seq<(usize, Real)>, perm: Seq<usize>, x: Seq<Cx<Real>>) -> Cx<Real>
    decreases terms.len(),
{
    if terms.len() == 0 {
        Cx::<Real>::zero()
    } else {
        paired(terms.drop_last(), perm, x) + x[perm[terms.last().0 as int] as int].scaled(
            terms.last().1,
        )
    }
}

/// The sum over the first `k` unknowns, each times its strength.
spec fn weighed(
    list: Seq<usize>,
    w: spec_fn(usize) -> Real,
    perm: Seq<usize>,
    x: Seq<Cx<Real>>,
    k: int,
) -> Cx<Real>
    decreases k,
{
    if k <= 0 {
        Cx::<Real>::zero()
    } else {
        weighed(list, w, perm, x, k - 1) + x[perm[list[k - 1] as int] as int].scaled(w(list[k - 1]))
    }
}

proof fn lemma_weighed(
    list: Seq<usize>,
    w: spec_fn(usize) -> Real,
    v: spec_fn(usize) -> Real,
    perm: Seq<usize>,
    x: Seq<Cx<Real>>,
    d: usize,
    c: Real,
    k: int,
)
    requires
        0 <= k <= list.len(),
        list.no_duplicates(),
        forall|y: usize| y != d ==> #[trigger] v(y) == w(y),
        v(d) == w(d) + c,
    ensures
        weighed(list, v, perm, x, k) == if list.take(k).contains(d) {
            weighed(list, w, perm, x, k) + x[perm[d as int] as int].scaled(c)
        } else {
            weighed(list, w, perm, x, k)
        },
    decreases k,
{
    if k > 0 {
        lemma_weighed(list, w, v, perm, x, d, c, k - 1);
        let (before, now) = (list.take(k - 1), list.take(k));
        let y = list[k - 1];
        assert(now =~= before.push(y));
        if y == d {
            assert(!before.contains(d)) by {
                if before.contains(d) {
                    let i = choose|i: int| 0 <= i < before.len() && before[i] == d;
                    assert(list[i] == list[k - 1]);
                }
            }
            assert(now[k - 1] == d);
            let z = x[perm[d as int] as int];
            real_distribute(z.re.v, w(d).v, c.v);
            real_distribute(z.im.v, w(d).v, c.v);
        } else {
            if before.contains(d) {
                let i = choose|i: int| 0 <= i < before.len() && before[i] == d;
                assert(now[i] == d);
            }
            if now.contains(d) {
                let i = choose|i: int| 0 <= i < now.len() && now[i] == d;
                assert(before[i] == d);
            }
        }
    } else {
        assert(list.take(0) =~= Seq::<usize>::empty());
    }
}

proof fn lemma_weighed_prefix(
    list: Seq<usize>,
    more: Seq<usize>,
    w: spec_fn(usize) -> Real,
    perm: Seq<usize>,
    x: Seq<Cx<Real>>,
    k: int,
)
    requires
        forall|i: int| 0 <= i < k ==> list[i] == #[trigger] more[i],
    ensures
        weighed(list, w, perm, x, k) == weighed(more, w, perm, x, k),
    decreases k,
{
    if k > 0 {
        lemma_weighed_prefix(list, more, w, perm, x, k - 1);
        assert(list[k - 1] == more[k - 1]);
    }
}

spec fn strengths(terms: Seq<(usize, Real)>) -> spec_fn(usize) -> Real {
    |d: usize| strength(terms, d)
}

proof fn lemma_gathered(terms: Seq<(usize, Real)>, perm: Seq<usize>, x: Seq<Cx<Real>>)
    ensures
        weighed(driven(terms), strengths(terms), perm, x, driven(terms).len() as int) == paired(
            terms,
            perm,
            x,
        ),
    decreases terms.len(),
{
    if terms.len() > 0 {
        let rest = terms.drop_last();
        let (d, c) = terms.last();
        lemma_gathered(rest, perm, x);
        let (before, now) = (driven(rest), driven(terms));
        let n = before.len() as int;
        let (w, v) = (strengths(rest), strengths(terms));
        lemma_undriven(rest, d);
        lemma_weighed(before, w, v, perm, x, d, c, n);
        assert(before.take(n) =~= before);
        lemma_last_index(before, d);
        if last_index(before, d) is Some {
            assert(before.contains(d));
        } else {
            assert(!before.contains(d));
            lemma_weighed_prefix(before, now, v, perm, x, n);
            assert(v(d).v == c.v);
        }
    }
}

proof fn lemma_integral_weighed(
    terms: Seq<(usize, Real)>,
    perm: Seq<usize>,
    x: Seq<Cx<Real>>,
    k: nat,
)
    requires
        k <= driven(terms).len(),
    ensures
        field_integral(perm, excitation(terms), x, k) == weighed(
            driven(terms),
            strengths(terms),
            perm,
            x,
            k as int,
        ),
    decreases k,
{
    if k > 0 {
        lemma_integral_weighed(terms, perm, x, (k - 1) as nat);
    }
}

/// One edge of a triangle with a drive.
proof fn lemma_driven_edge(
    num: Numbering,
    perm: Seq<usize>,
    nodes: Seq<V3<Real>>,
    t: Tri,
    shape: TriShape<Real>,
    dir: V3<Real>,
    x: Seq<Cx<Real>>,
    e: V3<Cx<Real>>,
    i: int,
    acc: Seq<(usize, Real)>,
)
    requires
        i > 0,
        agrees(num, perm, nodes, x, e, t.edge(i - 1)),
    ensures
        paired(tri_drives(num, t, shape, dir, i, acc), perm, x) == paired(
            tri_drives(num, t, shape, dir, i - 1, acc),
            perm,
            x,
        ) + along(e, edge_vector(nodes, t.edge(i - 1))).scaled(tri_moment(shape, dir, i - 1)),
{
    let before = tri_drives(num, t, shape, dir, i - 1, acc);
    let m = tri_moment(shape, dir, i - 1);
    match num.unknown(t.edge(i - 1)) {
        Some(d) => {
            assert(before.push((d, m)).drop_last() =~= before);
        },
        None => {
            real_mul_zero(m.v);
        },
    }
}

/// What a uniform field asks of a triangle of a port: that its unknowns agree with the
/// field, that it has an area, and that the direction lies in its plane.
pub open spec fn port_agrees(
    num: Numbering,
    perm: Seq<usize>,
    nodes: Seq<V3<Real>>,
    t: Tri,
    dir: V3<Real>,
    x: Seq<Cx<Real>>,
    e: V3<Cx<Real>>,
) -> bool {
    let (p0, p1, p2) = (nodes[t.a as int], nodes[t.b as int], nodes[t.c as int]);
    &&& agrees(num, perm, nodes, x, e, t.edge(0))
    &&& agrees(num, perm, nodes, x, e, t.edge(1))
    &&& agrees(num, perm, nodes, x, e, t.edge(2))
    &&& normal(p0, p1, p2).dot(normal(p0, p1, p2)).v != 0real
    &&& in_plane(dir, p0, p1, p2)
}

proof fn lemma_uniform_triangle(
    num: Numbering,
    perm: Seq<usize>,
    nodes: Seq<V3<Real>>,
    t: Tri,
    dir: V3<Real>,
    x: Seq<Cx<Real>>,
    e: V3<Cx<Real>>,
    acc: Seq<(usize, Real)>,
)
    requires
        port_agrees(num, perm, nodes, t, dir, x, e),
    ensures
        paired(tri_drives(num, t, shape_of_tri(nodes, t), dir, 3, acc), perm, x) == paired(
            acc,
            perm,
            x,
        ) + along(e, dir).scaled(tri_area(nodes, t)),
{
    let shape = shape_of_tri(nodes, t);
    let (p0, p1, p2) = (nodes[t.a as int], nodes[t.b as int], nodes[t.c as int]);
    lemma_driven_edge(num, perm, nodes, t, shape, dir, x, e, 1, acc);
    lemma_driven_edge(num, perm, nodes, t, shape, dir, x, e, 2, acc);
    lemma_driven_edge(num, perm, nodes, t, shape, dir, x, e, 3, acc);
    assert(tri_drives(num, t, shape, dir, 0, acc) == acc);
    lemma_uniform_moment(p0, p1, p2, dir, V3 { x: e.x.re, y: e.y.re, z: e.z.re });
    lemma_uniform_moment(p0, p1, p2, dir, V3 { x: e.x.im, y: e.y.im, z: e.z.im });
    // The area of the sheet is that of the shape.
    let n = normal(p0, p1, p2);
    let r = n.dot(n).root().v;
    assert(tri_area(nodes, t) == shape.area) by {
        assert(Real::number(2).v == 2real);
        real_quotient(r, 2real);
        real_quotient(1real, 2real);
        real_mul_assoc(2real, 1real / 2real, r);
        real_mul_one(r);
        real_cancel(2real, (1real / 2real) * r, r / 2real);
    }
}

proof fn lemma_uniform_drives(
    num: Numbering,
    perm: Seq<usize>,
    nodes: Seq<V3<Real>>,
    tris: Seq<Tri>,
    groups: Seq<Option<usize>>,
    p: usize,
    dir: V3<Real>,
    x: Seq<Cx<Real>>,
    e: V3<Cx<Real>>,
    n: nat,
)
    requires
        n <= tris.len(),
        forall|i: int|
            0 <= i < tris.len() && on_port(#[trigger] tris[i], groups, p) ==> port_agrees(
                num,
                perm,
                nodes,
                tris[i],
                dir,
                x,
                e,
            ),
    ensures
        paired(drives(num, nodes, tris, groups, p, dir, n), perm, x) == along(e, dir).scaled(
            port_area(nodes, tris, groups, p, n),
        ),
    decreases n,
{
    let a = along(e, dir);
    if n > 0 {
        lemma_uniform_drives(num, perm, nodes, tris, groups, p, dir, x, e, (n - 1) as nat);
        let t = tris[n - 1];
        let acc = drives(num, nodes, tris, groups, p, dir, (n - 1) as nat);
        if on_port(t, groups, p) {
            lemma_uniform_triangle(num, perm, nodes, t, dir, x, e, acc);
            let (s, y) = (
                port_area(nodes, tris, groups, p, (n - 1) as nat).v,
                tri_area(nodes, t).v,
            );
            real_distribute(a.re.v, s, y);
            real_distribute(a.im.v, s, y);
        }
    } else {
        real_mul_zero(a.re.v);
        real_mul_zero(a.im.v);
    }
}

/// The integral of a uniform field over a port sheet, along the direction of the port, is
/// the component of the field along the direction times the area of the sheet.
pub proof fn lemma_uniform_integral(
    num: Numbering,
    perm: Seq<usize>,
    nodes: Seq<V3<Real>>,
    tris: Seq<Tri>,
    groups: Seq<Option<usize>>,
    p: usize,
    dir: V3<Real>,
    x: Seq<Cx<Real>>,
    e: V3<Cx<Real>>,
)
    requires
        forall|i: int|
            0 <= i < tris.len() && on_port(#[trigger] tris[i], groups, p) ==> port_agrees(
                num,
                perm,
                nodes,
                tris[i],
                dir,
                x,
                e,
            ),
    ensures
        ({
            let drive = excitation(drives(num, nodes, tris, groups, p, dir, tris.len()));
            field_integral(perm, drive, x, drive.len()) == along(e, dir).scaled(
                port_area(nodes, tris, groups, p, tris.len()),
            )
        }),
{
    let terms = drives(num, nodes, tris, groups, p, dir, tris.len());
    lemma_integral_weighed(terms, perm, x, driven(terms).len());
    lemma_gathered(terms, perm, x);
    lemma_uniform_drives(num, perm, nodes, tris, groups, p, dir, x, e, tris.len());
}

} // verus!
