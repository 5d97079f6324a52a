//! What the measures of elements and of port sheets are, in exact arithmetic.

use crate::complex::{is_real_root, real_root, Real};
use crate::element::{absolute, determinant, normal, tet_shape, tri_shape};
use crate::groups::ModelError;
use crate::integrals::lemma_two_crosses;
use crate::msh::Tri;
use crate::ports::{port_area, port_bounds, port_shape, tri_area};
use crate::reals::{real_cancel, real_mul_assoc, real_mul_one, real_quotient, real_same_square};
use crate::scalar::{Algebra, Number, V3};
use crate::whitney::lemma_triple;
use vstd::prelude::*;

verus! {

// ---------------------------------------------------------------- elements

/// The volume of a tetrahedron is a third of the area of a face times the height over it:
/// six times the volume is the normal of the face, which has twice the area for a length,
/// times the way to the fourth corner. Where that is zero there is no shape.
pub proof fn lemma_volume(p0: V3<Real>, p1: V3<Real>, p2: V3<Real>, p3: V3<Real>)
    ensures
        match tet_shape(p0, p1, p2, p3) {
            Some(t) => {
                let d = p1.minus(p0).cross(p2.minus(p0)).dot(p3.minus(p0)).v;
                &&& d != 0real
                &&& 0real < t.vol.v
                &&& 6real * t.vol.v == if d < 0real {
                    -d
                } else {
                    d
                }
            },
            None => p1.minus(p0).cross(p2.minus(p0)).dot(p3.minus(p0)).v == 0real,
        },
{
    lemma_triple(p1.minus(p0), p2.minus(p0), p3.minus(p0));
    let det = determinant(p0, p1, p2, p3);
    assert(Real::number(6).v == 6real);
    real_quotient(absolute(det).v, 6real);
}

/// The area of a triangle: the square of twice the area is what the squares of two edges
/// multiply to, less the square of their inner product. `r` is the root of that.
pub proof fn lemma_area(p0: V3<Real>, p1: V3<Real>, p2: V3<Real>, r: Real)
    requires
        ({
            let (u, v) = (p1.minus(p0), p2.minus(p0));
            is_real_root(u.dot(u).v * v.dot(v).v - u.dot(v).v * v.dot(u).v, r.v)
        }),
    ensures
        2real * tri_shape(p0, p1, p2).area.v == r.v,
{
    let (u, v) = (p1.minus(p0), p2.minus(p0));
    let n = normal(p0, p1, p2);
    lemma_two_crosses(u, v, u, v);
    let s = real_root(n.dot(n).v);
    assert(is_real_root(n.dot(n).v, r.v));
    assert(is_real_root(n.dot(n).v, s));
    real_same_square(s, r.v);
    assert(Real::number(2).v == 2real);
    real_quotient(s, 2real);
}

/// The area of a triangle of a mesh is the area of its shape.
pub proof fn lemma_mesh_area(nodes: Seq<V3<Real>>, t: Tri)
    ensures
        tri_area(nodes, t) == tri_shape(
            nodes[t.a as int],
            nodes[t.b as int],
            nodes[t.c as int],
        ).area,
{
    let n = normal(nodes[t.a as int], nodes[t.b as int], nodes[t.c as int]);
    let r = n.dot(n).root().v;
    assert(Real::number(2).v == 2real);
    real_quotient(r, 2real);
    real_quotient(1real, 2real);
    real_mul_assoc(2real, 1real / 2real, r);
    real_mul_one(r);
    real_cancel(2real, (1real / 2real) * r, r / 2real);
}

// ---------------------------------------------------------------- ports

proof fn lemma_area_prefix(
    nodes: Seq<V3<Real>>,
    a: Seq<Tri>,
    b: Seq<Tri>,
    ports: Seq<Option<usize>>,
    p: usize,
    n: nat,
)
    requires
        forall|i: int| 0 <= i < n ==> a[i] == #[trigger] b[i],
    ensures
        port_area(nodes, a, ports, p, n) == port_area(nodes, b, ports, p, n),
    decreases n,
{
    if n > 0 {
        lemma_area_prefix(nodes, a, b, ports, p, (n - 1) as nat);
        assert(a[n - 1] == b[n - 1]);
    }
}

/// The area of a port is that of its triangles: the areas of two lists of triangles add
/// up, and one triangle has its own area, which counts where it is on the port.
pub proof fn lemma_port_area(
    nodes: Seq<V3<Real>>,
    a: Seq<Tri>,
    b: Seq<Tri>,
    ports: Seq<Option<usize>>,
    p: usize,
    t: Tri,
)
    ensures
        port_area(nodes, a + b, ports, p, (a + b).len()).v == port_area(
            nodes,
            a,
            ports,
            p,
            a.len(),
        ).v + port_area(nodes, b, ports, p, b.len()).v,
        port_area(nodes, seq![t], ports, p, 1).v == if ports[t.group as int] == Some(p) {
            tri_shape(nodes[t.a as int], nodes[t.b as int], nodes[t.c as int]).area.v
        } else {
            0real
        },
    decreases b.len(),
{
    lemma_mesh_area(nodes, t);
    assert(port_area(nodes, seq![t], ports, p, 0).v == 0real);
    let s = a + b;
    if b.len() == 0 {
        assert(s =~= a);
    } else {
        let c = b.drop_last();
        lemma_port_area(nodes, a, c, ports, p, t);
        let n = (s.len() - 1) as nat;
        lemma_area_prefix(nodes, s, a + c, ports, p, n);
        lemma_area_prefix(nodes, b, c, ports, p, c.len());
        assert(s[n as int] == b[b.len() - 1]);
    }
}

/// A corner of a triangle of port `p` among the first `n` triangles has the component `c`
/// along the direction.
pub open spec fn is_reached(
    nodes: Seq<V3<Real>>,
    tris: Seq<Tri>,
    ports: Seq<Option<usize>>,
    p: usize,
    dir: V3<Real>,
    n: nat,
    c: real,
) -> bool {
    exists|i: int|
        0 <= i < n && ports[(#[trigger] tris[i]).group as int] == Some(p) && (nodes[tris[i].a as int].dot(
            dir,
        ).v == c || nodes[tris[i].b as int].dot(dir).v == c || nodes[tris[i].c as int].dot(dir).v
            == c)
}

proof fn lemma_reached_later(
    nodes: Seq<V3<Real>>,
    tris: Seq<Tri>,
    ports: Seq<Option<usize>>,
    p: usize,
    dir: V3<Real>,
    n: nat,
    c: real,
)
    requires
        is_reached(nodes, tris, ports, p, dir, n, c),
    ensures
        is_reached(nodes, tris, ports, p, dir, n + 1, c),
{
    let i = choose|i: int|
        0 <= i < n && ports[(#[trigger] tris[i]).group as int] == Some(p) && (nodes[tris[i].a as int].dot(
            dir,
        ).v == c || nodes[tris[i].b as int].dot(dir).v == c || nodes[tris[i].c as int].dot(dir).v
            == c);
    assert(ports[tris[i].group as int] == Some(p));
}

/// The bounds of a port along its direction: no corner of it lies outside, and each bound
/// is the component of a corner, or the bound with which the search begins.
pub proof fn lemma_port_bounds(
    nodes: Seq<V3<Real>>,
    tris: Seq<Tri>,
    ports: Seq<Option<usize>>,
    p: usize,
    dir: V3<Real>,
    n: nat,
)
    ensures
        ({
            let (lo, hi) = port_bounds(nodes, tris, ports, p, dir, n);
            &&& forall|c: real| #[trigger]
                is_reached(nodes, tris, ports, p, dir, n, c) ==> lo.v <= c <= hi.v
            &&& lo == Real::constants().largest || is_reached(nodes, tris, ports, p, dir, n, lo.v)
            &&& hi == Real::constants().lowest || is_reached(nodes, tris, ports, p, dir, n, hi.v)
        }),
    decreases n,
{
    if n > 0 {
        let m = (n - 1) as nat;
        lemma_port_bounds(nodes, tris, ports, p, dir, m);
        let (lo, hi) = port_bounds(nodes, tris, ports, p, dir, m);
        let t = tris[n - 1];
        let (l, h) = port_bounds(nodes, tris, ports, p, dir, n);
        if is_reached(nodes, tris, ports, p, dir, m, lo.v) {
            lemma_reached_later(nodes, tris, ports, p, dir, m, lo.v);
        }
        if is_reached(nodes, tris, ports, p, dir, m, hi.v) {
            lemma_reached_later(nodes, tris, ports, p, dir, m, hi.v);
        }
        assert forall|c: real| #[trigger] is_reached(nodes, tris, ports, p, dir, n, c) implies l.v
            <= c <= h.v by {
            let i = choose|i: int|
                0 <= i < n && ports[(#[trigger] tris[i]).group as int] == Some(p) && (
                nodes[tris[i].a as int].dot(dir).v == c || nodes[tris[i].b as int].dot(dir).v == c
                    || nodes[tris[i].c as int].dot(dir).v == c);
            if i < m {
                assert(is_reached(nodes, tris, ports, p, dir, m, c));
            }
        }
        if ports[t.group as int] == Some(p) {
            assert(ports[tris[n - 1].group as int] == Some(p));
            assert(is_reached(nodes, tris, ports, p, dir, n, nodes[t.a as int].dot(dir).v));
            assert(is_reached(nodes, tris, ports, p, dir, n, nodes[t.b as int].dot(dir).v));
            assert(is_reached(nodes, tris, ports, p, dir, n, nodes[t.c as int].dot(dir).v));
        }
    }
}

/// A port sheet is a rectangle: its extent along the direction is the way from one bound
/// to the other, both of which a corner reaches, its area is that of its triangles, and
/// extent times width is the area. A port without area or extent is refused. No corner
/// lies beyond the numbers with which the search for the bounds begins.
pub proof fn lemma_port_shape(
    nodes: Seq<V3<Real>>,
    tris: Seq<Tri>,
    ports: Seq<Option<usize>>,
    p: usize,
    dir: V3<Real>,
    z0: Real,
)
    requires
        forall|c: real| #[trigger]
            is_reached(nodes, tris, ports, p, dir, tris.len(), c) ==> Real::constants().lowest.v
                <= c <= Real::constants().largest.v,
    ensures
        match port_shape(nodes, tris, ports, p, dir, z0) {
            Ok(s) => {
                &&& s.dir == dir
                &&& s.z0 == z0
                &&& 0real < s.h.v
                &&& 0real < s.area.v
                &&& s.h.v * s.w.v == s.area.v
                &&& s.area == port_area(nodes, tris, ports, p, tris.len())
                &&& exists|lo: real, hi: real|
                    s.h.v == hi - lo && #[trigger] is_reached(
                        nodes,
                        tris,
                        ports,
                        p,
                        dir,
                        tris.len(),
                        lo,
                    ) && #[trigger] is_reached(nodes, tris, ports, p, dir, tris.len(), hi) && (
                    forall|c: real| #[trigger]
                        is_reached(nodes, tris, ports, p, dir, tris.len(), c) ==> lo <= c <= hi)
            },
            Err(e) => e == (ModelError::EmptyPort { port: p }) && (port_area(
                nodes,
                tris,
                ports,
                p,
                tris.len(),
            ).v <= 0real || forall|a: real, b: real|
                #![trigger is_reached(nodes, tris, ports, p, dir, tris.len(), a), is_reached(nodes, tris, ports, p, dir, tris.len(), b)]
                is_reached(nodes, tris, ports, p, dir, tris.len(), a) && is_reached(
                    nodes,
                    tris,
                    ports,
                    p,
                    dir,
                    tris.len(),
                    b,
                ) ==> a == b),
        },
{
    let n = tris.len();
    lemma_port_bounds(nodes, tris, ports, p, dir, n);
    let (lo, hi) = port_bounds(nodes, tris, ports, p, dir, n);
    match port_shape(nodes, tris, ports, p, dir, z0) {
        Ok(s) => {
            real_quotient(s.area.v, s.h.v);
            let big = Real::constants().largest.v;
            assert(0real < big);
            assert(lo.v < hi.v);
            assert(is_reached(nodes, tris, ports, p, dir, n, lo.v));
            assert(is_reached(nodes, tris, ports, p, dir, n, hi.v));
            assert(s.h.v == hi.v - lo.v);
        },
        Err(_) => {},
    }
}

} // verus!
