//! The geometry of lumped ports: rectangular sheets, made of the triangles of a
//! group.

use crate::deck::{Deck, PortModel};
use crate::element::normal;
use crate::groups::ModelError;
use crate::msh::{Mesh, Tri};
use crate::scalar::{cross3, dot3, sub3, Number, Scalar, V3};
use vstd::prelude::*;

verus! {

/// A port sheet.
pub struct PortShape<T> {
    /// Unit vector from one terminal to the other.
    pub dir: V3<T>,
    /// Reference impedance in ohms.
    pub z0: T,
    pub area: T,
    /// Extent along the direction.
    pub h: T,
    /// Width: the area over the extent.
    pub w: T,
}

impl<T: Copy> Copy for PortShape<T> {

}

impl<T: Copy> Clone for PortShape<T> {
    fn clone(&self) -> (r: Self)
        ensures
            r == *self,
    {
        *self
    }
}

impl<T: Number> PortShape<T> {
    /// The sheet has an area, an extent, and the width that follows.
    pub open spec fn is_sheet(self) -> bool {
        &&& !self.area.at_most(T::zero())
        &&& !self.h.at_most(T::zero())
        &&& self.w == self.area.over(self.h)
    }
}

/// The lesser of two numbers; the first where they do not compare.
pub open spec fn lesser<T: Number>(a: T, b: T) -> T {
    if b.less(a) {
        b
    } else {
        a
    }
}

/// The greater of two numbers; the first where they do not compare.
pub open spec fn greater<T: Number>(a: T, b: T) -> T {
    if a.less(b) {
        b
    } else {
        a
    }
}

/// The area of a triangle of a mesh.
pub open spec fn tri_area<T: Number>(nodes: Seq<V3<T>>, t: Tri) -> T {
    let n = normal(nodes[t.a as int], nodes[t.b as int], nodes[t.c as int]);
    T::one().over(T::number(2)) * n.dot(n).root()
}

/// The triangle belongs to port `p`.
pub open spec fn on_port(t: Tri, ports: Seq<Option<usize>>, p: usize) -> bool {
    ports[t.group as int] == Some(p)
}

/// The area of port `p` in the first `n` triangles.
pub open spec fn port_area<T: Number>(
    nodes: Seq<V3<T>>,
    tris: Seq<Tri>,
    ports: Seq<Option<usize>>,
    p: usize,
    n: nat,
) -> T
    decreases n,
{
    if n == 0 {
        T::zero()
    } else {
        let before = port_area(nodes, tris, ports, p, (n - 1) as nat);
        if on_port(tris[n - 1], ports, p) {
            before + tri_area(nodes, tris[n - 1])
        } else {
            before
        }
    }
}

/// The bounds of port `p` along a direction in the first `n` triangles.
pub open spec fn port_bounds<T: Number>(
    nodes: Seq<V3<T>>,
    tris: Seq<Tri>,
    ports: Seq<Option<usize>>,
    p: usize,
    dir: V3<T>,
    n: nat,
) -> (T, T)
    decreases n,
{
    if n == 0 {
        (T::constants().largest, T::constants().lowest)
    } else {
        let (lo, hi) = port_bounds(nodes, tris, ports, p, dir, (n - 1) as nat);
        let t = tris[n - 1];
        if on_port(t, ports, p) {
            let (x, y, z) = (
                nodes[t.a as int].dot(dir),
                nodes[t.b as int].dot(dir),
                nodes[t.c as int].dot(dir),
            );
            (lesser(lesser(lesser(lo, x), y), z), greater(greater(greater(hi, x), y), z))
        } else {
            (lo, hi)
        }
    }
}

/// The sheet of port `p`, unless it has no area or no extent.
pub open spec fn port_shape<T: Number>(
    nodes: Seq<V3<T>>,
    tris: Seq<Tri>,
    ports: Seq<Option<usize>>,
    p: usize,
    dir: V3<T>,
    z0: T,
) -> Result<PortShape<T>, ModelError> {
    let area = port_area(nodes, tris, ports, p, tris.len());
    let (lo, hi) = port_bounds(nodes, tris, ports, p, dir, tris.len());
    let h = hi - lo;
    if area.at_most(T::zero()) || h.at_most(T::zero()) {
        Err(ModelError::EmptyPort { port: p })
    } else {
        Ok(PortShape { dir, z0, area, h, w: area.over(h) })
    }
}

/// The sheets of the first `n` ports.
pub open spec fn port_shapes<T: Number>(
    nodes: Seq<V3<T>>,
    tris: Seq<Tri>,
    ports: Seq<Option<usize>>,
    defs: Seq<PortModel<T>>,
    n: nat,
) -> Result<Seq<PortShape<T>>, ModelError>
    decreases n,
{
    if n == 0 {
        Ok(seq![])
    } else {
        match port_shapes(nodes, tris, ports, defs, (n - 1) as nat) {
            Err(e) => Err(e),
            Ok(before) => match port_shape(
                nodes,
                tris,
                ports,
                (n - 1) as usize,
                defs[n - 1].dir,
                defs[n - 1].z0,
            ) {
                Err(e) => Err(e),
                Ok(s) => Ok(before.push(s)),
            },
        }
    }
}

fn min<T: Scalar>(a: T, b: T) -> (r: T)
    ensures
        r == lesser(a, b),
{
    if b.lt(a) {
        b
    } else {
        a
    }
}

fn max<T: Scalar>(a: T, b: T) -> (r: T)
    ensures
        r == greater(a, b),
{
    if a.lt(b) {
        b
    } else {
        a
    }
}

/// Measures the sheet of port `p`.
pub fn measure_port<T: Scalar>(
    mesh: &Mesh<T>,
    ports: &Vec<Option<usize>>,
    p: usize,
    dir: V3<T>,
    z0: T,
) -> (r: Result<PortShape<T>, ModelError>)
    requires
        mesh.wf(),
        ports@.len() == mesh.names@.len(),
    ensures
        r == port_shape(mesh.nodes@, mesh.tris@, ports@, p, dir, z0),
{
    let mut area = T::nil();
    let known = T::known();
    let mut lo = known.largest;
    let mut hi = known.lowest;
    let half = T::unit().div(T::of(2));
    let mut i: usize = 0;
    while i < mesh.tris.len()
        invariant
            mesh.wf(),
            ports@.len() == mesh.names@.len(),
            i <= mesh.tris@.len(),
            half == T::one().over(T::number(2)),
            area == port_area(mesh.nodes@, mesh.tris@, ports@, p, i as nat),
            (lo, hi) == port_bounds(mesh.nodes@, mesh.tris@, ports@, p, dir, i as nat),
        decreases mesh.tris@.len() - i,
    {
        let t = mesh.tris[i];
        assert(mesh.tris@[i as int].within(mesh.nodes@.len(), mesh.names@.len()));
        let here: bool = match ports[t.group] {
            Some(q) => q == p,
            None => false,
        };
        if here {
            let (q0, q1, q2) = (mesh.nodes[t.a], mesh.nodes[t.b], mesh.nodes[t.c]);
            let n = cross3(sub3(q1, q0), sub3(q2, q0));
            area = area.add(half.mul(dot3(n, n).sqrt()));
            let (x, y, z) = (dot3(q0, dir), dot3(q1, dir), dot3(q2, dir));
            lo = min(min(min(lo, x), y), z);
            hi = max(max(max(hi, x), y), z);
        }
        i += 1;
    }
    let h = hi.sub(lo);
    if area.le(T::nil()) || h.le(T::nil()) {
        return Err(ModelError::EmptyPort { port: p });
    }
    Ok(PortShape { dir, z0, area, h, w: area.div(h) })
}

/// Measures the sheets of all ports.
pub fn measure_ports<T: Scalar>(
    mesh: &Mesh<T>,
    ports: &Vec<Option<usize>>,
    deck: &Deck<T>,
) -> (r: Result<Vec<PortShape<T>>, ModelError>)
    requires
        mesh.wf(),
        ports@.len() == mesh.names@.len(),
    ensures
        match port_shapes(mesh.nodes@, mesh.tris@, ports@, deck.model().ports, deck.ports@.len()) {
            Ok(s) => r matches Ok(v) && v@ == s && s.len() == deck.ports@.len() && forall|k: int|
                0 <= k < s.len() ==> (#[trigger] s[k]).is_sheet(),
            Err(e) => r matches Err(f) && e == f,
        },
{
    let mut v: Vec<PortShape<T>> = Vec::new();
    let mut p: usize = 0;
    assert(v@ =~= seq![]);
    while p < deck.ports.len()
        invariant
            mesh.wf(),
            ports@.len() == mesh.names@.len(),
            p <= deck.ports@.len(),
            v@.len() == p,
            forall|k: int| 0 <= k < p ==> (#[trigger] v@[k]).is_sheet(),
            port_shapes(mesh.nodes@, mesh.tris@, ports@, deck.model().ports, p as nat) == Ok::<
                Seq<PortShape<T>>,
                ModelError,
            >(v@),
        decreases deck.ports@.len() - p,
    {
        match measure_port(mesh, ports, p, deck.ports[p].dir, deck.ports[p].z0) {
            Err(e) => {
                proof {
                    lemma_shapes_fail(
                        mesh.nodes@,
                        mesh.tris@,
                        ports@,
                        deck.model().ports,
                        p as nat + 1,
                        deck.ports@.len(),
                    );
                }
                return Err(e);
            },
            Ok(s) => {
                v.push(s);
            },
        }
        p += 1;
    }
    Ok(v)
}

proof fn lemma_shapes_fail<T: Number>(
    nodes: Seq<V3<T>>,
    tris: Seq<Tri>,
    ports: Seq<Option<usize>>,
    defs: Seq<PortModel<T>>,
    k: nat,
    n: nat,
)
    requires
        k <= n,
        port_shapes(nodes, tris, ports, defs, k) is Err,
    ensures
        port_shapes(nodes, tris, ports, defs, n) == port_shapes(nodes, tris, ports, defs, k),
    decreases n,
{
    if k < n {
        lemma_shapes_fail(nodes, tris, ports, defs, k, (n - 1) as nat);
    }
}

} // verus!
