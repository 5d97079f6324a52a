//! What the port quantities are, in exact arithmetic: voltages, currents and waves at the
//! ports.

use crate::accuracy::solves;
use crate::complex::{is_real_root, real_root, Real};
use crate::deck::DeckModel;
use crate::diagnostics::lemma_worst_residual;
use crate::msh::{Mesh, Tri};
use crate::network::{
    lemma_drive_fits, lemma_inverse_width, lemma_response_solves, lemma_source_pairing, pairing,
};
use crate::ports::{on_port, port_area, port_shapes};
use crate::reals::{
    real_distribute, real_mul_assoc, real_mul_comm, real_mul_neg, real_mul_one, real_mul_zero,
    real_no_divisors, real_product_nonnegative, real_quotient, real_quotient_nonzero,
    real_same_square, real_square_of_product,
};
use crate::refine::{regular, relative_residual};
use crate::scalar::{Algebra, Cx, Number, V3};
use crate::sweep::{field_integral, voltage, Point};
use crate::system::{system_model, System};
use crate::uniform::{along, lemma_uniform_integral, port_agrees};
use vstd::prelude::*;

verus! {

// ---------------------------------------------------------------- waves

/// The root that is taken is the one that is given.
proof fn lemma_the_root(x: real, r: real)
    requires
        is_real_root(x, r),
    ensures
        real_root(x) == r,
{
    let s = real_root(x);
    assert(is_real_root(x, s));
    real_same_square(s, r);
}

/// The factor between a voltage and a scattering parameter is positive, and its square
/// times the product of the two reference impedances is four. `rho` is the root of that
/// product.
pub proof fn lemma_gain(s: System<Real>, q: int, p: int, rho: Real)
    requires
        0real < s.ports@[p].z0.v,
        0real < s.ports@[q].z0.v,
        is_real_root(s.ports@[p].z0.v * s.ports@[q].z0.v, rho.v),
    ensures
        0real < s.gain(q, p).v,
        s.gain(q, p).v * rho.v == 2real,
        (s.gain(q, p).v * s.gain(q, p).v) * (s.ports@[p].z0.v * s.ports@[q].z0.v) == 4real,
        s.gain(q, p) == s.gain(p, q),
{
    let (a, b) = (s.ports@[p].z0.v, s.ports@[q].z0.v);
    lemma_the_root(a * b, rho.v);
    real_no_divisors(a, b);
    real_mul_comm(a, b);
    real_mul_zero(rho.v);
    let g = s.gain(q, p).v;
    assert(Real::number(2).v == 2real);
    real_quotient(2real, rho.v);
    real_square_of_product(g, rho.v);
    if g <= 0real {
        real_product_nonnegative(-g, rho.v);
        real_mul_neg(g, rho.v);
    }
}

/// At one port the root is the reference impedance itself.
pub proof fn lemma_own_gain(s: System<Real>, p: int)
    requires
        0real < s.ports@[p].z0.v,
    ensures
        s.gain(p, p).v * s.ports@[p].z0.v == 2real,
{
    let z = s.ports@[p].z0;
    lemma_gain(s, p, p, z);
}

/// The voltage that port `q` sees with a unit current through port `p`.
pub open spec fn port_voltage(s: System<Real>, k0: Real, q: int, p: int) -> Cx<Real> {
    voltage(s.profile.perm@, s.drives@[q]@, s.ports@[q], s.response(k0, p))
}

/// The scattering parameters belong to the voltages at the ports. With the unit current
/// through port `p`, an incident wave of half the voltage that this current makes across
/// the reference impedance, the voltage at another port is half its scattering parameter
/// times the root `rho` of the product of the reference impedances; at the port itself
/// it is half the reference impedance times one plus the reflection.
pub proof fn lemma_waves(s: System<Real>, k0: Real, q: int, p: int, rho: Real)
    requires
        0real < s.ports@[p].z0.v,
        0real < s.ports@[q].z0.v,
        is_real_root(s.ports@[p].z0.v * s.ports@[q].z0.v, rho.v),
    ensures
        q != p ==> s.scattering(k0, q, p).scaled(rho) == port_voltage(s, k0, q, p) + port_voltage(
            s,
            k0,
            q,
            p,
        ),
        (s.scattering(k0, p, p) + Cx::<Real>::one()).scaled(s.ports@[p].z0) == port_voltage(
            s,
            k0,
            p,
            p,
        ) + port_voltage(s, k0, p, p),
{
    lemma_gain(s, q, p, rho);
    lemma_own_gain(s, p);
    let (v, w) = (port_voltage(s, k0, q, p), port_voltage(s, k0, p, p));
    let (g, h, z) = (s.gain(q, p).v, s.gain(p, p).v, s.ports@[p].z0.v);
    real_mul_assoc(v.re.v, g, rho.v);
    real_mul_assoc(v.im.v, g, rho.v);
    real_mul_assoc(w.re.v, h, z);
    real_mul_assoc(w.im.v, h, z);
    lemma_double(v.re.v);
    lemma_double(v.im.v);
    lemma_double(w.re.v);
    lemma_double(w.im.v);
}

/// A point holds, column by column, what belongs to the voltages: the number at `q` in
/// column `p` is that of port `q` with the current through port `p`. No port leaves a
/// larger residual than the point says.
pub proof fn lemma_point(
    point: Point<Real>,
    s: System<Real>,
    k0: Real,
    q: int,
    p: int,
    rho: Real,
)
    requires
        point.describes(s, k0),
        0 <= p < s.ports@.len(),
        0 <= q < s.ports@.len(),
        0real < s.ports@[p].z0.v,
        0real < s.ports@[q].z0.v,
        is_real_root(s.ports@[p].z0.v * s.ports@[q].z0.v, rho.v),
    ensures
        q != p ==> point.columns@[p]@[q].scaled(rho) == port_voltage(s, k0, q, p) + port_voltage(
            s,
            k0,
            q,
            p,
        ),
        (point.columns@[p]@[p] + Cx::<Real>::one()).scaled(s.ports@[p].z0) == port_voltage(
            s,
            k0,
            p,
            p,
        ) + port_voltage(s, k0, p, p),
        relative_residual(s.at_wave(k0), s.source_of(k0, p), s.response(k0, p)).v
            <= point.residual.v,
{
    lemma_waves(s, k0, q, p, rho);
    lemma_worst_residual(s, k0, s.ports@.len() as int);
    assert(point.columns@[p]@[q] == s.scattering(k0, q, p));
    assert(point.columns@[p]@[p] == s.scattering(k0, p, p));
}

/// The field that is shown solves the equations with the current through the first port
/// alone, so that its voltages are those to which the first column of the scattering
/// parameters belongs.
pub proof fn lemma_fields(s: System<Real>, mesh: Mesh<Real>, k0: Real)
    requires
        s.wf(),
        regular(s.at_wave(k0)),
    ensures
        s.fields(mesh, k0).len() == mesh.tets@.len(),
        exists|x: Seq<Cx<Real>>| #[trigger]
            solves(s.at_wave(k0), x, s.source_of(k0, 0)) && (forall|i: int|
                0 <= i < mesh.tets@.len() ==> #[trigger] s.fields(mesh, k0)[i] == s.field_in(
                    mesh.nodes@,
                    mesh.tets@[i],
                    x,
                )) && forall|q: int| #[trigger]
                port_voltage(s, k0, q, 0) == voltage(
                    s.profile.perm@,
                    s.drives@[q]@,
                    s.ports@[q],
                    x,
                ),
{
    lemma_response_solves(s, k0, 0);
    assert(solves(s.at_wave(k0), s.response(k0, 0), s.source_of(k0, 0)));
}

proof fn lemma_double(a: real)
    ensures
        a * 2real == a + a,
{
    real_distribute(a, 1real, 1real);
    real_mul_one(a);
}

// ---------------------------------------------------------------- currents and voltages

/// The right hand side of a port is the current of one ampere through it: against any
/// field it works at the voltage of the port, times the imaginary unit, the wave number
/// and the wave impedance of vacuum.
pub proof fn lemma_unit_current(s: System<Real>, k0: Real, p: int, x: Seq<Cx<Real>>)
    requires
        s.wf(),
        0 <= p < s.ports@.len(),
    ensures
        pairing(s.source_of(k0, p), x, s.frame.n as int) == (Cx {
            re: Real { v: 0real },
            im: k0 * Real::constants().eta0,
        }) * voltage(s.profile.perm@, s.drives@[p]@, s.ports@[p], x),
{
    let eta0 = Real::constants().eta0;
    let (port, drive, perm) = (s.ports@[p], s.drives@[p]@, s.profile.perm@);
    assert(port.is_sheet());
    real_quotient_nonzero(port.area.v, port.h.v);
    lemma_drive_fits(s, p);
    lemma_source_pairing(
        s.frame.n as nat,
        perm,
        drive,
        k0,
        eta0,
        port.w,
        x,
        drive.len(),
    );
    let f = field_integral(perm, drive, x, drive.len());
    let kappa = -k0.v * eta0.v;
    real_mul_neg(k0.v, eta0.v);
    lemma_inverse_width(kappa, port.h.v, port.area.v, f.re.v);
    lemma_inverse_width(kappa, port.h.v, port.area.v, f.im.v);
    let v = voltage(perm, drive, port, x);
    real_mul_neg(k0.v * eta0.v, v.re.v);
    real_mul_neg(k0.v * eta0.v, v.im.v);
    real_mul_zero(f.re.v);
    real_mul_zero(f.im.v);
    real_mul_zero(v.re.v);
    real_mul_zero(v.im.v);
}

/// A triangle of port `p` agrees with a uniform field.
pub open spec fn sheet_agrees(
    s: System<Real>,
    nodes: Seq<V3<Real>>,
    t: Tri,
    p: int,
    x: Seq<Cx<Real>>,
    e: V3<Cx<Real>>,
) -> bool {
    port_agrees(s.frame@, s.profile.perm@, nodes, t, s.ports@[p].dir, x, e)
}

/// The voltage of a port in a uniform field is the component of the field against the
/// direction of the port, times the extent of the sheet along the direction.
pub proof fn lemma_uniform_voltage(
    deck: DeckModel<Real>,
    mesh: Mesh<Real>,
    s: System<Real>,
    p: int,
    x: Seq<Cx<Real>>,
    e: V3<Cx<Real>>,
)
    requires
        system_model(deck, mesh) matches Ok(m) && s.matches(m),
        s.wf(),
        0 <= p < s.ports@.len(),
        deck.ports.len() <= usize::MAX,
        forall|i: int|
            0 <= i < mesh.tris@.len() && on_port(
                #[trigger] mesh.tris@[i],
                s.groups.ports@,
                p as usize,
            ) ==> sheet_agrees(s, mesh.nodes@, mesh.tris@[i], p, x, e),
    ensures
        voltage(s.profile.perm@, s.drives@[p]@, s.ports@[p], x) == along(
            e,
            s.ports@[p].dir,
        ).scaled(-s.ports@[p].h),
{
    let m = system_model(deck, mesh)->Ok_0;
    let port = s.ports@[p];
    let groups = s.groups.ports@;
    let (nodes, tris) = (mesh.nodes@, mesh.tris@);
    lemma_shapes(nodes, tris, groups, deck, deck.ports.len(), p);
    assert(s.drives@[p]@ == m.drives[p]);
    assert forall|i: int|
        0 <= i < tris.len() && on_port(#[trigger] tris[i], groups, p as usize) implies port_agrees(
        s.frame@,
        s.profile.perm@,
        nodes,
        tris[i],
        port.dir,
        x,
        e,
    ) by {
        assert(sheet_agrees(s, nodes, tris[i], p, x, e));
    }
    lemma_uniform_integral(
        s.frame@,
        s.profile.perm@,
        nodes,
        tris,
        groups,
        p as usize,
        port.dir,
        x,
        e,
    );
    assert(port.is_sheet());
    let a = along(e, port.dir);
    let q = -port.h.v / port.area.v;
    real_quotient(-port.h.v, port.area.v);
    real_mul_assoc(a.re.v, port.area.v, q);
    real_mul_assoc(a.im.v, port.area.v, q);
}

/// The area of a port sheet is that of its triangles.
proof fn lemma_shapes(
    nodes: Seq<V3<Real>>,
    tris: Seq<Tri>,
    groups: Seq<Option<usize>>,
    deck: DeckModel<Real>,
    n: nat,
    p: int,
)
    requires
        n <= deck.ports.len() <= usize::MAX,
        port_shapes(nodes, tris, groups, deck.ports, n) is Ok,
        0 <= p < port_shapes(nodes, tris, groups, deck.ports, n)->Ok_0.len(),
    ensures
        port_shapes(nodes, tris, groups, deck.ports, n)->Ok_0.len() == n,
        port_shapes(nodes, tris, groups, deck.ports, n)->Ok_0[p].area == port_area(
            nodes,
            tris,
            groups,
            p as usize,
            tris.len(),
        ),
    decreases n,
{
    if n > 0 {
        let before = port_shapes(nodes, tris, groups, deck.ports, (n - 1) as nat)->Ok_0;
        if before.len() > 0 {
            lemma_shapes(
                nodes,
                tris,
                groups,
                deck,
                (n - 1) as nat,
                if p < before.len() {
                    p
                } else {
                    0
                },
            );
        }
    }
}

} // verus!
