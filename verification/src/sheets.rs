//! What the sheets on surfaces and the stretch of coordinates are, in exact arithmetic:
//! a port is a resistor of its reference impedance, an absorbing boundary has the wave
//! admittance of the medium in front of it, a conductor its surface impedance, and each
//! coordinate answers to its own stretch.

use crate::accuracy::lemma_cancel;
use crate::alike::lemma_is_last;
use crate::assembly::{absorbing_sheet, metal_sheet, port_sheet, sheet_of, Sheet};
use crate::complex::{is_real_root, lemma_complex_division, lemma_complex_ring, Real};
use crate::deck::DeckModel;
use crate::edges::touching;
use crate::exact::{law_exact_division, law_mul_assoc, law_mul_comm, law_mul_zero};
use crate::groups::{medium_of, stretch_tensor, Assignment, Medium, ModelError, Role};
use crate::msh::{last_index, lemma_last_index, Tet, Tri};
use crate::ports::PortShape;
use crate::reals::{
    real_mul_assoc, real_mul_comm, real_mul_neg, real_mul_one, real_mul_zero, real_no_divisors,
    real_quotient, real_quotient_nonzero, real_swap,
};
use crate::roots::{has_roots, lemma_principal_root};
use crate::scalar::{Algebra, Cx, Number, V3};
use vstd::prelude::*;

verus! {

// ---------------------------------------------------------------- stretch

/// A stretched coordinate: one, less the imaginary unit times the stretch.
pub open spec fn stretched(a: Real) -> Cx<Real> {
    Cx { re: Real { v: 1real }, im: Real { v: -a.v } }
}

proof fn lemma_stretched(a: Real)
    ensures
        stretched(a) != Cx::<Real>::zero(),
{
    assert(stretched(a).re != Cx::<Real>::zero().re);
}

/// Two components of a tensor and the coordinate that they share.
proof fn lemma_pair_of_components(
    x: Cx<Real>,
    y: Cx<Real>,
    z: Cx<Real>,
    ly: Cx<Real>,
    lz: Cx<Real>,
)
    requires
        y != Cx::<Real>::zero(),
        z != Cx::<Real>::zero(),
        ly * y == x * z,
        lz * z == x * y,
    ensures
        ly * lz == x * x,
{
    lemma_complex_ring();
    lemma_complex_division();
    // (y z) (ly lz) = (ly y) (lz z) = (x z) (x y) = (y z) (x x)
    let w = y * z;
    assert(w * (ly * lz) == (ly * y) * (lz * z)) by {
        lemma_regroup(y, z, ly, lz);
    }
    assert(w * (x * x) == (x * z) * (x * y)) by {
        lemma_regroup(y, z, x, x);
        law_mul_comm(x * y, x * z);
    }
    assert(w != Cx::<Real>::zero()) by {
        if w == Cx::<Real>::zero() {
            law_mul_zero(y);
            lemma_cancel(y, z, Cx::<Real>::zero());
        }
    }
    lemma_cancel(w, ly * lz, x * x);
}

proof fn lemma_regroup(y: Cx<Real>, z: Cx<Real>, p: Cx<Real>, q: Cx<Real>)
    ensures
        (y * z) * (p * q) == (p * y) * (q * z),
{
    lemma_complex_ring();
    law_mul_assoc(y, z, p * q);
    law_mul_assoc(z, p, q);
    law_mul_comm(z, p);
    law_mul_assoc(p, z, q);
    law_mul_comm(z, q);
    law_mul_assoc(y, p, q * z);
    law_mul_comm(y, p);
}

/// Each coordinate answers to its own stretch: the components of the tensor that a
/// stretch of the coordinates gives, times the coordinate that belongs to the component,
/// are the product of the other two, and the product of two components is the square of
/// the coordinate that belongs to the third.
pub proof fn lemma_stretch(a: V3<Real>)
    ensures
        stretch_tensor(a).x * stretched(a.x) == stretched(a.y) * stretched(a.z),
        stretch_tensor(a).y * stretched(a.y) == stretched(a.x) * stretched(a.z),
        stretch_tensor(a).z * stretched(a.z) == stretched(a.x) * stretched(a.y),
        stretch_tensor(a).y * stretch_tensor(a).z == stretched(a.x) * stretched(a.x),
        stretch_tensor(a).x * stretch_tensor(a).z == stretched(a.y) * stretched(a.y),
        stretch_tensor(a).x * stretch_tensor(a).y == stretched(a.z) * stretched(a.z),
{
    lemma_complex_ring();
    lemma_complex_division();
    let (x, y, z) = (stretched(a.x), stretched(a.y), stretched(a.z));
    let l = stretch_tensor(a);
    lemma_stretched(a.x);
    lemma_stretched(a.y);
    lemma_stretched(a.z);
    law_exact_division(y * z, x);
    law_exact_division(x * z, y);
    law_exact_division(x * y, z);
    lemma_pair_of_components(x, y, z, l.y, l.z);
    law_mul_comm(x, y);
    lemma_pair_of_components(y, x, z, l.x, l.z);
    law_mul_comm(y, z);
    law_mul_comm(x, z);
    lemma_pair_of_components(z, x, y, l.x, l.y);
}

/// Exchanging two coordinates of the stretch exchanges the same two components of the
/// tensor.
pub proof fn lemma_stretch_exchanged(a: V3<Real>)
    ensures
        ({
            let (l, m) = (stretch_tensor(a), stretch_tensor(V3 { x: a.y, y: a.x, z: a.z }));
            m.x == l.y && m.y == l.x && m.z == l.z
        }),
        ({
            let (l, m) = (stretch_tensor(a), stretch_tensor(V3 { x: a.x, y: a.z, z: a.y }));
            m.x == l.x && m.y == l.z && m.z == l.y
        }),
{
    lemma_complex_ring();
    let (x, y, z) = (stretched(a.x), stretched(a.y), stretched(a.z));
    law_mul_comm(x, y);
    law_mul_comm(y, z);
}

// ---------------------------------------------------------------- media

/// The last card of a list names the group.
pub open spec fn named_last(groups: Seq<usize>, k: int, g: usize) -> bool {
    &&& 0 <= k < groups.len()
    &&& groups[k] == g
    &&& forall|j: int| k < j < groups.len() ==> #[trigger] groups[j] != g
}

/// What fills a group is what the last material card for it says: the permittivity with
/// the loss tangent as the part that lags, the permeability and the conductivity. Without
/// a card it is vacuum. The last card for a stretch gives the tensor.
pub proof fn lemma_medium(deck: DeckModel<Real>, a: Assignment, g: usize)
    ensures
        forall|k: int| #[trigger]
            named_last(a.mats, k, g) ==> {
                let (m, card) = (medium_of(deck, a, g), deck.mats[k].1);
                &&& m.eps.re == card.eps
                &&& m.eps.im.v + card.eps.v * card.tand.v == 0real
                &&& m.mur == card.mur
                &&& m.sigma == card.sigma
            },
        !a.mats.contains(g) ==> {
            let m = medium_of(deck, a, g);
            &&& m.eps == Cx::<Real>::one()
            &&& m.mur.v == 1real
            &&& m.sigma.v == 0real
        },
        forall|k: int| #[trigger]
            named_last(a.pmls, k, g) ==> {
                let (l, s) = (medium_of(deck, a, g).tensor, deck.pmls[k].1);
                &&& l.x * stretched(s.x) == stretched(s.y) * stretched(s.z)
                &&& l.y * stretched(s.y) == stretched(s.x) * stretched(s.z)
                &&& l.z * stretched(s.z) == stretched(s.x) * stretched(s.y)
            },
        !a.pmls.contains(g) ==> {
            let l = medium_of(deck, a, g).tensor;
            l.x == Cx::<Real>::one() && l.y == Cx::<Real>::one() && l.z == Cx::<Real>::one()
        },
{
    assert forall|k: int| #[trigger] named_last(a.mats, k, g) implies {
        let (m, card) = (medium_of(deck, a, g), deck.mats[k].1);
        &&& m.eps.re == card.eps
        &&& m.eps.im.v + card.eps.v * card.tand.v == 0real
        &&& m.mur == card.mur
        &&& m.sigma == card.sigma
    } by {
        lemma_is_last(a.mats, g, k);
        let card = deck.mats[k].1;
        real_mul_neg(card.eps.v, card.tand.v);
    }
    lemma_last_index(a.mats, g);
    if last_index(a.mats, g) is Some {
        assert(a.mats.contains(g));
    }
    real_mul_zero(-1real);
    assert forall|k: int| #[trigger] named_last(a.pmls, k, g) implies {
        let (l, s) = (medium_of(deck, a, g).tensor, deck.pmls[k].1);
        &&& l.x * stretched(s.x) == stretched(s.y) * stretched(s.z)
        &&& l.y * stretched(s.y) == stretched(s.x) * stretched(s.z)
        &&& l.z * stretched(s.z) == stretched(s.x) * stretched(s.y)
    } by {
        lemma_is_last(a.pmls, g, k);
        lemma_stretch(deck.pmls[k].1);
    }
    lemma_last_index(a.pmls, g);
    if last_index(a.pmls, g) is Some {
        assert(a.pmls.contains(g));
    }
}

// ---------------------------------------------------------------- sheets

/// The voltage across a port in a uniform field `e` along its direction.
pub open spec fn voltage_across(p: PortShape<Real>, e: real) -> real {
    e * p.h.v
}

/// The current through a port sheet in a uniform field `e` along the direction of the
/// port, times the wave impedance of vacuum.
pub open spec fn current_through(s: Sheet<Real>, p: PortShape<Real>, e: real) -> real {
    (s.b.re.v * e) * p.w.v
}

/// The sheet is a resistor of `z0` across the port: a uniform field `e` along the
/// direction, which is the voltage `e h`, drives through it the current
/// `e w` over the sheet impedance, and the voltage is `z0` times the current. Its
/// coefficient is the wave impedance of vacuum over the sheet impedance.
pub open spec fn is_resistor(s: Sheet<Real>, p: PortShape<Real>) -> bool {
    let eta0 = Real::constants().eta0.v;
    &&& forall|e: real| #[trigger]
        voltage_across(p, e) * eta0 == p.z0.v * current_through(s, p, e)
    &&& s.b.re.v * p.z0.v * p.w.v == eta0 * p.h.v
    &&& s.b.im.v == 0real
    &&& s.w == Cx::<Real>::zero()
}

/// A port sheet is a resistor of the reference impedance of the port.
pub proof fn lemma_port_sheet(p: PortShape<Real>)
    requires
        p.is_sheet(),
        0real < p.z0.v,
    ensures
        is_resistor(port_sheet(p), p),
{
    let eta0 = Real::constants().eta0.v;
    let (z, w, h) = (p.z0.v, p.w.v, p.h.v);
    real_quotient_nonzero(p.area.v, h);
    real_no_divisors(z, w);
    let y = port_sheet(p).b.re.v;
    real_quotient(eta0 * h, z * w);
    real_mul_assoc(y, z, w);
    assert forall|e: real| #[trigger]
        voltage_across(p, e) * eta0 == z * current_through(port_sheet(p), p, e) by {
        // z ((y e) w) = ((y e) w) z = (((y z) w) e) = (eta0 h) e
        real_mul_comm(z, (y * e) * w);
        real_swap(y * e, w, z);
        real_swap(y, e, z);
        real_swap(y * z, e, w);
        real_mul_comm((y * z) * w, e);
        real_mul_comm(eta0, h);
        real_mul_assoc(e, h, eta0);
    }
}

/// The sheet has the wave admittance of the medium, relative to vacuum: its square times
/// the permeability is the permittivity, and its real part is not negative.
pub open spec fn is_matched(s: Sheet<Real>, m: Medium<Real>) -> bool {
    &&& (s.b * s.b).scaled(m.mur) == m.eps
    &&& 0real <= s.b.re.v
    &&& s.w == Cx::<Real>::zero()
}

/// An absorbing boundary has the wave admittance of the medium in front of it.
pub proof fn lemma_absorbing_sheet(m: Medium<Real>)
    requires
        0real < m.mur.v,
        has_roots(m.eps.scaled(Real::one().over(m.mur))),
    ensures
        is_matched(absorbing_sheet(m), m),
{
    let q = Real::one().over(m.mur);
    lemma_principal_root(m.eps.scaled(q));
    real_quotient(1real, m.mur.v);
    real_mul_assoc(m.eps.re.v, q.v, m.mur.v);
    real_mul_assoc(m.eps.im.v, q.v, m.mur.v);
    real_mul_one(m.eps.re.v);
    real_mul_one(m.eps.im.v);
}

/// The sheet of a good conductor: the square of its coefficient is the imaginary unit
/// times the conductivity times the wave impedance of vacuum.
pub open spec fn is_conductor(s: Sheet<Real>, sigma: Real) -> bool {
    &&& s.w * s.w == (Cx { re: Real { v: 0real }, im: sigma * Real::constants().eta0 })
    &&& 0real <= s.w.re.v
    &&& s.b == Cx::<Real>::zero()
}

pub proof fn lemma_metal_sheet(sigma: Real)
    requires
        is_real_root(
            (sigma * Real::constants().eta0).over(Real { v: 2real }).v,
            (sigma * Real::constants().eta0).over(Real { v: 2real }).root().v,
        ),
    ensures
        is_conductor(metal_sheet(sigma), sigma),
{
    assert(Real::number(2).v == 2real);
    real_quotient((sigma * Real::constants().eta0).v, 2real);
}

/// What lies on a triangle. A port goes before a boundary and is a resistor; an
/// absorbing boundary is matched to the last tetrahedron that has the triangle for a
/// face, and refused where there is none; a conductor has its surface impedance; a
/// perfect conductor and a natural boundary carry nothing.
pub proof fn lemma_sheet_of(
    tets: Seq<Tet>,
    media: Seq<Medium<Real>>,
    roles: Seq<Role<Real>>,
    groups: Seq<Option<usize>>,
    ports: Seq<PortShape<Real>>,
    t: Tri,
)
    requires
        forall|k: int| 0 <= k < ports.len() ==> (#[trigger] ports[k]).is_sheet(),
        forall|k: int| 0 <= k < ports.len() ==> 0real < (#[trigger] ports[k]).z0.v,
        forall|k: int| 0 <= k < media.len() ==> 0real < (#[trigger] media[k]).mur.v,
        forall|k: int|
            0 <= k < media.len() ==> has_roots(
                (#[trigger] media[k]).eps.scaled(Real::one().over(media[k].mur)),
            ),
        forall|k: int| 0 <= k < tets.len() ==> (#[trigger] tets[k]).group < media.len(),
        groups[t.group as int] matches Some(p) ==> p < ports.len(),
        roles[t.group as int] matches Role::Metal(sigma) ==> is_real_root(
            (sigma * Real::constants().eta0).over(Real { v: 2real }).v,
            (sigma * Real::constants().eta0).over(Real { v: 2real }).root().v,
        ),
    ensures
        match (sheet_of(tets, media, roles, groups, ports, t), groups[t.group as int]) {
            (r, Some(p)) => r matches Ok(Some(s)) && is_resistor(s, ports[p as int]),
            (r, None) => match roles[t.group as int] {
                Role::Natural => r matches Ok(None),
                Role::Pec => r matches Ok(None),
                Role::Metal(sigma) => r matches Ok(Some(s)) && is_conductor(s, sigma),
                Role::Abc => match r {
                    Ok(Some(s)) => exists|k: int|
                        0 <= k < tets.len() && (#[trigger] tets[k]).has_face(t) && (forall|j: int|
                            k < j < tets.len() ==> !(#[trigger] tets[j]).has_face(t)) && is_matched(
                            s,
                            media[tets[k].group as int],
                        ),
                    Ok(None) => false,
                    Err(e) => e == ModelError::Mismatch && forall|k: int|
                        0 <= k < tets.len() ==> !(#[trigger] tets[k]).has_face(t),
                },
            },
        },
{
    match groups[t.group as int] {
        Some(p) => {
            lemma_port_sheet(ports[p as int]);
        },
        None => {
            match roles[t.group as int] {
                Role::Metal(sigma) => {
                    lemma_metal_sheet(sigma);
                },
                Role::Abc => {
                    lemma_touching_last(tets, t, tets.len());
                    match touching(tets, t, tets.len()) {
                        Some(k) => {
                            assert(tets[k].group < media.len());
                            lemma_absorbing_sheet(media[tets[k].group as int]);
                        },
                        None => {},
                    }
                },
                _ => {},
            }
        },
    }
}

proof fn lemma_touching_last(tets: Seq<Tet>, t: Tri, n: nat)
    requires
        n <= tets.len(),
    ensures
        match touching(tets, t, n) {
            Some(k) => 0 <= k < n && tets[k].has_face(t) && forall|j: int|
                k < j < n ==> !(#[trigger] tets[j]).has_face(t),
            None => forall|j: int| 0 <= j < n ==> !(#[trigger] tets[j]).has_face(t),
        },
    decreases n,
{
    if n > 0 {
        lemma_touching_last(tets, t, (n - 1) as nat);
    }
}

} // verus!
