//! What the coefficients of the matrix mean in exact arithmetic: conduction, the
//! skin effect and the stretch of coordinates.

use crate::assembly::metal_sheet;
use crate::complex::{is_real_root, real_root, Real};
use crate::element::{tet_mass, tet_part, TetShape};
use crate::groups::{stretch_tensor, unit_tensor, Medium};
use crate::reals::{
    real_cancel, real_distribute, real_mul_assoc, real_mul_comm, real_mul_neg, real_mul_one,
    real_mul_zero, real_no_divisors, real_product_nonnegative, real_quotient, real_same_square,
    real_square_of_product,
};
use crate::scalar::{Algebra, Cx, Number, V3};
use vstd::prelude::*;

verus! {

// ---------------------------------------------------------------- conduction

/// The medium with its conductivity turned into an imaginary part of the
/// permittivity at wave number `k0`.
pub open spec fn as_lossy_dielectric(m: Medium<Real>, k0: Real) -> Medium<Real> {
    let q = (Real::constants().eta0 * m.sigma).over(k0);
    Medium {
        eps: Cx { re: m.eps.re, im: m.eps.im - q },
        mur: m.mur,
        sigma: Real { v: 0real },
        tensor: m.tensor,
    }
}

/// A conductivity acts like a permittivity whose imaginary part falls with the
/// frequency: it adds to the matrix what the conduction current asks for, at every
/// wave number.
pub proof fn lemma_conduction(t: TetShape<Real>, m: Medium<Real>, k0: Real, i: int, j: int)
    requires
        k0.v != 0real,
    ensures
        tet_part(t, m, i, j).at_wave(k0) == tet_part(t, as_lossy_dielectric(m, k0), i, j).at_wave(
            k0,
        ),
{
    let eta = Real::constants().eta0.v;
    let s = eta * m.sigma.v;
    let k = k0.v;
    let q = s / k;
    let mass = tet_mass(t, m.tensor, i, j);
    let (x, y) = (mass.re.v, mass.im.v);
    let (er, ei) = (m.eps.re.v, m.eps.im.v);
    // The product with the permittivity, and what the conduction takes off it.
    real_distribute(y, ei, q);
    real_distribute(x, ei, q);
    let (re, im) = (er * x - ei * y, er * y + ei * x);
    assert(er * x - (ei - q) * y == re + q * y);
    assert(er * y + (ei - q) * x == im - q * x);
    let f = -k * k;
    real_distribute(f, re, q * y);
    real_distribute(f, im, q * x);
    // The square of the wave number times the quotient.
    real_quotient(s, k);
    real_mul_neg(k, k);
    lemma_square(k, q, s, y);
    lemma_square(k, q, s, x);
    real_mul_comm(f, q * y);
    real_mul_comm(f, q * x);
    real_mul_comm(f, re + q * y);
    real_mul_comm(f, im - q * x);
    real_mul_comm(f, re);
    real_mul_comm(f, im);
    // No conduction, no current.
    real_mul_zero(eta);
    real_mul_zero(x);
    real_mul_zero(y);
    real_mul_zero(k);
    real_mul_neg(y * s, k);
    real_mul_comm(y, s);
    real_mul_comm(x, s);
}

proof fn lemma_square(k: real, q: real, s: real, y: real)
    requires
        q * k == s,
        k * q == s,
    ensures
        (-k * k) * (q * y) == -((y * s) * k),
{
    let f = -k * k;
    real_mul_neg(k, k);
    real_mul_neg(k * k, q * y);
    real_mul_assoc(k, k, q * y);
    real_mul_assoc(k, q, y);
    real_mul_comm(k, s * y);
    real_mul_comm(s, y);
}

// ---------------------------------------------------------------- conductors

/// The impedance of a good conductor at wave number `k0`: a surface resistance that
/// grows with the square root of the frequency, and as much reactance.
pub open spec fn surface_impedance(sigma: Real, k0: Real) -> Cx<Real> {
    let r = (k0 * Real::constants().eta0).over(Real { v: 2real } * sigma).root();
    Cx { re: r, im: r }
}

/// The sheet of a conductor carries the impedance of the conductor: its coefficient,
/// times the square root of the wave number, times the surface impedance, is the
/// imaginary unit times the wave number times the wave impedance of vacuum.
pub proof fn lemma_skin_effect(sigma: Real, k0: Real)
    requires
        0real < sigma.v,
        0real < k0.v,
        is_real_root(k0.v, real_root(k0.v)),
        is_real_root(
            (sigma * Real::constants().eta0).over(Real { v: 2real }).v,
            (sigma * Real::constants().eta0).over(Real { v: 2real }).root().v,
        ),
        is_real_root(
            (k0 * Real::constants().eta0).over(Real { v: 2real } * sigma).v,
            (k0 * Real::constants().eta0).over(Real { v: 2real } * sigma).root().v,
        ),
    ensures
        metal_sheet(sigma).w.scaled(k0.root()) * surface_impedance(sigma, k0) == (Cx {
            re: Real { v: 0real },
            im: k0 * Real::constants().eta0,
        }),
{
    let eta = Real::constants().eta0.v;
    let (s, k) = (sigma.v, k0.v);
    assert(Real::number(2).v == 2real);
    let a = (s * eta) / 2real;
    let c = (k * eta) / (2real * s);
    let (r, q, z) = (real_root(a), real_root(k), real_root(c));
    // The product of the three roots is half of the wave number times the impedance.
    let g = (k * eta) / 2real;
    real_product_nonnegative(r, q);
    real_product_nonnegative(r * q, z);
    real_square_of_product(r * q, z);
    real_square_of_product(r, q);
    assert(0real <= eta) by {
        real_quotient(37673031346177066real, 100000000000000real);
    }
    real_product_nonnegative(k, eta);
    assert((a * k) * c == g * g) by {
        real_no_divisors(2real, s);
        real_quotient(s * eta, 2real);
        real_quotient(k * eta, 2real);
        real_quotient(k * eta, 2real * s);
        // (2 s) c = k eta = 2 g and 2 a = s eta
        real_mul_assoc(2real, s, c);
        real_cancel(2real, s * c, g);
        // (a k) c times 2 is (s eta) k c = (s c) (k eta) = g (2 g)
        real_mul_assoc(2real, a * k, c);
        real_mul_assoc(2real, a, k);
        real_mul_assoc(s, eta, k);
        real_mul_comm(eta, k);
        real_mul_assoc(s, k * eta, c);
        real_mul_comm(k * eta, c);
        real_mul_assoc(s, c, k * eta);
        real_mul_comm(2real, g);
        real_mul_assoc(g, g, 2real);
        real_mul_comm(g * g, 2real);
        real_cancel(2real, (a * k) * c, g * g);
    }
    real_same_square((r * q) * z, g);
    real_quotient(k * eta, 2real);
    let p = r * q;
    real_distribute(g, 1real, 1real);
    real_mul_one(g);
}

// ---------------------------------------------------------------- stretch

/// Where no coordinate is stretched, the tensor is the unit tensor.
pub proof fn lemma_no_stretch()
    ensures
        stretch_tensor(V3::<Real>::origin()) == unit_tensor::<Real>(),
{
    real_mul_one(1real);
    real_mul_zero(1real);
    real_mul_zero(0real);
    real_quotient(1real, 1real);
    real_quotient(0real, 1real);
    real_mul_one(1real / 1real);
    real_mul_one(0real / 1real);
}

} // verus!
