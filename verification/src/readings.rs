//! What the derived port quantities are, in exact arithmetic: impedance and admittance
//! join the voltages and the currents at the ports, and a coil reads as itself.

use crate::complex::{is_real_root, lemma_complex_ring, real_root, Real};
use crate::derived::{
    admittance_of, dense, impedance_of, inductance_of, kronecker, lemma_dense, normalized,
    quality_of, reference, unit_vector,
};
use crate::exact::{
    law_mul_comm, law_mul_one, law_mul_zero, lemma_sum_same, lemma_sum_scale, lemma_sum_single, sum,
};
use crate::network::{
    convertible, lemma_dense_entry, lemma_impedance, lemma_inverse_column, lemma_packed_len,
    lemma_symmetric_pairing, normalized_column, pairing,
};
use crate::ports::PortShape;
use crate::reals::{
    real_cancel, real_distribute, real_mul_assoc, real_mul_comm, real_mul_one, real_mul_zero,
    real_no_divisors, real_product_nonnegative, real_quotient, real_quotient_nonzero,
    real_same_square, real_square_of_product,
};
use crate::scalar::{Algebra, Cx, Number};
use crate::skyline::Sky;
use vstd::prelude::*;

verus! {

// ---------------------------------------------------------------- rows

/// Column `p` of the inverse of a matrix.
spec fn inverse_column(m: Sky<Cx<Real>>, p: int) -> Seq<Cx<Real>> {
    Seq::new(m.n(), |j: int| m.factors().solution(unit_vector(m.n(), p), j))
}

proof fn lemma_picked(n: nat, p: int, x: Seq<Cx<Real>>)
    requires
        0 <= p < n,
    ensures
        pairing(unit_vector(n, p), x, n as int) == x[p],
{
    lemma_complex_ring();
    let unit = unit_vector::<Real>(n, p);
    let f = |i: int| unit[i] * x[i];
    assert forall|i: int| 0 <= i < n && i != p implies #[trigger] f(i) == Cx::<Real>::zero() by {
        law_mul_zero(x[i]);
    }
    lemma_sum_single(f, 0, n as int, p);
    law_mul_one(x[p]);
}

/// The inverse of a symmetric matrix is symmetric.
proof fn lemma_inverse_symmetric(m: Sky<Cx<Real>>, q: int, j: int)
    requires
        m.wf(),
        m.factors().invertible(),
        0 <= q < m.n(),
        0 <= j < m.n(),
    ensures
        normalized(m, Real { v: 2real }, q, j) == normalized(m, Real { v: 2real }, j, q),
{
    lemma_complex_ring();
    lemma_inverse_column(m, q);
    lemma_inverse_column(m, j);
    let (x, y) = (inverse_column(m, q), inverse_column(m, j));
    let (a, b) = (unit_vector::<Real>(m.n(), q), unit_vector::<Real>(m.n(), j));
    lemma_symmetric_pairing(m, x, a, y, b);
    lemma_picked(m.n(), j, x);
    lemma_picked(m.n(), q, y);
    assert(x[j] == y[q]);
}

/// A row of the normalized matrix times a column of the matrix that was inverted.
proof fn lemma_normalized_row(columns: Seq<Seq<Cx<Real>>>, less: bool, q: int, p: int)
    requires
        convertible(columns, less),
        0 <= q < columns.len(),
        0 <= p < columns.len(),
    ensures
        sum(
            |j: int|
                normalized(dense(columns, less), Real { v: 2real }, q, j) * dense(
                    columns,
                    less,
                ).entry(j, p),
            0,
            columns.len() as int,
        ) == dense(columns, !less).entry(q, p),
{
    lemma_complex_ring();
    lemma_dense(columns, less);
    let m = dense(columns, less);
    let n = columns.len() as int;
    let z = normalized_column(m, q);
    let f = |j: int| normalized(m, Real { v: 2real }, q, j) * m.entry(j, p);
    let g = |j: int| m.entry(p, j) * z[j];
    assert forall|j: int| 0 <= j < n implies #[trigger] f(j) == g(j) by {
        lemma_inverse_symmetric(m, q, j);
        law_mul_comm(normalized(m, Real { v: 2real }, q, j), m.entry(j, p));
        assert(m.entry(j, p) == m.entry(p, j));
    }
    lemma_sum_same(f, g, 0, n);
    lemma_impedance(columns, less, p, q);
    assert(dense(columns, !less).entry(p, q) == dense(columns, !less).entry(q, p));
}

// ---------------------------------------------------------------- matrices

/// The scattering matrix of a reciprocal network, and the roots `r` of the reference
/// impedances of its ports.
pub open spec fn is_network(
    ports: Seq<PortShape<Real>>,
    columns: Seq<Seq<Cx<Real>>>,
    r: Seq<Real>,
) -> bool {
    &&& ports.len() == columns.len()
    &&& r.len() == columns.len()
    &&& forall|k: int|
        0 <= k < r.len() ==> 0real < (#[trigger] r[k]).v && r[k].v * r[k].v == ports[k].z0.v
    &&& forall|i: int, j: int|
        0 <= i < columns.len() && 0 <= j < columns.len() ==> #[trigger] columns[i][j]
            == columns[j][i]
}

/// The voltage at port `k` with a unit wave into port `p`: incident and scattered wave
/// together, times the root of the reference impedance.
pub open spec fn wave_voltage(columns: Seq<Seq<Cx<Real>>>, r: Seq<Real>, k: int, p: int) -> Cx<
    Real,
> {
    (kronecker::<Real>(k == p) + columns[p][k]).scaled(r[k])
}

/// The current into port `k` with a unit wave into port `p`: the incident less the
/// scattered wave, over the root of the reference impedance.
pub open spec fn wave_current(columns: Seq<Seq<Cx<Real>>>, r: Seq<Real>, k: int, p: int) -> Cx<
    Real,
> {
    (kronecker::<Real>(k == p) - columns[p][k]).scaled(Real { v: 1real / r[k].v })
}

proof fn lemma_reference(
    ports: Seq<PortShape<Real>>,
    columns: Seq<Seq<Cx<Real>>>,
    r: Seq<Real>,
    q: int,
    j: int,
)
    requires
        is_network(ports, columns, r),
        0 <= q < r.len(),
        0 <= j < r.len(),
    ensures
        reference(ports, q, j).v == r[q].v * r[j].v,
        r[q].v * r[j].v != 0real,
{
    let (a, b) = (r[q].v, r[j].v);
    assert(a * a == ports[q].z0.v && b * b == ports[j].z0.v);
    real_square_of_product(a, b);
    real_product_nonnegative(a, b);
    let x = ports[q].z0.v * ports[j].z0.v;
    assert(is_real_root(x, a * b));
    assert(is_real_root(x, real_root(x)));
    real_same_square(real_root(x), a * b);
    real_no_divisors(a, b);
}

proof fn lemma_scaled_product(a: Cx<Real>, b: Cx<Real>, s: Real, t: Real, u: Real)
    requires
        s.v * t.v == u.v,
    ensures
        a.scaled(s) * b.scaled(t) == (Cx { re: u, im: Real { v: 0real } }) * (a * b),
{
    let (p, q, r, w) = (a.re.v, a.im.v, b.re.v, b.im.v);
    lemma_pair(p, r, s.v, t.v, u.v);
    lemma_pair(q, w, s.v, t.v, u.v);
    lemma_pair(p, w, s.v, t.v, u.v);
    lemma_pair(q, r, s.v, t.v, u.v);
    real_distribute(u.v, p * r, q * w);
    real_distribute(u.v, p * w, q * r);
    real_mul_zero(p * r - q * w);
    real_mul_zero(p * w + q * r);
}

proof fn lemma_pair(p: real, r: real, s: real, t: real, u: real)
    requires
        s * t == u,
    ensures
        (p * s) * (r * t) == u * (p * r),
{
    real_mul_assoc(p, s, r * t);
    real_mul_assoc(s, r, t);
    real_mul_comm(s, r);
    real_mul_assoc(r, s, t);
    real_mul_assoc(p, r, u);
    real_mul_comm(p * r, u);
}

proof fn lemma_scaled_is_product(z: Cx<Real>, u: Real)
    ensures
        (Cx { re: u, im: Real { v: 0real } }) * z == z.scaled(u),
{
    real_mul_comm(u.v, z.re.v);
    real_mul_comm(u.v, z.im.v);
    real_mul_zero(z.re.v);
    real_mul_zero(z.im.v);
}

/// The impedance matrix takes the currents at the ports to the voltages: with a unit wave
/// into port `p`, the impedances of port `q` times the currents into all ports add up to
/// the voltage at port `q`.
pub proof fn lemma_impedances(
    ports: Seq<PortShape<Real>>,
    columns: Seq<Seq<Cx<Real>>>,
    r: Seq<Real>,
    q: int,
    p: int,
)
    requires
        convertible(columns, true),
        is_network(ports, columns, r),
        0 <= q < columns.len(),
        0 <= p < columns.len(),
    ensures
        sum(
            |j: int| impedance_of(ports, columns, q, j) * wave_current(columns, r, j, p),
            0,
            columns.len() as int,
        ) == wave_voltage(columns, r, q, p),
{
    lemma_complex_ring();
    let n = columns.len() as int;
    let m = dense(columns, true);
    let c = Cx { re: r[q], im: Real { v: 0real } };
    let f = |j: int| normalized(m, Real { v: 2real }, q, j) * m.entry(j, p);
    let g = |j: int| impedance_of(ports, columns, q, j) * wave_current(columns, r, j, p);
    assert(Real::number(2).v == 2real);
    assert(r[q].v > 0real);
    assert forall|j: int| 0 <= j < n implies #[trigger] g(j) == c * f(j) by {
        assert(r[j].v > 0real);
        lemma_reference(ports, columns, r, q, j);
        lemma_dense_entry(columns, true, j, p);
        assert(columns[p][j] == columns[j][p]);
        let t = Real { v: 1real / r[j].v };
        real_quotient(1real, r[j].v);
        real_mul_assoc(r[q].v, r[j].v, t.v);
        real_mul_one(r[q].v);
        lemma_scaled_product(
            normalized(m, Real { v: 2real }, q, j),
            m.entry(j, p),
            reference(ports, q, j),
            t,
            r[q],
        );
    }
    lemma_sum_same(g, |j: int| c * f(j), 0, n);
    lemma_sum_scale(c, f, 0, n);
    lemma_normalized_row(columns, true, q, p);
    lemma_packed_len(columns, columns.len());
    lemma_dense_entry(columns, false, q, p);
    assert(columns[p][q] == columns[q][p]);
    lemma_scaled_is_product(dense(columns, false).entry(q, p), r[q]);
}

/// The admittance matrix takes the voltages at the ports to the currents.
pub proof fn lemma_admittances(
    ports: Seq<PortShape<Real>>,
    columns: Seq<Seq<Cx<Real>>>,
    r: Seq<Real>,
    q: int,
    p: int,
)
    requires
        convertible(columns, false),
        is_network(ports, columns, r),
        0 <= q < columns.len(),
        0 <= p < columns.len(),
    ensures
        sum(
            |j: int| admittance_of(ports, columns, q, j) * wave_voltage(columns, r, j, p),
            0,
            columns.len() as int,
        ) == wave_current(columns, r, q, p),
{
    lemma_complex_ring();
    let n = columns.len() as int;
    let m = dense(columns, false);
    let u = Real { v: 1real / r[q].v };
    let c = Cx { re: u, im: Real { v: 0real } };
    let f = |j: int| normalized(m, Real { v: 2real }, q, j) * m.entry(j, p);
    let g = |j: int| admittance_of(ports, columns, q, j) * wave_voltage(columns, r, j, p);
    assert(Real::number(2).v == 2real);
    assert(r[q].v > 0real);
    assert forall|j: int| 0 <= j < n implies #[trigger] g(j) == c * f(j) by {
        assert(r[j].v > 0real);
        lemma_reference(ports, columns, r, q, j);
        lemma_dense_entry(columns, false, j, p);
        assert(columns[p][j] == columns[j][p]);
        let (a, b) = (r[q].v, r[j].v);
        let s = Real { v: 1real / (a * b) };
        // a ((s b)) = s (a b) = 1 = a u
        real_quotient(1real, a * b);
        real_quotient(1real, a);
        real_mul_comm(a, b);
        real_mul_assoc(s.v, b, a);
        real_mul_comm(s.v * b, a);
        real_cancel(a, s.v * b, u.v);
        lemma_scaled_product(
            normalized(m, Real { v: 2real }, q, j),
            m.entry(j, p),
            s,
            r[j],
            u,
        );
    }
    lemma_sum_same(g, |j: int| c * f(j), 0, n);
    lemma_sum_scale(c, f, 0, n);
    lemma_normalized_row(columns, false, q, p);
    lemma_packed_len(columns, columns.len());
    lemma_dense_entry(columns, true, q, p);
    assert(columns[p][q] == columns[q][p]);
    lemma_scaled_is_product(dense(columns, true).entry(q, p), u);
}

// ---------------------------------------------------------------- coils

/// A coil reads as itself: the impedance of an inductance in series with a resistance, at
/// any frequency, gives back the inductance, and the quality factor is the reactance over
/// the resistance.
pub proof fn lemma_coil(l: Real, res: Real, f: Real)
    requires
        f.v != 0real,
        res.v != 0real,
    ensures
        ({
            let x = Real { v: (Real::constants().two_pi.v * f.v) * l.v };
            let z = Cx { re: res, im: x };
            inductance_of(z, f) == l && quality_of(z).v * res.v == x.v
        }),
{
    let two_pi = Real::constants().two_pi.v;
    real_quotient_nonzero(6283185307179586477real, 1000000000000000000real);
    real_no_divisors(two_pi, f.v);
    let w = two_pi * f.v;
    real_quotient(w * l.v, w);
    real_cancel(w, (w * l.v) / w, l.v);
    real_quotient(w * l.v, res.v);
}

} // verus!
