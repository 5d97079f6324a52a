//! What holds of the port quantities in exact arithmetic: scattering is reciprocal,
//! impedance and admittance belong to the scattering matrix and to each other.

use crate::accuracy::{
    lemma_complex_refined_solves, lemma_refined_solves, lemma_regular_is_solvable, solvable, solves,
};
use crate::complex::{lemma_complex_division, lemma_complex_ring, Real};
use crate::derived::{dense, kronecker, lemma_dense, normalized, packed, shifted, unit_vector};
use crate::exact::{
    law_add_zero, law_distribute, law_mul_assoc, law_mul_comm, law_mul_one, law_mul_zero,
    law_sub, lemma_sum_add, lemma_sum_same,
    lemma_sum_scale, lemma_sum_single, lemma_sum_swap, lemma_sum_zero, ring, sum,
};
use crate::ldl::lemma_solution_solves;
use crate::ports::PortShape;
use crate::rcm::is_permutation;
use crate::reals::{
    real_cancel, real_distribute, real_mul_assoc, real_mul_comm, real_mul_neg, real_mul_one,
    real_mul_zero,
    real_no_divisors, real_quotient, real_quotient_nonzero,
};
use crate::refine::{lemma_factors, regular, scales};
use crate::scalar::{Algebra, Cx, Number};
use crate::skyline::Sky;
use crate::system::{lemma_at_wave_wf, System};
use crate::sweep::{field_integral, scattered, source, voltage};
use vstd::prelude::*;

verus! {

/// The sum of the products of two vectors.
pub open spec fn pairing<A: Algebra>(a: Seq<A>, b: Seq<A>, n: int) -> A {
    sum(|i: int| a[i] * b[i], 0, n)
}

/// A symmetric matrix gives the same response either way: a first source seen by
/// the solution for a second one is the second seen by the solution for the first.
pub proof fn lemma_symmetric_pairing<A: Algebra>(
    m: Sky<A>,
    x: Seq<A>,
    a: Seq<A>,
    y: Seq<A>,
    b: Seq<A>,
)
    requires
        ring::<A>(),
        solves(m, x, a),
        solves(m, y, b),
    ensures
        pairing(b, x, m.n() as int) == pairing(a, y, m.n() as int),
{
    let n = m.n() as int;
    let cell = |i: int, j: int| (m.entry(i, j) * y[j]) * x[i];
    let rows = |i: int| sum(|j: int| cell(i, j), 0, n);
    let columns = |j: int| sum(|i: int| cell(i, j), 0, n);
    lemma_sum_swap(cell, 0, n, 0, n);
    let left = |i: int| b[i] * x[i];
    assert forall|i: int| 0 <= i < n implies #[trigger] left(i) == rows(i) by {
        let f = |j: int| m.entry(i, j) * y[j];
        assert(m.times(y, i) == b[i]);
        lemma_sum_scale(x[i], f, 0, n);
        law_mul_comm(sum(f, 0, n), x[i]);
        let g = |j: int| x[i] * f(j);
        let h = |j: int| cell(i, j);
        assert forall|j: int| 0 <= j < n implies #[trigger] g(j) == h(j) by {
            law_mul_comm(x[i], f(j));
        }
        lemma_sum_same(g, h, 0, n);
    }
    lemma_sum_same(left, rows, 0, n);
    let right = |j: int| a[j] * y[j];
    assert forall|j: int| 0 <= j < n implies #[trigger] columns(j) == right(j) by {
        let f = |i: int| m.entry(j, i) * x[i];
        assert(m.times(x, j) == a[j]);
        lemma_sum_scale(y[j], f, 0, n);
        law_mul_comm(a[j], y[j]);
        let g = |i: int| y[j] * f(i);
        let h = |i: int| cell(i, j);
        assert forall|i: int| 0 <= i < n implies #[trigger] g(i) == h(i) by {
            let e = m.entry(i, j);
            law_mul_assoc(y[j], e, x[i]);
            law_mul_comm(y[j], e);
        }
        lemma_sum_same(g, h, 0, n);
    }
    lemma_sum_same(columns, right, 0, n);
}

// ---------------------------------------------------------------- reciprocity

proof fn lemma_pairing_update<A: Algebra>(s: Seq<A>, x: Seq<A>, pos: int, v: A, n: int)
    requires
        ring::<A>(),
        0 <= pos < n,
        n == s.len(),
        s[pos] == A::zero(),
    ensures
        pairing(s.update(pos, v), x, n) == pairing(s, x, n) + v * x[pos],
{
    let t = s.update(pos, v);
    let old_terms = |i: int| s[i] * x[i];
    let extra = |i: int|
        if i == pos {
            v * x[pos]
        } else {
            A::zero()
        };
    let new_terms = |i: int| t[i] * x[i];
    let both = |i: int| old_terms(i) + extra(i);
    assert forall|i: int| 0 <= i < n implies #[trigger] new_terms(i) == both(i) by {
        if i == pos {
            law_mul_zero(x[pos]);
            law_add_zero(v * x[pos]);
        } else {
            law_add_zero(s[i] * x[i]);
        }
    }
    lemma_sum_same(new_terms, both, 0, n);
    lemma_sum_add(old_terms, extra, 0, n);
    lemma_sum_single(extra, 0, n, pos);
}

/// The unknowns of a drive are in range, and no two are the same.
pub open spec fn drive_fits(n: nat, drive: Seq<(usize, Real)>) -> bool {
    &&& forall|k: int| 0 <= k < drive.len() ==> (#[trigger] drive[k]).0 < n
    &&& forall|k: int, l: int|
        0 <= k < drive.len() && 0 <= l < drive.len() && k != l ==> (#[trigger] drive[k]).0 != (
        #[trigger] drive[l]).0
}

pub open spec fn current(k0: Real, eta0: Real, w: Real) -> Cx<Real> {
    Cx { re: Real { v: 0real }, im: (-k0 * eta0).over(w) }
}

proof fn lemma_current_term(k0: Real, eta0: Real, w: Real, c: Real, x: Cx<Real>)
    requires
        w.v != 0real,
    ensures
        (Cx { re: Real { v: 0real }, im: (-k0 * eta0 * c).over(w) }) * x == current(k0, eta0, w)
            * x.scaled(c),
{
    let k = -k0.v * eta0.v;
    let (p, q, cv, wv) = (x.re.v, x.im.v, c.v, w.v);
    let g = k / wv;
    let h = (k * cv) / wv;
    // The factor may be taken before or after the division.
    real_quotient(k, wv);
    real_quotient(k * cv, wv);
    real_mul_assoc(wv, g, cv);
    real_cancel(wv, h, g * cv);
    real_mul_zero(p);
    real_mul_zero(q);
    real_mul_zero(p * cv);
    real_mul_zero(q * cv);
    real_mul_assoc(g, cv, q);
    real_mul_comm(cv, q);
    real_mul_assoc(g, cv, p);
    real_mul_comm(cv, p);
}

pub proof fn lemma_source_pairing(
    n: nat,
    perm: Seq<usize>,
    drive: Seq<(usize, Real)>,
    k0: Real,
    eta0: Real,
    w: Real,
    x: Seq<Cx<Real>>,
    k: nat,
)
    requires
        is_permutation(n, perm),
        drive_fits(n, drive),
        k <= drive.len(),
        w.v != 0real,
    ensures
        source(n, perm, drive, k0, eta0, w, k).len() == n,
        forall|i: int|
            0 <= i < n && (forall|l: int| 0 <= l < k ==> perm[(#[trigger] drive[l]).0 as int] != i)
                ==> #[trigger] source(n, perm, drive, k0, eta0, w, k)[i] == Cx::<Real>::zero(),
        pairing(source(n, perm, drive, k0, eta0, w, k), x, n as int) == current(k0, eta0, w)
            * field_integral(perm, drive, x, k),
    decreases k,
{
    lemma_complex_ring();
    let j = current(k0, eta0, w);
    if k == 0 {
        let s = source(n, perm, drive, k0, eta0, w, 0);
        let f = |i: int| s[i] * x[i];
        assert forall|i: int| 0 <= i < n implies #[trigger] f(i) == Cx::<Real>::zero() by {
            law_mul_zero(x[i]);
        }
        lemma_sum_zero(f, 0, n as int);
        law_mul_zero(j);
    } else {
        let l = (k - 1) as nat;
        lemma_source_pairing(n, perm, drive, k0, eta0, w, x, l);
        let before = source(n, perm, drive, k0, eta0, w, l);
        let now = source(n, perm, drive, k0, eta0, w, k);
        let (d, c) = drive[k - 1];
        let pos = perm[d as int] as int;
        let v: Cx<Real> = Cx { re: Real { v: 0real }, im: (-k0 * eta0 * c).over(w) };
        assert(drive[k - 1].0 < n);
        assert(perm[d as int] < n);
        assert forall|m: int| 0 <= m < l implies perm[(#[trigger] drive[m]).0 as int] != pos by {
            assert(drive[m].0 != drive[k - 1].0);
            assert(drive[m].0 < n);
        }
        assert(before[pos] == Cx::<Real>::zero());
        lemma_pairing_update(before, x, pos, v, n as int);
        lemma_current_term(k0, eta0, w, c, x[pos]);
        law_distribute(j, field_integral(perm, drive, x, l), x[pos].scaled(c));
        assert forall|i: int|
            0 <= i < n && (forall|m: int| 0 <= m < k ==> perm[(#[trigger] drive[m]).0 as int]
                != i) implies #[trigger] now[i] == Cx::<Real>::zero() by {
            assert(perm[drive[k - 1].0 as int] != i);
            assert(before[i] == Cx::<Real>::zero());
        }
    }
}

/// Dividing by the width is multiplying by the extent over the area.
pub proof fn lemma_inverse_width(kappa: real, h: real, a: real, x: real)
    requires
        h != 0real,
        a != 0real,
    ensures
        (kappa / (a / h)) * x == -(kappa * (x * (-h / a))),
{
    let u = a / h;
    let r = -h / a;
    let f = kappa / u;
    real_quotient_nonzero(a, h);
    real_quotient(a, h);
    real_quotient(-h, a);
    real_quotient(kappa, u);
    // r * u == -1
    real_mul_assoc(r, u, h);
    real_mul_one(h);
    real_mul_neg(1real, h);
    real_mul_comm(h, r * u);
    real_mul_comm(h, -1real);
    real_cancel(h, r * u, -1real);
    // f == -(kappa * r)
    real_mul_assoc(kappa, r, u);
    real_mul_neg(kappa, 1real);
    real_mul_one(kappa);
    real_mul_neg(kappa * r, u);
    real_mul_comm(u, f);
    real_mul_comm(u, -(kappa * r));
    real_cancel(u, f, -(kappa * r));
    real_mul_neg(kappa * r, x);
    real_mul_assoc(kappa, r, x);
    real_mul_comm(r, x);
}

proof fn lemma_voltages(kappa: real, hp: real, ap: real, hq: real, aq: real, x: real, y: real)
    requires
        kappa != 0real,
        hp != 0real,
        ap != 0real,
        hq != 0real,
        aq != 0real,
        (kappa / (aq / hq)) * x == (kappa / (ap / hp)) * y,
    ensures
        x * (-hq / aq) == y * (-hp / ap),
{
    lemma_inverse_width(kappa, hq, aq, x);
    lemma_inverse_width(kappa, hp, ap, y);
    real_cancel(kappa, x * (-hq / aq), y * (-hp / ap));
}

/// The sheet of a port has an extent, an area, and the width that follows.
pub open spec fn sheet_fits(port: PortShape<Real>) -> bool {
    &&& port.h.v != 0real
    &&& port.area.v != 0real
    &&& port.w == port.area.over(port.h)
}

/// Scattering is reciprocal in exact arithmetic: what port `q` sees with port `p`
/// driven is what port `p` sees with port `q` driven. `gain` belongs to the two
/// reference impedances.
pub proof fn lemma_reciprocity(
    m: Sky<Cx<Real>>,
    d: Seq<Cx<Real>>,
    perm: Seq<usize>,
    drive_p: Seq<(usize, Real)>,
    drive_q: Seq<(usize, Real)>,
    p: PortShape<Real>,
    q: PortShape<Real>,
    k0: Real,
    eta0: Real,
    gain: Real,
    own: bool,
)
    requires
        solvable(m, d),
        is_permutation(m.n(), perm),
        drive_fits(m.n(), drive_p),
        drive_fits(m.n(), drive_q),
        sheet_fits(p),
        sheet_fits(q),
        k0.v != 0real,
        eta0.v != 0real,
    ensures
        ({
            let from_p = m.refined(
                d,
                source(m.n(), perm, drive_p, k0, eta0, p.w, drive_p.len()),
            );
            let from_q = m.refined(
                d,
                source(m.n(), perm, drive_q, k0, eta0, q.w, drive_q.len()),
            );
            scattered(voltage(perm, drive_q, q, from_p), gain, own) == scattered(
                voltage(perm, drive_p, p, from_q),
                gain,
                own,
            )
        }),
{
    lemma_complex_ring();
    lemma_complex_division();
    let n = m.n();
    let sp = source(n, perm, drive_p, k0, eta0, p.w, drive_p.len());
    let sq = source(n, perm, drive_q, k0, eta0, q.w, drive_q.len());
    let x = m.refined(d, sp);
    let y = m.refined(d, sq);
    let (hp, ap, hq, aq) = (p.h.v, p.area.v, q.h.v, q.area.v);
    real_quotient_nonzero(ap, hp);
    real_quotient_nonzero(aq, hq);
    lemma_refined_solves(m, d, sp);
    lemma_refined_solves(m, d, sq);
    lemma_symmetric_pairing(m, x, sp, y, sq);
    lemma_source_pairing(n, perm, drive_q, k0, eta0, q.w, x, drive_q.len());
    lemma_source_pairing(n, perm, drive_p, k0, eta0, p.w, y, drive_p.len());
    let a = field_integral(perm, drive_q, x, drive_q.len());
    let b = field_integral(perm, drive_p, y, drive_p.len());
    let kappa = -k0.v * eta0.v;
    real_no_divisors(-k0.v, eta0.v);
    let (jq, jp) = (current(k0, eta0, q.w), current(k0, eta0, p.w));
    assert(jq * a == jp * b);
    let (f, g) = (kappa / (aq / hq), kappa / (ap / hp));
    assert((jq * a).re.v == 0real * a.re.v - f * a.im.v);
    assert((jp * b).re.v == 0real * b.re.v - g * b.im.v);
    assert((jq * a).im.v == 0real * a.im.v + f * a.re.v);
    assert((jp * b).im.v == 0real * b.im.v + g * b.re.v);
    real_mul_zero(a.re.v);
    real_mul_zero(b.re.v);
    real_mul_zero(a.im.v);
    real_mul_zero(b.im.v);
    lemma_voltages(kappa, hp, ap, hq, aq, a.re.v, b.re.v);
    lemma_voltages(kappa, hp, ap, hq, aq, a.im.v, b.im.v);
}

/// Where the system can be solved, the unknowns with a port driven solve the system
/// of equations, in exact arithmetic.
pub proof fn lemma_response_solves(s: System<Real>, k0: Real, p: int)
    requires
        s.wf(),
        regular(s.at_wave(k0)),
    ensures
        solves(s.at_wave(k0), s.response(k0, p), s.source_of(k0, p)),
{
    lemma_at_wave_wf(s, k0);
    lemma_regular_is_solvable(s.at_wave(k0));
    lemma_complex_refined_solves(s.at_wave(k0), scales(s.at_wave(k0)), s.source_of(k0, p));
}

/// Where the system can be solved, its scattering parameters are reciprocal in exact
/// arithmetic.
pub proof fn lemma_scattering_reciprocal(s: System<Real>, k0: Real, p: int, q: int)
    requires
        s.wf(),
        0 <= p < s.ports@.len(),
        0 <= q < s.ports@.len(),
        k0.v != 0real,
        regular(s.at_wave(k0)),
    ensures
        s.scattering(k0, q, p) == s.scattering(k0, p, q),
{
    let m = s.at_wave(k0);
    lemma_at_wave_wf(s, k0);
    lemma_regular_is_solvable(m);
    let eta0 = Real::constants().eta0;
    assert(eta0.v != 0real) by {
        real_quotient_nonzero(37673031346177066real, 100000000000000real);
    }
    assert(s.ports@[p].is_sheet() && s.ports@[q].is_sheet());
    real_mul_comm(s.ports@[p].z0.v, s.ports@[q].z0.v);
    assert(drive_fits(m.n(), s.drives@[p]@)) by {
        lemma_drive_fits(s, p);
    }
    assert(drive_fits(m.n(), s.drives@[q]@)) by {
        lemma_drive_fits(s, q);
    }
    lemma_reciprocity(
        m,
        scales(m),
        s.profile.perm@,
        s.drives@[p]@,
        s.drives@[q]@,
        s.ports@[p],
        s.ports@[q],
        k0,
        eta0,
        s.gain(q, p),
        p == q,
    );
}

pub proof fn lemma_drive_fits(s: System<Real>, p: int)
    requires
        s.wf(),
        0 <= p < s.ports@.len(),
    ensures
        drive_fits(s.frame.n as nat, s.drives@[p]@),
{
    let drive = s.drives@[p]@;
    assert forall|k: int| 0 <= k < drive.len() implies (#[trigger] drive[k]).0 < s.frame.n by {
        assert(s.drives@[p]@[k].0 < s.frame.n);
    }
    assert forall|k: int, l: int|
        0 <= k < drive.len() && 0 <= l < drive.len() && k != l implies (#[trigger] drive[k]).0 != (
    #[trigger] drive[l]).0 by {
        if k < l {
            assert(s.drives@[p]@[k].0 != s.drives@[p]@[l].0);
        } else {
            assert(s.drives@[p]@[l].0 != s.drives@[p]@[k].0);
        }
    }
}

// ---------------------------------------------------------------- impedance

/// Row `k` of the unit matrix.
pub open spec fn unit_row<A: Algebra>(n: nat, k: int) -> Seq<A> {
    Seq::new(
        n,
        |i: int|
            if i == k {
                A::one()
            } else {
                A::zero()
            },
    )
}

/// Where a symmetric matrix has an inverse, only zero solves the homogeneous
/// system: `x` is column `k` of the inverse.
pub proof fn lemma_unique<A: Algebra>(m: Sky<A>, x: Seq<A>, u: Seq<A>, k: int)
    requires
        ring::<A>(),
        0 <= k < m.n(),
        solves(m, x, unit_row(m.n(), k)),
        forall|i: int| 0 <= i < m.n() ==> #[trigger] m.times(u, i) == A::zero(),
    ensures
        u[k] == A::zero(),
{
    let n = m.n() as int;
    let unit = unit_row::<A>(m.n(), k);
    let none = Seq::new(m.n(), |i: int| A::zero());
    assert(solves(m, u, none));
    lemma_symmetric_pairing(m, x, unit, u, none);
    let f = |i: int| none[i] * x[i];
    assert forall|i: int| 0 <= i < n implies #[trigger] f(i) == A::zero() by {
        law_mul_zero(x[i]);
    }
    lemma_sum_zero(f, 0, n);
    let g = |i: int| unit[i] * u[i];
    assert forall|i: int| 0 <= i < n && i != k implies #[trigger] g(i) == A::zero() by {
        law_mul_zero(u[i]);
    }
    lemma_sum_single(g, 0, n, k);
    law_mul_one(u[k]);
}

spec fn two() -> Real {
    Real { v: 2real }
}

/// The scattering matrix can be turned into an impedance or an admittance matrix.
pub open spec fn convertible(columns: Seq<Seq<Cx<Real>>>, less: bool) -> bool {
    &&& packed(columns, less, columns.len()).len() <= usize::MAX
    &&& dense(columns, less).factors().invertible()
}

pub proof fn lemma_dense_entry(columns: Seq<Seq<Cx<Real>>>, less: bool, i: int, j: int)
    requires
        packed(columns, less, columns.len()).len() <= usize::MAX,
        0 <= i < columns.len(),
        0 <= j < columns.len(),
    ensures
        dense(columns, less).entry(i, j) == shifted(
            if i <= j {
                columns[j][i]
            } else {
                columns[i][j]
            },
            i == j,
            less,
        ),
{
    lemma_dense(columns, less);
    if i <= j {
        assert(dense(columns, less).at(i, j) == shifted(columns[j][i], i == j, less));
    } else {
        assert(dense(columns, less).at(j, i) == shifted(columns[i][j], j == i, less));
    }
}

/// The sum of the entries of the unit matrix less and plus the scattering matrix.
proof fn lemma_both_entries(columns: Seq<Seq<Cx<Real>>>, less: bool, i: int, j: int)
    requires
        packed(columns, less, columns.len()).len() <= usize::MAX,
        packed(columns, !less, columns.len()).len() <= usize::MAX,
        0 <= i < columns.len(),
        0 <= j < columns.len(),
    ensures
        dense(columns, !less).entry(i, j) + dense(columns, less).entry(i, j) == kronecker::<Real>(
            i == j,
        ) + kronecker::<Real>(i == j),
{
    lemma_dense_entry(columns, less, i, j);
    lemma_dense_entry(columns, !less, i, j);
}

pub proof fn lemma_packed_len(columns: Seq<Seq<Cx<Real>>>, k: nat)
    ensures
        packed(columns, true, k).len() == packed(columns, false, k).len(),
    decreases k,
{
    if k > 0 {
        lemma_packed_len(columns, (k - 1) as nat);
    }
}

/// Column `p` of the inverse solves the system of column `p` of the unit matrix.
pub proof fn lemma_inverse_column(m: Sky<Cx<Real>>, p: int)
    requires
        m.wf(),
        m.factors().invertible(),
        0 <= p < m.n(),
    ensures
        solves(
            m,
            Seq::new(m.n(), |j: int| m.factors().solution(unit_vector(m.n(), p), j)),
            unit_vector(m.n(), p),
        ),
{
    lemma_complex_ring();
    lemma_complex_division();
    lemma_factors(m);
    let n = m.n() as int;
    let f = m.factors();
    let unit = unit_vector::<Real>(m.n(), p);
    let x = Seq::new(m.n(), |j: int| f.solution(unit, j));
    assert forall|i: int| 0 <= i < n implies #[trigger] m.times(x, i) == unit[i] by {
        lemma_solution_solves(m, f, unit, i);
        let by_solution = |j: int| m.entry(i, j) * (|k: int| f.solution(unit, k))(j);
        lemma_sum_same(by_solution, |j: int| m.entry(i, j) * x[j], 0, n);
    }
}

/// A row of a matrix times a column of the unit matrix is an entry.
proof fn lemma_times_unit(m: Sky<Cx<Real>>, i: int, p: int)
    requires
        0 <= p < m.n(),
    ensures
        m.times(unit_vector(m.n(), p), i) == m.entry(i, p),
{
    lemma_complex_ring();
    let n = m.n() as int;
    let unit = unit_vector::<Real>(m.n(), p);
    let f = |j: int| m.entry(i, j) * unit[j];
    assert forall|j: int| 0 <= j < n && j != p implies #[trigger] f(j) == Cx::<Real>::zero() by {
        law_mul_zero(m.entry(i, j));
    }
    lemma_sum_single(f, 0, n, p);
    law_mul_one(m.entry(i, p));
}

/// A row of a matrix times the sum of two vectors.
pub proof fn lemma_times_sum(
    m: Sky<Cx<Real>>,
    x: Seq<Cx<Real>>,
    y: Seq<Cx<Real>>,
    z: Seq<Cx<Real>>,
    i: int,
)
    requires
        forall|j: int| 0 <= j < m.n() ==> #[trigger] z[j] == x[j] + y[j],
    ensures
        m.times(z, i) == m.times(x, i) + m.times(y, i),
{
    lemma_complex_ring();
    let n = m.n() as int;
    let fx = |j: int| m.entry(i, j) * x[j];
    let fy = |j: int| m.entry(i, j) * y[j];
    let fz = |j: int| m.entry(i, j) * z[j];
    let both = |j: int| fx(j) + fy(j);
    assert forall|j: int| 0 <= j < n implies #[trigger] fz(j) == both(j) by {
        law_distribute(m.entry(i, j), x[j], y[j]);
        assert(z[j] == x[j] + y[j]);
    }
    lemma_sum_same(fz, both, 0, n);
    lemma_sum_add(fx, fy, 0, n);
}

/// Column `p` of a normalized matrix.
pub open spec fn normalized_column(m: Sky<Cx<Real>>, p: int) -> Seq<Cx<Real>> {
    Seq::new(m.n(), |j: int| normalized(m, Real { v: 2real }, j, p))
}

/// The normalized impedance matrix belongs to the scattering matrix: the unit
/// matrix less the scattering matrix, times the impedance matrix, is the unit matrix
/// plus the scattering matrix. With the signs exchanged the same holds of the
/// admittance matrix.
pub proof fn lemma_impedance(columns: Seq<Seq<Cx<Real>>>, less: bool, i: int, p: int)
    requires
        convertible(columns, less),
        0 <= i < columns.len(),
        0 <= p < columns.len(),
    ensures
        dense(columns, less).times(normalized_column(dense(columns, less), p), i) == dense(
            columns,
            !less,
        ).entry(i, p),
{
    lemma_complex_ring();
    lemma_packed_len(columns, columns.len());
    lemma_dense(columns, less);
    let m = dense(columns, less);
    let n = m.n() as int;
    let unit = unit_vector::<Real>(m.n(), p);
    let x = Seq::new(m.n(), |j: int| m.factors().solution(unit, j));
    let z = normalized_column(m, p);
    let double = Seq::new(m.n(), |j: int| x[j] + x[j]);
    lemma_inverse_column(m, p);
    assert forall|j: int| 0 <= j < n implies #[trigger] double[j] == z[j] + unit[j] by {
        let s = x[j].scaled(two());
        assert(s == x[j] + x[j]) by {
            let (a, b) = (x[j].re.v, x[j].im.v);
            real_distribute(a, 1real, 1real);
            real_distribute(b, 1real, 1real);
            real_mul_one(a);
            real_mul_one(b);
        }
        law_sub(s, unit[j]);
    }
    lemma_times_sum(m, z, unit, double, i);
    lemma_times_sum(m, x, x, double, i);
    lemma_times_unit(m, i, p);
    assert(m.times(x, i) == unit[i]);
    lemma_both_entries(columns, less, i, p);
    law_sub(m.times(z, i), m.entry(i, p));
    law_sub(dense(columns, !less).entry(i, p), m.entry(i, p));
}

/// The normalized impedance and admittance matrices are inverse to each other.
pub proof fn lemma_impedance_times_admittance(columns: Seq<Seq<Cx<Real>>>, k: int, p: int)
    requires
        convertible(columns, true),
        convertible(columns, false),
        0 <= k < columns.len(),
        0 <= p < columns.len(),
    ensures
        sum(
            |j: int|
                normalized(dense(columns, true), Real { v: 2real }, k, j) * normalized(
                    dense(columns, false),
                    Real { v: 2real },
                    j,
                    p,
                ),
            0,
            columns.len() as int,
        ) == kronecker::<Real>(k == p),
{
    lemma_complex_ring();
    lemma_dense(columns, true);
    lemma_dense(columns, false);
    let m = dense(columns, true);
    let o = dense(columns, false);
    let n = m.n() as int;
    let y = normalized_column(o, p);
    let zy = |i: int, j: int| normalized(m, two(), i, j) * y[j];
    let u = Seq::new(m.n(), |i: int| sum(|j: int| zy(i, j), 0, n));
    let unit = unit_vector::<Real>(m.n(), p);
    let v = Seq::new(m.n(), |i: int| u[i] - unit[i]);
    assert forall|a: int| 0 <= a < n implies #[trigger] m.times(v, a) == Cx::<Real>::zero() by {
        let cell = |i: int, j: int| m.entry(a, i) * zy(i, j);
        let rows = |i: int| sum(|j: int| cell(i, j), 0, n);
        let cols = |j: int| sum(|i: int| cell(i, j), 0, n);
        let left = |i: int| m.entry(a, i) * u[i];
        assert forall|i: int| 0 <= i < n implies #[trigger] left(i) == rows(i) by {
            let f = |j: int| zy(i, j);
            lemma_sum_scale(m.entry(a, i), f, 0, n);
            lemma_sum_same(|j: int| m.entry(a, i) * f(j), |j: int| cell(i, j), 0, n);
        }
        lemma_sum_same(left, rows, 0, n);
        lemma_sum_swap(cell, 0, n, 0, n);
        let right = |j: int| o.entry(a, j) * y[j];
        assert forall|j: int| 0 <= j < n implies #[trigger] cols(j) == right(j) by {
            lemma_impedance(columns, true, a, j);
            let z = normalized_column(m, j);
            let f = |i: int| m.entry(a, i) * z[i];
            lemma_sum_same(f, |i: int| m.entry(a, i) * z[i], 0, n);
            lemma_sum_scale(y[j], f, 0, n);
            law_mul_comm(y[j], o.entry(a, j));
            let g = |i: int| y[j] * f(i);
            let h = |i: int| cell(i, j);
            assert forall|i: int| 0 <= i < n implies #[trigger] g(i) == h(i) by {
                law_mul_assoc(m.entry(a, i), z[i], y[j]);
                law_mul_comm(y[j], f(i));
            }
            lemma_sum_same(g, h, 0, n);
        }
        lemma_sum_same(cols, right, 0, n);
        lemma_impedance(columns, false, a, p);
        lemma_sum_same(right, |j: int| o.entry(a, j) * y[j], 0, n);
        assert(m.times(u, a) == m.entry(a, p));
        assert forall|i: int| 0 <= i < n implies #[trigger] u[i] == v[i] + unit[i] by {
            law_sub(u[i], unit[i]);
        }
        lemma_times_sum(m, v, unit, u, a);
        lemma_times_unit(m, a, p);
        law_sub(m.times(v, a), m.entry(a, p));
        law_sub(Cx::<Real>::zero(), m.entry(a, p));
        law_add_zero(m.entry(a, p));
    }
    let x = Seq::new(m.n(), |j: int| m.factors().solution(unit_vector(m.n(), k), j));
    lemma_inverse_column(m, k);
    assert(unit_row::<Cx<Real>>(m.n(), k) =~= unit_vector::<Real>(m.n(), k));
    lemma_unique(m, x, v, k);
    law_sub(u[k], unit[k]);
    law_add_zero(unit[k]);
    let shown = |j: int|
        normalized(dense(columns, true), Real { v: 2real }, k, j) * normalized(
            dense(columns, false),
            Real { v: 2real },
            j,
            p,
        );
    lemma_sum_same(shown, |j: int| zy(k, j), 0, n);
}

} // verus!
