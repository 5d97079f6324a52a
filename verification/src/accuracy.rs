//! What balancing and refinement mean in exact arithmetic: nothing is lost, and the
//! refined solution solves the system that was asked for.

use crate::complex::{
    is_real_root, lemma_complex_division, lemma_complex_ring, real_root, Real,
};
use crate::exact::{
    exact_division, law_add_zero, law_distribute, law_exact_division, law_mul_assoc, law_mul_comm,
    law_mul_one, law_mul_zero, law_sub, lemma_sum_add, lemma_sum_same, lemma_sum_scale, ring, sum,
};
use crate::ldl::lemma_solution_solves;
use crate::reals::{real_mul_zero, real_no_divisors, real_quotient};
use crate::refine::{lemma_factors, lemma_place, regular, scales};
use crate::scalar::{Algebra, Cx, Number};
use crate::skyline::{larger, vanishes, Sky};
use vstd::prelude::*;

verus! {

impl<A: Algebra> Sky<A> {
    /// Row `i` of the matrix times the vector `x`.
    pub open spec fn times(self, x: Seq<A>, i: int) -> A {
        sum(|j: int| self.entry(i, j) * x[j], 0, self.n() as int)
    }
}

/// `x` solves the system with the matrix `m` and the right hand side `b`.
pub open spec fn solves<A: Algebra>(m: Sky<A>, x: Seq<A>, b: Seq<A>) -> bool {
    forall|i: int| 0 <= i < m.n() ==> #[trigger] m.times(x, i) == b[i]
}

/// The balanced matrix can be factored: no factor on the diagonal is zero, nor any
/// scale.
pub open spec fn solvable<A: Algebra>(m: Sky<A>, d: Seq<A>) -> bool {
    &&& m.wf()
    &&& m.balanced(d).factors().invertible()
    &&& forall|i: int| 0 <= i < m.n() ==> #[trigger] d[i] != A::zero()
}

/// A factor that is not zero can be cancelled.
pub proof fn lemma_cancel<A: Algebra>(d: A, u: A, v: A)
    requires
        ring::<A>(),
        exact_division::<A>(),
        d != A::zero(),
        d * u == d * v,
    ensures
        u == v,
{
    let inv = A::one().over(d);
    law_exact_division(A::one(), d);
    law_mul_assoc(inv, d, u);
    law_mul_assoc(inv, d, v);
    law_mul_one(u);
    law_mul_one(v);
}

pub proof fn lemma_row_product<A: Algebra>(m: Sky<A>, x: Seq<A>, i: int, j: int)
    requires
        ring::<A>(),
        0 <= j,
    ensures
        m.row_product(x, i, j) == sum(|k: int| m.entry(i, k) * x[k], 0, j),
    decreases j,
{
    let f = |k: int| m.entry(i, k) * x[k];
    if j > 0 {
        lemma_row_product(m, x, i, j - 1);
        if !m.stored(i, j - 1) {
            law_mul_zero(x[j - 1]);
            law_mul_comm(m.entry(i, j - 1), x[j - 1]);
            law_add_zero(sum(f, 0, j - 1));
        }
    }
}

proof fn lemma_balanced_entry<A: Algebra>(m: Sky<A>, d: Seq<A>, i: int, j: int)
    requires
        ring::<A>(),
        m.wf(),
        0 <= i < m.n(),
        0 <= j < m.n(),
    ensures
        m.balanced(d).entry(i, j) == d[i] * (m.entry(i, j) * d[j]),
{
    let e = m.entry(i, j);
    law_mul_assoc(d[i], e, d[j]);
    if i <= j {
        if m.frow[j] <= i {
            lemma_place(m, i, j);
        } else {
            law_mul_zero(d[j]);
            law_mul_zero(d[i]);
        }
    } else {
        if m.frow[i] <= j {
            lemma_place(m, j, i);
            law_mul_assoc(d[j], e, d[i]);
            law_mul_comm(d[j], e * d[i]);
            law_mul_comm(e, d[i]);
        } else {
            law_mul_zero(d[j]);
            law_mul_zero(d[i]);
        }
    }
}

/// In exact arithmetic the factors of the balanced matrix solve the system of the
/// matrix itself.
pub proof fn lemma_solved<A: Algebra>(m: Sky<A>, d: Seq<A>, b: Seq<A>)
    requires
        ring::<A>(),
        exact_division::<A>(),
        solvable(m, d),
    ensures
        solves(m, m.solved(d, b), b),
{
    let n = m.n() as int;
    let bal = m.balanced(d);
    let f = bal.factors();
    let c = Seq::new(m.n(), |i: int| d[i] * b[i]);
    let x = m.solved(d, b);
    assert(bal.wf());
    lemma_factors(bal);
    assert forall|i: int| 0 <= i < n implies #[trigger] m.times(x, i) == b[i] by {
        let y = |k: int| f.solution(c, k);
        lemma_solution_solves(bal, f, c, i);
        let left = |j: int| bal.entry(i, j) * y(j);
        let row = |j: int| m.entry(i, j) * x[j];
        let scaled = |j: int| d[i] * row(j);
        assert forall|j: int| 0 <= j < n implies #[trigger] left(j) == scaled(j) by {
            lemma_balanced_entry(m, d, i, j);
            let e = m.entry(i, j);
            law_mul_assoc(d[i], e * d[j], y(j));
            law_mul_assoc(e, d[j], y(j));
        }
        lemma_sum_same(left, scaled, 0, n);
        lemma_sum_same(left, |j: int| bal.entry(i, j) * y(j), 0, n);
        lemma_sum_scale(d[i], row, 0, n);
        lemma_sum_same(row, |j: int| m.entry(i, j) * x[j], 0, n);
        lemma_cancel(d[i], sum(row, 0, n), b[i]);
    }
}

/// In exact arithmetic the refined solution solves the system.
pub proof fn lemma_refined_solves<A: Algebra>(m: Sky<A>, d: Seq<A>, b: Seq<A>)
    requires
        ring::<A>(),
        exact_division::<A>(),
        solvable(m, d),
    ensures
        solves(m, m.refined(d, b), b),
{
    let n = m.n() as int;
    let x = m.solved(d, b);
    let r = m.residual(b, x);
    let e = m.solved(d, r);
    let z = m.refined(d, b);
    lemma_solved(m, d, b);
    lemma_solved(m, d, r);
    assert forall|i: int| 0 <= i < n implies #[trigger] m.times(z, i) == b[i] by {
        let fx = |j: int| m.entry(i, j) * x[j];
        let fe = |j: int| m.entry(i, j) * e[j];
        let fz = |j: int| m.entry(i, j) * z[j];
        assert(m.times(x, i) == b[i]);
        assert(m.times(e, i) == r[i]);
        lemma_sum_same(fx, |j: int| m.entry(i, j) * x[j], 0, n);
        lemma_sum_same(fe, |j: int| m.entry(i, j) * e[j], 0, n);
        lemma_sum_same(fz, |j: int| m.entry(i, j) * z[j], 0, n);
        lemma_row_product(m, x, i, n);
        // The residual of an exact solution is zero.
        law_add_zero(b[i]);
        law_sub(A::zero(), b[i]);
        assert(r[i] == A::zero());
        assert forall|j: int| 0 <= j < n implies #[trigger] fz(j) == fx(j) + fe(j) by {
            law_distribute(m.entry(i, j), x[j], e[j]);
        }
        let both = |j: int| fx(j) + fe(j);
        lemma_sum_same(fz, both, 0, n);
        lemma_sum_add(fx, fe, 0, n);
        law_add_zero(b[i]);
    }
}

/// What solves a system exactly leaves nothing of its right hand side.
pub proof fn lemma_no_residual<A: Algebra>(m: Sky<A>, x: Seq<A>, b: Seq<A>, i: int)
    requires
        ring::<A>(),
        solves(m, x, b),
        0 <= i < m.n(),
    ensures
        m.residual(b, x)[i] == A::zero(),
{
    let n = m.n() as int;
    lemma_row_product(m, x, i, n);
    assert(m.times(x, i) == b[i]);
    law_add_zero(b[i]);
    law_sub(A::zero(), b[i]);
}

/// Balancing with the inverse square roots of the diagonal makes the diagonal one.
pub proof fn lemma_unit_diagonal<A: Algebra>(m: Sky<A>, d: Seq<A>, root: A, i: int)
    requires
        ring::<A>(),
        exact_division::<A>(),
        m.wf(),
        0 <= i < m.n(),
        root != A::zero(),
        root * root == m.at(i, i),
        d[i] == A::one().over(root),
    ensures
        m.balanced(d).at(i, i) == A::one(),
{
    assert(m.frow[i] <= i);
    lemma_place(m, i, i);
    let s = d[i];
    law_exact_division(A::one(), root);
    // (s (root root)) s = (s root) (root s)
    law_mul_assoc(s, root, root);
    law_mul_assoc(s * root, root, s);
    law_mul_comm(root, s);
    law_mul_one(A::one());
}

/// Over the complex numbers, without rounding, the refined solution solves the
/// system.
pub proof fn lemma_complex_refined_solves(m: Sky<Cx<Real>>, d: Seq<Cx<Real>>, b: Seq<Cx<Real>>)
    requires
        solvable(m, d),
    ensures
        solves(m, m.refined(d, b), b),
{
    lemma_complex_ring();
    lemma_complex_division();
    lemma_refined_solves(m, d, b);
}

// ---------------------------------------------------------------- success

/// A scale of zero leaves nothing of its column.
proof fn lemma_empty_reduced(m: Sky<Cx<Real>>, d: Seq<Cx<Real>>, i: int, j: int)
    requires
        m.wf(),
        0 <= j < m.n(),
        m.frow[j] <= i < j,
        d[j] == Cx::<Real>::zero(),
    ensures
        m.balanced(d).reduced(i, j) == Cx::<Real>::zero(),
    decreases 2 * i + 1,
{
    lemma_complex_ring();
    lemma_place(m, i, j);
    law_mul_zero(d[i] * m.at(i, j));
    if m.frow[j] < i {
        lemma_empty_shared(m, d, i, j, i);
        law_add_zero(Cx::<Real>::zero());
        law_sub(Cx::<Real>::zero(), Cx::<Real>::zero());
    }
}

proof fn lemma_empty_shared(m: Sky<Cx<Real>>, d: Seq<Cx<Real>>, i: int, j: int, k: int)
    requires
        m.wf(),
        0 <= i < j < m.n(),
        k <= i,
        d[j] == Cx::<Real>::zero(),
    ensures
        m.balanced(d).shared(i, j, k) == Cx::<Real>::zero(),
    decreases 2 * k,
{
    lemma_complex_ring();
    let b = m.balanced(d);
    if larger(b.frow[i], b.frow[j]) < k <= i < j {
        lemma_empty_shared(m, d, i, j, k - 1);
        lemma_empty_reduced(m, d, k - 1, j);
        law_mul_zero(b.upper(k - 1, i));
        law_add_zero(Cx::<Real>::zero());
    }
}

proof fn lemma_empty_diagonal(m: Sky<Cx<Real>>, d: Seq<Cx<Real>>, j: int, k: int)
    requires
        m.wf(),
        0 <= j < m.n(),
        k <= j,
        d[j] == Cx::<Real>::zero(),
    ensures
        m.balanced(d).diagonal(j, k) == Cx::<Real>::zero(),
    decreases k,
{
    lemma_complex_ring();
    let b = m.balanced(d);
    if b.frow[j] < k <= j {
        lemma_empty_diagonal(m, d, j, k - 1);
        lemma_empty_reduced(m, d, k - 1, j);
        law_mul_zero(b.upper(k - 1, j));
        law_add_zero(Cx::<Real>::zero());
        law_sub(Cx::<Real>::zero(), Cx::<Real>::zero());
    } else {
        assert(m.frow[j] <= j);
        lemma_place(m, j, j);
        law_mul_zero(d[j] * m.at(j, j));
    }
}

/// Zero counts as a pivot that vanishes.
proof fn lemma_zero_vanishes()
    ensures
        vanishes(Cx::<Real>::zero()),
{
    real_mul_zero(0real);
    assert(is_real_root(0real, 0real));
    let r = real_root(0real);
    assert(is_real_root(0real, r));
    if r != 0real {
        real_no_divisors(r, r);
    }
    let big = 1000000000000000000real * 1000000000000000000real;
    real_no_divisors(1000000000000000000real, 1000000000000000000real);
    real_no_divisors(big, big);
    let t = 1real / (big * big);
    real_quotient(1real, big * big);
    assert(0real < big * big) by (nonlinear_arith)
        requires
            big * big != 0real,
    ;
    assert(0real < t) by (nonlinear_arith)
        requires
            t * (big * big) == 1real,
            0real < big * big,
    ;
}

/// Where the solver succeeds the laws of exact solutions hold: if no pivot of the
/// balanced matrix vanishes, no scale and no factor on the diagonal is zero.
pub proof fn lemma_regular_is_solvable(m: Sky<Cx<Real>>)
    requires
        m.wf(),
        regular(m),
    ensures
        solvable(m, scales(m)),
{
    let d = scales(m);
    let b = m.balanced(d);
    lemma_zero_vanishes();
    assert forall|i: int| 0 <= i < m.n() implies #[trigger] d[i] != Cx::<Real>::zero() by {
        if d[i] == Cx::<Real>::zero() {
            lemma_empty_diagonal(m, d, i, i);
            assert(vanishes(b.pivot(i)));
        }
    }
    assert(b.wf());
    lemma_factors(b);
    let f = b.factors();
    assert forall|k: int| 0 <= k < f.n() implies #[trigger] f.at(k, k) != Cx::<Real>::zero() by {
        assert(f.at(k, k) == b.pivot(k));
        assert(!vanishes(b.pivot(k)));
    }
}

} // verus!
