//! What the sweep and its diagnostics are, in exact arithmetic.

use crate::accuracy::lemma_row_product;
use crate::complex::{is_real_root, lemma_complex_division, lemma_complex_ring, real_root, Real};
use crate::deck::DeckModel;
use crate::exact::{law_exact_division, law_mul_assoc, law_mul_one, law_mul_zero, sum};
use crate::reals::{real_cancel, real_distribute, real_mul_zero, real_quotient, real_same_square};
use crate::refine::{
    pivot_bounds, pivot_spread, regular, relative_residual, scale_of, scales, square,
};
use crate::roots::{has_roots, lemma_principal_root};
use crate::scalar::{Algebra, Cx, Number};
use crate::skyline::{vanishes, Sky};
use crate::sweep::{
    frequency, in_sequence, lemma_sweep_ends, sweep_outcome, touchstone_lines, wave_number,
    worker_count, Row,
};
use crate::system::System;
use vstd::prelude::*;

verus! {

// ---------------------------------------------------------------- sweep

/// The frequencies of a sweep are evenly spaced: the way between two of them is to the
/// whole sweep as the way between their numbers is to the number of steps.
pub proof fn lemma_even_spacing(deck: DeckModel<Real>, i: usize, j: usize)
    requires
        deck.nf > 1,
    ensures
        (frequency(deck, j).v - frequency(deck, i).v) * ((deck.nf - 1) as real) == (deck.f1.v
            - deck.f0.v) * ((j - i) as real),
        frequency(deck, 0) == deck.f0,
{
    let n = ((deck.nf - 1) as int) as real;
    let d = deck.f1.v - deck.f0.v;
    let (a, b) = ((i as int) as real, (j as int) as real);
    real_quotient(d * a, n);
    real_quotient(d * b, n);
    real_distribute(n, (d * b) / n, (d * a) / n);
    real_distribute(d, b, a);
    assert((((deck.nf - 1) as usize) as int) as real == n);
    assert(((j - i) as real) == b - a);
    real_mul_zero(d);
    real_mul_zero(n);
    real_quotient(0real, n);
    real_cancel(n, 0real / n, 0real);
}

/// The wave number is that of a wave at the speed of light: times the speed of light it
/// is the angular frequency.
pub proof fn lemma_wave_number(f: Real)
    ensures
        wave_number(f).v * Real::constants().c0.v == Real::constants().two_pi.v * f.v,
{
    let known = Real::constants();
    real_quotient(known.two_pi.v * f.v, known.c0.v);
}

/// The workers of a sweep: at least one, no more than there are processors or points, no
/// more than fit into the budget, and as many as that allows.
pub proof fn lemma_workers(processors: nat, points: nat, each: nat, budget: nat)
    ensures
        ({
            let n = worker_count(processors, points, each, budget);
            &&& n >= 1
            &&& n > 1 ==> n <= processors && n <= points && n * each <= budget
            &&& n < processors && n < points ==> (n + 1) * each > budget
        }),
{
    let n = worker_count(processors, points, each, budget);
    if each > 0 {
        vstd::arithmetic::div_mod::lemma_fundamental_div_mod(budget as int, each as int);
        let q = budget / each;
        vstd::arithmetic::div_mod::lemma_mod_bound(budget as int, each as int);
        assert(each * q <= budget < each * q + each);
        assert(n > 1 ==> n <= q);
        if n <= q {
            assert(n * each <= each * q) by (nonlinear_arith)
                requires
                    n <= q,
            ;
        }
        assert((q + 1) * each == each * q + each) by (nonlinear_arith);
        if n < processors && n < points {
            assert(q <= n);
            assert((n + 1) * each >= (q + 1) * each) by (nonlinear_arith)
                requires
                    q <= n,
            ;
        }
    }
}

// ---------------------------------------------------------------- residual

/// The square of the length of a vector.
pub open spec fn squared_length(v: Seq<Cx<Real>>, n: int) -> real {
    sum(
        |i: int| Real { v: v[i].re.v * v[i].re.v + v[i].im.v * v[i].im.v },
        0,
        n,
    ).v
}

proof fn lemma_squared_length(v: Seq<Cx<Real>>, w: Seq<Cx<Real>>, n: int)
    requires
        forall|i: int| 0 <= i < n ==> v[i] == #[trigger] w[i],
    ensures
        square(v, n).v == squared_length(w, n),
    decreases n,
{
    if n > 0 {
        lemma_squared_length(v, w, n - 1);
        assert(v[n - 1] == w[n - 1]);
    }
}

/// What a vector leaves of the right hand side.
pub open spec fn left_over(m: Sky<Cx<Real>>, b: Seq<Cx<Real>>, x: Seq<Cx<Real>>) -> Seq<Cx<Real>> {
    Seq::new(m.n(), |i: int| b[i] - m.times(x, i))
}

/// The relative residual is the length of what the solution leaves of the right hand
/// side, over the length of the right hand side. `nb` and `nr` are those lengths.
pub proof fn lemma_relative_residual(
    m: Sky<Cx<Real>>,
    b: Seq<Cx<Real>>,
    x: Seq<Cx<Real>>,
    nb: real,
    nr: real,
)
    requires
        is_real_root(squared_length(b, m.n() as int), nb),
        is_real_root(squared_length(left_over(m, b, x), m.n() as int), nr),
        nb != 0real,
    ensures
        relative_residual(m, b, x).v * nb == nr,
{
    lemma_complex_ring();
    let n = m.n() as int;
    let (rest, left) = (m.residual(b, x), left_over(m, b, x));
    assert forall|i: int| 0 <= i < n implies rest[i] == #[trigger] left[i] by {
        lemma_row_product(m, x, i, n);
    }
    lemma_squared_length(rest, left, n);
    lemma_squared_length(b, b, n);
    let (p, q) = (real_root(square(b, n).v), real_root(square(rest, n).v));
    assert(is_real_root(square(b, n).v, nb) && is_real_root(square(rest, n).v, nr));
    assert(is_real_root(square(b, n).v, p) && is_real_root(square(rest, n).v, q));
    real_same_square(p, nb);
    real_same_square(q, nr);
    real_quotient(q, p);
}

/// A sweep that succeeds has a row for each point, evenly spaced from the first frequency
/// on, and each row holds what the system gives at the wave number of its frequency.
pub proof fn lemma_rows(
    s: System<Real>,
    deck: DeckModel<Real>,
    rows: Vec<Row<Real>>,
    i: int,
    j: int,
    k0: Real,
)
    requires
        sweep_outcome(s, deck, Ok(rows)),
        deck.nf > 1,
        0 <= i < deck.nf,
        0 <= j < deck.nf,
        k0.v * Real::constants().c0.v == Real::constants().two_pi.v * rows@[i].f.v,
    ensures
        rows@.len() == deck.nf,
        rows@[0].f == deck.f0,
        (rows@[j].f.v - rows@[i].f.v) * (deck.nf - 1) as real == (deck.f1.v - deck.f0.v) * (j
            - i) as real,
        rows@[i].point.describes(s, k0),
        regular(s.at_wave(k0)),
{
    assert(rows@[0].is_row(s, deck, 0));
    assert(rows@[i].is_row(s, deck, i as usize));
    assert(rows@[j].is_row(s, deck, j as usize));
    lemma_even_spacing(deck, i as usize, j as usize);
    lemma_sweep_ends(deck);
    lemma_wave_number(rows@[i].f);
    let w = wave_number(rows@[i].f);
    let c = Real::constants().c0.v;
    if k0.v != w.v {
        real_cancel(c, k0.v, w.v);
    }
}

// ---------------------------------------------------------------- pivots

/// The bounds of the pivots: no pivot is larger or smaller, and each bound is that of a
/// pivot, or the one with which the search begins.
pub proof fn lemma_pivot_bounds(m: Sky<Cx<Real>>, n: int)
    ensures
        ({
            let (hi, lo) = pivot_bounds(m, n);
            &&& forall|j: int|
                0 <= j < n ==> lo.v <= (#[trigger] m.pivot(j)).magnitude().v <= hi.v
            &&& hi.v == 0real || exists|j: int|
                0 <= j < n && (#[trigger] m.pivot(j)).magnitude() == hi
            &&& lo == Real::constants().largest || exists|j: int|
                0 <= j < n && (#[trigger] m.pivot(j)).magnitude() == lo
        }),
    decreases n,
{
    if n > 0 {
        lemma_pivot_bounds(m, n - 1);
        let p = m.pivot(n - 1).magnitude();
        assert(m.pivot(n - 1).magnitude() == p);
    }
}

/// The pivot spread is the largest pivot of the balanced matrix over the smallest: there
/// are two pivots between whose magnitudes all others lie, and whose quotient it is.
pub proof fn lemma_pivot_spread(m: Sky<Cx<Real>>)
    requires
        m.n() > 0,
        forall|j: int|
            0 <= j < m.n() ==> 0real < (#[trigger] m.balanced(scales(m)).pivot(j)).magnitude().v
                <= Real::constants().largest.v,
    ensures
        exists|a: int, b: int|
            0 <= a < m.n() && 0 <= b < m.n() && pivot_spread(m).v * (#[trigger] m.balanced(
                scales(m),
            ).pivot(b)).magnitude().v == (#[trigger] m.balanced(scales(m)).pivot(a)).magnitude().v
                && forall|j: int|
                0 <= j < m.n() ==> m.balanced(scales(m)).pivot(b).magnitude().v <= (
                #[trigger] m.balanced(scales(m)).pivot(j)).magnitude().v <= m.balanced(
                    scales(m),
                ).pivot(a).magnitude().v,
{
    let n = m.n() as int;
    let w = m.balanced(scales(m));
    lemma_pivot_bounds(w, n);
    let (hi, lo) = pivot_bounds(w, n);
    assert(0real < w.pivot(0).magnitude().v);
    let a = choose|j: int| 0 <= j < n && (#[trigger] w.pivot(j)).magnitude() == hi;
    assert(exists|j: int| 0 <= j < n && (#[trigger] w.pivot(j)).magnitude() == lo) by {
        if lo == Real::constants().largest {
            assert(w.pivot(0).magnitude() == lo);
        }
    }
    let b = choose|j: int| 0 <= j < n && (#[trigger] w.pivot(j)).magnitude() == lo;
    assert(0real < w.pivot(b).magnitude().v);
    real_quotient(hi.v, lo.v);
    assert(w.pivot(a).magnitude() == hi && w.pivot(b).magnitude() == lo);
}

// ---------------------------------------------------------------- balance

/// The scale of a row is the inverse square root of its diagonal entry: its square times
/// the entry is one.
pub proof fn lemma_scale(x: Cx<Real>)
    requires
        !vanishes(x),
        has_roots(x),
        x != Cx::<Real>::zero(),
    ensures
        (scale_of(x) * scale_of(x)) * x == Cx::<Real>::one(),
{
    lemma_complex_ring();
    lemma_complex_division();
    lemma_principal_root(x);
    let r = x.principal_root();
    let s = scale_of(x);
    if r == Cx::<Real>::zero() {
        law_mul_zero(r);
    }
    law_exact_division(Cx::<Real>::one(), r);
    // (s s) (r r) = (s (s r)) r = s r = 1
    law_mul_assoc(s * s, r, r);
    law_mul_assoc(s, s, r);
    law_mul_one(s);
}

/// A pivot is too small where it lies within the least magnitude of zero, in whatever
/// direction of the complex plane.
pub proof fn lemma_vanishes(d: Cx<Real>, r: real)
    requires
        is_real_root(d.re.v * d.re.v + d.im.v * d.im.v, r),
    ensures
        vanishes(d) <==> r < Real::constants().tiny.v,
{
    let q = d.re.v * d.re.v + d.im.v * d.im.v;
    let s = real_root(q);
    assert(is_real_root(q, s));
    real_same_square(r, s);
}

/// A matrix is refused where a pivot of the balanced matrix lies that near to zero, and
/// only there.
pub proof fn lemma_regular(m: Sky<Cx<Real>>)
    requires
        forall|j: int| #![trigger m.balanced(scales(m)).pivot(j)]
            0 <= j < m.n() ==> is_real_root(
                m.balanced(scales(m)).pivot(j).re.v * m.balanced(scales(m)).pivot(j).re.v
                    + m.balanced(scales(m)).pivot(j).im.v * m.balanced(scales(m)).pivot(j).im.v,
                m.balanced(scales(m)).pivot(j).magnitude().v,
            ),
    ensures
        regular(m) <==> forall|j: int|
            0 <= j < m.n() ==> Real::constants().tiny.v <= (#[trigger] m.balanced(scales(m)).pivot(
                j,
            )).magnitude().v,
{
    let w = m.balanced(scales(m));
    assert forall|j: int| 0 <= j < m.n() implies (vanishes(#[trigger] w.pivot(j)) <==> w.pivot(
        j,
    ).magnitude().v < Real::constants().tiny.v) by {
        lemma_vanishes(w.pivot(j), w.pivot(j).magnitude().v);
    }
}

/// The step of refinement adds to the first solution what the same solver gives for what
/// that solution leaves over, so that nothing left over means nothing added.
pub proof fn lemma_refinement(m: Sky<Cx<Real>>, d: Seq<Cx<Real>>, b: Seq<Cx<Real>>, i: int)
    requires
        0 <= i < m.n(),
    ensures
        ({
            let x = m.solved(d, b);
            let rest = Seq::new(m.n(), |k: int| b[k] - m.row_product(x, k, m.n() as int));
            m.refined(d, b)[i] - x[i] == m.solved(d, rest)[i]
        }),
{
    let x = m.solved(d, b);
    let rest = Seq::new(m.n(), |k: int| b[k] - m.row_product(x, k, m.n() as int));
    assert(rest =~= m.residual(b, x));
}

/// No port leaves a larger residual than the worst, and the worst is that of a port.
pub proof fn lemma_worst_residual(s: System<Real>, k0: Real, n: int)
    ensures
        forall|p: int|
            0 <= p < n ==> relative_residual(
                s.at_wave(k0),
                #[trigger] s.source_of(k0, p),
                s.response(k0, p),
            ).v <= s.worst_residual(k0, n).v,
        s.worst_residual(k0, n).v == 0real || exists|p: int|
            0 <= p < n && relative_residual(
                s.at_wave(k0),
                #[trigger] s.source_of(k0, p),
                s.response(k0, p),
            ) == s.worst_residual(k0, n),
    decreases n,
{
    if n > 0 {
        lemma_worst_residual(s, k0, n - 1);
        let r = relative_residual(s.at_wave(k0), s.source_of(k0, n - 1), s.response(k0, n - 1));
        assert(r.v <= s.worst_residual(k0, n).v);
    }
}

// ---------------------------------------------------------------- layout

proof fn lemma_in_sequence<A>(columns: Seq<Seq<A>>, k: nat, p: int, q: int)
    requires
        k <= columns.len(),
        forall|i: int| 0 <= i < columns.len() ==> (#[trigger] columns[i]).len() == columns.len(),
        0 <= p < k,
        0 <= q < columns.len(),
    ensures
        in_sequence(columns, k).len() == k * columns.len(),
        0 <= p * columns.len() + q < k * columns.len(),
        in_sequence(columns, k)[p * columns.len() + q] == columns[p][q],
    decreases k,
{
    let n = columns.len();
    let l = (k - 1) as nat;
    assert(columns[l as int].len() == n);
    assert(l * n + n == k * n) by (nonlinear_arith)
        requires
            l + 1 == k,
    ;
    if p < l {
        lemma_in_sequence(columns, l, p, q);
    } else {
        if l > 0 {
            lemma_in_sequence(columns, l, 0, q);
        }
        assert(p * n == l * n);
        assert(in_sequence(columns, l).len() == l * n);
    }
}

/// Where the parameter from port `p` to port `q` stands in a Touchstone file. With one or
/// two ports there is one line, on which the source changes last: S11, S21, S12, S22. With
/// more there is a line for each port that is reached.
pub proof fn lemma_touchstone<A>(columns: Seq<Seq<A>>, q: int, p: int)
    requires
        forall|i: int| 0 <= i < columns.len() ==> (#[trigger] columns[i]).len() == columns.len(),
        0 <= p < columns.len(),
        0 <= q < columns.len(),
    ensures
        columns.len() == 1 ==> touchstone_lines(columns) == seq![seq![columns[0][0]]],
        columns.len() == 2 ==> touchstone_lines(columns) == seq![
            seq![columns[0][0], columns[0][1], columns[1][0], columns[1][1]],
        ],
        columns.len() > 2 ==> touchstone_lines(columns).len() == columns.len()
            && touchstone_lines(columns)[q].len() == columns.len()
            && touchstone_lines(columns)[q][p] == columns[p][q],
{
    let n = columns.len();
    if n == 1 {
        lemma_in_sequence(columns, n, 0, 0);
        assert(in_sequence(columns, n) =~= seq![columns[0][0]]);
    } else if n == 2 {
        lemma_in_sequence(columns, n, 0, 0);
        lemma_in_sequence(columns, n, 0, 1);
        lemma_in_sequence(columns, n, 1, 0);
        lemma_in_sequence(columns, n, 1, 1);
        assert(in_sequence(columns, n) =~= seq![
            columns[0][0],
            columns[0][1],
            columns[1][0],
            columns[1][1],
        ]);
    }
}

} // verus!
