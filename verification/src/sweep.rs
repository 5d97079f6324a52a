//! The solution of a system at one frequency: scattering parameters, their layout
//! in a Touchstone file, and the electric field.

use crate::complex::Real;
use crate::deck::{in_range, Deck, DeckModel};
use crate::edges::{tet_corner, tet_ends, tet_pair};
use crate::element::{shape_tet, TetShape};
use crate::assembly::{shape_of_tet, Numbering};
use crate::groups::ModelError;
use crate::msh::{Mesh, Tet};
use crate::ports::{greater, PortShape};
use crate::reals::{real_cancel, real_distribute, real_mul_comm, real_mul_zero, real_quotient};
use crate::refine::{
    measure, pivot_spread, prepare, regular, relative_residual, scales, solve_refined, spread_of,
};
use crate::scalar::{cx, sub3, Algebra, Cx, Number, Scalar, V3};
use crate::skyline::sky;
use crate::system::{build, system_model, System};
use vstd::prelude::*;

verus! {

// ---------------------------------------------------------------- frequency

/// Frequency number `i` of the sweep.
pub open spec fn frequency<T: Number>(deck: DeckModel<T>, i: usize) -> T {
    if deck.nf == 1 {
        deck.f0
    } else {
        deck.f0 + ((deck.f1 - deck.f0) * T::number(i)).over(T::number((deck.nf - 1) as usize))
    }
}

/// The wave number of vacuum at frequency `f`.
pub open spec fn wave_number<T: Number>(f: T) -> T {
    (T::constants().two_pi * f).over(T::constants().c0)
}

/// Frequency number `i` of the sweep.
pub fn frequency_at<T: Scalar>(deck: &Deck<T>, i: usize) -> (r: T)
    requires
        i < deck.nf,
    ensures
        r == frequency(deck.model(), i),
{
    if deck.nf == 1 {
        deck.f0
    } else {
        deck.f0.add(deck.f1.sub(deck.f0).mul(T::of(i)).div(T::of(deck.nf - 1)))
    }
}

/// The wave number of vacuum at frequency `f`.
pub fn wave_number_at<T: Scalar>(f: T) -> (r: T)
    ensures
        r == wave_number(f),
{
    let known = T::known();
    known.two_pi.mul(f).div(known.c0)
}

/// In exact arithmetic a sweep starts at its first frequency and ends at its last.
pub proof fn lemma_sweep_ends(deck: DeckModel<Real>)
    requires
        deck.nf > 0,
    ensures
        frequency(deck, 0) == deck.f0,
        deck.nf > 1 ==> frequency(deck, (deck.nf - 1) as usize) == deck.f1,
{
    if deck.nf > 1 {
        let n = ((deck.nf - 1) as int) as real;
        let d = deck.f1.v - deck.f0.v;
        real_mul_zero(d);
        real_mul_zero(n);
        real_quotient(0real, n);
        real_cancel(n, 0real / n, 0real);
        real_quotient(d * n, n);
        real_mul_comm(d, n);
        real_cancel(n, (d * n) / n, d);
    }
}

/// In exact arithmetic every frequency of a sweep with positive ends is positive.
pub proof fn lemma_sweep_positive(deck: DeckModel<Real>, i: usize)
    requires
        in_range(deck),
        i < deck.nf,
    ensures
        0real < frequency(deck, i).v,
{
    if deck.nf > 1 {
        let n = ((deck.nf - 1) as int) as real;
        let k = (i as int) as real;
        let (a, b) = (deck.f0.v, deck.f1.v);
        let t = ((b - a) * k) / n;
        real_quotient((b - a) * k, n);
        real_distribute(n, a, t);
        real_distribute(k, b, a);
        real_distribute(a, n, k);
        let (u, v) = (a * (n - k), b * k);
        assert(n * (a + t) == u + v) by {
            real_mul_comm(n, a);
        }
        assert(0real < u + v) by (nonlinear_arith)
            requires
                u == a * (n - k),
                v == b * k,
                0real < a,
                0real < b,
                0real <= k <= n,
                1real <= n,
        ;
        assert(0real < a + t) by (nonlinear_arith)
            requires
                0real < n * (a + t),
                1real <= n,
        ;
    }
}

// ---------------------------------------------------------------- model

/// The right hand side that the first `k` unknowns of a port drive.
pub open spec fn source<T: Algebra>(
    n: nat,
    perm: Seq<usize>,
    drive: Seq<(usize, T)>,
    k0: T,
    eta0: T,
    w: T,
    k: nat,
) -> Seq<Cx<T>>
    decreases k,
{
    if k == 0 {
        Seq::new(n, |i: int| Cx::<T>::zero())
    } else {
        let (d, c) = drive[k - 1];
        source(n, perm, drive, k0, eta0, w, (k - 1) as nat).update(
            perm[d as int] as int,
            Cx { re: T::zero(), im: (-k0 * eta0 * c).over(w) },
        )
    }
}

/// The integral of the field along the direction of a port over its sheet, as far
/// as the first `k` of its unknowns go.
pub open spec fn field_integral<T: Algebra>(
    perm: Seq<usize>,
    drive: Seq<(usize, T)>,
    x: Seq<Cx<T>>,
    k: nat,
) -> Cx<T>
    decreases k,
{
    if k == 0 {
        Cx::<T>::zero()
    } else {
        let (d, c) = drive[k - 1];
        field_integral(perm, drive, x, (k - 1) as nat) + x[perm[d as int] as int].scaled(c)
    }
}

/// The voltage of a port: the mean field times the extent, against the direction.
pub open spec fn voltage<T: Algebra>(
    perm: Seq<usize>,
    drive: Seq<(usize, T)>,
    port: PortShape<T>,
    x: Seq<Cx<T>>,
) -> Cx<T> {
    field_integral(perm, drive, x, drive.len()).scaled((-port.h).over(port.area))
}

/// The scattering parameter of a voltage: twice the voltage over the root of the
/// two reference impedances, less one at the port that is driven.
pub open spec fn scattered<T: Algebra>(v: Cx<T>, gain: T, own: bool) -> Cx<T> {
    if own {
        v.scaled(gain) - Cx::<T>::one()
    } else {
        v.scaled(gain)
    }
}

impl<T: Number> System<T> {
    /// The right hand side with port `p` driven.
    pub open spec fn source_of(self, k0: T, p: int) -> Seq<Cx<T>> {
        source(
            self.frame.n as nat,
            self.profile.perm@,
            self.drives@[p]@,
            k0,
            T::constants().eta0,
            self.ports@[p].w,
            self.drives@[p]@.len(),
        )
    }

    /// The unknowns with port `p` driven.
    pub open spec fn response(self, k0: T, p: int) -> Seq<Cx<T>> {
        let m = self.at_wave(k0);
        m.refined(scales(m), self.source_of(k0, p))
    }

    /// Two over the root of the two reference impedances.
    pub open spec fn gain(self, q: int, p: int) -> T {
        T::number(2).over((self.ports@[p].z0 * self.ports@[q].z0).root())
    }

    /// The scattering parameter from port `p` to port `q`.
    pub open spec fn scattering(self, k0: T, q: int, p: int) -> Cx<T> {
        let v = voltage(
            self.profile.perm@,
            self.drives@[q]@,
            self.ports@[q],
            self.response(k0, p),
        );
        scattered(v, self.gain(q, p), q == p)
    }

    /// The largest relative residual among the first `p` ports.
    pub open spec fn worst_residual(self, k0: T, p: int) -> T
        decreases p,
    {
        if p <= 0 {
            T::zero()
        } else {
            greater(
                self.worst_residual(k0, p - 1),
                relative_residual(
                    self.at_wave(k0),
                    self.source_of(k0, p - 1),
                    self.response(k0, p - 1),
                ),
            )
        }
    }
}

/// What is known of a system at one frequency.
pub struct Point<T> {
    /// The scattering parameters, column by column: those with port `p` driven
    /// are in `columns[p]`.
    pub columns: Vec<Vec<Cx<T>>>,
    /// The largest pivot over the smallest.
    pub spread: T,
    /// The largest relative residual.
    pub residual: T,
}

impl<T: Number> Point<T> {
    /// The point holds what the system gives at wave number `k0`.
    pub open spec fn describes(self, s: System<T>, k0: T) -> bool {
        let np = s.ports@.len();
        &&& self.columns@.len() == np
        &&& forall|p: int| 0 <= p < np ==> (#[trigger] self.columns@[p])@.len() == np
        &&& forall|p: int, q: int|
            0 <= p < np && 0 <= q < np ==> #[trigger] self.columns@[p]@[q] == s.scattering(k0, q, p)
        &&& self.spread == pivot_spread(s.at_wave(k0))
        &&& self.residual == s.worst_residual(k0, np as int)
    }
}

// ---------------------------------------------------------------- solution

impl<T: Scalar> System<T> {
    /// The right hand side with port `p` driven.
    pub fn drive(&self, k0: T, p: usize) -> (r: Vec<Cx<T>>)
        requires
            self.wf(),
            p < self.ports@.len(),
        ensures
            r@ == self.source_of(k0, p as int),
            r@.len() == self.frame.n,
    {
        let eta0 = T::known().eta0;
        let zero: Cx<T> = Cx::nil();
        let n: usize = self.frame.n;
        let mut b: Vec<Cx<T>> = Vec::new();
        while b.len() < n
            invariant
                zero == Cx::<T>::zero(),
                b@.len() <= n,
                forall|i: int| 0 <= i < b@.len() ==> #[trigger] b@[i] == Cx::<T>::zero(),
            decreases n - b@.len(),
        {
            b.push(zero);
        }
        let w = self.ports[p].w;
        let exc: &Vec<(usize, T)> = &self.drives[p];
        let mut k: usize = 0;
        assert(b@ =~= source(n as nat, self.profile.perm@, exc@, k0, eta0, w, 0));
        while k < exc.len()
            invariant
                self.wf(),
                n == self.frame.n,
                p < self.ports@.len(),
                exc == self.drives@[p as int],
                k <= exc@.len(),
                b@.len() == n,
                b@ == source(n as nat, self.profile.perm@, exc@, k0, eta0, w, k as nat),
            decreases exc@.len() - k,
        {
            let (d, c) = exc[k];
            assert(self.drives@[p as int]@[k as int].0 < n);
            assert(self.profile.perm@[d as int] < n);
            b.set(self.profile.perm[d], cx(T::nil(), k0.neg().mul(eta0).mul(c).div(w)));
            k += 1;
        }
        b
    }

    /// The voltage of port `q`.
    pub fn voltage_of(&self, q: usize, x: &Vec<Cx<T>>) -> (r: Cx<T>)
        requires
            self.wf(),
            q < self.ports@.len(),
            x@.len() == self.frame.n,
        ensures
            r == voltage(
                self.profile.perm@,
                self.drives@[q as int]@,
                self.ports@[q as int],
                x@,
            ),
    {
        let exc: &Vec<(usize, T)> = &self.drives[q];
        let mut v: Cx<T> = Cx::nil();
        let mut k: usize = 0;
        while k < exc.len()
            invariant
                self.wf(),
                q < self.ports@.len(),
                x@.len() == self.frame.n,
                exc == self.drives@[q as int],
                k <= exc@.len(),
                v == field_integral(self.profile.perm@, exc@, x@, k as nat),
            decreases exc@.len() - k,
        {
            let (d, c) = exc[k];
            assert(self.drives@[q as int]@[k as int].0 < self.frame.n);
            assert(self.profile.perm@[d as int] < self.frame.n);
            v = v.add(x[self.profile.perm[d]].rs(c));
            k += 1;
        }
        let port = self.ports[q];
        v.rs(port.h.neg().div(port.area))
    }

    /// The scattering parameters with port `p` driven.
    fn column(&self, p: usize, x: &Vec<Cx<T>>, Ghost(k0): Ghost<T>) -> (r: Vec<Cx<T>>)
        requires
            self.wf(),
            p < self.ports@.len(),
            x@ == self.response(k0, p as int),
            x@.len() == self.frame.n,
        ensures
            r@.len() == self.ports@.len(),
            forall|q: int|
                0 <= q < r@.len() ==> #[trigger] r@[q] == self.scattering(k0, q, p as int),
    {
        let mut r: Vec<Cx<T>> = Vec::new();
        let mut q: usize = 0;
        while q < self.ports.len()
            invariant
                self.wf(),
                p < self.ports@.len(),
                x@ == self.response(k0, p as int),
                x@.len() == self.frame.n,
                q <= self.ports@.len(),
                r@.len() == q,
                forall|c: int|
                    0 <= c < q ==> #[trigger] r@[c] == self.scattering(k0, c, p as int),
            decreases self.ports@.len() - q,
        {
            let v = self.voltage_of(q, x);
            let gain = T::of(2).div(self.ports[p].z0.mul(self.ports[q].z0).sqrt());
            let s = v.rs(gain);
            if q == p {
                r.push(s.sub(cx(T::unit(), T::nil())));
            } else {
                r.push(s);
            }
            q += 1;
        }
        r
    }

    /// Solves the system at wave number `k0`, with each port driven in turn.
    pub fn solve_at(&self, k0: T) -> (r: Result<Point<T>, ModelError>)
        requires
            self.wf(),
        ensures
            match r {
                Ok(point) => regular(self.at_wave(k0)) && point.describes(*self, k0),
                Err(e) => !regular(self.at_wave(k0)) && e == ModelError::Singular,
            },
    {
        let n: usize = self.frame.n;
        let a = self.fill(k0);
        let f = match prepare(n, &self.profile.frow, &self.profile.off, &a) {
            Err(_) => {
                return Err(ModelError::Singular);
            },
            Ok(f) => f,
        };
        let spread = spread_of(n, &self.profile.frow, &self.profile.off, &a, &f);
        let mut columns: Vec<Vec<Cx<T>>> = Vec::new();
        let mut residual = T::nil();
        let mut p: usize = 0;
        while p < self.ports.len()
            invariant
                self.wf(),
                n == self.frame.n,
                sky(&self.profile.frow, &self.profile.off, &a) == self.at_wave(k0),
                self.at_wave(k0).wf(),
                f.of_matrix(self.at_wave(k0)),
                p <= self.ports@.len(),
                columns@.len() == p,
                forall|c: int|
                    0 <= c < p ==> (#[trigger] columns@[c])@.len() == self.ports@.len(),
                forall|c: int, q: int|
                    0 <= c < p && 0 <= q < self.ports@.len() ==> #[trigger] columns@[c]@[q]
                        == self.scattering(k0, q, c),
                residual == self.worst_residual(k0, p as int),
            decreases self.ports@.len() - p,
        {
            let b = self.drive(k0, p);
            let x = solve_refined(n, &self.profile.frow, &self.profile.off, &a, &f, &b);
            let rest = measure(n, &self.profile.frow, &self.profile.off, &a, &b, &x);
            if residual.lt(rest) {
                residual = rest;
            }
            columns.push(self.column(p, &x, Ghost(k0)));
            p += 1;
        }
        Ok(Point { columns, spread, residual })
    }
}

// ---------------------------------------------------------------- simulation

/// A frequency of a sweep and what is known there.
pub struct Row<T> {
    pub f: T,
    pub point: Point<T>,
}

impl<T: Number> Row<T> {
    /// The row holds frequency number `i` of the sweep of a deck.
    pub open spec fn is_row(self, s: System<T>, deck: DeckModel<T>, i: usize) -> bool {
        &&& self.f == frequency(deck, i)
        &&& regular(s.at_wave(wave_number(self.f)))
        &&& self.point.describes(s, wave_number(self.f))
    }
}

/// What a sweep of the system `s` gives: a row for each frequency, or the failure
/// that the matrix is singular at one of them.
pub open spec fn sweep_outcome<T: Number>(
    s: System<T>,
    deck: DeckModel<T>,
    r: Result<Vec<Row<T>>, ModelError>,
) -> bool {
    match r {
        Ok(rows) => rows@.len() == deck.nf && forall|i: int|
            0 <= i < rows@.len() ==> (#[trigger] rows@[i]).is_row(s, deck, i as usize),
        Err(e) => e == ModelError::Singular && exists|i: usize|
            i < deck.nf && !regular(s.at_wave(wave_number(#[trigger] frequency(deck, i)))),
    }
}

/// What a simulation gives: the sweep of the system that the deck and the mesh
/// describe, or the reason why they are refused.
pub open spec fn simulated<T: Number>(
    deck: DeckModel<T>,
    mesh: Mesh<T>,
    r: Result<Vec<Row<T>>, ModelError>,
) -> bool {
    match system_model(deck, mesh) {
        Err(e) => r matches Err(f) && e == f,
        Ok(m) => exists|s: System<T>| #[trigger]
            s.matches(m) && s.wf() && sweep_outcome(s, deck, r),
    }
}

/// Solves the model of a deck and a mesh at every frequency of the sweep.
pub fn simulate<T: Scalar>(deck: &Deck<T>, mesh: &Mesh<T>) -> (r: Result<Vec<Row<T>>, ModelError>)
    requires
        mesh.wf(),
    ensures
        simulated(deck.model(), *mesh, r),
{
    let system = match build(deck, mesh) {
        Err(e) => {
            return Err(e);
        },
        Ok(s) => s,
    };
    let mut rows: Vec<Row<T>> = Vec::new();
    let mut i: usize = 0;
    while i < deck.nf
        invariant
            system.wf(),
            system_model(deck.model(), *mesh) matches Ok(m) && system.matches(m),
            i <= deck.nf,
            rows@.len() == i,
            forall|k: int|
                0 <= k < i ==> (#[trigger] rows@[k]).is_row(system, deck.model(), k as usize),
        decreases deck.nf - i,
    {
        let f = frequency_at(deck, i);
        match system.solve_at(wave_number_at(f)) {
            Err(e) => {
                let r: Result<Vec<Row<T>>, ModelError> = Err(e);
                assert(f == frequency(deck.model(), i));
                assert(sweep_outcome(system, deck.model(), r));
                return r;
            },
            Ok(point) => {
                rows.push(Row { f, point });
            },
        }
        i += 1;
    }
    let r: Result<Vec<Row<T>>, ModelError> = Ok(rows);
    assert(sweep_outcome(system, deck.model(), r));
    r
}

// ---------------------------------------------------------------- diagnostics

/// The worst pivot spread among the first `n` rows; zero where there are none.
pub open spec fn worst_spread<T: Number>(rows: Seq<Row<T>>, n: nat) -> T
    decreases n,
{
    if n == 0 {
        T::zero()
    } else {
        greater(worst_spread(rows, (n - 1) as nat), rows[n - 1].point.spread)
    }
}

/// The worst relative residual among the first `n` rows; zero where there are none.
pub open spec fn worst_remainder<T: Number>(rows: Seq<Row<T>>, n: nat) -> T
    decreases n,
{
    if n == 0 {
        T::zero()
    } else {
        greater(worst_remainder(rows, (n - 1) as nat), rows[n - 1].point.residual)
    }
}

/// The worst pivot spread and the worst relative residual of a sweep.
pub fn worst<T: Scalar>(rows: &Vec<Row<T>>) -> (r: (T, T))
    ensures
        r.0 == worst_spread(rows@, rows@.len()),
        r.1 == worst_remainder(rows@, rows@.len()),
{
    let mut spread = T::nil();
    let mut residual = T::nil();
    let mut i: usize = 0;
    while i < rows.len()
        invariant
            i <= rows@.len(),
            spread == worst_spread(rows@, i as nat),
            residual == worst_remainder(rows@, i as nat),
        decreases rows@.len() - i,
    {
        let point: &Point<T> = &rows[i].point;
        if spread.lt(point.spread) {
            spread = point.spread;
        }
        if residual.lt(point.residual) {
            residual = point.residual;
        }
        i += 1;
    }
    (spread, residual)
}

/// In exact arithmetic no row of a sweep is worse than the worst, and the worst is
/// that of a row or zero.
pub proof fn lemma_worst(rows: Seq<Row<Real>>, n: nat)
    requires
        n <= rows.len(),
    ensures
        forall|i: int|
            0 <= i < n ==> (#[trigger] rows[i]).point.spread.v <= worst_spread(rows, n).v
                && rows[i].point.residual.v <= worst_remainder(rows, n).v,
        worst_spread(rows, n).v == 0real || exists|i: int|
            0 <= i < n && (#[trigger] rows[i]).point.spread == worst_spread(rows, n),
        worst_remainder(rows, n).v == 0real || exists|i: int|
            0 <= i < n && (#[trigger] rows[i]).point.residual == worst_remainder(rows, n),
    decreases n,
{
    if n > 0 {
        lemma_worst(rows, (n - 1) as nat);
        let last = rows[n - 1].point;
        assert(rows[n - 1].point.spread == last.spread);
    }
}

// ---------------------------------------------------------------- workers

/// The smaller of two numbers.
pub open spec fn smaller(a: nat, b: nat) -> nat {
    if a <= b {
        a
    } else {
        b
    }
}

/// How many workers share a sweep: no more than there are processors or points, and
/// no more than the budget holds factorizations of `each` bytes; at least one.
pub open spec fn worker_count(processors: nat, points: nat, each: nat, budget: nat) -> nat {
    let wanted = smaller(processors, points);
    let fitting = if each == 0 {
        wanted
    } else {
        smaller(wanted, budget / each)
    };
    if fitting == 0 {
        1
    } else {
        fitting
    }
}

/// Works out how many workers share a sweep.
pub fn workers(processors: usize, points: usize, each: usize, budget: usize) -> (r: usize)
    ensures
        r == worker_count(processors as nat, points as nat, each as nat, budget as nat),
{
    let wanted: usize = if processors <= points {
        processors
    } else {
        points
    };
    let mut fitting: usize = wanted;
    if each != 0 {
        let held: usize = budget / each;
        if held < wanted {
            fitting = held;
        }
    }
    if fitting == 0 {
        1
    } else {
        fitting
    }
}

// ---------------------------------------------------------------- layout

/// The first `k` columns, one after the other.
pub open spec fn in_sequence<A>(columns: Seq<Seq<A>>, k: nat) -> Seq<A>
    decreases k,
{
    if k == 0 {
        seq![]
    } else {
        in_sequence(columns, (k - 1) as nat) + columns[k - 1]
    }
}

/// The lines of a Touchstone file at one frequency: up to two ports the columns
/// on one line, more ports row by row.
pub open spec fn touchstone_lines<A>(columns: Seq<Seq<A>>) -> Seq<Seq<A>> {
    let np = columns.len();
    if np <= 2 {
        seq![in_sequence(columns, np)]
    } else {
        Seq::new(np, |q: int| Seq::new(np, |p: int| columns[p][q]))
    }
}

/// The contents of each list.
pub open spec fn lists<A>(v: Seq<Vec<A>>) -> Seq<Seq<A>> {
    Seq::new(v.len(), |i: int| v[i]@)
}

/// Lays out scattering parameters as a Touchstone file has them.
pub fn lay_lines<T: Scalar>(columns: &Vec<Vec<Cx<T>>>) -> (r: Vec<Vec<Cx<T>>>)
    requires
        forall|p: int|
            0 <= p < columns@.len() ==> (#[trigger] columns@[p])@.len() == columns@.len(),
    ensures
        lists(r@) == touchstone_lines(lists(columns@)),
{
    let np: usize = columns.len();
    let ghost all = lists(columns@);
    let mut r: Vec<Vec<Cx<T>>> = Vec::new();
    if np <= 2 {
        let mut line: Vec<Cx<T>> = Vec::new();
        let mut p: usize = 0;
        assert(line@ =~= seq![]);
        while p < np
            invariant
                np == columns@.len(),
                all == lists(columns@),
                forall|p: int|
                    0 <= p < columns@.len() ==> (#[trigger] columns@[p])@.len() == columns@.len(),
                p <= np,
                line@ == in_sequence(all, p as nat),
            decreases np - p,
        {
            let column: &Vec<Cx<T>> = &columns[p];
            let ghost start = line@;
            let mut q: usize = 0;
            assert(line@ =~= start + column@.take(0));
            while q < column.len()
                invariant
                    q <= column@.len(),
                    line@ == start + column@.take(q as int),
                decreases column@.len() - q,
            {
                line.push(column[q]);
                q += 1;
                assert(line@ =~= start + column@.take(q as int));
            }
            assert(column@.take(q as int) =~= column@);
            assert(all[p as int] == column@);
            p += 1;
        }
        r.push(line);
        assert(lists(r@) =~= touchstone_lines(all));
    } else {
        let mut q: usize = 0;
        while q < np
            invariant
                np == columns@.len(),
                all == lists(columns@),
                forall|p: int|
                    0 <= p < columns@.len() ==> (#[trigger] columns@[p])@.len() == columns@.len(),
                q <= np,
                r@.len() == q,
                forall|c: int|
                    0 <= c < q ==> (#[trigger] r@[c])@ == Seq::new(
                        np as nat,
                        |p: int| all[p][c],
                    ),
            decreases np - q,
        {
            let mut line: Vec<Cx<T>> = Vec::new();
            let mut p: usize = 0;
            while p < np
                invariant
                    np == columns@.len(),
                    all == lists(columns@),
                    forall|p: int|
                        0 <= p < columns@.len() ==> (#[trigger] columns@[p])@.len()
                            == columns@.len(),
                    q < np,
                    p <= np,
                    line@.len() == p,
                    forall|c: int| 0 <= c < p ==> #[trigger] line@[c] == all[c][q as int],
                decreases np - p,
            {
                let column: &Vec<Cx<T>> = &columns[p];
                line.push(column[q]);
                p += 1;
            }
            assert(line@ =~= Seq::new(np as nat, |p: int| all[p][q as int]));
            r.push(line);
            q += 1;
        }
        assert(lists(r@) =~= touchstone_lines(all));
    }
    r
}

// ---------------------------------------------------------------- field

impl<T: Algebra> V3<Cx<T>> {
    /// `self` with a real vector times a complex number added to it.
    pub open spec fn with(self, v: V3<T>, z: Cx<T>) -> V3<Cx<T>> {
        V3 { x: self.x + z.scaled(v.x), y: self.y + z.scaled(v.y), z: self.z + z.scaled(v.z) }
    }
}

/// The edge function of edge `i` at the centroid of a tetrahedron, where every
/// barycentric coordinate is a quarter.
pub open spec fn at_centroid<T: Number>(shape: TetShape<T>, i: int) -> V3<T> {
    let (a, b) = tet_ends(i);
    shape.grad(b).minus(shape.grad(a)).times(T::one().over(T::number(4)))
}

/// The field at the centroid of a tetrahedron, as far as its first `i` edges go.
pub open spec fn centroid_field<T: Number>(
    num: Numbering,
    perm: Seq<usize>,
    x: Seq<Cx<T>>,
    t: Tet,
    shape: TetShape<T>,
    i: int,
) -> V3<Cx<T>>
    decreases i,
{
    if i <= 0 {
        V3::<Cx<T>>::origin()
    } else {
        let before = centroid_field(num, perm, x, t, shape, i - 1);
        match num.unknown(t.edge(i - 1)) {
            Some(d) => before.with(at_centroid(shape, i - 1), x[perm[d as int] as int]),
            None => before,
        }
    }
}

fn gradient<T: Scalar>(t: &TetShape<T>, i: usize) -> (r: V3<T>)
    requires
        i < 4,
    ensures
        r == t.grad(i as int),
{
    if i == 0 {
        t.g0
    } else if i == 1 {
        t.g1
    } else if i == 2 {
        t.g2
    } else {
        t.g3
    }
}

impl<T: Number> System<T> {
    /// The field at the centroid of a tetrahedron; none where the tetrahedron has
    /// no volume.
    pub open spec fn field_in(self, nodes: Seq<V3<T>>, t: Tet, x: Seq<Cx<T>>) -> V3<Cx<T>> {
        match shape_of_tet(nodes, t) {
            Some(shape) => centroid_field(self.frame@, self.profile.perm@, x, t, shape, 6),
            None => V3::<Cx<T>>::origin(),
        }
    }

    /// The field at the centroids of all tetrahedra, with the first port driven.
    pub open spec fn fields(self, mesh: Mesh<T>, k0: T) -> Seq<V3<Cx<T>>> {
        Seq::new(
            mesh.tets@.len(),
            |i: int| self.field_in(mesh.nodes@, mesh.tets@[i], self.response(k0, 0)),
        )
    }
}

impl<T: Scalar> System<T> {
    fn field_of(&self, mesh: &Mesh<T>, t: &Tet, x: &Vec<Cx<T>>) -> (r: V3<Cx<T>>)
        requires
            self.wf(),
            mesh.wf(),
            self.frame.edges.at@.len() == mesh.nodes@.len(),
            t.within(mesh.nodes@.len(), mesh.names@.len()),
            x@.len() == self.frame.n,
        ensures
            r == self.field_in(mesh.nodes@, *t, x@),
    {
        let zero: Cx<T> = Cx::nil();
        let mut e = V3 { x: zero, y: zero, z: zero };
        let shape = match shape_tet(
            mesh.nodes[t.a],
            mesh.nodes[t.b],
            mesh.nodes[t.c],
            mesh.nodes[t.d],
        ) {
            None => {
                return e;
            },
            Some(s) => s,
        };
        let quarter = T::unit().div(T::of(4));
        let mut i: usize = 0;
        while i < 6
            invariant
                self.wf(),
                self.frame.edges.at@.len() == mesh.nodes@.len(),
                t.within(mesh.nodes@.len(), mesh.names@.len()),
                x@.len() == self.frame.n,
                quarter == T::one().over(T::number(4)),
                i <= 6,
                e == centroid_field(
                    self.frame@,
                    self.profile.perm@,
                    x@,
                    *t,
                    shape,
                    i as int,
                ),
            decreases 6 - i,
        {
            let (a, b) = tet_pair(i);
            match self.frame.unknown(tet_corner(t, a), tet_corner(t, b)) {
                Some(d) => {
                    assert(self.profile.perm@[d as int] < self.frame.n);
                    let z = x[self.profile.perm[d]];
                    let v = crate::scalar::sc3(
                        sub3(gradient(&shape, b), gradient(&shape, a)),
                        quarter,
                    );
                    e = V3 { x: e.x.add(z.rs(v.x)), y: e.y.add(z.rs(v.y)), z: e.z.add(z.rs(v.z)) };
                },
                None => {},
            }
            i += 1;
        }
        e
    }

    /// The field at the centroids of all tetrahedra at wave number `k0`, with the
    /// first port driven.
    pub fn snapshot(&self, mesh: &Mesh<T>, k0: T) -> (r: Result<Vec<V3<Cx<T>>>, ModelError>)
        requires
            self.wf(),
            mesh.wf(),
            self.frame.edges.at@.len() == mesh.nodes@.len(),
            self.ports@.len() > 0,
        ensures
            match r {
                Ok(v) => regular(self.at_wave(k0)) && v@.len() == mesh.tets@.len() && forall|i: int|
                    0 <= i < v@.len() ==> #[trigger] v@[i] == self.field_in(
                        mesh.nodes@,
                        mesh.tets@[i],
                        self.response(k0, 0),
                    ),
                Err(e) => !regular(self.at_wave(k0)) && e == ModelError::Singular,
            },
            r matches Ok(v) ==> v@ == self.fields(*mesh, k0),
    {
        let n: usize = self.frame.n;
        let a = self.fill(k0);
        let f = match prepare(n, &self.profile.frow, &self.profile.off, &a) {
            Err(_) => {
                return Err(ModelError::Singular);
            },
            Ok(f) => f,
        };
        let b = self.drive(k0, 0);
        let x = solve_refined(n, &self.profile.frow, &self.profile.off, &a, &f, &b);
        let mut v: Vec<V3<Cx<T>>> = Vec::new();
        let mut i: usize = 0;
        while i < mesh.tets.len()
            invariant
                self.wf(),
                mesh.wf(),
                self.frame.edges.at@.len() == mesh.nodes@.len(),
                x@ == self.response(k0, 0),
                x@.len() == self.frame.n,
                i <= mesh.tets@.len(),
                v@.len() == i,
                forall|k: int|
                    0 <= k < i ==> #[trigger] v@[k] == self.field_in(
                        mesh.nodes@,
                        mesh.tets@[k],
                        x@,
                    ),
            decreases mesh.tets@.len() - i,
        {
            assert(mesh.tets@[i as int].within(mesh.nodes@.len(), mesh.names@.len()));
            v.push(self.field_of(mesh, &mesh.tets[i], &x));
            i += 1;
        }
        assert(v@ =~= self.fields(*mesh, k0));
        Ok(v)
    }
}

} // verus!
