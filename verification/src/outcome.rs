//! What holds of the results of simulations: when they are alike, what a reversed port
//! changes, and that they are reciprocal.

use crate::alike::{lemma_same_matrix, lemma_same_scattering, lemma_vacuum_card, with_mat};
use crate::complex::Real;
use crate::deck::{in_range, vacuum, DeckModel};
use crate::groups::{assignment, has_tets, ModelError};
use crate::idle::{differ_in_idle_triangles, lemma_idle_triangles};
use crate::msh::{last_index, Mesh};
use crate::network::lemma_scattering_reciprocal;
use crate::reals::{real_no_divisors, real_quotient_nonzero};
use crate::refine::regular;
use crate::reversal::{lemma_reversed_port, lemma_reversed_system, reversed};
use crate::scalar::{Algebra, Cx, Number};
use crate::sweep::{
    frequency, lemma_sweep_positive, lists, simulated, sweep_outcome, wave_number, Row,
};
use crate::system::{system_model, System};
use crate::text::spelled;
use vstd::prelude::*;

verus! {

/// The same frequency, scattering parameters, pivot spread and residual.
pub open spec fn same_row<T>(r: Row<T>, t: Row<T>) -> bool {
    &&& t.f == r.f
    &&& lists(t.point.columns@) == lists(r.point.columns@)
    &&& t.point.spread == r.point.spread
    &&& t.point.residual == r.point.residual
}

/// Two simulations give the same, or fail for the same reason.
pub open spec fn same_outcome<T>(
    r: Result<Vec<Row<T>>, ModelError>,
    t: Result<Vec<Row<T>>, ModelError>,
) -> bool {
    match r {
        Err(e) => t matches Err(f) && e == f,
        Ok(rows) => t matches Ok(more) && more@.len() == rows@.len() && forall|i: int|
            0 <= i < rows@.len() ==> same_row(#[trigger] rows@[i], more@[i]),
    }
}

proof fn lemma_same_residual<T: Number>(s: System<T>, t: System<T>, k0: T, p: int)
    requires
        s.wf(),
        t.wf(),
        s.frame.n == t.frame.n,
        s.matrix.terms@ == t.matrix.terms@,
        s.ports@ == t.ports@,
        forall|k: int| 0 <= k < s.ports@.len() ==> (#[trigger] s.drives@[k])@ == t.drives@[k]@,
        0 <= p <= s.ports@.len(),
    ensures
        s.worst_residual(k0, p) == t.worst_residual(k0, p),
    decreases p,
{
    if p > 0 {
        lemma_same_residual(s, t, k0, p - 1);
        lemma_same_scattering(s, t, k0, p - 1, p - 1);
        lemma_same_matrix(s, t, k0);
        assert(s.drives@[p - 1]@ == t.drives@[p - 1]@);
    }
}

/// Systems with the same equations have the same sweep.
proof fn lemma_same_sweep<T: Number>(
    s: System<T>,
    t: System<T>,
    deck: DeckModel<T>,
    other: DeckModel<T>,
    r: Result<Vec<Row<T>>, ModelError>,
    u: Result<Vec<Row<T>>, ModelError>,
)
    requires
        s.wf(),
        t.wf(),
        s.frame.n == t.frame.n,
        s.matrix.terms@ == t.matrix.terms@,
        s.ports@ == t.ports@,
        forall|k: int| 0 <= k < s.ports@.len() ==> (#[trigger] s.drives@[k])@ == t.drives@[k]@,
        (deck.f0, deck.f1, deck.nf) == (other.f0, other.f1, other.nf),
        sweep_outcome(s, deck, r),
        sweep_outcome(t, other, u),
    ensures
        same_outcome(r, u),
{
    assert forall|k0: T| #[trigger] s.at_wave(k0) == t.at_wave(k0) by {
        lemma_same_matrix(s, t, k0);
    }
    assert forall|i: usize| #[trigger] frequency(deck, i) == frequency(other, i) by {}
    lemma_both_finish(s, t, deck, other, r, u);
    match (r, u) {
        (Ok(rows), Ok(more)) => {
            assert forall|i: int| 0 <= i < rows@.len() implies same_row(
                #[trigger] rows@[i],
                more@[i],
            ) by {
                let (a, b) = (rows@[i], more@[i]);
                assert(a.is_row(s, deck, i as usize) && b.is_row(t, other, i as usize));
                let k0 = wave_number(a.f);
                let (x, y) = (lists(a.point.columns@), lists(b.point.columns@));
                let np = s.ports@.len() as int;
                assert(s.at_wave(k0) == t.at_wave(k0));
                lemma_same_residual(s, t, k0, np);
                assert forall|p: int| 0 <= p < np implies #[trigger] x[p] == y[p] by {
                    assert(a.point.columns@[p]@.len() == np);
                    assert(b.point.columns@[p]@.len() == np);
                    assert forall|q: int| 0 <= q < np implies #[trigger] x[p][q] == y[p][q] by {
                        lemma_same_scattering(s, t, k0, q, p);
                        assert(a.point.columns@[p]@[q] == s.scattering(k0, q, p));
                        assert(b.point.columns@[p]@[q] == t.scattering(k0, q, p));
                    }
                    assert(x[p] =~= y[p]);
                }
                assert(x =~= y);
            }
        },
        _ => {},
    }
}

/// Systems with the same matrix fail at the same frequencies.
proof fn lemma_both_finish<T: Number>(
    s: System<T>,
    t: System<T>,
    deck: DeckModel<T>,
    other: DeckModel<T>,
    r: Result<Vec<Row<T>>, ModelError>,
    u: Result<Vec<Row<T>>, ModelError>,
)
    requires
        forall|k0: T| regular(#[trigger] s.at_wave(k0)) <==> regular(t.at_wave(k0)),
        (deck.f0, deck.f1, deck.nf) == (other.f0, other.f1, other.nf),
        sweep_outcome(s, deck, r),
        sweep_outcome(t, other, u),
    ensures
        r is Ok <==> u is Ok,
        r matches Err(e) ==> (u matches Err(f) && e == f),
{
    match (r, u) {
        (Ok(rows), Err(_)) => {
            let i = choose|i: usize|
                i < other.nf && !regular(t.at_wave(wave_number(#[trigger] frequency(other, i))));
            assert(rows@[i as int].is_row(s, deck, i));
            assert(regular(s.at_wave(wave_number(frequency(deck, i)))));
        },
        (Err(_), Ok(more)) => {
            let i = choose|i: usize|
                i < deck.nf && !regular(s.at_wave(wave_number(#[trigger] frequency(deck, i))));
            assert(more@[i as int].is_row(t, other, i));
            assert(!regular(s.at_wave(wave_number(frequency(deck, i)))));
        },
        _ => {},
    }
}

/// Volumes without a material card are vacuum: with a card that says so for a volume
/// group that no material card names, a simulation gives the same.
pub proof fn lemma_vacuum_simulation<T: Number>(
    deck: DeckModel<T>,
    mesh: Mesh<T>,
    k: int,
    name: Seq<char>,
    r: Result<Vec<Row<T>>, ModelError>,
    u: Result<Vec<Row<T>>, ModelError>,
)
    requires
        0 <= k <= deck.mats.len(),
        assignment(deck, mesh) is Ok,
        !deck.mat_names().contains(name),
        last_index(spelled(mesh.names@), name) matches Some(g) && has_tets(mesh.tets@, g),
        simulated(deck, mesh, r),
        simulated(with_mat(deck, k, name, vacuum()), mesh, u),
    ensures
        same_outcome(r, u),
{
    let other = with_mat(deck, k, name, vacuum());
    lemma_vacuum_card(deck, mesh, k, name);
    match system_model(deck, mesh) {
        Err(_) => {},
        Ok(m) => {
            let s = choose|s: System<T>| #[trigger]
                s.matches(m) && s.wf() && sweep_outcome(s, deck, r);
            let t = choose|t: System<T>| #[trigger]
                t.matches(m) && t.wf() && sweep_outcome(t, other, u);
            assert forall|i: int| 0 <= i < s.ports@.len() implies (#[trigger] s.drives@[i])@
                == t.drives@[i]@ by {
                assert(s.drives@[i]@ == m.drives[i]);
                assert(t.drives@[i]@ == m.drives[i]);
            }
            lemma_same_sweep(s, t, deck, other, r, u);
        },
    }
}

/// Surfaces without a role are natural boundaries: with more triangles, or fewer, in
/// groups without a role, a simulation gives the same.
pub proof fn lemma_idle_simulation<T: Number>(
    deck: DeckModel<T>,
    mesh: Mesh<T>,
    wide: Mesh<T>,
    r: Result<Vec<Row<T>>, ModelError>,
    u: Result<Vec<Row<T>>, ModelError>,
)
    requires
        mesh.wf(),
        wide.wf(),
        differ_in_idle_triangles(deck, mesh, wide),
        assignment(deck, mesh) is Ok,
        simulated(deck, mesh, r),
        simulated(deck, wide, u),
    ensures
        same_outcome(r, u),
{
    lemma_idle_triangles(deck, mesh, wide);
    match (system_model(deck, mesh), system_model(deck, wide)) {
        (Ok(m), Ok(n)) => {
            let s = choose|s: System<T>| #[trigger]
                s.matches(m) && s.wf() && sweep_outcome(s, deck, r);
            let t = choose|t: System<T>| #[trigger]
                t.matches(n) && t.wf() && sweep_outcome(t, deck, u);
            assert forall|i: int| 0 <= i < s.ports@.len() implies (#[trigger] s.drives@[i])@
                == t.drives@[i]@ by {
                assert(s.drives@[i]@ == m.drives[i]);
                assert(t.drives@[i]@ == n.drives[i]);
            }
            lemma_same_sweep(s, t, deck, deck, r, u);
        },
        _ => {},
    }
}

/// Two simulations give the same but for the signs of the scattering parameters between
/// port `p` and the others, or fail for the same reason.
pub open spec fn reversed_outcome(
    r: Result<Vec<Row<Real>>, ModelError>,
    t: Result<Vec<Row<Real>>, ModelError>,
    np: nat,
    p: int,
) -> bool {
    match r {
        Err(e) => t matches Err(f) && e == f,
        Ok(rows) => t matches Ok(more) && more@.len() == rows@.len() && (forall|i: int|
            0 <= i < rows@.len() ==> (#[trigger] more@[i]).f == rows@[i].f) && (forall|
            i: int,
            a: int,
            b: int,
        |
            0 <= i < rows@.len() && 0 <= a < np && 0 <= b < np
                ==> #[trigger] more@[i].point.columns@[a]@[b] == if (a == p) == (b == p) {
                rows@[i].point.columns@[a]@[b]
            } else {
                -rows@[i].point.columns@[a]@[b]
            }),
    }
}

/// With the direction of port `p` reversed, a simulation gives the same but for the
/// signs of the scattering parameters between that port and the others, in exact
/// arithmetic.
pub proof fn lemma_reversed_simulation(
    deck: DeckModel<Real>,
    mesh: Mesh<Real>,
    p: int,
    r: Result<Vec<Row<Real>>, ModelError>,
    u: Result<Vec<Row<Real>>, ModelError>,
)
    requires
        mesh.wf(),
        0 <= p < deck.ports.len() <= usize::MAX,
        simulated(deck, mesh, r),
        simulated(reversed(deck, p), mesh, u),
    ensures
        reversed_outcome(r, u, deck.ports.len(), p),
{
    let other = reversed(deck, p);
    lemma_reversed_system(deck, mesh, p);
    match (system_model(deck, mesh), system_model(other, mesh)) {
        (Ok(m), Ok(n)) => {
            let s = choose|s: System<Real>| #[trigger]
                s.matches(m) && s.wf() && sweep_outcome(s, deck, r);
            let t = choose|t: System<Real>| #[trigger]
                t.matches(n) && t.wf() && sweep_outcome(t, other, u);
            assert forall|k0: Real| #[trigger] s.at_wave(k0) == t.at_wave(k0) by {
                lemma_same_matrix(s, t, k0);
            }
            lemma_both_finish(s, t, deck, other, r, u);
            match (r, u) {
                (Ok(rows), Ok(more)) => {
                    assert forall|i: int| 0 <= i < rows@.len() implies (#[trigger] more@[i]).f
                        == rows@[i].f by {
                        assert(rows@[i].is_row(s, deck, i as usize));
                        assert(more@[i].is_row(t, other, i as usize));
                    }
                    assert forall|i: int, a: int, b: int|
                        0 <= i < rows@.len() && 0 <= a < deck.ports.len() && 0 <= b
                            < deck.ports.len() implies #[trigger] more@[i].point.columns@[a]@[b]
                        == if (a == p) == (b == p) {
                        rows@[i].point.columns@[a]@[b]
                    } else {
                        -rows@[i].point.columns@[a]@[b]
                    } by {
                        assert(rows@[i].is_row(s, deck, i as usize));
                        assert(more@[i].is_row(t, other, i as usize));
                        let k0 = wave_number(rows@[i].f);
                        assert(rows@[i].point.columns@[a]@[b] == s.scattering(k0, b, a));
                        assert(more@[i].point.columns@[a]@[b] == t.scattering(k0, b, a));
                        lemma_reversed_port(deck, mesh, p, s, t, k0, b, a);
                    }
                },
                _ => {},
            }
        },
        _ => {},
    }
}

/// The scattering parameters that a simulation gives are reciprocal in exact
/// arithmetic, at every frequency of the sweep of a deck that is accepted.
pub proof fn lemma_simulation_reciprocal(
    deck: DeckModel<Real>,
    mesh: Mesh<Real>,
    rows: Vec<Row<Real>>,
    i: int,
    p: int,
    q: int,
)
    requires
        in_range(deck),
        simulated(deck, mesh, Ok(rows)),
        0 <= i < rows@.len(),
        0 <= p < rows@[i].point.columns@.len(),
        0 <= q < rows@[i].point.columns@.len(),
    ensures
        rows@[i].point.columns@[p]@[q] == rows@[i].point.columns@[q]@[p],
{
    let m = system_model(deck, mesh)->Ok_0;
    let s = choose|s: System<Real>| #[trigger]
        s.matches(m) && s.wf() && sweep_outcome(s, deck, Ok(rows));
    assert(rows@[i].is_row(s, deck, i as usize));
    let k0 = wave_number(rows@[i].f);
    lemma_sweep_positive(deck, i as usize);
    assert(k0.v != 0real) by {
        let known = Real::constants();
        real_quotient_nonzero(6283185307179586477real, 1000000000000000000real);
        real_no_divisors(known.two_pi.v, rows@[i].f.v);
        real_quotient_nonzero((known.two_pi * rows@[i].f).v, known.c0.v);
    }
    assert(rows@[i].point.columns@[p]@[q] == s.scattering(k0, q, p));
    assert(rows@[i].point.columns@[q]@[p] == s.scattering(k0, p, q));
    lemma_scattering_reciprocal(s, k0, p, q);
}

} // verus!
