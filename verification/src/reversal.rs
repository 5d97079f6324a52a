//! What becomes of a model when the direction of a port is reversed, in exact
//! arithmetic: the port counts its voltage and its current the other way round.

use crate::accuracy::{lemma_complex_refined_solves, lemma_regular_is_solvable};
use crate::alike::{lemma_groups, lemma_same_matrix};
use crate::assembly::{
    all_terms, drives, driven, excitation, sheet_of, shape_of_tri, strength, tri_drives, Numbering,
};
use crate::complex::{lemma_complex_ring, Real};
use crate::deck::{DeckModel, PortModel};
use crate::element::{tri_moment, TriShape};
use crate::edges::tri_ends;
use crate::groups::{assignment, CardKind, Medium, Role};
use crate::msh::{lemma_last_index, Mesh, Tri};
use crate::network::{lemma_times_sum, lemma_unique, unit_row};
use crate::ports::{port_bounds, port_shapes, PortShape};
use crate::reals::{
    real_cancel, real_mul_comm, real_mul_neg, real_quotient, real_quotient_nonzero,
};
use crate::refine::{regular, scales};
use crate::scalar::{Algebra, Cx, Number, V3};
use crate::skyline::Sky;
use crate::sweep::{field_integral, source};
use crate::system::{
    lemma_at_wave_wf, media_of, port_groups, roles_of, system_model, unknowns_of, System,
    SystemModel,
};
use vstd::prelude::*;

verus! {

/// The opposite vector.
pub open spec fn opposite(v: V3<Real>) -> V3<Real> {
    V3 { x: -v.x, y: -v.y, z: -v.z }
}

/// A deck with the direction of port `p` reversed.
pub open spec fn reversed(deck: DeckModel<Real>, p: int) -> DeckModel<Real> {
    DeckModel {
        ports: deck.ports.update(
            p,
            PortModel { dir: opposite(deck.ports[p].dir), ..deck.ports[p] },
        ),
        ..deck
    }
}

/// A port sheet with the direction reversed.
pub open spec fn turned_sheet(s: PortShape<Real>) -> PortShape<Real> {
    PortShape { dir: opposite(s.dir), ..s }
}

/// A drive with the strengths negated.
pub open spec fn negated(terms: Seq<(usize, Real)>) -> Seq<(usize, Real)> {
    Seq::new(terms.len(), |k: int| (terms[k].0, -terms[k].1))
}

// ---------------------------------------------------------------- ports

proof fn lemma_opposite_dot(v: V3<Real>, d: V3<Real>)
    ensures
        v.dot(opposite(d)) == -v.dot(d),
        opposite(d).dot(v) == -d.dot(v),
{
    real_mul_neg(v.x.v, d.x.v);
    real_mul_neg(v.y.v, d.y.v);
    real_mul_neg(v.z.v, d.z.v);
    real_mul_neg(d.x.v, v.x.v);
    real_mul_neg(d.y.v, v.y.v);
    real_mul_neg(d.z.v, v.z.v);
}

proof fn lemma_bounds_swap(
    nodes: Seq<V3<Real>>,
    tris: Seq<Tri>,
    ports: Seq<Option<usize>>,
    p: usize,
    dir: V3<Real>,
    n: nat,
)
    ensures
        port_bounds(nodes, tris, ports, p, opposite(dir), n).0 == -port_bounds(
            nodes,
            tris,
            ports,
            p,
            dir,
            n,
        ).1,
        port_bounds(nodes, tris, ports, p, opposite(dir), n).1 == -port_bounds(
            nodes,
            tris,
            ports,
            p,
            dir,
            n,
        ).0,
    decreases n,
{
    if n > 0 {
        lemma_bounds_swap(nodes, tris, ports, p, dir, (n - 1) as nat);
        let t = tris[n - 1];
        lemma_opposite_dot(nodes[t.a as int], dir);
        lemma_opposite_dot(nodes[t.b as int], dir);
        lemma_opposite_dot(nodes[t.c as int], dir);
    }
}

proof fn lemma_shapes_turn(
    nodes: Seq<V3<Real>>,
    tris: Seq<Tri>,
    groups: Seq<Option<usize>>,
    deck: DeckModel<Real>,
    p: int,
    n: nat,
)
    requires
        0 <= p < deck.ports.len(),
        n <= deck.ports.len(),
        deck.ports.len() <= usize::MAX,
    ensures
        match port_shapes(nodes, tris, groups, deck.ports, n) {
            Err(e) => port_shapes(nodes, tris, groups, reversed(deck, p).ports, n) matches Err(f)
                && e == f,
            Ok(v) => v.len() == n && (port_shapes(
                nodes,
                tris,
                groups,
                reversed(deck, p).ports,
                n,
            ) matches Ok(w) && w == if p < n {
                v.update(p, turned_sheet(v[p]))
            } else {
                v
            }),
        },
    decreases n,
{
    if n > 0 {
        lemma_shapes_turn(nodes, tris, groups, deck, p, (n - 1) as nat);
        let def = deck.ports[n - 1];
        lemma_bounds_swap(nodes, tris, groups, (n - 1) as usize, def.dir, tris.len());
        match port_shapes(nodes, tris, groups, deck.ports, n) {
            Ok(v) => {
                let before = port_shapes(nodes, tris, groups, deck.ports, (n - 1) as nat)->Ok_0;
                let w = port_shapes(nodes, tris, groups, reversed(deck, p).ports, n)->Ok_0;
                if p < n {
                    assert(w =~= v.update(p, turned_sheet(v[p])));
                } else {
                    assert(w =~= v);
                }
            },
            Err(_) => {},
        }
    }
}

// ---------------------------------------------------------------- terms

proof fn lemma_terms_stay(
    num: Numbering,
    mesh: Mesh<Real>,
    media: Seq<Medium<Real>>,
    roles: Seq<Role<Real>>,
    groups: Seq<Option<usize>>,
    ports: Seq<PortShape<Real>>,
    p: int,
    n: nat,
)
    requires
        mesh.wf(),
        n <= mesh.tris@.len(),
        0 <= p < ports.len(),
        forall|g: int|
            0 <= g < mesh.names@.len() ==> (#[trigger] groups[g] matches Some(q) ==> q
                < ports.len()),
    ensures
        all_terms(
            num,
            mesh,
            media,
            roles,
            groups,
            ports.update(p, turned_sheet(ports[p])),
            n,
        ) == all_terms(num, mesh, media, roles, groups, ports, n),
    decreases n,
{
    if n > 0 {
        lemma_terms_stay(num, mesh, media, roles, groups, ports, p, (n - 1) as nat);
        let t = mesh.tris@[n - 1];
        assert(t.within(mesh.nodes@.len(), mesh.names@.len()));
        assert(groups[t.group as int] matches Some(q) ==> q < ports.len());
        assert(sheet_of(
            mesh.tets@,
            media,
            roles,
            groups,
            ports.update(p, turned_sheet(ports[p])),
            t,
        ) == sheet_of(mesh.tets@, media, roles, groups, ports, t));
    }
}

// ---------------------------------------------------------------- drives

proof fn lemma_moment_negated(t: TriShape<Real>, dir: V3<Real>, i: int)
    ensures
        tri_moment(t, opposite(dir), i) == -tri_moment(t, dir, i),
{
    let (a, b) = tri_ends(i);
    let w = t.grad(b).minus(t.grad(a));
    lemma_opposite_dot(w, dir);
    real_mul_neg(t.area.over(Real::number(3)).v, dir.dot(w).v);
}

proof fn lemma_tri_drives_negated(
    num: Numbering,
    t: Tri,
    shape: TriShape<Real>,
    dir: V3<Real>,
    i: int,
    acc: Seq<(usize, Real)>,
)
    ensures
        tri_drives(num, t, shape, opposite(dir), i, negated(acc)) == negated(
            tri_drives(num, t, shape, dir, i, acc),
        ),
    decreases i,
{
    if i > 0 {
        lemma_tri_drives_negated(num, t, shape, dir, i - 1, acc);
        lemma_moment_negated(shape, dir, i - 1);
        let before = tri_drives(num, t, shape, dir, i - 1, acc);
        match num.unknown(t.edge(i - 1)) {
            Some(d) => {
                let v = tri_moment(shape, dir, i - 1);
                assert(negated(before.push((d, v))) =~= negated(before).push((d, -v)));
            },
            None => {},
        }
    }
}

proof fn lemma_drives_negated(
    num: Numbering,
    nodes: Seq<V3<Real>>,
    tris: Seq<Tri>,
    groups: Seq<Option<usize>>,
    p: usize,
    dir: V3<Real>,
    n: nat,
)
    ensures
        drives(num, nodes, tris, groups, p, opposite(dir), n) == negated(
            drives(num, nodes, tris, groups, p, dir, n),
        ),
    decreases n,
{
    if n > 0 {
        lemma_drives_negated(num, nodes, tris, groups, p, dir, (n - 1) as nat);
        let t = tris[n - 1];
        let acc = drives(num, nodes, tris, groups, p, dir, (n - 1) as nat);
        lemma_tri_drives_negated(num, t, shape_of_tri(nodes, t), dir, 3, acc);
    } else {
        assert(negated(seq![]) =~= seq![]);
    }
}

proof fn lemma_excitation_parts(terms: Seq<(usize, Real)>, d: usize)
    ensures
        driven(negated(terms)) == driven(terms),
        strength(negated(terms), d) == -strength(terms, d),
    decreases terms.len(),
{
    if terms.len() > 0 {
        lemma_excitation_parts(terms.drop_last(), d);
        assert(negated(terms).drop_last() =~= negated(terms.drop_last()));
    }
}

proof fn lemma_excitation_negated(terms: Seq<(usize, Real)>)
    ensures
        excitation(negated(terms)) == negated(excitation(terms)),
{
    let (e, f) = (excitation(negated(terms)), negated(excitation(terms)));
    lemma_excitation_parts(terms, 0);
    assert forall|k: int| 0 <= k < e.len() implies #[trigger] e[k] == f[k] by {
        lemma_excitation_parts(terms, driven(terms)[k]);
    }
    assert(e =~= f);
}

// ---------------------------------------------------------------- systems

/// A system with port `p` reversed.
pub open spec fn reversed_system(m: SystemModel<Real>, p: int) -> SystemModel<Real> {
    SystemModel {
        ports: m.ports.update(p, turned_sheet(m.ports[p])),
        drives: m.drives.update(p, negated(m.drives[p])),
        ..m
    }
}

/// Reversing the direction of a port reverses its sheet and negates its drive, and
/// leaves all else of the system as it is. A model that is refused is refused for the
/// same reason.
pub proof fn lemma_reversed_system(deck: DeckModel<Real>, mesh: Mesh<Real>, p: int)
    requires
        mesh.wf(),
        0 <= p < deck.ports.len() <= usize::MAX,
    ensures
        match system_model(deck, mesh) {
            Err(e) => system_model(reversed(deck, p), mesh) matches Err(f) && e == f,
            Ok(m) => m.ports.len() == deck.ports.len() && m.drives.len() == deck.ports.len() && (
            system_model(reversed(deck, p), mesh) matches Ok(n) && n == reversed_system(m, p)),
        },
{
    let back = reversed(deck, p);
    assert(back.port_names() =~= deck.port_names());
    assert(back.metal_names() =~= deck.metal_names());
    assert(back.mat_names() =~= deck.mat_names());
    assert(back.pml_names() =~= deck.pml_names());
    assert(assignment(back, mesh) == assignment(deck, mesh));
    match assignment(deck, mesh) {
        Err(_) => {},
        Ok(a) => {
            let ng = mesh.names@.len();
            let (nodes, tris) = (mesh.nodes@, mesh.tris@);
            let groups = port_groups(a, ng);
            let (roles, media) = (roles_of(deck, a, ng), media_of(deck, a, ng));
            assert(roles_of(back, a, ng) =~= roles);
            assert(media_of(back, a, ng) =~= media);
            let num = unknowns_of(mesh, roles);
            lemma_shapes_turn(nodes, tris, groups, deck, p, deck.ports.len());
            match port_shapes(nodes, tris, groups, deck.ports, deck.ports.len()) {
                Err(_) => {},
                Ok(ports) => {
                    lemma_groups(mesh, deck.port_names(), CardKind::Port);
                    assert(mesh.names@.len() == mesh.names.len());
                    assert forall|g: int| 0 <= g < ng implies (#[trigger] groups[g] matches Some(
                        q,
                    ) ==> q < ports.len()) by {
                        lemma_last_index(a.ports, g as usize);
                    }
                    lemma_terms_stay(num, mesh, media, roles, groups, ports, p, tris.len());
                    let turned = ports.update(p, turned_sheet(ports[p]));
                    lemma_drives_negated(
                        num,
                        nodes,
                        tris,
                        groups,
                        p as usize,
                        ports[p].dir,
                        tris.len(),
                    );
                    lemma_excitation_negated(
                        drives(num, nodes, tris, groups, p as usize, ports[p].dir, tris.len()),
                    );
                    match system_model(deck, mesh) {
                        Err(_) => {},
                        Ok(m) => {
                            let n = system_model(back, mesh)->Ok_0;
                            assert(n.ports == turned);
                            assert(n.drives =~= m.drives.update(p, negated(m.drives[p])));
                        },
                    }
                },
            }
        },
    }
}

// ---------------------------------------------------------------- scattering

proof fn lemma_current_negated(k: real, c: real, w: real)
    requires
        w != 0real,
    ensures
        (k * (-c)) / w == -((k * c) / w),
{
    real_mul_neg(k, c);
    let (x, y) = ((k * c) / w, (k * (-c)) / w);
    real_quotient(k * c, w);
    real_quotient(k * (-c), w);
    real_mul_neg(w, x);
    real_cancel(w, y, -x);
}

proof fn lemma_source_negated(
    n: nat,
    perm: Seq<usize>,
    drive: Seq<(usize, Real)>,
    k0: Real,
    eta0: Real,
    w: Real,
    k: nat,
)
    requires
        w.v != 0real,
        k <= drive.len(),
        forall|l: int| 0 <= l < drive.len() ==> perm[(#[trigger] drive[l]).0 as int] < n,
    ensures
        source(n, perm, drive, k0, eta0, w, k).len() == n,
        source(n, perm, negated(drive), k0, eta0, w, k).len() == n,
        forall|i: int|
            0 <= i < n ==> #[trigger] source(n, perm, negated(drive), k0, eta0, w, k)[i]
                == -source(n, perm, drive, k0, eta0, w, k)[i],
    decreases k,
{
    if k > 0 {
        lemma_source_negated(n, perm, drive, k0, eta0, w, (k - 1) as nat);
        let (d, c) = drive[k - 1];
        assert(perm[drive[k - 1].0 as int] < n);
        lemma_current_negated((-k0 * eta0).v, c.v, w.v);
    }
}

/// With the right hand side negated, so are the unknowns.
proof fn lemma_response_negated(m: Sky<Cx<Real>>, b: Seq<Cx<Real>>, c: Seq<Cx<Real>>, k: int)
    requires
        m.wf(),
        regular(m),
        0 <= k < m.n(),
        forall|i: int| 0 <= i < m.n() ==> #[trigger] c[i] == -b[i],
    ensures
        m.refined(scales(m), c)[k] == -m.refined(scales(m), b)[k],
{
    lemma_complex_ring();
    let n = m.n();
    let d = scales(m);
    lemma_regular_is_solvable(m);
    let (x, y) = (m.refined(d, b), m.refined(d, c));
    lemma_complex_refined_solves(m, d, b);
    lemma_complex_refined_solves(m, d, c);
    let unit = unit_row::<Cx<Real>>(n, k);
    lemma_complex_refined_solves(m, d, unit);
    let z = Seq::new(n, |i: int| x[i] + y[i]);
    assert forall|i: int| 0 <= i < n implies #[trigger] m.times(z, i) == Cx::<Real>::zero() by {
        lemma_times_sum(m, x, y, z, i);
        assert(m.times(x, i) == b[i] && m.times(y, i) == c[i]);
    }
    lemma_unique(m, m.refined(d, unit), z, k);
    assert(x[k] + y[k] == Cx::<Real>::zero());
}

proof fn lemma_integral_negated_drive(
    perm: Seq<usize>,
    drive: Seq<(usize, Real)>,
    x: Seq<Cx<Real>>,
    k: nat,
)
    requires
        k <= drive.len(),
    ensures
        field_integral(perm, negated(drive), x, k) == -field_integral(perm, drive, x, k),
    decreases k,
{
    if k > 0 {
        lemma_integral_negated_drive(perm, drive, x, (k - 1) as nat);
        let (d, c) = drive[k - 1];
        let z = x[perm[d as int] as int];
        real_mul_neg(z.re.v, c.v);
        real_mul_neg(z.im.v, c.v);
    }
}

proof fn lemma_integral_negated_field(
    n: nat,
    perm: Seq<usize>,
    drive: Seq<(usize, Real)>,
    x: Seq<Cx<Real>>,
    y: Seq<Cx<Real>>,
    k: nat,
)
    requires
        k <= drive.len(),
        forall|l: int| 0 <= l < drive.len() ==> perm[(#[trigger] drive[l]).0 as int] < n,
        forall|i: int| 0 <= i < n ==> #[trigger] y[i] == -x[i],
    ensures
        field_integral(perm, drive, y, k) == -field_integral(perm, drive, x, k),
    decreases k,
{
    if k > 0 {
        lemma_integral_negated_field(n, perm, drive, x, y, (k - 1) as nat);
        let (d, c) = drive[k - 1];
        assert(perm[drive[k - 1].0 as int] < n);
        let z = x[perm[d as int] as int];
        real_mul_neg(c.v, z.re.v);
        real_mul_neg(c.v, z.im.v);
        real_mul_comm(z.re.v, c.v);
        real_mul_comm(z.im.v, c.v);
        real_mul_comm(-z.re.v, c.v);
        real_mul_comm(-z.im.v, c.v);
    }
}

proof fn lemma_scaled_negated(z: Cx<Real>, g: Real)
    ensures
        (-z).scaled(g) == -z.scaled(g),
{
    real_mul_neg(g.v, z.re.v);
    real_mul_neg(g.v, z.im.v);
    real_mul_comm(z.re.v, g.v);
    real_mul_comm(z.im.v, g.v);
    real_mul_comm(-z.re.v, g.v);
    real_mul_comm(-z.im.v, g.v);
}

/// Reversing the direction of port `p` changes the sign of the scattering parameters
/// between it and the other ports. All others, its own reflection among them, stay as
/// they are.
pub proof fn lemma_reversed_port(
    deck: DeckModel<Real>,
    mesh: Mesh<Real>,
    p: int,
    s: System<Real>,
    t: System<Real>,
    k0: Real,
    i: int,
    j: int,
)
    requires
        mesh.wf(),
        0 <= p < deck.ports.len() <= usize::MAX,
        system_model(deck, mesh) matches Ok(m) && s.matches(m),
        system_model(reversed(deck, p), mesh) matches Ok(m) && t.matches(m),
        s.wf(),
        t.wf(),
        regular(s.at_wave(k0)),
        0 <= i < deck.ports.len(),
        0 <= j < deck.ports.len(),
    ensures
        t.at_wave(k0) == s.at_wave(k0),
        t.scattering(k0, i, j) == if (i == p) == (j == p) {
            s.scattering(k0, i, j)
        } else {
            -s.scattering(k0, i, j)
        },
{
    lemma_reversed_system(deck, mesh, p);
    lemma_same_matrix(s, t, k0);
    lemma_at_wave_wf(s, k0);
    let m = system_model(deck, mesh)->Ok_0;
    let n = s.frame.n as nat;
    let matrix = s.at_wave(k0);
    let perm = s.profile.perm@;
    let eta0 = Real::constants().eta0;
    let (di, dj) = (s.drives@[i]@, s.drives@[j]@);
    assert(di == m.drives[i] && dj == m.drives[j]);
    assert(t.drives@[i]@ == reversed_system(m, p).drives[i]);
    assert(t.drives@[j]@ == reversed_system(m, p).drives[j]);
    // The unknowns with port `j` driven.
    let (x, y) = (s.response(k0, j), t.response(k0, j));
    if j == p {
        let port = s.ports@[p];
        assert(port.is_sheet());
        real_quotient_nonzero(port.area.v, port.h.v);
        assert forall|l: int| 0 <= l < dj.len() implies perm[(#[trigger] dj[l]).0 as int] < n by {
            assert(s.drives@[j]@[l].0 < s.frame.n);
        }
        lemma_source_negated(n, perm, dj, k0, eta0, port.w, dj.len());
        assert forall|l: int| 0 <= l < n implies #[trigger] y[l] == -x[l] by {
            lemma_response_negated(matrix, s.source_of(k0, j), t.source_of(k0, j), l);
        }
    } else {
        assert(t.source_of(k0, j) == s.source_of(k0, j));
        assert(y == x);
    }
    // What port `i` sees of them.
    assert forall|l: int| 0 <= l < di.len() implies perm[(#[trigger] di[l]).0 as int] < n by {
        assert(s.drives@[i]@[l].0 < s.frame.n);
    }
    let seen = field_integral(perm, di, x, di.len());
    let factor = (-s.ports@[i].h).over(s.ports@[i].area);
    if j == p {
        lemma_integral_negated_field(n, perm, di, x, y, di.len());
    }
    if i == p {
        lemma_integral_negated_drive(perm, di, y, di.len());
    }
    let gain = s.gain(i, j);
    assert(t.gain(i, j) == gain);
    lemma_scaled_negated(seen, factor);
    lemma_scaled_negated(seen.scaled(factor), gain);
    let now = field_integral(perm, t.drives@[i]@, y, t.drives@[i]@.len());
    if (i == p) == (j == p) {
        assert(now == seen);
    } else {
        assert(now == -seen);
    }
}

} // verus!
