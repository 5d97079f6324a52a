//! What boundaries are: which role a group has, where the field is fixed, and what a face
//! of a tetrahedron is.

use crate::alike::{lemma_groups, lemma_is_last};
use crate::complex::Real;
use crate::deck::DeckModel;
use crate::edges::{edges_of, on_pec, pec_fits, unknown_of};
use crate::element::Entry;
use crate::groups::{
    assignment, group_of, groups_of, port_of, role_of, Assignment, CardKind, ModelError, Role,
};
use crate::msh::{last_index, lemma_last_index, Mesh, Tet, Tri};
use crate::ports::{port_area, port_shapes};
use crate::reals::{real_distribute, real_mul_neg, real_mul_zero, real_quotient};
use crate::scalar::{Algebra, Cx, Number, V3};
use crate::sheets::named_last;
use crate::system::{fixed_edges, unknowns_of};
use crate::text::spelled;
use vstd::prelude::*;

verus! {

// ---------------------------------------------------------------- groups

/// The group has the name and an element: a triangle on a surface card, a tetrahedron on
/// a volume card.
pub open spec fn is_named<T>(mesh: Mesh<T>, name: Seq<char>, g: usize, surface: bool) -> bool {
    &&& g < mesh.names@.len()
    &&& mesh.names@[g as int]@ == name
    &&& surface ==> exists|i: int| 0 <= i < mesh.tris@.len() && (#[trigger] mesh.tris@[i]).group == g
    &&& !surface ==> exists|i: int|
        0 <= i < mesh.tets@.len() && (#[trigger] mesh.tets@[i]).group == g
}

/// A card is refused where no group has its name, or the group has no element of the
/// dimension that the card speaks of, and for no other reason.
pub proof fn lemma_group<T>(mesh: Mesh<T>, name: Seq<char>, kind: CardKind, index: usize)
    requires
        mesh.names@.len() <= usize::MAX,
    ensures
        match group_of(mesh, name, kind, index) {
            Ok(g) => is_named(mesh, name, g, !(kind is Mat || kind is Pml)),
            Err(ModelError::UnknownGroup { kind: k, index: i }) => k == kind && i == index
                && forall|g: int| 0 <= g < mesh.names@.len() ==> (#[trigger] mesh.names@[g])@ != name,
            Err(ModelError::NoTriangles { kind: k, index: i }) => k == kind && i == index && !(
            kind is Mat || kind is Pml) && exists|g: int|
                0 <= g < mesh.names@.len() && (#[trigger] mesh.names@[g])@ == name && forall|j: int|
                    0 <= j < mesh.tris@.len() ==> (#[trigger] mesh.tris@[j]).group != g,
            Err(ModelError::NoTets { kind: k, index: i }) => k == kind && i == index && (
            kind is Mat || kind is Pml) && exists|g: int|
                0 <= g < mesh.names@.len() && (#[trigger] mesh.names@[g])@ == name && forall|j: int|
                    0 <= j < mesh.tets@.len() ==> (#[trigger] mesh.tets@[j]).group != g,
            _ => false,
        },
{
    let names = spelled(mesh.names@);
    lemma_last_index(names, name);
    match last_index(names, name) {
        Some(g) => {
            assert(mesh.names@[g]@ == name);
        },
        None => {
            assert forall|g: int| 0 <= g < mesh.names@.len() implies (#[trigger] mesh.names@[g])@
                != name by {
                assert(names[g] != name);
            }
        },
    }
}

/// The groups that a deck names are those with the names on its cards, card by card.
pub proof fn lemma_assignment<T>(deck: DeckModel<T>, mesh: Mesh<T>)
    requires
        mesh.names@.len() <= usize::MAX,
    ensures
        assignment(deck, mesh) matches Ok(a) ==> {
            &&& a.pec.len() == deck.pec.len() && forall|i: int|
                0 <= i < a.pec.len() ==> is_named(mesh, deck.pec[i], #[trigger] a.pec[i], true)
            &&& a.abc.len() == deck.abc.len() && forall|i: int|
                0 <= i < a.abc.len() ==> is_named(mesh, deck.abc[i], #[trigger] a.abc[i], true)
            &&& a.metals.len() == deck.metals.len() && forall|i: int|
                0 <= i < a.metals.len() ==> is_named(
                    mesh,
                    deck.metals[i].0,
                    #[trigger] a.metals[i],
                    true,
                )
            &&& a.ports.len() == deck.ports.len() && forall|i: int|
                0 <= i < a.ports.len() ==> is_named(
                    mesh,
                    deck.ports[i].group,
                    #[trigger] a.ports[i],
                    true,
                )
            &&& a.mats.len() == deck.mats.len() && forall|i: int|
                0 <= i < a.mats.len() ==> is_named(mesh, deck.mats[i].0, #[trigger] a.mats[i], false)
            &&& a.pmls.len() == deck.pmls.len() && forall|i: int|
                0 <= i < a.pmls.len() ==> is_named(mesh, deck.pmls[i].0, #[trigger] a.pmls[i], false)
        },
{
    lemma_all_named(mesh, deck.pec, CardKind::Pec);
    lemma_all_named(mesh, deck.abc, CardKind::Abc);
    lemma_all_named(mesh, deck.metal_names(), CardKind::Metal);
    lemma_all_named(mesh, deck.port_names(), CardKind::Port);
    lemma_all_named(mesh, deck.mat_names(), CardKind::Mat);
    lemma_all_named(mesh, deck.pml_names(), CardKind::Pml);
}

proof fn lemma_all_named<T>(mesh: Mesh<T>, names: Seq<Seq<char>>, kind: CardKind)
    requires
        mesh.names@.len() <= usize::MAX,
    ensures
        groups_of(mesh, names, kind) matches Ok(v) ==> v.len() == names.len() && forall|i: int|
            0 <= i < v.len() ==> is_named(
                mesh,
                names[i],
                #[trigger] v[i],
                !(kind is Mat || kind is Pml),
            ),
{
    lemma_groups(mesh, names, kind);
    match groups_of(mesh, names, kind) {
        Ok(v) => {
            assert forall|i: int| 0 <= i < v.len() implies is_named(
                mesh,
                names[i],
                #[trigger] v[i],
                !(kind is Mat || kind is Pml),
            ) by {
                lemma_group(mesh, names[i], kind, 0);
            }
        },
        Err(_) => {},
    }
}

/// The role of a group: the last conductor card for it gives a lossy conductor; without
/// one, an absorbing card makes it absorbing; without either, it is a perfect conductor
/// where a card says so, and natural otherwise. The last port card for it gives its port.
pub proof fn lemma_role<T: Number>(deck: DeckModel<T>, a: Assignment, g: usize)
    requires
        a.ports.len() <= usize::MAX,
    ensures
        forall|k: int| #[trigger]
            named_last(a.metals, k, g) ==> role_of(deck, a, g) == Role::Metal(deck.metals[k].1),
        !a.metals.contains(g) && a.abc.contains(g) ==> role_of(deck, a, g) is Abc,
        !a.metals.contains(g) && !a.abc.contains(g) && a.pec.contains(g) ==> role_of(
            deck,
            a,
            g,
        ) is Pec,
        !a.metals.contains(g) && !a.abc.contains(g) && !a.pec.contains(g) ==> role_of(
            deck,
            a,
            g,
        ) is Natural,
        forall|k: int| #[trigger]
            named_last(a.ports, k, g) ==> (port_of(a, g) matches Some(p) && p == k),
        !a.ports.contains(g) ==> port_of(a, g) is None,
{
    assert forall|k: int| #[trigger] named_last(a.metals, k, g) implies role_of(deck, a, g)
        == Role::Metal(deck.metals[k].1) by {
        lemma_is_last(a.metals, g, k);
    }
    assert forall|k: int| #[trigger] named_last(a.ports, k, g) implies (port_of(
        a,
        g,
    ) matches Some(p) && p == k) by {
        lemma_is_last(a.ports, g, k);
    }
    lemma_last_index(a.metals, g);
    lemma_last_index(a.ports, g);
    if last_index(a.metals, g) is Some {
        assert(a.metals.contains(g));
    }
    if last_index(a.ports, g) is Some {
        assert(a.ports.contains(g));
    }
}

// ---------------------------------------------------------------- edges and faces

/// The edge joins two corners of the triangle.
pub open spec fn is_side(t: Tri, e: (usize, usize)) -> bool {
    e == (t.a, t.b) || e == (t.a, t.c) || e == (t.b, t.c)
}

/// The field is fixed along the edges of perfect conductors and nowhere else: an edge of
/// the mesh carries no unknown if, and only if, it is a side of a triangle on a perfect
/// conductor.
pub proof fn lemma_fixed_edges<T>(mesh: Mesh<T>, roles: Seq<Role<T>>, e: (usize, usize))
    requires
        edges_of(mesh.tets@, mesh.tets@.len()).contains(e),
    ensures
        unknowns_of(mesh, roles).unknown(e) is None <==> exists|i: int|
            0 <= i < mesh.tris@.len() && is_side(#[trigger] mesh.tris@[i], e)
                && roles[mesh.tris@[i].group as int] is Pec,
{
    let edges = edges_of(mesh.tets@, mesh.tets@.len());
    let tris = mesh.tris@;
    let fixed = fixed_edges(mesh, roles);
    lemma_last_index(edges, e);
    let k = match last_index(edges, e) {
        Some(k) => k,
        None => 0,
    };
    assert(last_index(edges, e) is Some) by {
        let j = choose|j: int| 0 <= j < edges.len() && edges[j] == e;
        assert(edges[j] == e);
    }
    assert(unknowns_of(mesh, roles).unknown(e) == unknown_of(fixed, k));
    assert(fixed[k] == on_pec(tris, roles, edges, k));
    if on_pec(tris, roles, edges, k) {
        let (i, s) = choose|i: int, s: int|
            0 <= i < tris.len() && 0 <= s < 3 && roles[tris[i].group as int] is Pec
                && #[trigger] tris[i].edge(s) == edges[k];
        assert(is_side(tris[i], e));
    }
    if exists|i: int|
        0 <= i < tris.len() && is_side(#[trigger] tris[i], e) && roles[tris[i].group as int] is Pec {
        let i = choose|i: int|
            0 <= i < tris.len() && is_side(#[trigger] tris[i], e)
                && roles[tris[i].group as int] is Pec;
        let t = tris[i];
        assert(t.edge(0) == (t.a, t.b) && t.edge(1) == (t.a, t.c) && t.edge(2) == (t.b, t.c));
        if e == t.edge(0) {
            assert(tris[i].edge(0) == edges[k]);
        } else if e == t.edge(1) {
            assert(tris[i].edge(1) == edges[k]);
        } else {
            assert(tris[i].edge(2) == edges[k]);
        }
    }
}

/// A perfect conductor fits the mesh if, and only if, each side of its triangles is an edge
/// of the mesh.
pub proof fn lemma_conductor_fits<T>(tris: Seq<Tri>, roles: Seq<Role<T>>, edges: Seq<(usize, usize)>)
    ensures
        pec_fits(tris, roles, edges) <==> forall|i: int, e: (usize, usize)|
            0 <= i < tris.len() && roles[tris[i].group as int] is Pec && #[trigger] is_side(
                tris[i],
                e,
            ) ==> edges.contains(e),
{
    if pec_fits(tris, roles, edges) {
        assert forall|i: int, e: (usize, usize)|
            0 <= i < tris.len() && roles[tris[i].group as int] is Pec && #[trigger] is_side(
                tris[i],
                e,
            ) implies edges.contains(e) by {
            let t = tris[i];
            let s: int = if e == (t.a, t.b) {
                0
            } else if e == (t.a, t.c) {
                1
            } else {
                2
            };
            assert(tris[i].edge(s) == e);
            lemma_last_index(edges, e);
        }
    }
    if forall|i: int, e: (usize, usize)|
        0 <= i < tris.len() && roles[tris[i].group as int] is Pec && #[trigger] is_side(
            tris[i],
            e,
        ) ==> edges.contains(e) {
        assert forall|i: int, s: int|
            0 <= i < tris.len() && 0 <= s < 3 && roles[tris[i].group as int] is Pec implies last_index(
            edges,
            #[trigger] tris[i].edge(s),
        ) is Some by {
            let e = tris[i].edge(s);
            assert(is_side(tris[i], e));
            lemma_last_index(edges, e);
        }
    }
}

/// The node is a corner of the tetrahedron.
pub open spec fn has_corner(t: Tet, n: usize) -> bool {
    n == t.a || n == t.b || n == t.c || n == t.d
}

/// A triangle is a face of a tetrahedron if, and only if, all its corners are corners of
/// the tetrahedron.
pub proof fn lemma_faces(t: Tet, s: Tri)
    requires
        t.a < t.b < t.c < t.d,
        s.a < s.b < s.c,
    ensures
        t.has_face(s) <==> has_corner(t, s.a) && has_corner(t, s.b) && has_corner(t, s.c),
{
}

// ---------------------------------------------------------------- entries and ports

/// Entries add up at every wave number.
pub proof fn lemma_entries_add(a: Entry<Real>, b: Entry<Real>, k0: Real)
    ensures
        a.plus(b).at_wave(k0) == a.at_wave(k0) + b.at_wave(k0),
        Entry::<Real>::nothing().at_wave(k0) == Cx::<Real>::zero(),
{
    let (k, r) = (k0.v, k0.root().v);
    let f = -k * k;
    real_distribute(f, a.m.re.v, b.m.re.v);
    real_distribute(f, a.m.im.v, b.m.im.v);
    real_mul_neg(a.b.im.v, k);
    real_mul_neg(b.b.im.v, k);
    real_mul_neg(a.b.im.v + b.b.im.v, k);
    real_distribute(k, a.b.im.v, b.b.im.v);
    real_distribute(k, a.b.re.v, b.b.re.v);
    real_distribute(r, a.w.re.v, b.w.re.v);
    real_distribute(r, a.w.im.v, b.w.im.v);
    real_mul_zero(f);
    real_mul_zero(k);
    real_mul_zero(r);
}

/// The sheets of the ports come in the order of the cards, each with the direction and
/// the reference impedance on its card, the area of its own triangles, and the width that
/// goes with area and extent.
pub proof fn lemma_port_shapes(
    nodes: Seq<V3<Real>>,
    tris: Seq<Tri>,
    groups: Seq<Option<usize>>,
    deck: DeckModel<Real>,
    n: nat,
)
    requires
        n <= deck.ports.len() <= usize::MAX,
    ensures
        port_shapes(nodes, tris, groups, deck.ports, n) matches Ok(v) ==> v.len() == n && forall|
            k: int,
        |
            0 <= k < n ==> {
                let s = #[trigger] v[k];
                &&& s.dir == deck.ports[k].dir
                &&& s.z0 == deck.ports[k].z0
                &&& s.area == port_area(nodes, tris, groups, k as usize, tris.len())
                &&& 0real < s.h.v
                &&& 0real < s.area.v
                &&& s.h.v * s.w.v == s.area.v
            },
    decreases n,
{
    if n > 0 {
        lemma_port_shapes(nodes, tris, groups, deck, (n - 1) as nat);
        match port_shapes(nodes, tris, groups, deck.ports, n) {
            Ok(v) => {
                let s = v[n - 1];
                real_quotient(s.area.v, s.h.v);
            },
            Err(_) => {},
        }
    }
}

} // verus!
