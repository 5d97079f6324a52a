//! Surfaces without a role are natural boundaries: triangles that no card speaks of
//! leave a model as it is.

use crate::alike::{lemma_groups, lemma_groups_found, lemma_is_last};
use crate::assembly::{
    all_terms, drives, shape_of_tet, shape_of_tri, sheet_of, tet_row, tet_terms,
    tri_drives, tri_row, tri_terms, volume_terms, Numbering, Sheet, Term,
};
use crate::deck::{vacuum, DeckModel, PortModel};
use crate::edges::{edges_of, on_pec, pec_fits, touching, with_tet};
use crate::element::{TetShape, TriShape};
use crate::groups::{
    assignment, group_of, groups_of, has_tets, has_tris, medium_of, port_of, role_of,
    stretch_tensor, unit_tensor, Assignment, CardKind, Medium, ModelError, Role,
};
use crate::msh::{last_index, lemma_last_index, Mesh, Tet, Tri};
use crate::ports::{port_area, port_bounds, port_shapes, PortShape};
use crate::scalar::{Cx, Number, V3};
use crate::system::{
    fixed_edges, media_of, port_groups, roles_of, system_model, unknowns_of, SystemModel,
};
use crate::text::spelled;
use vstd::prelude::*;

verus! {

// ---------------------------------------------------------------- what counts

/// A card gives the group a role as a surface.
pub open spec fn has_role<T>(deck: DeckModel<T>, name: Seq<char>) -> bool {
    deck.pec.contains(name) || deck.abc.contains(name) || deck.metal_names().contains(name)
        || deck.port_names().contains(name)
}

/// The name of a group.
pub open spec fn name_of<T>(mesh: Mesh<T>, g: usize) -> Seq<char> {
    spelled(mesh.names@)[g as int]
}

/// The corners of a triangle and the name of its group.
pub open spec fn named_tri<T>(mesh: Mesh<T>, t: Tri) -> (usize, usize, usize, Seq<char>) {
    (t.a, t.b, t.c, name_of(mesh, t.group))
}

/// The tetrahedra: their corners, and the names of their groups.
pub open spec fn named_tets<T>(mesh: Mesh<T>) -> Seq<(usize, usize, usize, usize, Seq<char>)> {
    Seq::new(
        mesh.tets@.len(),
        |i: int|
            (
                mesh.tets@[i].a,
                mesh.tets@[i].b,
                mesh.tets@[i].c,
                mesh.tets@[i].d,
                name_of(mesh, mesh.tets@[i].group),
            ),
    )
}

/// The triangles in groups with a role, among the first `n`.
pub open spec fn surfaces<T>(deck: DeckModel<T>, mesh: Mesh<T>, n: nat) -> Seq<
    (usize, usize, usize, Seq<char>),
>
    decreases n,
{
    if n == 0 {
        seq![]
    } else {
        let before = surfaces(deck, mesh, (n - 1) as nat);
        let t = mesh.tris@[n - 1];
        if has_role(deck, name_of(mesh, t.group)) {
            before.push(named_tri(mesh, t))
        } else {
            before
        }
    }
}

/// Two meshes have the same nodes, the same tetrahedra and, in groups with a role, the
/// same triangles. They may differ in other triangles, and in how their groups are
/// numbered.
pub open spec fn differ_in_idle_triangles<T>(
    deck: DeckModel<T>,
    mesh: Mesh<T>,
    wide: Mesh<T>,
) -> bool {
    &&& wide.nodes@ == mesh.nodes@
    &&& named_tets(wide) == named_tets(mesh)
    &&& surfaces(deck, wide, wide.tris@.len()) == surfaces(deck, mesh, mesh.tris@.len())
}

// ---------------------------------------------------------------- names

/// The role of the group with the given name.
spec fn role_named<T>(deck: DeckModel<T>, name: Seq<char>) -> Role<T> {
    match last_index(deck.metal_names(), name) {
        Some(k) => Role::Metal(deck.metals[k].1),
        None => if deck.abc.contains(name) {
            Role::Abc
        } else if deck.pec.contains(name) {
            Role::Pec
        } else {
            Role::Natural
        },
    }
}

/// The port on the group with the given name.
spec fn port_named<T>(deck: DeckModel<T>, name: Seq<char>) -> Option<usize> {
    match last_index(deck.port_names(), name) {
        Some(k) => Some(k as usize),
        None => None,
    }
}

/// What fills the group with the given name.
spec fn medium_named<T: Number>(deck: DeckModel<T>, name: Seq<char>) -> Medium<T> {
    let mat = match last_index(deck.mat_names(), name) {
        Some(k) => deck.mats[k].1,
        None => vacuum(),
    };
    Medium {
        eps: Cx { re: mat.eps, im: -mat.eps * mat.tand },
        mur: mat.mur,
        sigma: mat.sigma,
        tensor: match last_index(deck.pml_names(), name) {
            Some(k) => stretch_tensor(deck.pmls[k].1),
            None => unit_tensor(),
        },
    }
}

/// Lists that hold two items at the same places.
proof fn lemma_last_agree<A, B>(s: Seq<A>, t: Seq<B>, x: A, y: B)
    requires
        s.len() == t.len(),
        forall|i: int| 0 <= i < s.len() ==> ((#[trigger] s[i] == x) <==> (t[i] == y)),
    ensures
        last_index(s, x) == last_index(t, y),
        s.contains(x) <==> t.contains(y),
    decreases s.len(),
{
    if s.len() > 0 {
        let (a, b) = (s.drop_last(), t.drop_last());
        assert forall|i: int| 0 <= i < a.len() implies ((#[trigger] a[i] == x) <==> (b[i]
            == y)) by {
            assert(a[i] == s[i] && b[i] == t[i]);
        }
        lemma_last_agree(a, b, x, y);
        assert(s[s.len() - 1] == s.last() && t[t.len() - 1] == t.last());
    }
    if s.contains(x) {
        let i = choose|i: int| 0 <= i < s.len() && s[i] == x;
        assert(t[i] == y);
    }
    if t.contains(y) {
        let i = choose|i: int| 0 <= i < t.len() && t[i] == y;
        assert(s[i] == x);
    }
}

/// The group that a card names is the one with that name.
proof fn lemma_card_names<T>(
    mesh: Mesh<T>,
    names: Seq<Seq<char>>,
    kind: CardKind,
    v: Seq<usize>,
    g: usize,
)
    requires
        mesh.wf(),
        groups_of(mesh, names, kind) == Ok::<Seq<usize>, ModelError>(v),
        g < mesh.names@.len(),
    ensures
        last_index(v, g) == last_index(names, name_of(mesh, g)),
        v.contains(g) <==> names.contains(name_of(mesh, g)),
{
    lemma_groups(mesh, names, kind);
    assert(mesh.names@.len() == mesh.names.len());
    assert forall|i: int| 0 <= i < v.len() implies ((#[trigger] v[i] == g) <==> (names[i]
        == name_of(mesh, g))) by {
        assert(group_of(mesh, names[i], kind, 0) == Ok::<usize, ModelError>(v[i]));
        lemma_last_index(spelled(mesh.names@), names[i]);
        lemma_distinct(mesh, v[i], g);
    }
    lemma_last_agree(v, names, g, name_of(mesh, g));
}

proof fn lemma_distinct<T>(mesh: Mesh<T>, g: usize, h: usize)
    requires
        mesh.wf(),
        g < mesh.names@.len(),
        h < mesh.names@.len(),
    ensures
        name_of(mesh, g) == name_of(mesh, h) ==> g == h,
{
    if g < h {
        assert(mesh.names@[g as int]@ != mesh.names@[h as int]@);
    } else if h < g {
        assert(mesh.names@[h as int]@ != mesh.names@[g as int]@);
    }
}

/// What the deck makes of a group depends on its name alone.
proof fn lemma_by_name<T: Number>(deck: DeckModel<T>, mesh: Mesh<T>, a: Assignment, g: usize)
    requires
        mesh.wf(),
        assignment(deck, mesh) == Ok::<Assignment, ModelError>(a),
        g < mesh.names@.len(),
    ensures
        role_of(deck, a, g) == role_named(deck, name_of(mesh, g)),
        port_of(a, g) == port_named(deck, name_of(mesh, g)),
        medium_of(deck, a, g) == medium_named(deck, name_of(mesh, g)),
{
    lemma_card_names(mesh, deck.pec, CardKind::Pec, a.pec, g);
    lemma_card_names(mesh, deck.abc, CardKind::Abc, a.abc, g);
    lemma_card_names(mesh, deck.metal_names(), CardKind::Metal, a.metals, g);
    lemma_card_names(mesh, deck.port_names(), CardKind::Port, a.ports, g);
    lemma_card_names(mesh, deck.mat_names(), CardKind::Mat, a.mats, g);
    lemma_card_names(mesh, deck.pml_names(), CardKind::Pml, a.pmls, g);
}

/// A group without a card for surfaces is a natural boundary and no port.
proof fn lemma_no_role<T>(deck: DeckModel<T>, name: Seq<char>)
    requires
        !has_role(deck, name),
    ensures
        role_named(deck, name) is Natural,
        port_named(deck, name) is None,
{
    lemma_last_index(deck.metal_names(), name);
    lemma_last_index(deck.port_names(), name);
    if last_index(deck.metal_names(), name) is Some {
        assert(deck.metal_names().contains(name));
    }
    if last_index(deck.port_names(), name) is Some {
        assert(deck.port_names().contains(name));
    }
}

// ---------------------------------------------------------------- elements

proof fn lemma_same_edges(t: Tet, u: Tet, list: Seq<(usize, usize)>, k: int)
    requires
        (t.a, t.b, t.c, t.d) == (u.a, u.b, u.c, u.d),
    ensures
        with_tet(list, t, k) == with_tet(list, u, k),
    decreases k,
{
    if k > 0 {
        lemma_same_edges(t, u, list, k - 1);
    }
}

proof fn lemma_same_tet_row<T: Number>(
    num: Numbering,
    t: Tet,
    u: Tet,
    shape: TetShape<T>,
    medium: Medium<T>,
    i: int,
    j: int,
    acc: Seq<Term<T>>,
)
    requires
        (t.a, t.b, t.c, t.d) == (u.a, u.b, u.c, u.d),
    ensures
        tet_row(num, t, shape, medium, i, j, acc) == tet_row(num, u, shape, medium, i, j, acc),
    decreases j,
{
    if j > i && j > 0 {
        lemma_same_tet_row(num, t, u, shape, medium, i, j - 1, acc);
    }
}

proof fn lemma_same_tet_terms<T: Number>(
    num: Numbering,
    t: Tet,
    u: Tet,
    shape: TetShape<T>,
    medium: Medium<T>,
    i: int,
    acc: Seq<Term<T>>,
)
    requires
        (t.a, t.b, t.c, t.d) == (u.a, u.b, u.c, u.d),
    ensures
        tet_terms(num, t, shape, medium, i, acc) == tet_terms(num, u, shape, medium, i, acc),
    decreases i,
{
    if i > 0 {
        lemma_same_tet_terms(num, t, u, shape, medium, i - 1, acc);
        lemma_same_tet_row(
            num,
            t,
            u,
            shape,
            medium,
            i - 1,
            6,
            tet_terms(num, t, shape, medium, i - 1, acc),
        );
    }
}

proof fn lemma_same_tri_row<T: Number>(
    num: Numbering,
    t: Tri,
    u: Tri,
    shape: TriShape<T>,
    sheet: Sheet<T>,
    i: int,
    j: int,
    acc: Seq<Term<T>>,
)
    requires
        (t.a, t.b, t.c) == (u.a, u.b, u.c),
    ensures
        tri_row(num, t, shape, sheet, i, j, acc) == tri_row(num, u, shape, sheet, i, j, acc),
    decreases j,
{
    if j > i && j > 0 {
        lemma_same_tri_row(num, t, u, shape, sheet, i, j - 1, acc);
    }
}

proof fn lemma_same_tri_terms<T: Number>(
    num: Numbering,
    t: Tri,
    u: Tri,
    shape: TriShape<T>,
    sheet: Sheet<T>,
    i: int,
    acc: Seq<Term<T>>,
)
    requires
        (t.a, t.b, t.c) == (u.a, u.b, u.c),
    ensures
        tri_terms(num, t, shape, sheet, i, acc) == tri_terms(num, u, shape, sheet, i, acc),
    decreases i,
{
    if i > 0 {
        lemma_same_tri_terms(num, t, u, shape, sheet, i - 1, acc);
        lemma_same_tri_row(
            num,
            t,
            u,
            shape,
            sheet,
            i - 1,
            3,
            tri_terms(num, t, shape, sheet, i - 1, acc),
        );
    }
}

proof fn lemma_same_tri_drives<T: Number>(
    num: Numbering,
    t: Tri,
    u: Tri,
    shape: TriShape<T>,
    dir: V3<T>,
    i: int,
    acc: Seq<(usize, T)>,
)
    requires
        (t.a, t.b, t.c) == (u.a, u.b, u.c),
    ensures
        tri_drives(num, t, shape, dir, i, acc) == tri_drives(num, u, shape, dir, i, acc),
    decreases i,
{
    if i > 0 {
        lemma_same_tri_drives(num, t, u, shape, dir, i - 1, acc);
    }
}

// ---------------------------------------------------------------- two meshes

/// The roles of the groups of a mesh, by their names.
spec fn roles_in<T>(deck: DeckModel<T>, mesh: Mesh<T>) -> Seq<Role<T>> {
    Seq::new(mesh.names@.len(), |g: int| role_named(deck, name_of(mesh, g as usize)))
}

/// The ports on the groups of a mesh, by their names.
spec fn ports_in<T>(deck: DeckModel<T>, mesh: Mesh<T>) -> Seq<Option<usize>> {
    Seq::new(mesh.names@.len(), |g: int| port_named(deck, name_of(mesh, g as usize)))
}

/// What fills the groups of a mesh, by their names.
spec fn media_in<T: Number>(deck: DeckModel<T>, mesh: Mesh<T>) -> Seq<Medium<T>> {
    Seq::new(mesh.names@.len(), |g: int| medium_named(deck, name_of(mesh, g as usize)))
}

/// Tetrahedron `i` of both meshes.
proof fn lemma_same_tet<T: Number>(deck: DeckModel<T>, mesh: Mesh<T>, wide: Mesh<T>, i: int)
    requires
        mesh.wf(),
        wide.wf(),
        named_tets(wide) == named_tets(mesh),
        0 <= i < mesh.tets@.len(),
    ensures
        mesh.tets@.len() == wide.tets@.len(),
        ({
            let (t, u) = (mesh.tets@[i], wide.tets@[i]);
            &&& (t.a, t.b, t.c, t.d) == (u.a, u.b, u.c, u.d)
            &&& name_of(mesh, t.group) == name_of(wide, u.group)
            &&& t.group < mesh.names@.len()
            &&& u.group < wide.names@.len()
            &&& media_in(deck, mesh)[t.group as int] == media_in(deck, wide)[u.group as int]
        }),
{
    assert(named_tets(mesh).len() == mesh.tets@.len());
    assert(named_tets(wide).len() == wide.tets@.len());
    assert(named_tets(mesh)[i] == named_tets(wide)[i]);
    assert(mesh.tets@[i].within(mesh.nodes@.len(), mesh.names@.len()));
    assert(wide.tets@[i].within(wide.nodes@.len(), wide.names@.len()));
}

proof fn lemma_same_edge_lists<T: Number>(
    deck: DeckModel<T>,
    mesh: Mesh<T>,
    wide: Mesh<T>,
    n: nat,
)
    requires
        mesh.wf(),
        wide.wf(),
        named_tets(wide) == named_tets(mesh),
        n <= mesh.tets@.len(),
    ensures
        edges_of(mesh.tets@, n) == edges_of(wide.tets@, n),
    decreases n,
{
    if n > 0 {
        lemma_same_edge_lists(deck, mesh, wide, (n - 1) as nat);
        lemma_same_tet(deck, mesh, wide, n - 1);
        lemma_same_edges(
            mesh.tets@[n - 1],
            wide.tets@[n - 1],
            edges_of(mesh.tets@, (n - 1) as nat),
            6,
        );
    }
}

proof fn lemma_same_volume<T: Number>(
    deck: DeckModel<T>,
    mesh: Mesh<T>,
    wide: Mesh<T>,
    num: Numbering,
    n: nat,
)
    requires
        mesh.wf(),
        wide.wf(),
        wide.nodes@ == mesh.nodes@,
        named_tets(wide) == named_tets(mesh),
        n <= mesh.tets@.len(),
    ensures
        volume_terms(num, mesh.nodes@, mesh.tets@, media_in(deck, mesh), n) == volume_terms(
            num,
            wide.nodes@,
            wide.tets@,
            media_in(deck, wide),
            n,
        ),
    decreases n,
{
    if n > 0 {
        lemma_same_volume(deck, mesh, wide, num, (n - 1) as nat);
        lemma_same_tet(deck, mesh, wide, n - 1);
        let (t, u) = (mesh.tets@[n - 1], wide.tets@[n - 1]);
        assert(shape_of_tet(mesh.nodes@, t) == shape_of_tet(wide.nodes@, u));
        match (
            volume_terms(num, mesh.nodes@, mesh.tets@, media_in(deck, mesh), (n - 1) as nat),
            shape_of_tet(mesh.nodes@, t),
        ) {
            (Ok(acc), Some(shape)) => {
                lemma_same_tet_terms(
                    num,
                    t,
                    u,
                    shape,
                    media_in(deck, mesh)[t.group as int],
                    6,
                    acc,
                );
            },
            _ => {},
        }
    }
}

proof fn lemma_same_touching<T: Number>(
    deck: DeckModel<T>,
    mesh: Mesh<T>,
    wide: Mesh<T>,
    t: Tri,
    u: Tri,
    n: nat,
)
    requires
        mesh.wf(),
        wide.wf(),
        named_tets(wide) == named_tets(mesh),
        n <= mesh.tets@.len(),
        (t.a, t.b, t.c) == (u.a, u.b, u.c),
    ensures
        touching(mesh.tets@, t, n) == touching(wide.tets@, u, n),
        touching(mesh.tets@, t, n) matches Some(k) ==> 0 <= k < n,
    decreases n,
{
    if n > 0 {
        lemma_same_touching(deck, mesh, wide, t, u, (n - 1) as nat);
        lemma_same_tet(deck, mesh, wide, n - 1);
    }
}

/// A triangle of both meshes carries the same sheet.
proof fn lemma_same_sheet<T: Number>(
    deck: DeckModel<T>,
    mesh: Mesh<T>,
    wide: Mesh<T>,
    ports: Seq<PortShape<T>>,
    t: Tri,
    u: Tri,
)
    requires
        mesh.wf(),
        wide.wf(),
        named_tets(wide) == named_tets(mesh),
        t.group < mesh.names@.len(),
        u.group < wide.names@.len(),
        named_tri(mesh, t) == named_tri(wide, u),
    ensures
        sheet_of(
            mesh.tets@,
            media_in(deck, mesh),
            roles_in(deck, mesh),
            ports_in(deck, mesh),
            ports,
            t,
        ) == sheet_of(
            wide.tets@,
            media_in(deck, wide),
            roles_in(deck, wide),
            ports_in(deck, wide),
            ports,
            u,
        ),
{
    let n = mesh.tets@.len();
    assert(named_tets(mesh).len() == n && named_tets(wide).len() == wide.tets@.len());
    lemma_same_touching(deck, mesh, wide, t, u, n);
    match touching(mesh.tets@, t, n) {
        Some(k) => {
            lemma_same_tet(deck, mesh, wide, k);
        },
        None => {},
    }
}

/// Both meshes give the same areas, bounds, terms and drives, as far as the first `n`
/// and `m` triangles go, which hold the same surfaces.
proof fn lemma_same_sums<T: Number>(
    deck: DeckModel<T>,
    mesh: Mesh<T>,
    wide: Mesh<T>,
    num: Numbering,
    ports: Seq<PortShape<T>>,
    p: usize,
    dir: V3<T>,
    n: nat,
    m: nat,
)
    requires
        mesh.wf(),
        wide.wf(),
        wide.nodes@ == mesh.nodes@,
        named_tets(wide) == named_tets(mesh),
        n <= mesh.tris@.len(),
        m <= wide.tris@.len(),
        surfaces(deck, mesh, n) == surfaces(deck, wide, m),
    ensures
        port_area(mesh.nodes@, mesh.tris@, ports_in(deck, mesh), p, n) == port_area(
            wide.nodes@,
            wide.tris@,
            ports_in(deck, wide),
            p,
            m,
        ),
        port_bounds(mesh.nodes@, mesh.tris@, ports_in(deck, mesh), p, dir, n) == port_bounds(
            wide.nodes@,
            wide.tris@,
            ports_in(deck, wide),
            p,
            dir,
            m,
        ),
        all_terms(
            num,
            mesh,
            media_in(deck, mesh),
            roles_in(deck, mesh),
            ports_in(deck, mesh),
            ports,
            n,
        ) == all_terms(
            num,
            wide,
            media_in(deck, wide),
            roles_in(deck, wide),
            ports_in(deck, wide),
            ports,
            m,
        ),
        drives(num, mesh.nodes@, mesh.tris@, ports_in(deck, mesh), p, dir, n) == drives(
            num,
            wide.nodes@,
            wide.tris@,
            ports_in(deck, wide),
            p,
            dir,
            m,
        ),
    decreases n + m,
{
    let (t, u) = (mesh.tris@[n - 1], wide.tris@[m - 1]);
    if n > 0 {
        assert(t.within(mesh.nodes@.len(), mesh.names@.len()));
    }
    if m > 0 {
        assert(u.within(wide.nodes@.len(), wide.names@.len()));
    }
    if n > 0 && !has_role(deck, name_of(mesh, t.group)) {
        lemma_same_sums(deck, mesh, wide, num, ports, p, dir, (n - 1) as nat, m);
        lemma_no_role(deck, name_of(mesh, t.group));
    } else if m > 0 && !has_role(deck, name_of(wide, u.group)) {
        lemma_same_sums(deck, mesh, wide, num, ports, p, dir, n, (m - 1) as nat);
        lemma_no_role(deck, name_of(wide, u.group));
    } else if n > 0 && m > 0 {
        let (c, d) = (surfaces(deck, mesh, (n - 1) as nat), surfaces(deck, wide, (m - 1) as nat));
        let (x, y) = (named_tri(mesh, t), named_tri(wide, u));
        assert(c.push(x) == d.push(y));
        assert(c.push(x).last() == x && d.push(y).last() == y);
        assert(c.push(x).drop_last() =~= c && d.push(y).drop_last() =~= d);
        lemma_same_sums(deck, mesh, wide, num, ports, p, dir, (n - 1) as nat, (m - 1) as nat);
        lemma_same_sheet(deck, mesh, wide, ports, t, u);
        let shape = shape_of_tri(mesh.nodes@, t);
        assert(shape == shape_of_tri(wide.nodes@, u));
        lemma_same_tri_drives(
            num,
            t,
            u,
            shape,
            dir,
            3,
            drives(num, mesh.nodes@, mesh.tris@, ports_in(deck, mesh), p, dir, (n - 1) as nat),
        );
        assert(num.has_edges(t) == num.has_edges(u));
        match (
            all_terms(
                num,
                mesh,
                media_in(deck, mesh),
                roles_in(deck, mesh),
                ports_in(deck, mesh),
                ports,
                (n - 1) as nat,
            ),
            sheet_of(
                mesh.tets@,
                media_in(deck, mesh),
                roles_in(deck, mesh),
                ports_in(deck, mesh),
                ports,
                t,
            ),
        ) {
            (Ok(acc), Ok(Some(sheet))) => {
                lemma_same_tri_terms(num, t, u, shape, sheet, 3, acc);
            },
            _ => {},
        }
    } else {
        assert(n > 0 ==> surfaces(deck, mesh, n).last() == named_tri(mesh, t));
        assert(m > 0 ==> surfaces(deck, wide, m).last() == named_tri(wide, u));
        assert(n == 0 ==> surfaces(deck, mesh, n).len() == 0);
        assert(m == 0 ==> surfaces(deck, wide, m).len() == 0);
        assert(n == 0 && m == 0);
        assert(named_tets(mesh).len() == mesh.tets@.len());
        assert(named_tets(wide).len() == wide.tets@.len());
        lemma_same_volume(deck, mesh, wide, num, mesh.tets@.len());
    }
}

proof fn lemma_same_shapes<T: Number>(
    deck: DeckModel<T>,
    mesh: Mesh<T>,
    wide: Mesh<T>,
    defs: Seq<PortModel<T>>,
    n: nat,
)
    requires
        mesh.wf(),
        wide.wf(),
        differ_in_idle_triangles(deck, mesh, wide),
    ensures
        port_shapes(mesh.nodes@, mesh.tris@, ports_in(deck, mesh), defs, n) == port_shapes(
            wide.nodes@,
            wide.tris@,
            ports_in(deck, wide),
            defs,
            n,
        ),
    decreases n,
{
    if n > 0 {
        lemma_same_shapes(deck, mesh, wide, defs, (n - 1) as nat);
        lemma_same_sums(
            deck,
            mesh,
            wide,
            unknowns_of(mesh, roles_in(deck, mesh)),
            seq![],
            (n - 1) as usize,
            defs[n - 1].dir,
            mesh.tris@.len(),
            wide.tris@.len(),
        );
    }
}

// ---------------------------------------------------------------- membership

proof fn lemma_listed<T>(deck: DeckModel<T>, mesh: Mesh<T>, n: nat, i: int)
    requires
        0 <= i < n,
        has_role(deck, name_of(mesh, mesh.tris@[i].group)),
    ensures
        surfaces(deck, mesh, n).contains(named_tri(mesh, mesh.tris@[i])),
    decreases n,
{
    let before = surfaces(deck, mesh, (n - 1) as nat);
    let all = surfaces(deck, mesh, n);
    let x = named_tri(mesh, mesh.tris@[i]);
    if i < n - 1 {
        lemma_listed(deck, mesh, (n - 1) as nat, i);
        let k = choose|k: int| 0 <= k < before.len() && before[k] == x;
        assert(all[k] == x);
    } else {
        assert(all[all.len() - 1] == x);
    }
}

proof fn lemma_found<T>(
    deck: DeckModel<T>,
    mesh: Mesh<T>,
    n: nat,
    x: (usize, usize, usize, Seq<char>),
) -> (i: int)
    requires
        surfaces(deck, mesh, n).contains(x),
    ensures
        0 <= i < n,
        named_tri(mesh, mesh.tris@[i]) == x,
    decreases n,
{
    let all = surfaces(deck, mesh, n);
    let k = choose|k: int| 0 <= k < all.len() && all[k] == x;
    if n == 0 {
        0
    } else {
        let before = surfaces(deck, mesh, (n - 1) as nat);
        if k < before.len() {
            assert(before[k] == x);
            lemma_found(deck, mesh, (n - 1) as nat, x)
        } else {
            n - 1
        }
    }
}

/// A triangle with a role in one mesh is a triangle of the other.
proof fn lemma_counterpart<T>(deck: DeckModel<T>, mesh: Mesh<T>, wide: Mesh<T>, i: int) -> (j: int)
    requires
        surfaces(deck, wide, wide.tris@.len()) == surfaces(deck, mesh, mesh.tris@.len()),
        0 <= i < mesh.tris@.len(),
        has_role(deck, name_of(mesh, mesh.tris@[i].group)),
    ensures
        0 <= j < wide.tris@.len(),
        named_tri(wide, wide.tris@[j]) == named_tri(mesh, mesh.tris@[i]),
{
    lemma_listed(deck, mesh, mesh.tris@.len(), i);
    lemma_found(deck, wide, wide.tris@.len(), named_tri(mesh, mesh.tris@[i]))
}

/// What lies on a perfect conductor in one mesh does so in the other.
proof fn lemma_pec_counterpart<T>(
    deck: DeckModel<T>,
    mesh: Mesh<T>,
    wide: Mesh<T>,
    i: int,
) -> (j: int)
    requires
        mesh.wf(),
        wide.wf(),
        surfaces(deck, wide, wide.tris@.len()) == surfaces(deck, mesh, mesh.tris@.len()),
        0 <= i < mesh.tris@.len(),
        roles_in(deck, mesh)[mesh.tris@[i].group as int] is Pec,
    ensures
        0 <= j < wide.tris@.len(),
        roles_in(deck, wide)[wide.tris@[j].group as int] is Pec,
        forall|k: int| #[trigger] wide.tris@[j].edge(k) == mesh.tris@[i].edge(k),
{
    assert(mesh.tris@[i].within(mesh.nodes@.len(), mesh.names@.len()));
    if !has_role(deck, name_of(mesh, mesh.tris@[i].group)) {
        lemma_no_role(deck, name_of(mesh, mesh.tris@[i].group));
    }
    let j = lemma_counterpart(deck, mesh, wide, i);
    assert(wide.tris@[j].within(wide.nodes@.len(), wide.names@.len()));
    j
}

proof fn lemma_on_pec<T>(
    deck: DeckModel<T>,
    mesh: Mesh<T>,
    wide: Mesh<T>,
    edges: Seq<(usize, usize)>,
    e: int,
)
    requires
        mesh.wf(),
        wide.wf(),
        surfaces(deck, wide, wide.tris@.len()) == surfaces(deck, mesh, mesh.tris@.len()),
    ensures
        on_pec(mesh.tris@, roles_in(deck, mesh), edges, e) ==> on_pec(
            wide.tris@,
            roles_in(deck, wide),
            edges,
            e,
        ),
        pec_fits(wide.tris@, roles_in(deck, wide), edges) ==> pec_fits(
            mesh.tris@,
            roles_in(deck, mesh),
            edges,
        ),
{
    let (tris, more) = (mesh.tris@, wide.tris@);
    let (roles, more_roles) = (roles_in(deck, mesh), roles_in(deck, wide));
    if on_pec(tris, roles, edges, e) {
        let (i, k) = choose|i: int, k: int|
            0 <= i < tris.len() && 0 <= k < 3 && roles[tris[i].group as int] is Pec
                && #[trigger] tris[i].edge(k) == edges[e];
        let j = lemma_pec_counterpart(deck, mesh, wide, i);
        assert(more[j].edge(k) == edges[e]);
    }
    if pec_fits(more, more_roles, edges) {
        assert forall|i: int, k: int|
            0 <= i < tris.len() && 0 <= k < 3
                && roles[tris[i].group as int] is Pec implies last_index(
            edges,
            #[trigger] tris[i].edge(k),
        ) is Some by {
            let j = lemma_pec_counterpart(deck, mesh, wide, i);
            assert(last_index(edges, more[j].edge(k)) is Some);
        }
    }
}

// ---------------------------------------------------------------- cards

/// A name is found at the group that has it.
proof fn lemma_name_found<T>(mesh: Mesh<T>, g: usize)
    requires
        mesh.wf(),
        g < mesh.names@.len(),
    ensures
        last_index(spelled(mesh.names@), name_of(mesh, g)) == Some(g as int),
{
    let names = spelled(mesh.names@);
    assert(mesh.names@.len() == mesh.names.len());
    assert forall|j: int| g < j < names.len() implies #[trigger] names[j] != names[g as int] by {
        lemma_distinct(mesh, j as usize, g);
    }
    lemma_is_last(names, name_of(mesh, g), g as int);
}

/// Cards whose groups one mesh has find them in the other.
proof fn lemma_cards_found<T: Number>(
    deck: DeckModel<T>,
    mesh: Mesh<T>,
    wide: Mesh<T>,
    names: Seq<Seq<char>>,
    kind: CardKind,
)
    requires
        mesh.wf(),
        wide.wf(),
        differ_in_idle_triangles(deck, mesh, wide),
        kind.is_surface() ==> forall|i: int|
            0 <= i < names.len() ==> has_role(deck, #[trigger] names[i]),
        groups_of(mesh, names, kind) is Ok,
    ensures
        groups_of(wide, names, kind) is Ok,
{
    let v = groups_of(mesh, names, kind)->Ok_0;
    lemma_groups(mesh, names, kind);
    let w = Seq::new(
        names.len(),
        |i: int| last_index(spelled(wide.names@), names[i]).unwrap() as usize,
    );
    assert forall|i: int| 0 <= i < w.len() implies group_of(wide, names[i], kind, 0) == Ok::<
        usize,
        ModelError,
    >(#[trigger] w[i]) by {
        let name = names[i];
        assert(group_of(mesh, name, kind, 0) == Ok::<usize, ModelError>(v[i]));
        lemma_last_index(spelled(mesh.names@), name);
        let g = last_index(spelled(mesh.names@), name).unwrap();
        if kind.is_surface() {
            let k = choose|k: int|
                0 <= k < mesh.tris@.len() && (#[trigger] mesh.tris@[k]).group == g;
            let j = lemma_counterpart(deck, mesh, wide, k);
            assert(wide.tris@[j].within(wide.nodes@.len(), wide.names@.len()));
            lemma_name_found(wide, wide.tris@[j].group);
            assert(has_tris(wide.tris@, wide.tris@[j].group as int));
        } else {
            let k = choose|k: int|
                0 <= k < mesh.tets@.len() && (#[trigger] mesh.tets@[k]).group == g;
            lemma_same_tet(deck, mesh, wide, k);
            lemma_name_found(wide, wide.tets@[k].group);
            assert(has_tets(wide.tets@, wide.tets@[k].group as int));
        }
    }
    lemma_groups_found(wide, names, kind, w);
}

proof fn lemma_assigned<T: Number>(deck: DeckModel<T>, mesh: Mesh<T>, wide: Mesh<T>)
    requires
        mesh.wf(),
        wide.wf(),
        differ_in_idle_triangles(deck, mesh, wide),
        assignment(deck, mesh) is Ok,
    ensures
        assignment(deck, wide) is Ok,
{
    assert forall|i: int| 0 <= i < deck.pec.len() implies has_role(deck, #[trigger] deck.pec[i]) by {
        assert(deck.pec.contains(deck.pec[i]));
    }
    assert forall|i: int| 0 <= i < deck.abc.len() implies has_role(deck, #[trigger] deck.abc[i]) by {
        assert(deck.abc.contains(deck.abc[i]));
    }
    let (metals, ports) = (deck.metal_names(), deck.port_names());
    assert forall|i: int| 0 <= i < metals.len() implies has_role(deck, #[trigger] metals[i]) by {
        assert(metals.contains(metals[i]));
    }
    assert forall|i: int| 0 <= i < ports.len() implies has_role(deck, #[trigger] ports[i]) by {
        assert(ports.contains(ports[i]));
    }
    lemma_cards_found(deck, mesh, wide, deck.pec, CardKind::Pec);
    lemma_cards_found(deck, mesh, wide, deck.abc, CardKind::Abc);
    lemma_cards_found(deck, mesh, wide, metals, CardKind::Metal);
    lemma_cards_found(deck, mesh, wide, ports, CardKind::Port);
    lemma_cards_found(deck, mesh, wide, deck.mat_names(), CardKind::Mat);
    lemma_cards_found(deck, mesh, wide, deck.pml_names(), CardKind::Pml);
}

/// The tables of a mesh follow from the names of its groups.
proof fn lemma_tables<T: Number>(deck: DeckModel<T>, mesh: Mesh<T>, a: Assignment)
    requires
        mesh.wf(),
        assignment(deck, mesh) == Ok::<Assignment, ModelError>(a),
    ensures
        roles_of(deck, a, mesh.names@.len()) == roles_in(deck, mesh),
        port_groups(a, mesh.names@.len()) == ports_in(deck, mesh),
        media_of(deck, a, mesh.names@.len()) == media_in(deck, mesh),
{
    let n = mesh.names@.len();
    assert(n == mesh.names.len());
    assert forall|g: int| 0 <= g < n implies #[trigger] roles_of(deck, a, n)[g] == roles_in(
        deck,
        mesh,
    )[g] && port_groups(a, n)[g] == ports_in(deck, mesh)[g] && media_of(deck, a, n)[g] == media_in(
        deck,
        mesh,
    )[g] by {
        lemma_by_name(deck, mesh, a, g as usize);
    }
    assert(roles_of(deck, a, n) =~= roles_in(deck, mesh));
    assert forall|g: int| 0 <= g < n implies #[trigger] port_groups(a, n)[g] == ports_in(
        deck,
        mesh,
    )[g] by {
        lemma_by_name(deck, mesh, a, g as usize);
    }
    assert(port_groups(a, n) =~= ports_in(deck, mesh));
    assert forall|g: int| 0 <= g < n implies #[trigger] media_of(deck, a, n)[g] == media_in(
        deck,
        mesh,
    )[g] by {
        lemma_by_name(deck, mesh, a, g as usize);
    }
    assert(media_of(deck, a, n) =~= media_in(deck, mesh));
}

// ---------------------------------------------------------------- laws

/// The systems agree in all that scattering depends on.
pub open spec fn same_equations<T>(m: SystemModel<T>, n: SystemModel<T>) -> bool {
    &&& m.unknowns == n.unknowns
    &&& m.n == n.n
    &&& m.terms == n.terms
    &&& m.ports == n.ports
    &&& m.drives == n.drives
}

/// Triangles in groups without a role, more or fewer, leave the equations as they are.
/// A model whose groups are all found and that is refused is refused for the same reason.
pub proof fn lemma_idle_triangles<T: Number>(deck: DeckModel<T>, mesh: Mesh<T>, wide: Mesh<T>)
    requires
        mesh.wf(),
        wide.wf(),
        differ_in_idle_triangles(deck, mesh, wide),
        assignment(deck, mesh) is Ok,
    ensures
        match system_model(deck, mesh) {
            Ok(m) => system_model(deck, wide) matches Ok(n) && same_equations(m, n),
            Err(e) => system_model(deck, wide) matches Err(f) && e == f,
        },
{
    lemma_assigned(deck, mesh, wide);
    lemma_tables(deck, mesh, assignment(deck, mesh)->Ok_0);
    lemma_tables(deck, wide, assignment(deck, wide)->Ok_0);
    let (roles, more_roles) = (roles_in(deck, mesh), roles_in(deck, wide));
    let (groups, more_groups) = (ports_in(deck, mesh), ports_in(deck, wide));
    // The unknowns.
    assert(named_tets(mesh).len() == mesh.tets@.len());
    assert(named_tets(wide).len() == wide.tets@.len());
    lemma_same_edge_lists(deck, mesh, wide, mesh.tets@.len());
    let edges = edges_of(mesh.tets@, mesh.tets@.len());
    let (fixed, more_fixed) = (fixed_edges(mesh, roles), fixed_edges(wide, more_roles));
    assert forall|e: int| 0 <= e < edges.len() implies #[trigger] fixed[e] == more_fixed[e] by {
        lemma_on_pec(deck, mesh, wide, edges, e);
        lemma_on_pec(deck, wide, mesh, edges, e);
    }
    assert(fixed =~= more_fixed);
    lemma_on_pec(deck, mesh, wide, edges, 0);
    lemma_on_pec(deck, wide, mesh, edges, 0);
    let num = unknowns_of(mesh, roles);
    assert(unknowns_of(wide, more_roles) == num);
    // The ports, the terms and the drives.
    lemma_same_shapes(deck, mesh, wide, deck.ports, deck.ports.len());
    match port_shapes(mesh.nodes@, mesh.tris@, groups, deck.ports, deck.ports.len()) {
        Err(_) => {},
        Ok(ports) => {
            let (n, m) = (mesh.tris@.len(), wide.tris@.len());
            lemma_same_sums(deck, mesh, wide, num, ports, 0, V3::<T>::origin(), n, m);
            match system_model(deck, mesh) {
                Ok(k) => {
                    let l = system_model(deck, wide)->Ok_0;
                    assert forall|p: int| 0 <= p < ports.len() implies #[trigger] k.drives[p]
                        == l.drives[p] by {
                        lemma_same_sums(
                            deck,
                            mesh,
                            wide,
                            num,
                            ports,
                            p as usize,
                            ports[p].dir,
                            n,
                            m,
                        );
                    }
                    assert(k.drives =~= l.drives);
                },
                Err(_) => {},
            }
        },
    }
}

proof fn lemma_surfaces_insert<T>(deck: DeckModel<T>, mesh: Mesh<T>, wide: Mesh<T>, k: nat, n: nat)
    requires
        mesh.wf(),
        k <= mesh.tris@.len(),
        n <= mesh.tris@.len(),
        spelled(mesh.names@).is_prefix_of(spelled(wide.names@)),
        wide.tris@.len() == mesh.tris@.len() + 1,
        wide.tris@ == mesh.tris@.insert(k as int, wide.tris@[k as int]),
        !has_role(deck, name_of(wide, wide.tris@[k as int].group)),
    ensures
        n <= k ==> surfaces(deck, wide, n) == surfaces(deck, mesh, n),
        n >= k ==> surfaces(deck, wide, n + 1) == surfaces(deck, mesh, n),
    decreases n,
{
    if n > 0 {
        lemma_surfaces_insert(deck, mesh, wide, k, (n - 1) as nat);
        let t = mesh.tris@[n - 1];
        assert(t.within(mesh.nodes@.len(), mesh.names@.len()));
        assert(spelled(wide.names@)[t.group as int] == spelled(mesh.names@)[t.group as int]);
        if n <= k {
            assert(wide.tris@[n - 1] == t);
        } else {
            assert(wide.tris@[n as int] == t);
        }
    }
    if n == k {
        assert(surfaces(deck, wide, n + 1) == surfaces(deck, wide, n));
    }
}

/// A mesh with one more triangle, at place `k`, in a group without a role, old or new,
/// differs in idle triangles only.
pub proof fn lemma_one_idle_triangle<T>(deck: DeckModel<T>, mesh: Mesh<T>, wide: Mesh<T>, k: nat)
    requires
        mesh.wf(),
        wide.nodes@ == mesh.nodes@,
        wide.tets@ == mesh.tets@,
        spelled(mesh.names@).is_prefix_of(spelled(wide.names@)),
        k <= mesh.tris@.len(),
        wide.tris@.len() == mesh.tris@.len() + 1,
        wide.tris@ == mesh.tris@.insert(k as int, wide.tris@[k as int]),
        !has_role(deck, name_of(wide, wide.tris@[k as int].group)),
    ensures
        differ_in_idle_triangles(deck, mesh, wide),
{
    lemma_surfaces_insert(deck, mesh, wide, k, mesh.tris@.len());
    assert forall|i: int| 0 <= i < mesh.tets@.len() implies #[trigger] named_tets(wide)[i]
        == named_tets(mesh)[i] by {
        let t = mesh.tets@[i];
        assert(t.within(mesh.nodes@.len(), mesh.names@.len()));
        assert(spelled(wide.names@)[t.group as int] == spelled(mesh.names@)[t.group as int]);
    }
    assert(named_tets(wide) =~= named_tets(mesh));
}

} // verus!
