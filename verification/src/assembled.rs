//! What the matrix is made of: every entry is the sum of what the elements that join its
//! two unknowns give, in exact arithmetic.

use crate::assembly::{
    all_terms, gathered, shape_of_tet, shape_of_tri, sheet_of, tet_row, tet_terms, tri_part,
    tri_row, tri_terms, volume_terms, with_term, Numbering, Sheet, Term,
};
use crate::boundaries::lemma_entries_add;
use crate::complex::Real;
use crate::edges::{edges_of, lemma_unknowns_distinct, unknown_of};
use crate::element::{tet_part, Entry, TetShape, TriShape};
use crate::exact::sum;
use crate::groups::{Medium, Role};
use crate::msh::{last_index, lemma_last_index, Mesh, Tet, Tri};
use crate::ports::PortShape;
use crate::scalar::{Algebra, Cx, Number, V3};
use crate::system::{fixed_edges, unknowns_of};
use vstd::prelude::*;

verus! {

// ---------------------------------------------------------------- unknowns

/// No two edges carry the same unknown.
pub open spec fn separates(num: Numbering) -> bool {
    forall|e: (usize, usize), f: (usize, usize)|
        #![trigger num.unknown(e), num.unknown(f)]
        num.unknown(e) is Some && num.unknown(e) == num.unknown(f) ==> e == f
}

/// The unknowns on the edges of a mesh are told apart.
pub proof fn lemma_separates<T>(mesh: Mesh<T>, roles: Seq<Role<T>>)
    requires
        edges_of(mesh.tets@, mesh.tets@.len()).len() <= usize::MAX,
    ensures
        separates(unknowns_of(mesh, roles)),
{
    let num = unknowns_of(mesh, roles);
    let fixed = fixed_edges(mesh, roles);
    assert forall|e: (usize, usize), f: (usize, usize)|
        #![trigger num.unknown(e), num.unknown(f)]
        num.unknown(e) is Some && num.unknown(e) == num.unknown(f) implies e == f by {
        lemma_last_index(num.edges, e);
        lemma_last_index(num.edges, f);
        let (k, l) = (last_index(num.edges, e).unwrap(), last_index(num.edges, f).unwrap());
        assert(num.unknowns[k] == unknown_of(fixed, k));
        assert(num.unknowns[l] == unknown_of(fixed, l));
        if k < l {
            lemma_unknowns_distinct(fixed, k, l);
        } else if l < k {
            lemma_unknowns_distinct(fixed, l, k);
        }
    }
}

// ---------------------------------------------------------------- one element

/// The edges at `a` and `b` carry the unknowns `lo` and `hi`.
pub open spec fn carries(
    u: spec_fn(int) -> Option<usize>,
    a: int,
    b: int,
    lo: usize,
    hi: usize,
) -> bool {
    (u(a) == Some(lo) && u(b) == Some(hi)) || (u(a) == Some(hi) && u(b) == Some(lo))
}

/// `c` is what an element with `n` edges gives to the entry of the unknowns `lo` and `hi`:
/// the part of the two edges that carry them, and nothing where there are no such edges.
pub open spec fn is_share(
    u: spec_fn(int) -> Option<usize>,
    part: spec_fn(int, int) -> Cx<Real>,
    n: int,
    lo: usize,
    hi: usize,
    c: Cx<Real>,
) -> bool {
    &&& forall|a: int, b: int|
        0 <= a <= b < n && #[trigger] carries(u, a, b, lo, hi) ==> c == part(a, b)
    &&& (forall|a: int, b: int| 0 <= a <= b < n ==> !#[trigger] carries(u, a, b, lo, hi))
        ==> c == Cx::<Real>::zero()
}

/// The terms of edge `i` with the edges from `i` to `j`.
spec fn row(
    u: spec_fn(int) -> Option<usize>,
    part: spec_fn(int, int) -> Entry<Real>,
    i: int,
    j: int,
    acc: Seq<Term<Real>>,
) -> Seq<Term<Real>>
    decreases j,
{
    if j <= i || j <= 0 {
        acc
    } else {
        with_term(row(u, part, i, j - 1, acc), u(i), u(j - 1), part(i, j - 1))
    }
}

/// The terms of the first `i` of `n` edges.
spec fn rows(
    u: spec_fn(int) -> Option<usize>,
    part: spec_fn(int, int) -> Entry<Real>,
    n: int,
    i: int,
    acc: Seq<Term<Real>>,
) -> Seq<Term<Real>>
    decreases i,
{
    if i <= 0 {
        acc
    } else {
        row(u, part, i - 1, n, rows(u, part, n, i - 1, acc))
    }
}

/// No two edges of the element carry the same unknown.
spec fn is_told_apart(u: spec_fn(int) -> Option<usize>, n: int) -> bool {
    forall|a: int, b: int|
        #![trigger u(a), u(b)]
        0 <= a < n && 0 <= b < n && u(a) is Some && u(a) == u(b) ==> a == b
}

proof fn lemma_row(
    u: spec_fn(int) -> Option<usize>,
    part: spec_fn(int, int) -> Entry<Real>,
    n: int,
    i: int,
    j: int,
    acc: Seq<Term<Real>>,
    lo: usize,
    hi: usize,
)
    requires
        is_told_apart(u, n),
        0 <= i < n,
        i <= j <= n,
        lo <= hi,
    ensures
        forall|b: int|
            i <= b < j && #[trigger] carries(u, i, b, lo, hi) ==> gathered(
                row(u, part, i, j, acc),
                (lo, hi),
            ) == gathered(acc, (lo, hi)).plus(part(i, b)),
        (forall|b: int| i <= b < j ==> !#[trigger] carries(u, i, b, lo, hi)) ==> gathered(
            row(u, part, i, j, acc),
            (lo, hi),
        ) == gathered(acc, (lo, hi)),
    decreases j,
{
    if i < j {
        let l = j - 1;
        lemma_row(u, part, n, i, l, acc, lo, hi);
        let before = row(u, part, i, l, acc);
        let after = row(u, part, i, j, acc);
        assert(u(i) == u(i) && u(l) == u(l));
        if u(i) is Some && u(l) is Some {
            assert(after.drop_last() =~= before);
        }
        assert forall|b: int| i <= b < j && #[trigger] carries(u, i, b, lo, hi) implies gathered(
            after,
            (lo, hi),
        ) == gathered(acc, (lo, hi)).plus(part(i, b)) by {
            if b == l {
                assert forall|c: int| i <= c < l implies !#[trigger] carries(u, i, c, lo, hi) by {
                    assert(u(c) == u(c));
                }
            } else {
                assert(!carries(u, i, l, lo, hi)) by {
                    assert(u(b) == u(b));
                }
            }
        }
        if forall|b: int| i <= b < j ==> !#[trigger] carries(u, i, b, lo, hi) {
            assert(!carries(u, i, l, lo, hi));
            assert(gathered(before, (lo, hi)) == gathered(acc, (lo, hi)));
            assert(gathered(after, (lo, hi)) == gathered(before, (lo, hi)));
        }
    }
}

proof fn lemma_rows(
    u: spec_fn(int) -> Option<usize>,
    part: spec_fn(int, int) -> Entry<Real>,
    n: int,
    i: int,
    acc: Seq<Term<Real>>,
    lo: usize,
    hi: usize,
)
    requires
        is_told_apart(u, n),
        0 <= i <= n,
        lo <= hi,
    ensures
        forall|a: int, b: int|
            0 <= a < i && a <= b < n && #[trigger] carries(u, a, b, lo, hi) ==> gathered(
                rows(u, part, n, i, acc),
                (lo, hi),
            ) == gathered(acc, (lo, hi)).plus(part(a, b)),
        (forall|a: int, b: int| 0 <= a < i && a <= b < n ==> !#[trigger] carries(u, a, b, lo, hi))
            ==> gathered(rows(u, part, n, i, acc), (lo, hi)) == gathered(acc, (lo, hi)),
    decreases i,
{
    if i > 0 {
        let l = i - 1;
        lemma_rows(u, part, n, l, acc, lo, hi);
        let before = rows(u, part, n, l, acc);
        let after = rows(u, part, n, i, acc);
        lemma_row(u, part, n, l, n, before, lo, hi);
        assert forall|a: int, b: int|
            0 <= a < i && a <= b < n && #[trigger] carries(u, a, b, lo, hi) implies gathered(
            after,
            (lo, hi),
        ) == gathered(acc, (lo, hi)).plus(part(a, b)) by {
            assert(u(a) == u(a) && u(b) == u(b));
            if a == l {
                assert forall|c: int, d: int| 0 <= c < l && c <= d < n implies !#[trigger] carries(
                    u,
                    c,
                    d,
                    lo,
                    hi,
                ) by {
                    assert(u(c) == u(c) && u(d) == u(d));
                }
            } else {
                assert forall|d: int| l <= d < n implies !#[trigger] carries(u, l, d, lo, hi) by {
                    assert(u(l) == u(l) && u(d) == u(d));
                }
            }
        }
    }
}

/// An element adds its share to the entry.
proof fn lemma_share(
    u: spec_fn(int) -> Option<usize>,
    part: spec_fn(int, int) -> Entry<Real>,
    n: int,
    acc: Seq<Term<Real>>,
    lo: usize,
    hi: usize,
    k0: Real,
    c: Cx<Real>,
)
    requires
        is_told_apart(u, n),
        0 <= n,
        lo <= hi,
        is_share(u, |a: int, b: int| part(a, b).at_wave(k0), n, lo, hi, c),
    ensures
        gathered(rows(u, part, n, n, acc), (lo, hi)).at_wave(k0) == gathered(
            acc,
            (lo, hi),
        ).at_wave(k0) + c,
{
    lemma_rows(u, part, n, n, acc, lo, hi);
    let g = gathered(acc, (lo, hi));
    if exists|a: int, b: int| 0 <= a <= b < n && #[trigger] carries(u, a, b, lo, hi) {
        let (a, b) = choose|a: int, b: int|
            0 <= a <= b < n && #[trigger] carries(u, a, b, lo, hi);
        lemma_entries_add(g, part(a, b), k0);
        assert(c == part(a, b).at_wave(k0));
    } else {
        assert(c == Cx::<Real>::zero());
        assert(g.at_wave(k0) + c == g.at_wave(k0));
    }
}

// ---------------------------------------------------------------- tetrahedra and triangles

/// The unknowns on the edges of a tetrahedron.
pub open spec fn on_tet(num: Numbering, t: Tet) -> spec_fn(int) -> Option<usize> {
    |i: int| num.unknown(t.edge(i))
}

/// The unknowns on the edges of a triangle.
pub open spec fn on_tri(num: Numbering, t: Tri) -> spec_fn(int) -> Option<usize> {
    |i: int| num.unknown(t.edge(i))
}

/// What a tetrahedron gives to the entries of two of its edges.
pub open spec fn tet_shares(shape: TetShape<Real>, m: Medium<Real>, k0: Real) -> spec_fn(
    int,
    int,
) -> Cx<Real> {
    |a: int, b: int| tet_part(shape, m, a, b).at_wave(k0)
}

/// What a triangle with a sheet gives to the entries of two of its edges.
pub open spec fn tri_shares(shape: TriShape<Real>, sheet: Sheet<Real>, k0: Real) -> spec_fn(
    int,
    int,
) -> Cx<Real> {
    |a: int, b: int| tri_part(shape, sheet, a, b).at_wave(k0)
}

spec fn tet_parts(shape: TetShape<Real>, m: Medium<Real>) -> spec_fn(int, int) -> Entry<Real> {
    |a: int, b: int| tet_part(shape, m, a, b)
}

spec fn tri_parts(shape: TriShape<Real>, sheet: Sheet<Real>) -> spec_fn(int, int) -> Entry<Real> {
    |a: int, b: int| tri_part(shape, sheet, a, b)
}

proof fn lemma_tet_row(
    num: Numbering,
    t: Tet,
    shape: TetShape<Real>,
    m: Medium<Real>,
    i: int,
    j: int,
    acc: Seq<Term<Real>>,
)
    ensures
        tet_row(num, t, shape, m, i, j, acc) == row(on_tet(num, t), tet_parts(shape, m), i, j, acc),
    decreases j,
{
    if i < j && 0 < j {
        lemma_tet_row(num, t, shape, m, i, j - 1, acc);
    }
}

proof fn lemma_tet_rows(
    num: Numbering,
    t: Tet,
    shape: TetShape<Real>,
    m: Medium<Real>,
    i: int,
    acc: Seq<Term<Real>>,
)
    ensures
        tet_terms(num, t, shape, m, i, acc) == rows(
            on_tet(num, t),
            tet_parts(shape, m),
            6,
            i,
            acc,
        ),
    decreases i,
{
    if i > 0 {
        lemma_tet_rows(num, t, shape, m, i - 1, acc);
        lemma_tet_row(num, t, shape, m, i - 1, 6, tet_terms(num, t, shape, m, i - 1, acc));
    }
}

proof fn lemma_tri_row(
    num: Numbering,
    t: Tri,
    shape: TriShape<Real>,
    sheet: Sheet<Real>,
    i: int,
    j: int,
    acc: Seq<Term<Real>>,
)
    ensures
        tri_row(num, t, shape, sheet, i, j, acc) == row(
            on_tri(num, t),
            tri_parts(shape, sheet),
            i,
            j,
            acc,
        ),
    decreases j,
{
    if i < j && 0 < j {
        lemma_tri_row(num, t, shape, sheet, i, j - 1, acc);
    }
}

proof fn lemma_tri_rows(
    num: Numbering,
    t: Tri,
    shape: TriShape<Real>,
    sheet: Sheet<Real>,
    i: int,
    acc: Seq<Term<Real>>,
)
    ensures
        tri_terms(num, t, shape, sheet, i, acc) == rows(
            on_tri(num, t),
            tri_parts(shape, sheet),
            3,
            i,
            acc,
        ),
    decreases i,
{
    if i > 0 {
        lemma_tri_rows(num, t, shape, sheet, i - 1, acc);
        lemma_tri_row(num, t, shape, sheet, i - 1, 3, tri_terms(num, t, shape, sheet, i - 1, acc));
    }
}

proof fn lemma_tet_apart(num: Numbering, t: Tet)
    requires
        separates(num),
        t.a < t.b < t.c < t.d,
    ensures
        is_told_apart(on_tet(num, t), 6),
{
    let u = on_tet(num, t);
    assert forall|a: int, b: int|
        #![trigger u(a), u(b)]
        0 <= a < 6 && 0 <= b < 6 && u(a) is Some && u(a) == u(b) implies a == b by {
        assert(num.unknown(t.edge(a)) == num.unknown(t.edge(b)));
        assert(t.edge(a) == t.edge(b));
    }
}

proof fn lemma_tri_apart(num: Numbering, t: Tri)
    requires
        separates(num),
        t.a < t.b < t.c,
    ensures
        is_told_apart(on_tri(num, t), 3),
{
    let u = on_tri(num, t);
    assert forall|a: int, b: int|
        #![trigger u(a), u(b)]
        0 <= a < 3 && 0 <= b < 3 && u(a) is Some && u(a) == u(b) implies a == b by {
        assert(num.unknown(t.edge(a)) == num.unknown(t.edge(b)));
        assert(t.edge(a) == t.edge(b));
    }
}

// ---------------------------------------------------------------- the matrix

/// `c` is what tetrahedron `i` gives to the entry of `lo` and `hi`.
pub open spec fn is_tet_share(
    num: Numbering,
    nodes: Seq<V3<Real>>,
    tets: Seq<Tet>,
    media: Seq<Medium<Real>>,
    i: int,
    lo: usize,
    hi: usize,
    k0: Real,
    c: Cx<Real>,
) -> bool {
    shape_of_tet(nodes, tets[i]) matches Some(shape) ==> is_share(
        on_tet(num, tets[i]),
        tet_shares(shape, media[tets[i].group as int], k0),
        6,
        lo,
        hi,
        c,
    )
}

/// `c` is what triangle `i` gives to the entry of `lo` and `hi`: that of the sheet on it,
/// and nothing where there is no sheet.
pub open spec fn is_tri_share(
    num: Numbering,
    mesh: Mesh<Real>,
    media: Seq<Medium<Real>>,
    roles: Seq<Role<Real>>,
    groups: Seq<Option<usize>>,
    ports: Seq<PortShape<Real>>,
    i: int,
    lo: usize,
    hi: usize,
    k0: Real,
    c: Cx<Real>,
) -> bool {
    let t = mesh.tris@[i];
    sheet_of(mesh.tets@, media, roles, groups, ports, t) matches Ok(s) ==> match s {
        Some(sheet) => is_share(
            on_tri(num, t),
            tri_shares(shape_of_tri(mesh.nodes@, t), sheet, k0),
            3,
            lo,
            hi,
            c,
        ),
        None => c == Cx::<Real>::zero(),
    }
}

proof fn lemma_volume_sum(
    num: Numbering,
    nodes: Seq<V3<Real>>,
    tets: Seq<Tet>,
    media: Seq<Medium<Real>>,
    n: nat,
    lo: usize,
    hi: usize,
    k0: Real,
    f: spec_fn(int) -> Cx<Real>,
)
    requires
        separates(num),
        lo <= hi,
        n <= tets.len(),
        forall|i: int|
            0 <= i < n ==> (#[trigger] tets[i]).a < tets[i].b < tets[i].c < tets[i].d,
        forall|i: int|
            0 <= i < n ==> is_tet_share(num, nodes, tets, media, i, lo, hi, k0, #[trigger] f(i)),
    ensures
        volume_terms(num, nodes, tets, media, n) matches Ok(terms) ==> gathered(
            terms,
            (lo, hi),
        ).at_wave(k0) == sum(f, 0, n as int),
    decreases n,
{
    if n == 0 {
        lemma_entries_add(Entry::<Real>::nothing(), Entry::<Real>::nothing(), k0);
    } else {
        let l = n - 1;
        lemma_volume_sum(num, nodes, tets, media, l as nat, lo, hi, k0, f);
        match (volume_terms(num, nodes, tets, media, l as nat), shape_of_tet(nodes, tets[l])) {
            (Ok(acc), Some(shape)) => {
                let m = media[tets[l].group as int];
                lemma_tet_rows(num, tets[l], shape, m, 6, acc);
                lemma_tet_apart(num, tets[l]);
                assert(is_tet_share(num, nodes, tets, media, l, lo, hi, k0, f(l)));
                let part = tet_parts(shape, m);
                assert((|a: int, b: int| part(a, b).at_wave(k0)) =~= tet_shares(shape, m, k0));
                lemma_share(on_tet(num, tets[l]), part, 6, acc, lo, hi, k0, f(l));
            },
            _ => {},
        }
    }
}

/// Every entry of the matrix is what the tetrahedra and the sheets on triangles give to
/// it, added up: each element that has edges with the two unknowns gives the part of these
/// edges, once, and no other element gives anything. `f` and `g` are these shares.
pub proof fn lemma_assembled(
    num: Numbering,
    mesh: Mesh<Real>,
    media: Seq<Medium<Real>>,
    roles: Seq<Role<Real>>,
    groups: Seq<Option<usize>>,
    ports: Seq<PortShape<Real>>,
    n: nat,
    lo: usize,
    hi: usize,
    k0: Real,
    f: spec_fn(int) -> Cx<Real>,
    g: spec_fn(int) -> Cx<Real>,
)
    requires
        separates(num),
        lo <= hi,
        n <= mesh.tris@.len(),
        forall|i: int|
            0 <= i < mesh.tets@.len() ==> (#[trigger] mesh.tets@[i]).a < mesh.tets@[i].b
                < mesh.tets@[i].c < mesh.tets@[i].d,
        forall|i: int|
            0 <= i < n ==> (#[trigger] mesh.tris@[i]).a < mesh.tris@[i].b < mesh.tris@[i].c,
        forall|i: int|
            0 <= i < mesh.tets@.len() ==> is_tet_share(
                num,
                mesh.nodes@,
                mesh.tets@,
                media,
                i,
                lo,
                hi,
                k0,
                #[trigger] f(i),
            ),
        forall|i: int|
            0 <= i < n ==> is_tri_share(
                num,
                mesh,
                media,
                roles,
                groups,
                ports,
                i,
                lo,
                hi,
                k0,
                #[trigger] g(i),
            ),
    ensures
        all_terms(num, mesh, media, roles, groups, ports, n) matches Ok(terms) ==> gathered(
            terms,
            (lo, hi),
        ).at_wave(k0) == sum(f, 0, mesh.tets@.len() as int) + sum(g, 0, n as int),
    decreases n,
{
    if n == 0 {
        lemma_volume_sum(
            num,
            mesh.nodes@,
            mesh.tets@,
            media,
            mesh.tets@.len(),
            lo,
            hi,
            k0,
            f,
        );
        let s = sum(f, 0, mesh.tets@.len() as int);
        assert(s + sum(g, 0, 0) == s);
    } else {
        let l = n - 1;
        let t = mesh.tris@[l];
        lemma_assembled(num, mesh, media, roles, groups, ports, l as nat, lo, hi, k0, f, g);
        assert(is_tri_share(num, mesh, media, roles, groups, ports, l, lo, hi, k0, g(l)));
        match (
            all_terms(num, mesh, media, roles, groups, ports, l as nat),
            sheet_of(mesh.tets@, media, roles, groups, ports, t),
        ) {
            (Ok(acc), Ok(Some(sheet))) => {
                let shape = shape_of_tri(mesh.nodes@, t);
                lemma_tri_rows(num, t, shape, sheet, 3, acc);
                lemma_tri_apart(num, t);
                let part = tri_parts(shape, sheet);
                assert((|a: int, b: int| part(a, b).at_wave(k0)) =~= tri_shares(shape, sheet, k0));
                lemma_share(on_tri(num, t), part, 3, acc, lo, hi, k0, g(l));
            },
            _ => {},
        }
        let (a, b, c) = (sum(f, 0, mesh.tets@.len() as int), sum(g, 0, l), g(l));
        assert((a + b) + c == a + (b + c));
        assert((a + b) + Cx::<Real>::zero() == a + b);
    }
}

} // verus!
