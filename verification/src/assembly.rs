//! The assembly of the system matrix from the elements of a mesh.

use crate::edges::{tet_behind, tet_corner, tet_pair, touching, tri_corner, tri_pair, FaceTable};
use crate::element::{
    mass_of_tri, moment_of_tri, part_of_tet, shape_tet, shape_tri, tet_part, tet_shape, tri_mass,
    tri_moment, tri_shape, Entry, TetShape, TriShape,
};
use crate::groups::{Groups, Medium, ModelError, Role};
use crate::msh::{last_index, lemma_last_index, Mesh, Tet, Tri};
use crate::pairs::{with_pair, PairTable};
use crate::ports::{on_port, PortShape};
use crate::scalar::{cx, Algebra, Cx, Number, Scalar, V3};
use vstd::prelude::*;

verus! {

// ---------------------------------------------------------------- unknowns

/// The unknown on each edge of a mesh.
pub struct Numbering {
    pub edges: Seq<(usize, usize)>,
    pub unknowns: Seq<Option<usize>>,
}

impl Numbering {
    /// The unknown on an edge, if the edge is there and carries one.
    pub open spec fn unknown(self, e: (usize, usize)) -> Option<usize> {
        match last_index(self.edges, e) {
            Some(k) => self.unknowns[k],
            None => None,
        }
    }

    /// All edges of a triangle are there.
    pub open spec fn has_edges(self, t: Tri) -> bool {
        &&& last_index(self.edges, t.edge(0)) is Some
        &&& last_index(self.edges, t.edge(1)) is Some
        &&& last_index(self.edges, t.edge(2)) is Some
    }
}

/// The edges of a mesh and their unknowns.
pub struct Frame {
    pub edges: PairTable,
    pub unknowns: Vec<Option<usize>>,
    /// How many unknowns there are.
    pub n: usize,
}

impl View for Frame {
    type V = Numbering;

    open spec fn view(&self) -> Numbering {
        Numbering { edges: self.edges.pairs@, unknowns: self.unknowns@ }
    }
}

impl Frame {
    /// Every unknown on an edge is one of the first `n`.
    pub open spec fn wf(self) -> bool {
        &&& self.edges.wf()
        &&& self.unknowns@.len() == self.edges.pairs@.len()
        &&& forall|e: int|
            0 <= e < self.unknowns@.len() ==> (#[trigger] self.unknowns@[e] matches Some(d) ==> d
                < self.n)
    }

    /// The unknown on an edge, if the edge is there and carries one.
    pub fn unknown(&self, a: usize, b: usize) -> (r: Option<usize>)
        requires
            self.wf(),
            a < self.edges.at@.len(),
        ensures
            r == self@.unknown((a, b)),
            r matches Some(d) ==> d < self.n,
    {
        match self.edges.find(a, b) {
            Some(e) => self.unknowns[e],
            None => None,
        }
    }
}

// ---------------------------------------------------------------- terms

/// A term of the matrix entry in row `lo` and column `hi`.
pub struct Term<T> {
    pub lo: usize,
    pub hi: usize,
    pub part: Entry<T>,
}

/// A term of the entry of two unknowns, which belongs to the upper triangle.
pub open spec fn term<T>(i: usize, j: usize, part: Entry<T>) -> Term<T> {
    if i <= j {
        Term { lo: i, hi: j, part }
    } else {
        Term { lo: j, hi: i, part }
    }
}

/// The entries that have terms, in order of appearance, each once.
pub open spec fn keys_of<T>(terms: Seq<Term<T>>) -> Seq<(usize, usize)>
    decreases terms.len(),
{
    if terms.len() == 0 {
        seq![]
    } else {
        with_pair(keys_of(terms.drop_last()), (terms.last().lo, terms.last().hi))
    }
}

/// The sum of the terms of one entry, in their order.
pub open spec fn gathered<T: Number>(terms: Seq<Term<T>>, key: (usize, usize)) -> Entry<T>
    decreases terms.len(),
{
    if terms.len() == 0 {
        Entry::<T>::nothing()
    } else {
        let before = gathered(terms.drop_last(), key);
        if (terms.last().lo, terms.last().hi) == key {
            before.plus(terms.last().part)
        } else {
            before
        }
    }
}

proof fn lemma_no_terms<T: Number>(terms: Seq<Term<T>>, key: (usize, usize))
    requires
        last_index(keys_of(terms), key) is None,
    ensures
        gathered(terms, key) == Entry::<T>::nothing(),
    decreases terms.len(),
{
    lemma_last_index(keys_of(terms), key);
    if terms.len() > 0 {
        let before = keys_of(terms.drop_last());
        let last = (terms.last().lo, terms.last().hi);
        lemma_last_index(before, last);
        lemma_last_index(before, key);
        assert forall|k: int| 0 <= k < before.len() implies before[k] != key by {
            assert(keys_of(terms)[k] == before[k]);
        }
        assert(last != key) by {
            if last == key {
                if last_index(before, last) is None {
                    assert(keys_of(terms)[before.len() as int] == key);
                }
            }
        }
        lemma_no_terms(terms.drop_last(), key);
    }
}

/// The sparse upper triangle of a symmetric matrix of unknowns.
pub struct Matrix<T> {
    /// Row and column of each entry.
    pub keys: PairTable,
    /// The entries.
    pub vals: Vec<Entry<T>>,
    /// The terms that have been added.
    pub terms: Ghost<Seq<Term<T>>>,
}

impl<T: Number> Matrix<T> {
    /// The entries are the sums of the terms, for `n` unknowns.
    pub open spec fn wf(self, n: nat) -> bool {
        &&& self.keys.wf()
        &&& self.keys.at@.len() == n
        &&& self.keys.pairs@ == keys_of(self.terms@)
        &&& self.vals@.len() == self.keys.pairs@.len()
        &&& forall|k: int|
            0 <= k < self.vals@.len() ==> #[trigger] self.vals@[k] == gathered(
                self.terms@,
                self.keys.pairs@[k],
            )
        &&& forall|k: int|
            0 <= k < self.keys.pairs@.len() ==> (#[trigger] self.keys.pairs@[k]).0
                <= self.keys.pairs@[k].1 < n
    }
}

impl<T: Scalar> Matrix<T> {
    /// A matrix without entries for `n` unknowns.
    pub fn new(n: usize) -> (r: Matrix<T>)
        ensures
            r.wf(n as nat),
            r.terms@ == Seq::<Term<T>>::empty(),
    {
        let keys = PairTable::new(n);
        let terms: Ghost<Seq<Term<T>>> = Ghost(Seq::empty());
        Matrix { keys, vals: Vec::new(), terms }
    }

    /// Adds a term.
    pub fn add(&mut self, i: usize, j: usize, part: Entry<T>, n: usize)
        requires
            old(self).wf(n as nat),
            i < n,
            j < n,
        ensures
            final(self).wf(n as nat),
            final(self).terms@ == old(self).terms@.push(term(i, j, part)),
    {
        let (lo, hi) = if i <= j {
            (i, j)
        } else {
            (j, i)
        };
        let ghost before = *self;
        let ghost t = term(i, j, part);
        let ghost key = (lo, hi);
        proof {
            lemma_last_index(self.keys.pairs@, key);
            assert(self.terms@.push(t).drop_last() =~= self.terms@);
        }
        let k: usize = self.keys.place(lo, hi);
        if k == self.vals.len() {
            proof {
                lemma_no_terms(before.terms@, key);
            }
            self.vals.push(Entry::nil().add(part));
        } else {
            let v = self.vals[k];
            self.vals.set(k, v.add(part));
        }
        self.terms = Ghost(self.terms@.push(t));
        proof {
            assert forall|m: int| 0 <= m < self.vals@.len() implies #[trigger] self.vals@[m]
                == gathered(self.terms@, self.keys.pairs@[m]) by {
                if m < before.vals@.len() {
                    assert(before.vals@[m] == gathered(before.terms@, before.keys.pairs@[m]));
                    assert(self.keys.pairs@[m] == before.keys.pairs@[m]);
                    if m != k {
                        assert(self.keys.pairs@[m] != self.keys.pairs@[k as int]);
                    }
                }
            }
            assert forall|m: int| 0 <= m < self.keys.pairs@.len() implies (
            #[trigger] self.keys.pairs@[m]).0 <= self.keys.pairs@[m].1 < n by {
                if m < before.keys.pairs@.len() {
                    assert(self.keys.pairs@[m] == before.keys.pairs@[m]);
                }
            }
        }
    }
}

/// `acc` with a term, unless one of its edges carries no unknown.
pub open spec fn with_term<T>(
    acc: Seq<Term<T>>,
    i: Option<usize>,
    j: Option<usize>,
    part: Entry<T>,
) -> Seq<Term<T>> {
    match (i, j) {
        (Some(i), Some(j)) => acc.push(term(i, j, part)),
        _ => acc,
    }
}

// ---------------------------------------------------------------- volume

/// The terms of edge `i` of a tetrahedron with its edges from `i` to `j`, `j`
/// not counted.
pub open spec fn tet_row<T: Number>(
    num: Numbering,
    t: Tet,
    shape: TetShape<T>,
    medium: Medium<T>,
    i: int,
    j: int,
    acc: Seq<Term<T>>,
) -> Seq<Term<T>>
    decreases j,
{
    if j <= i || j <= 0 {
        acc
    } else {
        with_term(
            tet_row(num, t, shape, medium, i, j - 1, acc),
            num.unknown(t.edge(i)),
            num.unknown(t.edge(j - 1)),
            tet_part(shape, medium, i, j - 1),
        )
    }
}

/// The terms of the first `i` edges of a tetrahedron.
pub open spec fn tet_terms<T: Number>(
    num: Numbering,
    t: Tet,
    shape: TetShape<T>,
    medium: Medium<T>,
    i: int,
    acc: Seq<Term<T>>,
) -> Seq<Term<T>>
    decreases i,
{
    if i <= 0 {
        acc
    } else {
        tet_row(
            num,
            t,
            shape,
            medium,
            i - 1,
            6,
            tet_terms(num, t, shape, medium, i - 1, acc),
        )
    }
}

/// The shape of a tetrahedron of a mesh.
pub open spec fn shape_of_tet<T: Number>(nodes: Seq<V3<T>>, t: Tet) -> Option<TetShape<T>> {
    tet_shape(nodes[t.a as int], nodes[t.b as int], nodes[t.c as int], nodes[t.d as int])
}

/// The terms of the first `n` tetrahedra.
pub open spec fn volume_terms<T: Number>(
    num: Numbering,
    nodes: Seq<V3<T>>,
    tets: Seq<Tet>,
    media: Seq<Medium<T>>,
    n: nat,
) -> Result<Seq<Term<T>>, ModelError>
    decreases n,
{
    if n == 0 {
        Ok(seq![])
    } else {
        match volume_terms(num, nodes, tets, media, (n - 1) as nat) {
            Err(e) => Err(e),
            Ok(acc) => match shape_of_tet(nodes, tets[n - 1]) {
                None => Err(ModelError::Degenerate),
                Some(shape) => Ok(
                    tet_terms(
                        num,
                        tets[n - 1],
                        shape,
                        media[tets[n - 1].group as int],
                        6,
                        acc,
                    ),
                ),
            },
        }
    }
}

proof fn lemma_volume_fail<T: Number>(
    num: Numbering,
    nodes: Seq<V3<T>>,
    tets: Seq<Tet>,
    media: Seq<Medium<T>>,
    k: nat,
    n: nat,
)
    requires
        k <= n,
        volume_terms(num, nodes, tets, media, k) is Err,
    ensures
        volume_terms(num, nodes, tets, media, n) == volume_terms(num, nodes, tets, media, k),
    decreases n,
{
    if k < n {
        lemma_volume_fail(num, nodes, tets, media, k, (n - 1) as nat);
    }
}

fn tet_unknowns(frame: &Frame, t: &Tet) -> (r: Vec<Option<usize>>)
    requires
        frame.wf(),
        t.within(frame.edges.at@.len(), t.group as nat + 1),
    ensures
        r@.len() == 6,
        forall|i: int| 0 <= i < 6 ==> #[trigger] r@[i] == frame@.unknown(t.edge(i)),
        forall|i: int| 0 <= i < 6 ==> (#[trigger] r@[i] matches Some(d) ==> d < frame.n),
{
    let mut r: Vec<Option<usize>> = Vec::new();
    let mut i: usize = 0;
    while i < 6
        invariant
            frame.wf(),
            t.within(frame.edges.at@.len(), t.group as nat + 1),
            i <= 6,
            r@.len() == i,
            forall|k: int| 0 <= k < i ==> #[trigger] r@[k] == frame@.unknown(t.edge(k)),
            forall|k: int| 0 <= k < i ==> (#[trigger] r@[k] matches Some(d) ==> d < frame.n),
        decreases 6 - i,
    {
        let (p, q) = tet_pair(i);
        r.push(frame.unknown(tet_corner(t, p), tet_corner(t, q)));
        i += 1;
    }
    r
}

fn add_tet<T: Scalar>(
    frame: &Frame,
    t: &Tet,
    shape: &TetShape<T>,
    medium: &Medium<T>,
    a: &mut Matrix<T>,
)
    requires
        frame.wf(),
        t.within(frame.edges.at@.len(), t.group as nat + 1),
        old(a).wf(frame.n as nat),
    ensures
        final(a).wf(frame.n as nat),
        final(a).terms@ == tet_terms(frame@, *t, *shape, *medium, 6, old(a).terms@),
{
    let ds = tet_unknowns(frame, t);
    let ghost start = a.terms@;
    let mut i: usize = 0;
    while i < 6
        invariant
            i <= 6,
            ds@.len() == 6,
            forall|k: int| 0 <= k < 6 ==> #[trigger] ds@[k] == frame@.unknown(t.edge(k)),
            forall|k: int| 0 <= k < 6 ==> (#[trigger] ds@[k] matches Some(d) ==> d < frame.n),
            a.wf(frame.n as nat),
            a.terms@ == tet_terms(frame@, *t, *shape, *medium, i as int, start),
        decreases 6 - i,
    {
        let ghost row = a.terms@;
        let mut j: usize = i;
        while j < 6
            invariant
                i <= j <= 6,
                i < 6,
                ds@.len() == 6,
                forall|k: int| 0 <= k < 6 ==> #[trigger] ds@[k] == frame@.unknown(t.edge(k)),
                forall|k: int| 0 <= k < 6 ==> (#[trigger] ds@[k] matches Some(d) ==> d < frame.n),
                a.wf(frame.n as nat),
                a.terms@ == tet_row(frame@, *t, *shape, *medium, i as int, j as int, row),
            decreases 6 - j,
        {
            match ds[i] {
                Some(di) => match ds[j] {
                    Some(dj) => {
                        a.add(di, dj, part_of_tet(shape, medium, i, j), frame.n);
                    },
                    None => {},
                },
                None => {},
            }
            j += 1;
        }
        i += 1;
    }
}

/// Adds the terms of all tetrahedra.
fn add_tets<T: Scalar>(
    frame: &Frame,
    mesh: &Mesh<T>,
    media: &Vec<Medium<T>>,
    a: &mut Matrix<T>,
) -> (r: Result<(), ModelError>)
    requires
        frame.wf(),
        mesh.wf(),
        frame.edges.at@.len() == mesh.nodes@.len(),
        media@.len() == mesh.names@.len(),
        old(a).wf(frame.n as nat),
        old(a).terms@.len() == 0,
    ensures
        match volume_terms(frame@, mesh.nodes@, mesh.tets@, media@, mesh.tets@.len()) {
            Ok(terms) => r is Ok && final(a).wf(frame.n as nat) && final(a).terms@ == terms,
            Err(e) => r matches Err(f) && e == f,
        },
{
    let mut i: usize = 0;
    assert(a.terms@ =~= seq![]);
    while i < mesh.tets.len()
        invariant
            frame.wf(),
            mesh.wf(),
            frame.edges.at@.len() == mesh.nodes@.len(),
            media@.len() == mesh.names@.len(),
            i <= mesh.tets@.len(),
            a.wf(frame.n as nat),
            volume_terms(frame@, mesh.nodes@, mesh.tets@, media@, i as nat) == Ok::<
                Seq<Term<T>>,
                ModelError,
            >(a.terms@),
        decreases mesh.tets@.len() - i,
    {
        let t = mesh.tets[i];
        assert(mesh.tets@[i as int].within(mesh.nodes@.len(), mesh.names@.len()));
        match shape_tet(mesh.nodes[t.a], mesh.nodes[t.b], mesh.nodes[t.c], mesh.nodes[t.d]) {
            None => {
                proof {
                    lemma_volume_fail(
                        frame@,
                        mesh.nodes@,
                        mesh.tets@,
                        media@,
                        i as nat + 1,
                        mesh.tets@.len(),
                    );
                }
                return Err(ModelError::Degenerate);
            },
            Some(shape) => {
                add_tet(frame, &t, &shape, &media[t.group], a);
            },
        }
        i += 1;
    }
    Ok(())
}

// ---------------------------------------------------------------- surface

/// What multiplies the face mass of a sheet: along with the imaginary unit and
/// the wave number, and along with the square root of the wave number.
pub struct Sheet<T> {
    pub b: Cx<T>,
    pub w: Cx<T>,
}

/// The sheet of a port: the wave impedance of vacuum over the sheet impedance.
pub open spec fn port_sheet<T: Number>(p: PortShape<T>) -> Sheet<T> {
    Sheet {
        b: Cx { re: (T::constants().eta0 * p.h).over(p.z0 * p.w), im: T::zero() },
        w: Cx::<T>::zero(),
    }
}

/// The sheet of an absorbing boundary in front of a medium.
pub open spec fn absorbing_sheet<T: Number>(m: Medium<T>) -> Sheet<T> {
    Sheet { b: m.eps.scaled(T::one().over(m.mur)).principal_root(), w: Cx::<T>::zero() }
}

/// The sheet of a good conductor, whose impedance grows with the square root of
/// the frequency.
pub open spec fn metal_sheet<T: Number>(sigma: T) -> Sheet<T> {
    let r = (sigma * T::constants().eta0).over(T::number(2)).root();
    Sheet { b: Cx::<T>::zero(), w: Cx { re: r, im: r } }
}

/// What lies on a triangle: nothing, or a sheet. A port goes before a boundary.
pub open spec fn sheet_of<T: Number>(
    tets: Seq<Tet>,
    media: Seq<Medium<T>>,
    roles: Seq<Role<T>>,
    groups: Seq<Option<usize>>,
    ports: Seq<PortShape<T>>,
    t: Tri,
) -> Result<Option<Sheet<T>>, ModelError> {
    match groups[t.group as int] {
        Some(p) => Ok(Some(port_sheet(ports[p as int]))),
        None => match roles[t.group as int] {
            Role::Abc => match touching(tets, t, tets.len()) {
                Some(k) => Ok(Some(absorbing_sheet(media[tets[k].group as int]))),
                None => Err(ModelError::Mismatch),
            },
            Role::Metal(sigma) => Ok(Some(metal_sheet(sigma))),
            _ => Ok(None),
        },
    }
}

/// What a triangle with a sheet adds to the matrix entry of its edges `i` and `j`.
pub open spec fn tri_part<T: Number>(
    shape: TriShape<T>,
    sheet: Sheet<T>,
    i: int,
    j: int,
) -> Entry<T> {
    Entry {
        s: Cx::<T>::zero(),
        b: sheet.b.scaled(tri_mass(shape, i, j)),
        m: Cx::<T>::zero(),
        w: sheet.w.scaled(tri_mass(shape, i, j)),
    }
}

/// The terms of edge `i` of a triangle with its edges from `i` to `j`, `j` not
/// counted.
pub open spec fn tri_row<T: Number>(
    num: Numbering,
    t: Tri,
    shape: TriShape<T>,
    sheet: Sheet<T>,
    i: int,
    j: int,
    acc: Seq<Term<T>>,
) -> Seq<Term<T>>
    decreases j,
{
    if j <= i || j <= 0 {
        acc
    } else {
        with_term(
            tri_row(num, t, shape, sheet, i, j - 1, acc),
            num.unknown(t.edge(i)),
            num.unknown(t.edge(j - 1)),
            tri_part(shape, sheet, i, j - 1),
        )
    }
}

/// The terms of the first `i` edges of a triangle.
pub open spec fn tri_terms<T: Number>(
    num: Numbering,
    t: Tri,
    shape: TriShape<T>,
    sheet: Sheet<T>,
    i: int,
    acc: Seq<Term<T>>,
) -> Seq<Term<T>>
    decreases i,
{
    if i <= 0 {
        acc
    } else {
        tri_row(num, t, shape, sheet, i - 1, 3, tri_terms(num, t, shape, sheet, i - 1, acc))
    }
}

/// The shape of a triangle of a mesh.
pub open spec fn shape_of_tri<T: Number>(nodes: Seq<V3<T>>, t: Tri) -> TriShape<T> {
    tri_shape(nodes[t.a as int], nodes[t.b as int], nodes[t.c as int])
}

/// The terms of the tetrahedra and of the first `n` triangles.
pub open spec fn all_terms<T: Number>(
    num: Numbering,
    mesh: Mesh<T>,
    media: Seq<Medium<T>>,
    roles: Seq<Role<T>>,
    groups: Seq<Option<usize>>,
    ports: Seq<PortShape<T>>,
    n: nat,
) -> Result<Seq<Term<T>>, ModelError>
    decreases n,
{
    if n == 0 {
        volume_terms(num, mesh.nodes@, mesh.tets@, media, mesh.tets@.len())
    } else {
        let t = mesh.tris@[n - 1];
        match all_terms(num, mesh, media, roles, groups, ports, (n - 1) as nat) {
            Err(e) => Err(e),
            Ok(acc) => match sheet_of(mesh.tets@, media, roles, groups, ports, t) {
                Err(e) => Err(e),
                Ok(None) => Ok(acc),
                Ok(Some(sheet)) => if num.has_edges(t) {
                    Ok(tri_terms(num, t, shape_of_tri(mesh.nodes@, t), sheet, 3, acc))
                } else {
                    Err(ModelError::Mismatch)
                },
            },
        }
    }
}

proof fn lemma_all_fail<T: Number>(
    num: Numbering,
    mesh: Mesh<T>,
    media: Seq<Medium<T>>,
    roles: Seq<Role<T>>,
    groups: Seq<Option<usize>>,
    ports: Seq<PortShape<T>>,
    k: nat,
    n: nat,
)
    requires
        k <= n,
        all_terms(num, mesh, media, roles, groups, ports, k) is Err,
    ensures
        all_terms(num, mesh, media, roles, groups, ports, n) == all_terms(
            num,
            mesh,
            media,
            roles,
            groups,
            ports,
            k,
        ),
    decreases n,
{
    if k < n {
        lemma_all_fail(num, mesh, media, roles, groups, ports, k, (n - 1) as nat);
    }
}

/// Works out what lies on a triangle.
pub fn find_sheet<T: Scalar>(
    mesh: &Mesh<T>,
    faces: &FaceTable,
    groups: &Groups<T>,
    ports: &Vec<PortShape<T>>,
    t: &Tri,
) -> (r: Result<Option<Sheet<T>>, ModelError>)
    requires
        mesh.wf(),
        faces.wf(mesh.tets@),
        faces.at@.len() == mesh.nodes@.len(),
        groups.fits(mesh.names@.len(), ports@.len()),
        t.within(mesh.nodes@.len(), mesh.names@.len()),
    ensures
        r == sheet_of(mesh.tets@, groups.media@, groups.roles@, groups.ports@, ports@, *t),
{
    let zero: Cx<T> = Cx::nil();
    match groups.ports[t.group] {
        Some(p) => {
            assert(groups.ports@[t.group as int] == Some(p));
            let port = ports[p];
            let re = T::known().eta0.mul(port.h).div(port.z0.mul(port.w));
            Ok(Some(Sheet { b: cx(re, T::nil()), w: zero }))
        },
        None => match groups.roles[t.group] {
            Role::Abc => match tet_behind(&mesh.tets, faces, t) {
                Some(k) => {
                    assert(mesh.tets@[k as int].within(mesh.nodes@.len(), mesh.names@.len()));
                    let m = groups.media[mesh.tets[k].group];
                    Ok(Some(Sheet { b: m.eps.rs(T::unit().div(m.mur)).sqrt(), w: zero }))
                },
                None => Err(ModelError::Mismatch),
            },
            Role::Metal(sigma) => {
                let r = sigma.mul(T::known().eta0).div(T::of(2)).sqrt();
                Ok(Some(Sheet { b: zero, w: cx(r, r) }))
            },
            _ => Ok(None),
        },
    }
}

/// The unknowns on the edges of a triangle, unless an edge is missing.
fn tri_unknowns(frame: &Frame, t: &Tri) -> (r: Option<Vec<Option<usize>>>)
    requires
        frame.wf(),
        t.within(frame.edges.at@.len(), t.group as nat + 1),
    ensures
        r is Some == frame@.has_edges(*t),
        r matches Some(ds) ==> ds@.len() == 3 && forall|i: int|
            0 <= i < 3 ==> #[trigger] ds@[i] == frame@.unknown(t.edge(i)) && (ds@[i] matches Some(
                d,
            ) ==> d < frame.n),
{
    let mut r: Vec<Option<usize>> = Vec::new();
    let mut i: usize = 0;
    while i < 3
        invariant
            frame.wf(),
            t.within(frame.edges.at@.len(), t.group as nat + 1),
            i <= 3,
            r@.len() == i,
            forall|k: int| 0 <= k < i ==> last_index(frame@.edges, #[trigger] t.edge(k)) is Some,
            forall|k: int|
                0 <= k < i ==> #[trigger] r@[k] == frame@.unknown(t.edge(k)) && (r@[k] matches Some(
                    d,
                ) ==> d < frame.n),
        decreases 3 - i,
    {
        let (p, q) = tri_pair(i);
        match frame.edges.find(tri_corner(t, p), tri_corner(t, q)) {
            None => {
                return None;
            },
            Some(e) => {
                r.push(frame.unknowns[e]);
            },
        }
        i += 1;
    }
    assert(last_index(frame@.edges, t.edge(0)) is Some);
    assert(last_index(frame@.edges, t.edge(1)) is Some);
    assert(last_index(frame@.edges, t.edge(2)) is Some);
    Some(r)
}

fn add_tri<T: Scalar>(
    frame: &Frame,
    t: &Tri,
    ds: &Vec<Option<usize>>,
    shape: &TriShape<T>,
    sheet: &Sheet<T>,
    a: &mut Matrix<T>,
)
    requires
        frame.wf(),
        ds@.len() == 3,
        forall|i: int|
            0 <= i < 3 ==> #[trigger] ds@[i] == frame@.unknown(t.edge(i)) && (ds@[i] matches Some(
                d,
            ) ==> d < frame.n),
        old(a).wf(frame.n as nat),
    ensures
        final(a).wf(frame.n as nat),
        final(a).terms@ == tri_terms(frame@, *t, *shape, *sheet, 3, old(a).terms@),
{
    let ghost start = a.terms@;
    let mut i: usize = 0;
    while i < 3
        invariant
            i <= 3,
            ds@.len() == 3,
            forall|i: int|
                0 <= i < 3 ==> #[trigger] ds@[i] == frame@.unknown(t.edge(i)) && (
                ds@[i] matches Some(d) ==> d < frame.n),
            a.wf(frame.n as nat),
            a.terms@ == tri_terms(frame@, *t, *shape, *sheet, i as int, start),
        decreases 3 - i,
    {
        let ghost row = a.terms@;
        let mut j: usize = i;
        while j < 3
            invariant
                i <= j <= 3,
                i < 3,
                ds@.len() == 3,
                forall|i: int|
                    0 <= i < 3 ==> #[trigger] ds@[i] == frame@.unknown(t.edge(i)) && (
                    ds@[i] matches Some(d) ==> d < frame.n),
                a.wf(frame.n as nat),
                a.terms@ == tri_row(frame@, *t, *shape, *sheet, i as int, j as int, row),
            decreases 3 - j,
        {
            match ds[i] {
                Some(di) => match ds[j] {
                    Some(dj) => {
                        let m = mass_of_tri(shape, i, j);
                        let part = Entry {
                            s: Cx::nil(),
                            b: sheet.b.rs(m),
                            m: Cx::nil(),
                            w: sheet.w.rs(m),
                        };
                        a.add(di, dj, part, frame.n);
                    },
                    None => {},
                },
                None => {},
            }
            j += 1;
        }
        i += 1;
    }
}

/// Assembles the system matrix.
pub fn assemble<T: Scalar>(
    frame: &Frame,
    mesh: &Mesh<T>,
    faces: &FaceTable,
    groups: &Groups<T>,
    ports: &Vec<PortShape<T>>,
) -> (r: Result<Matrix<T>, ModelError>)
    requires
        frame.wf(),
        mesh.wf(),
        frame.edges.at@.len() == mesh.nodes@.len(),
        faces.wf(mesh.tets@),
        faces.at@.len() == mesh.nodes@.len(),
        groups.fits(mesh.names@.len(), ports@.len()),
    ensures
        match all_terms(
            frame@,
            *mesh,
            groups.media@,
            groups.roles@,
            groups.ports@,
            ports@,
            mesh.tris@.len(),
        ) {
            Ok(terms) => r matches Ok(a) && a.wf(frame.n as nat) && a.terms@ == terms,
            Err(e) => r matches Err(f) && e == f,
        },
{
    let mut a: Matrix<T> = Matrix::new(frame.n);
    match add_tets(frame, mesh, &groups.media, &mut a) {
        Err(e) => {
            proof {
                lemma_all_fail(
                    frame@,
                    *mesh,
                    groups.media@,
                    groups.roles@,
                    groups.ports@,
                    ports@,
                    0,
                    mesh.tris@.len(),
                );
            }
            return Err(e);
        },
        Ok(_) => {},
    }
    let mut i: usize = 0;
    while i < mesh.tris.len()
        invariant
            frame.wf(),
            mesh.wf(),
            frame.edges.at@.len() == mesh.nodes@.len(),
            faces.wf(mesh.tets@),
            faces.at@.len() == mesh.nodes@.len(),
            groups.fits(mesh.names@.len(), ports@.len()),
            i <= mesh.tris@.len(),
            a.wf(frame.n as nat),
            all_terms(
                frame@,
                *mesh,
                groups.media@,
                groups.roles@,
                groups.ports@,
                ports@,
                i as nat,
            ) == Ok::<Seq<Term<T>>, ModelError>(a.terms@),
        decreases mesh.tris@.len() - i,
    {
        let t = mesh.tris[i];
        assert(mesh.tris@[i as int].within(mesh.nodes@.len(), mesh.names@.len()));
        let mut fail: Option<ModelError> = None;
        match find_sheet(mesh, faces, groups, ports, &t) {
            Err(e) => {
                fail = Some(e);
            },
            Ok(None) => {},
            Ok(Some(sheet)) => match tri_unknowns(frame, &t) {
                None => {
                    fail = Some(ModelError::Mismatch);
                },
                Some(ds) => {
                    let shape = shape_tri(mesh.nodes[t.a], mesh.nodes[t.b], mesh.nodes[t.c]);
                    add_tri(frame, &t, &ds, &shape, &sheet, &mut a);
                },
            },
        }
        match fail {
            Some(e) => {
                proof {
                    lemma_all_fail(
                        frame@,
                        *mesh,
                        groups.media@,
                        groups.roles@,
                        groups.ports@,
                        ports@,
                        i as nat + 1,
                        mesh.tris@.len(),
                    );
                }
                return Err(e);
            },
            None => {},
        }
        i += 1;
    }
    Ok(a)
}

// ---------------------------------------------------------------- excitation

/// The terms of the current that a port drives: an unknown, and the integral of
/// the component of its edge function along the direction of the port.
pub open spec fn tri_drives<T: Number>(
    num: Numbering,
    t: Tri,
    shape: TriShape<T>,
    dir: V3<T>,
    i: int,
    acc: Seq<(usize, T)>,
) -> Seq<(usize, T)>
    decreases i,
{
    if i <= 0 {
        acc
    } else {
        let before = tri_drives(num, t, shape, dir, i - 1, acc);
        match num.unknown(t.edge(i - 1)) {
            Some(d) => before.push((d, tri_moment(shape, dir, i - 1))),
            None => before,
        }
    }
}

/// The terms of the current of port `p` on the first `n` triangles.
pub open spec fn drives<T: Number>(
    num: Numbering,
    nodes: Seq<V3<T>>,
    tris: Seq<Tri>,
    groups: Seq<Option<usize>>,
    p: usize,
    dir: V3<T>,
    n: nat,
) -> Seq<(usize, T)>
    decreases n,
{
    if n == 0 {
        seq![]
    } else {
        let acc = drives(num, nodes, tris, groups, p, dir, (n - 1) as nat);
        if on_port(tris[n - 1], groups, p) {
            tri_drives(num, tris[n - 1], shape_of_tri(nodes, tris[n - 1]), dir, 3, acc)
        } else {
            acc
        }
    }
}

/// The unknowns among the terms, in order of appearance, each once.
pub open spec fn driven<T>(terms: Seq<(usize, T)>) -> Seq<usize>
    decreases terms.len(),
{
    if terms.len() == 0 {
        seq![]
    } else {
        let before = driven(terms.drop_last());
        if last_index(before, terms.last().0) is Some {
            before
        } else {
            before.push(terms.last().0)
        }
    }
}

/// The sum of the terms of one unknown, in their order.
pub open spec fn strength<T: Number>(terms: Seq<(usize, T)>, d: usize) -> T
    decreases terms.len(),
{
    if terms.len() == 0 {
        T::zero()
    } else {
        let before = strength(terms.drop_last(), d);
        if terms.last().0 == d {
            before + terms.last().1
        } else {
            before
        }
    }
}

/// The driven unknowns with their strengths.
pub open spec fn excitation<T: Number>(terms: Seq<(usize, T)>) -> Seq<(usize, T)> {
    Seq::new(driven(terms).len(), |k: int| (driven(terms)[k], strength(terms, driven(terms)[k])))
}

pub proof fn lemma_undriven<T: Number>(terms: Seq<(usize, T)>, d: usize)
    ensures
        driven(terms).no_duplicates(),
        !driven(terms).contains(d) ==> strength(terms, d) == T::zero(),
    decreases terms.len(),
{
    if terms.len() > 0 {
        lemma_undriven(terms.drop_last(), d);
        let before = driven(terms.drop_last());
        let last = terms.last().0;
        lemma_last_index(before, last);
        if !driven(terms).contains(d) {
            assert(!before.contains(d)) by {
                if before.contains(d) {
                    let k = before.index_of(d);
                    assert(driven(terms)[k] == d);
                }
            }
            if last == d {
                if last_index(before, last) is None {
                    assert(driven(terms)[before.len() as int] == d);
                } else {
                    assert(before.contains(d));
                }
            }
        }
    }
}

/// A port drives no unknown twice.
pub proof fn lemma_excitation_distinct<T: Number>(terms: Seq<(usize, T)>, k: int, l: int)
    requires
        0 <= k < l < excitation(terms).len(),
    ensures
        excitation(terms)[k].0 != excitation(terms)[l].0,
{
    lemma_undriven(terms, 0);
    assert(driven(terms)[k] != driven(terms)[l]);
}

fn add_drive<T: Scalar>(
    exc: &mut Vec<(usize, T)>,
    d: usize,
    c: T,
    Ghost(terms): Ghost<Seq<(usize, T)>>,
)
    requires
        old(exc)@ == excitation(terms),
    ensures
        final(exc)@ == excitation(terms.push((d, c))),
{
    let ghost now = terms.push((d, c));
    let ghost before = exc@;
    proof {
        assert(now.drop_last() =~= terms);
        lemma_undriven(terms, d);
        lemma_last_index(driven(terms), d);
    }
    let mut k: usize = 0;
    while k < exc.len() && exc[k].0 != d
        invariant
            exc@ == before,
            k <= exc@.len(),
            forall|m: int| 0 <= m < k ==> (#[trigger] exc@[m]).0 != d,
        decreases exc@.len() - k,
    {
        k += 1;
    }
    if k < exc.len() {
        let v = exc[k].1;
        exc.set(k, (d, v.add(c)));
        assert(before[k as int].0 == driven(terms)[k as int]);
        assert(driven(terms)[k as int] == d);
        assert(driven(now) == driven(terms));
        assert forall|m: int| 0 <= m < exc@.len() implies exc@[m] == #[trigger] excitation(now)[m] by {
            assert(before[m] == excitation(terms)[m]);
            if m != k {
                assert(driven(terms)[m] != driven(terms)[k as int]);
            }
        }
        assert(exc@ =~= excitation(now));
    } else {
        assert(last_index(driven(terms), d) is None) by {
            match last_index(driven(terms), d) {
                Some(m) => {
                    assert(before[m].0 == driven(terms)[m]);
                },
                None => {},
            }
        }
        assert(!driven(terms).contains(d));
        exc.push((d, T::nil().add(c)));
        assert(driven(now) == driven(terms).push(d));
        assert forall|m: int| 0 <= m < exc@.len() implies exc@[m] == #[trigger] excitation(now)[m] by {
            if m < before.len() {
                assert(before[m] == excitation(terms)[m]);
                assert(before[m].0 != d);
            }
        }
        assert(exc@ =~= excitation(now));
    }
}

/// The unknowns that port `p` drives.
pub fn excite<T: Scalar>(
    frame: &Frame,
    mesh: &Mesh<T>,
    groups: &Vec<Option<usize>>,
    p: usize,
    dir: V3<T>,
) -> (r: Vec<(usize, T)>)
    requires
        frame.wf(),
        mesh.wf(),
        frame.edges.at@.len() == mesh.nodes@.len(),
        groups@.len() == mesh.names@.len(),
    ensures
        r@ == excitation(
            drives(frame@, mesh.nodes@, mesh.tris@, groups@, p, dir, mesh.tris@.len()),
        ),
        forall|k: int| 0 <= k < r@.len() ==> (#[trigger] r@[k]).0 < frame.n,
{
    let mut exc: Vec<(usize, T)> = Vec::new();
    let mut i: usize = 0;
    let ghost mut terms: Seq<(usize, T)> = seq![];
    assert(exc@ =~= excitation(terms));
    while i < mesh.tris.len()
        invariant
            frame.wf(),
            mesh.wf(),
            frame.edges.at@.len() == mesh.nodes@.len(),
            groups@.len() == mesh.names@.len(),
            i <= mesh.tris@.len(),
            terms == drives(frame@, mesh.nodes@, mesh.tris@, groups@, p, dir, i as nat),
            exc@ == excitation(terms),
            forall|k: int| 0 <= k < terms.len() ==> (#[trigger] terms[k]).0 < frame.n,
        decreases mesh.tris@.len() - i,
    {
        let t = mesh.tris[i];
        assert(mesh.tris@[i as int].within(mesh.nodes@.len(), mesh.names@.len()));
        let here: bool = match groups[t.group] {
            Some(q) => q == p,
            None => false,
        };
        if here {
            let shape = shape_tri(mesh.nodes[t.a], mesh.nodes[t.b], mesh.nodes[t.c]);
            let ghost start = terms;
            let mut j: usize = 0;
            while j < 3
                invariant
                    frame.wf(),
                    frame.edges.at@.len() == mesh.nodes@.len(),
                    t.within(mesh.nodes@.len(), mesh.names@.len()),
                    j <= 3,
                    terms == tri_drives(frame@, t, shape, dir, j as int, start),
                    exc@ == excitation(terms),
                    forall|k: int| 0 <= k < terms.len() ==> (#[trigger] terms[k]).0 < frame.n,
                decreases 3 - j,
            {
                let (a, b) = tri_pair(j);
                match frame.unknown(tri_corner(&t, a), tri_corner(&t, b)) {
                    Some(d) => {
                        let c = moment_of_tri(&shape, dir, j);
                        add_drive(&mut exc, d, c, Ghost(terms));
                        proof {
                            terms = terms.push((d, c));
                        }
                    },
                    None => {},
                }
                j += 1;
            }
        }
        i += 1;
    }
    proof {
        assert forall|k: int| 0 <= k < exc@.len() implies (#[trigger] exc@[k]).0 < frame.n by {
            assert(exc@[k] == excitation(terms)[k]);
            lemma_driven_member(terms, k);
        }
    }
    exc
}

proof fn lemma_driven_member<T>(terms: Seq<(usize, T)>, k: int)
    requires
        0 <= k < driven(terms).len(),
    ensures
        exists|m: int| 0 <= m < terms.len() && (#[trigger] terms[m]).0 == driven(terms)[k],
    decreases terms.len(),
{
    let before = driven(terms.drop_last());
    if k < before.len() {
        lemma_driven_member(terms.drop_last(), k);
        let m = choose|m: int|
            0 <= m < terms.drop_last().len() && (#[trigger] terms.drop_last()[m]).0 == before[k];
        assert(terms[m].0 == driven(terms)[k]);
    } else {
        assert(terms[terms.len() - 1].0 == driven(terms)[k]);
    }
}

} // verus!
