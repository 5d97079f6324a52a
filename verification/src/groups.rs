//! What the deck makes of each group of the mesh: boundary, port, material.

use crate::deck::{Deck, DeckModel, Mat};
use crate::msh::{copy_text, find_name, last_index, lemma_last_index, Mesh, Tet, Tri};
use crate::scalar::{cx, Algebra, Cx, Number, Scalar, V3};
use crate::text::spelled;
use vstd::prelude::*;

verus! {

/// The kinds of cards that name a group.
#[derive(Clone, Copy, PartialEq, Eq, Structural, Debug)]
pub enum CardKind {
    Pec,
    Abc,
    Metal,
    Port,
    Mat,
    Pml,
}

impl CardKind {
    /// The card speaks of a surface, not of a volume.
    pub open spec fn is_surface(self) -> bool {
        !(self is Mat || self is Pml)
    }
}

/// Why a model is refused.
#[derive(Clone, Copy, PartialEq, Eq, Structural, Debug)]
pub enum ModelError {
    /// A card names a group that the mesh does not have. Each kind of card counts
    /// its groups from zero.
    UnknownGroup { kind: CardKind, index: usize },
    /// The group of a surface card has no triangles.
    NoTriangles { kind: CardKind, index: usize },
    /// The group of a volume card has no tetrahedra.
    NoTets { kind: CardKind, index: usize },
    /// A boundary triangle is not a face, or has edges that no tetrahedron has.
    Mismatch,
    /// A port has no area or no extent along its direction.
    EmptyPort { port: usize },
    /// A tetrahedron has no volume.
    Degenerate,
    /// The matrix has more places than can be counted.
    TooLarge,
    /// The matrix is singular.
    Singular,
}

impl ModelError {
    pub open spec fn wording(self) -> &'static str {
        match self {
            ModelError::UnknownGroup { .. } => "unknown physical group",
            ModelError::NoTriangles { .. } => "physical group has no boundary triangles",
            ModelError::NoTets { .. } => "physical group has no tetrahedra",
            ModelError::Mismatch => "boundary triangle does not match the volume mesh",
            ModelError::EmptyPort { .. } => "port has no faces or zero extent along its direction",
            ModelError::Degenerate => "degenerate tetrahedron",
            ModelError::TooLarge => "system matrix is too large",
            ModelError::Singular => "singular system matrix",
        }
    }

    /// What to tell the user. The group or the port in question is not part of it.
    pub fn message(self) -> (r: &'static str)
        ensures
            r == self.wording(),
    {
        match self {
            ModelError::UnknownGroup { .. } => "unknown physical group",
            ModelError::NoTriangles { .. } => "physical group has no boundary triangles",
            ModelError::NoTets { .. } => "physical group has no tetrahedra",
            ModelError::Mismatch => "boundary triangle does not match the volume mesh",
            ModelError::EmptyPort { .. } => "port has no faces or zero extent along its direction",
            ModelError::Degenerate => "degenerate tetrahedron",
            ModelError::TooLarge => "system matrix is too large",
            ModelError::Singular => "singular system matrix",
        }
    }
}

/// What a surface is.
pub enum Role<T> {
    /// Natural boundary: a magnetic wall.
    Natural,
    /// Perfect electric conductor.
    Pec,
    /// First order absorbing boundary.
    Abc,
    /// Lossy conductor with a conductivity in S/m.
    Metal(T),
}

impl<T: Copy> Copy for Role<T> {

}

impl<T: Copy> Clone for Role<T> {
    fn clone(&self) -> (r: Self)
        ensures
            r == *self,
    {
        *self
    }
}

/// What fills a volume.
pub struct Medium<T> {
    /// Complex relative permittivity.
    pub eps: Cx<T>,
    /// Relative permeability.
    pub mur: T,
    /// Conductivity in S/m.
    pub sigma: T,
    /// The diagonal of the tensor that multiplies permittivity and permeability.
    pub tensor: V3<Cx<T>>,
}

impl<T: Copy> Copy for Medium<T> {

}

impl<T: Copy> Clone for Medium<T> {
    fn clone(&self) -> (r: Self)
        ensures
            r == *self,
    {
        *self
    }
}

// ---------------------------------------------------------------- model

/// The group has triangles.
pub open spec fn has_tris(tris: Seq<Tri>, group: int) -> bool {
    exists|i: int| 0 <= i < tris.len() && (#[trigger] tris[i]).group == group
}

/// The group has tetrahedra.
pub open spec fn has_tets(tets: Seq<Tet>, group: int) -> bool {
    exists|i: int| 0 <= i < tets.len() && (#[trigger] tets[i]).group == group
}

/// The group with the given name, if it is there and has the elements that the
/// card speaks of.
pub open spec fn group_of<T>(
    mesh: Mesh<T>,
    name: Seq<char>,
    kind: CardKind,
    index: usize,
) -> Result<
    usize,
    ModelError,
> {
    match last_index(spelled(mesh.names@), name) {
        None => Err(ModelError::UnknownGroup { kind, index }),
        Some(g) => if kind.is_surface() && !has_tris(mesh.tris@, g) {
            Err(ModelError::NoTriangles { kind, index })
        } else if !kind.is_surface() && !has_tets(mesh.tets@, g) {
            Err(ModelError::NoTets { kind, index })
        } else {
            Ok(g as usize)
        },
    }
}

/// The groups that the cards of one kind name.
pub open spec fn groups_of<T>(mesh: Mesh<T>, names: Seq<Seq<char>>, kind: CardKind) -> Result<
    Seq<usize>,
    ModelError,
>
    decreases names.len(),
{
    if names.len() == 0 {
        Ok(seq![])
    } else {
        match groups_of(mesh, names.drop_last(), kind) {
            Err(e) => Err(e),
            Ok(before) => match group_of(mesh, names.last(), kind, (names.len() - 1) as usize) {
                Err(e) => Err(e),
                Ok(g) => Ok(before.push(g)),
            },
        }
    }
}

/// The groups that the cards of a deck name, kind by kind.
pub struct Assignment {
    pub pec: Seq<usize>,
    pub abc: Seq<usize>,
    pub metals: Seq<usize>,
    pub ports: Seq<usize>,
    pub mats: Seq<usize>,
    pub pmls: Seq<usize>,
}

impl<T> DeckModel<T> {
    /// The groups on the conductor cards.
    pub open spec fn metal_names(self) -> Seq<Seq<char>> {
        Seq::new(self.metals.len(), |i: int| self.metals[i].0)
    }

    /// The groups on the port cards.
    pub open spec fn port_names(self) -> Seq<Seq<char>> {
        Seq::new(self.ports.len(), |i: int| self.ports[i].group)
    }

    /// The groups on the material cards.
    pub open spec fn mat_names(self) -> Seq<Seq<char>> {
        Seq::new(self.mats.len(), |i: int| self.mats[i].0)
    }

    /// The groups on the cards for a stretch of coordinates.
    pub open spec fn pml_names(self) -> Seq<Seq<char>> {
        Seq::new(self.pmls.len(), |i: int| self.pmls[i].0)
    }
}

/// Looks up the groups of every card of a deck.
pub open spec fn assignment<T>(
    deck: DeckModel<T>,
    mesh: Mesh<T>,
) -> Result<Assignment, ModelError> {
    match groups_of(mesh, deck.pec, CardKind::Pec) {
        Err(e) => Err(e),
        Ok(pec) => match groups_of(mesh, deck.abc, CardKind::Abc) {
            Err(e) => Err(e),
            Ok(abc) => match groups_of(mesh, deck.metal_names(), CardKind::Metal) {
                Err(e) => Err(e),
                Ok(metals) => match groups_of(mesh, deck.port_names(), CardKind::Port) {
                    Err(e) => Err(e),
                    Ok(ports) => match groups_of(mesh, deck.mat_names(), CardKind::Mat) {
                        Err(e) => Err(e),
                        Ok(mats) => match groups_of(mesh, deck.pml_names(), CardKind::Pml) {
                            Err(e) => Err(e),
                            Ok(pmls) => Ok(Assignment { pec, abc, metals, ports, mats, pmls }),
                        },
                    },
                },
            },
        },
    }
}

/// The role of a surface group. A conductor card goes before an absorbing card,
/// which goes before a perfect conductor; of two conductor cards the later one
/// counts.
pub open spec fn role_of<T>(deck: DeckModel<T>, a: Assignment, group: usize) -> Role<T> {
    match last_index(a.metals, group) {
        Some(k) => Role::Metal(deck.metals[k].1),
        None => if a.abc.contains(group) {
            Role::Abc
        } else if a.pec.contains(group) {
            Role::Pec
        } else {
            Role::Natural
        },
    }
}

/// The port on a surface group.
pub open spec fn port_of(a: Assignment, group: usize) -> Option<usize> {
    match last_index(a.ports, group) {
        Some(k) => Some(k as usize),
        None => None,
    }
}

/// The stretch of one coordinate.
pub open spec fn stretch_of<T: Number>(a: T) -> Cx<T> {
    Cx { re: T::one(), im: -a }
}

/// The tensor of a coordinate stretch.
pub open spec fn stretch_tensor<T: Number>(a: V3<T>) -> V3<Cx<T>> {
    let (x, y, z) = (stretch_of(a.x), stretch_of(a.y), stretch_of(a.z));
    V3 { x: (y * z).over(x), y: (x * z).over(y), z: (x * y).over(z) }
}

pub open spec fn unit_tensor<T: Number>() -> V3<Cx<T>> {
    V3 { x: Cx::<T>::one(), y: Cx::<T>::one(), z: Cx::<T>::one() }
}

/// The material of a volume group: the last one that a card gives it, or vacuum.
pub open spec fn mat_of<T: Number>(deck: DeckModel<T>, a: Assignment, group: usize) -> Mat<T> {
    match last_index(a.mats, group) {
        Some(k) => deck.mats[k].1,
        None => crate::deck::vacuum(),
    }
}

/// What fills a volume group.
pub open spec fn medium_of<T: Number>(
    deck: DeckModel<T>,
    a: Assignment,
    group: usize,
) -> Medium<T> {
    let mat = mat_of(deck, a, group);
    Medium {
        eps: Cx { re: mat.eps, im: -mat.eps * mat.tand },
        mur: mat.mur,
        sigma: mat.sigma,
        tensor: match last_index(a.pmls, group) {
            Some(k) => stretch_tensor(deck.pmls[k].1),
            None => unit_tensor(),
        },
    }
}

/// What the deck makes of each group.
pub struct Groups<T> {
    pub roles: Vec<Role<T>>,
    pub ports: Vec<Option<usize>>,
    pub media: Vec<Medium<T>>,
}

impl<T: Number> Groups<T> {
    /// The tables say what the deck says.
    pub open spec fn follows(self, deck: DeckModel<T>, a: Assignment, n: nat) -> bool {
        &&& self.roles@ == Seq::new(n, |g: int| role_of(deck, a, g as usize))
        &&& self.ports@ == Seq::new(n, |g: int| port_of(a, g as usize))
        &&& self.media@ == Seq::new(n, |g: int| medium_of(deck, a, g as usize))
    }

    /// The tables speak of `n` groups and name none but the first `ports` ports.
    pub open spec fn fits(self, n: nat, ports: nat) -> bool {
        &&& self.roles@.len() == n
        &&& self.ports@.len() == n
        &&& self.media@.len() == n
        &&& forall|g: int|
            0 <= g < n ==> (#[trigger] self.ports@[g] matches Some(p) ==> p < ports)
    }
}

/// A group that no card names is vacuum where it is a volume, and a natural boundary
/// without a port where it is a surface.
pub proof fn lemma_unnamed<T: Number>(deck: DeckModel<T>, a: Assignment, group: usize)
    requires
        !a.pec.contains(group),
        !a.abc.contains(group),
        !a.metals.contains(group),
        !a.ports.contains(group),
        !a.mats.contains(group),
        !a.pmls.contains(group),
    ensures
        role_of(deck, a, group) == Role::<T>::Natural,
        port_of(a, group) is None,
        mat_of(deck, a, group) == crate::deck::vacuum::<T>(),
        medium_of(deck, a, group).tensor == unit_tensor::<T>(),
{
    lemma_last_index(a.metals, group);
    lemma_last_index(a.ports, group);
    lemma_last_index(a.mats, group);
    lemma_last_index(a.pmls, group);
}

// ---------------------------------------------------------------- assignment

fn is_surface(kind: CardKind) -> (r: bool)
    ensures
        r == kind.is_surface(),
{
    match kind {
        CardKind::Mat => false,
        CardKind::Pml => false,
        _ => true,
    }
}

/// Which groups have triangles.
fn tri_flags<T>(mesh: &Mesh<T>) -> (r: Vec<bool>)
    requires
        mesh.wf(),
    ensures
        r@.len() == mesh.names@.len(),
        forall|g: int| 0 <= g < r@.len() ==> #[trigger] r@[g] == has_tris(mesh.tris@, g),
{
    let n: usize = mesh.names.len();
    let mut r: Vec<bool> = Vec::new();
    while r.len() < n
        invariant
            n == mesh.names@.len(),
            r@.len() <= n,
            forall|g: int| 0 <= g < r@.len() ==> !#[trigger] r@[g],
        decreases n - r@.len(),
    {
        r.push(false);
    }
    let mut i: usize = 0;
    while i < mesh.tris.len()
        invariant
            mesh.wf(),
            i <= mesh.tris@.len(),
            r@.len() == mesh.names@.len(),
            forall|g: int|
                0 <= g < r@.len() ==> #[trigger] r@[g] == has_tris(mesh.tris@.take(i as int), g),
        decreases mesh.tris@.len() - i,
    {
        let ghost before = r@;
        let g: usize = mesh.tris[i].group;
        assert(mesh.tris@[i as int].within(mesh.nodes@.len(), mesh.names@.len()));
        r.set(g, true);
        proof {
            let (old_tris, now) = (mesh.tris@.take(i as int), mesh.tris@.take(i + 1));
            assert forall|h: int| 0 <= h < r@.len() implies #[trigger] r@[h] == has_tris(now, h) by {
                assert(before[h] == has_tris(old_tris, h));
                if has_tris(old_tris, h) {
                    let k = choose|k: int|
                        0 <= k < old_tris.len() && (#[trigger] old_tris[k]).group == h;
                    assert(now[k].group == h);
                }
                if has_tris(now, h) && h != g {
                    let k = choose|k: int| 0 <= k < now.len() && (#[trigger] now[k]).group == h;
                    assert(old_tris[k].group == h);
                }
                if h == g {
                    assert(now[i as int].group == h);
                }
            }
        }
        i += 1;
    }
    assert(mesh.tris@.take(i as int) =~= mesh.tris@);
    r
}

/// Which groups have tetrahedra.
fn tet_flags<T>(mesh: &Mesh<T>) -> (r: Vec<bool>)
    requires
        mesh.wf(),
    ensures
        r@.len() == mesh.names@.len(),
        forall|g: int| 0 <= g < r@.len() ==> #[trigger] r@[g] == has_tets(mesh.tets@, g),
{
    let n: usize = mesh.names.len();
    let mut r: Vec<bool> = Vec::new();
    while r.len() < n
        invariant
            n == mesh.names@.len(),
            r@.len() <= n,
            forall|g: int| 0 <= g < r@.len() ==> !#[trigger] r@[g],
        decreases n - r@.len(),
    {
        r.push(false);
    }
    let mut i: usize = 0;
    while i < mesh.tets.len()
        invariant
            mesh.wf(),
            i <= mesh.tets@.len(),
            r@.len() == mesh.names@.len(),
            forall|g: int|
                0 <= g < r@.len() ==> #[trigger] r@[g] == has_tets(mesh.tets@.take(i as int), g),
        decreases mesh.tets@.len() - i,
    {
        let ghost before = r@;
        let g: usize = mesh.tets[i].group;
        assert(mesh.tets@[i as int].within(mesh.nodes@.len(), mesh.names@.len()));
        r.set(g, true);
        proof {
            let (old_tets, now) = (mesh.tets@.take(i as int), mesh.tets@.take(i + 1));
            assert forall|h: int| 0 <= h < r@.len() implies #[trigger] r@[h] == has_tets(now, h) by {
                assert(before[h] == has_tets(old_tets, h));
                if has_tets(old_tets, h) {
                    let k = choose|k: int|
                        0 <= k < old_tets.len() && (#[trigger] old_tets[k]).group == h;
                    assert(now[k].group == h);
                }
                if has_tets(now, h) && h != g {
                    let k = choose|k: int| 0 <= k < now.len() && (#[trigger] now[k]).group == h;
                    assert(old_tets[k].group == h);
                }
                if h == g {
                    assert(now[i as int].group == h);
                }
            }
        }
        i += 1;
    }
    assert(mesh.tets@.take(i as int) =~= mesh.tets@);
    r
}

/// Looks up the groups that the cards of one kind name.
fn look_up<T>(
    mesh: &Mesh<T>,
    tris: &Vec<bool>,
    tets: &Vec<bool>,
    names: &Vec<Vec<char>>,
    kind: CardKind,
) -> (r: Result<Vec<usize>, ModelError>)
    requires
        tris@.len() == mesh.names@.len(),
        forall|g: int| 0 <= g < tris@.len() ==> #[trigger] tris@[g] == has_tris(mesh.tris@, g),
        tets@.len() == mesh.names@.len(),
        forall|g: int| 0 <= g < tets@.len() ==> #[trigger] tets@[g] == has_tets(mesh.tets@, g),
    ensures
        match groups_of(*mesh, spelled(names@), kind) {
            Ok(s) => r matches Ok(v) && v@ == s && v@.len() == names@.len() && forall|i: int|
                0 <= i < s.len() ==> #[trigger] s[i] < mesh.names@.len(),
            Err(e) => r matches Err(f) && e == f,
        },
{
    let ghost all = spelled(names@);
    let mut v: Vec<usize> = Vec::new();
    let mut i: usize = 0;
    assert(all.take(0) =~= seq![]);
    assert(v@ =~= seq![]);
    while i < names.len()
        invariant
            i <= names@.len(),
            all == spelled(names@),
            tris@.len() == mesh.names@.len(),
            forall|g: int| 0 <= g < tris@.len() ==> #[trigger] tris@[g] == has_tris(mesh.tris@, g),
            tets@.len() == mesh.names@.len(),
            forall|g: int| 0 <= g < tets@.len() ==> #[trigger] tets@[g] == has_tets(mesh.tets@, g),
            groups_of(*mesh, all.take(i as int), kind) == Ok::<Seq<usize>, ModelError>(v@),
            v@.len() == i,
            forall|k: int| 0 <= k < v@.len() ==> #[trigger] v@[k] < mesh.names@.len(),
        decreases names@.len() - i,
    {
        assert(all.take(i + 1).drop_last() =~= all.take(i as int));
        assert(all.take(i + 1).last() == names@[i as int]@);
        let mut fail: Option<ModelError> = None;
        proof {
            lemma_last_index(spelled(mesh.names@), names@[i as int]@);
        }
        match find_name(&mesh.names, &names[i]) {
            None => {
                fail = Some(ModelError::UnknownGroup { kind, index: i });
            },
            Some(g) => {
                if is_surface(kind) {
                    if !tris[g] {
                        fail = Some(ModelError::NoTriangles { kind, index: i });
                    }
                } else if !tets[g] {
                    fail = Some(ModelError::NoTets { kind, index: i });
                }
                v.push(g);
            },
        }
        match fail {
            Some(e) => {
                proof {
                    lemma_groups_fail(*mesh, all, kind, i + 1);
                }
                return Err(e);
            },
            None => {},
        }
        i += 1;
    }
    assert(all.take(i as int) =~= all);
    Ok(v)
}

proof fn lemma_groups_fail<T>(mesh: Mesh<T>, names: Seq<Seq<char>>, kind: CardKind, k: int)
    requires
        0 <= k <= names.len(),
        groups_of(mesh, names.take(k), kind) is Err,
    ensures
        groups_of(mesh, names, kind) == groups_of(mesh, names.take(k), kind),
    decreases names.len() - k,
{
    if k < names.len() {
        assert(names.take(k + 1).drop_last() =~= names.take(k));
        lemma_groups_fail(mesh, names, kind, k + 1);
    } else {
        assert(names.take(k) =~= names);
    }
}

/// The place of the last item that equals `x`.
pub fn find_last(s: &Vec<usize>, x: usize) -> (r: Option<usize>)
    ensures
        match r {
            Some(k) => last_index(s@, x) == Some(k as int) && k < s@.len() && s@.contains(x),
            None => last_index(s@, x) is None && !s@.contains(x),
        },
{
    let mut i: usize = s.len();
    assert(s@.take(i as int) =~= s@);
    while i > 0
        invariant
            i <= s@.len(),
            last_index(s@.take(i as int), x) == last_index(s@, x),
            forall|k: int| i <= k < s@.len() ==> #[trigger] s@[k] != x,
        decreases i,
    {
        i -= 1;
        assert(s@.take(i + 1).drop_last() =~= s@.take(i as int));
        if s[i] == x {
            assert(s@[i as int] == x);
            return Some(i);
        }
    }
    assert(s@.take(0) =~= seq![]);
    None
}

/// The tensor of a coordinate stretch.
pub fn stretch<T: Scalar>(a: V3<T>) -> (r: V3<Cx<T>>)
    ensures
        r == stretch_tensor(a),
{
    let x = cx(T::unit(), a.x.neg());
    let y = cx(T::unit(), a.y.neg());
    let z = cx(T::unit(), a.z.neg());
    V3 { x: y.mul(z).div(x), y: x.mul(z).div(y), z: x.mul(y).div(z) }
}

fn medium<T: Scalar>(
    deck: &Deck<T>,
    mats: &Vec<usize>,
    pmls: &Vec<usize>,
    group: usize,
    Ghost(a): Ghost<Assignment>,
) -> (r: Medium<T>)
    requires
        mats@ == a.mats,
        pmls@ == a.pmls,
        mats@.len() == deck.mats@.len(),
        pmls@.len() == deck.pmls@.len(),
    ensures
        r == medium_of(deck.model(), a, group),
{
    let mat = match find_last(mats, group) {
        Some(k) => deck.mats[k].mat,
        None => Mat { eps: T::unit(), tand: T::nil(), mur: T::unit(), sigma: T::nil() },
    };
    let tensor = match find_last(pmls, group) {
        Some(k) => stretch(deck.pmls[k].stretch),
        None => {
            let one = cx(T::unit(), T::nil());
            V3 { x: one, y: one, z: one }
        },
    };
    Medium {
        eps: cx(mat.eps, mat.eps.neg().mul(mat.tand)),
        mur: mat.mur,
        sigma: mat.sigma,
        tensor,
    }
}

fn metal_names<T>(deck: &Deck<T>) -> (r: Vec<Vec<char>>)
    ensures
        spelled(r@) == deck.model().metal_names(),
        r@.len() == deck.metals@.len(),
{
    let mut r: Vec<Vec<char>> = Vec::new();
    let mut i: usize = 0;
    while i < deck.metals.len()
        invariant
            i <= deck.metals@.len(),
            r@.len() == i,
            forall|k: int| 0 <= k < i ==> (#[trigger] r@[k])@ == deck.metals@[k].group@,
        decreases deck.metals@.len() - i,
    {
        r.push(copy_text(&deck.metals[i].group));
        i += 1;
    }
    assert(spelled(r@) =~= deck.model().metal_names());
    r
}

fn port_names<T>(deck: &Deck<T>) -> (r: Vec<Vec<char>>)
    ensures
        spelled(r@) == deck.model().port_names(),
        r@.len() == deck.ports@.len(),
{
    let mut r: Vec<Vec<char>> = Vec::new();
    let mut i: usize = 0;
    while i < deck.ports.len()
        invariant
            i <= deck.ports@.len(),
            r@.len() == i,
            forall|k: int| 0 <= k < i ==> (#[trigger] r@[k])@ == deck.ports@[k].group@,
        decreases deck.ports@.len() - i,
    {
        r.push(copy_text(&deck.ports[i].group));
        i += 1;
    }
    assert(spelled(r@) =~= deck.model().port_names());
    r
}

fn mat_names<T>(deck: &Deck<T>) -> (r: Vec<Vec<char>>)
    ensures
        spelled(r@) == deck.model().mat_names(),
        r@.len() == deck.mats@.len(),
{
    let mut r: Vec<Vec<char>> = Vec::new();
    let mut i: usize = 0;
    while i < deck.mats.len()
        invariant
            i <= deck.mats@.len(),
            r@.len() == i,
            forall|k: int| 0 <= k < i ==> (#[trigger] r@[k])@ == deck.mats@[k].group@,
        decreases deck.mats@.len() - i,
    {
        r.push(copy_text(&deck.mats[i].group));
        i += 1;
    }
    assert(spelled(r@) =~= deck.model().mat_names());
    r
}

fn pml_names<T>(deck: &Deck<T>) -> (r: Vec<Vec<char>>)
    ensures
        spelled(r@) == deck.model().pml_names(),
        r@.len() == deck.pmls@.len(),
{
    let mut r: Vec<Vec<char>> = Vec::new();
    let mut i: usize = 0;
    while i < deck.pmls.len()
        invariant
            i <= deck.pmls@.len(),
            r@.len() == i,
            forall|k: int| 0 <= k < i ==> (#[trigger] r@[k])@ == deck.pmls@[k].group@,
        decreases deck.pmls@.len() - i,
    {
        r.push(copy_text(&deck.pmls[i].group));
        i += 1;
    }
    assert(spelled(r@) =~= deck.model().pml_names());
    r
}

/// Works out what the deck makes of each group of the mesh.
pub fn assign<T: Scalar>(deck: &Deck<T>, mesh: &Mesh<T>) -> (r: Result<Groups<T>, ModelError>)
    requires
        mesh.wf(),
    ensures
        match assignment(deck.model(), *mesh) {
            Ok(a) => r matches Ok(g) && g.follows(deck.model(), a, mesh.names@.len()) && g.fits(
                mesh.names@.len(),
                deck.ports@.len(),
            ),
            Err(e) => r matches Err(f) && e == f,
        },
{
    let tris = tri_flags(mesh);
    let tets = tet_flags(mesh);
    let pec = match look_up(mesh, &tris, &tets, &deck.pec, CardKind::Pec) {
        Err(e) => {
            return Err(e);
        },
        Ok(v) => v,
    };
    let abc = match look_up(mesh, &tris, &tets, &deck.abc, CardKind::Abc) {
        Err(e) => {
            return Err(e);
        },
        Ok(v) => v,
    };
    let metals = match look_up(mesh, &tris, &tets, &metal_names(deck), CardKind::Metal) {
        Err(e) => {
            return Err(e);
        },
        Ok(v) => v,
    };
    let ports = match look_up(mesh, &tris, &tets, &port_names(deck), CardKind::Port) {
        Err(e) => {
            return Err(e);
        },
        Ok(v) => v,
    };
    let mats = match look_up(mesh, &tris, &tets, &mat_names(deck), CardKind::Mat) {
        Err(e) => {
            return Err(e);
        },
        Ok(v) => v,
    };
    let pmls = match look_up(mesh, &tris, &tets, &pml_names(deck), CardKind::Pml) {
        Err(e) => {
            return Err(e);
        },
        Ok(v) => v,
    };
    let ghost a = Assignment {
        pec: pec@,
        abc: abc@,
        metals: metals@,
        ports: ports@,
        mats: mats@,
        pmls: pmls@,
    };
    let n: usize = mesh.names.len();
    let mut groups: Groups<T> = Groups { roles: Vec::new(), ports: Vec::new(), media: Vec::new() };
    let mut g: usize = 0;
    while g < n
        invariant
            g <= n,
            a == (Assignment {
                pec: pec@,
                abc: abc@,
                metals: metals@,
                ports: ports@,
                mats: mats@,
                pmls: pmls@,
            }),
            metals@.len() == deck.metals@.len(),
            mats@.len() == deck.mats@.len(),
            pmls@.len() == deck.pmls@.len(),
            groups.roles@.len() == g,
            groups.ports@.len() == g,
            groups.media@.len() == g,
            forall|k: int|
                0 <= k < g ==> #[trigger] groups.roles@[k] == role_of(deck.model(), a, k as usize),
            forall|k: int| 0 <= k < g ==> #[trigger] groups.ports@[k] == port_of(a, k as usize),
            forall|k: int|
                0 <= k < g ==> (#[trigger] groups.ports@[k] matches Some(p) ==> p
                    < deck.ports@.len()),
            ports@.len() == deck.ports@.len(),
            forall|k: int|
                0 <= k < g ==> #[trigger] groups.media@[k] == medium_of(
                    deck.model(),
                    a,
                    k as usize,
                ),
        decreases n - g,
    {
        let role: Role<T> = match find_last(&metals, g) {
            Some(k) => Role::Metal(deck.metals[k].sigma),
            None => if find_last(&abc, g).is_some() {
                Role::Abc
            } else if find_last(&pec, g).is_some() {
                Role::Pec
            } else {
                Role::Natural
            },
        };
        groups.roles.push(role);
        groups.ports.push(find_last(&ports, g));
        groups.media.push(medium(deck, &mats, &pmls, g, Ghost(a)));
        g += 1;
    }
    proof {
        assert(groups.roles@ =~= Seq::new(n as nat, |g: int| role_of(deck.model(), a, g as usize)));
        assert(groups.ports@ =~= Seq::new(n as nat, |g: int| port_of(a, g as usize)));
        assert(groups.media@ =~= Seq::new(
            n as nat,
            |g: int| medium_of(deck.model(), a, g as usize),
        ));
    }
    Ok(groups)
}

} // verus!
