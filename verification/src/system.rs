//! The system of equations of a model: its unknowns, its matrix and its ports.

use crate::assembly::{
    all_terms, assemble, drives, excitation, excite, gathered, keys_of,
    lemma_excitation_distinct, Frame, Matrix, Numbering,
    Term,
};
use crate::deck::{Deck, DeckModel};
use crate::edges::{
    collect_faces, constrain, edges_of, free_before, number_edges, number_unknowns, on_pec,
    pec_fits,
    unknown_of,
};
use crate::groups::{
    assign, assignment, medium_of, port_of, role_of, Assignment, Groups, Medium, ModelError,
    Role,
};
use crate::msh::Mesh;
use crate::ports::{measure_ports, port_shapes, PortShape};
use crate::profile::{lay_out, lemma_profile, new_numbers, spot, too_large, Profile};
use crate::scalar::{Algebra, Cx, Number, Scalar};
use crate::skyline::{sky, Sky};
use vstd::prelude::*;

verus! {

/// The edges on perfect conductors.
pub open spec fn fixed_edges<T>(mesh: Mesh<T>, roles: Seq<Role<T>>) -> Seq<bool> {
    let edges = edges_of(mesh.tets@, mesh.tets@.len());
    Seq::new(edges.len(), |e: int| on_pec(mesh.tris@, roles, edges, e))
}

/// The unknowns on the edges of a mesh.
pub open spec fn unknowns_of<T>(mesh: Mesh<T>, roles: Seq<Role<T>>) -> Numbering {
    let fixed = fixed_edges(mesh, roles);
    Numbering {
        edges: edges_of(mesh.tets@, mesh.tets@.len()),
        unknowns: Seq::new(fixed.len(), |e: int| unknown_of(fixed, e)),
    }
}

/// How many unknowns there are.
pub open spec fn unknown_count<T>(mesh: Mesh<T>, roles: Seq<Role<T>>) -> nat {
    free_before(fixed_edges(mesh, roles), fixed_edges(mesh, roles).len() as int)
}

/// A system of equations.
pub struct SystemModel<T> {
    pub unknowns: Numbering,
    pub n: nat,
    /// The terms of the matrix.
    pub terms: Seq<Term<T>>,
    pub ports: Seq<PortShape<T>>,
    /// The unknowns that each port drives.
    pub drives: Seq<Seq<(usize, T)>>,
    pub media: Seq<Medium<T>>,
    /// What each group is as a surface.
    pub roles: Seq<Role<T>>,
    /// The port on each group.
    pub groups: Seq<Option<usize>>,
}

/// The role of each group.
pub open spec fn roles_of<T: Number>(deck: DeckModel<T>, a: Assignment, n: nat) -> Seq<Role<T>> {
    Seq::new(n, |g: int| role_of(deck, a, g as usize))
}

/// The port on each group.
pub open spec fn port_groups(a: Assignment, n: nat) -> Seq<Option<usize>> {
    Seq::new(n, |g: int| port_of(a, g as usize))
}

/// What fills each group.
pub open spec fn media_of<T: Number>(deck: DeckModel<T>, a: Assignment, n: nat) -> Seq<Medium<T>> {
    Seq::new(n, |g: int| medium_of(deck, a, g as usize))
}

/// The system of equations of a deck and a mesh.
pub open spec fn system_model<T: Number>(deck: DeckModel<T>, mesh: Mesh<T>) -> Result<
    SystemModel<T>,
    ModelError,
> {
    match assignment(deck, mesh) {
        Err(e) => Err(e),
        Ok(a) => {
            let ng = mesh.names@.len();
            let roles = roles_of(deck, a, ng);
            let groups = port_groups(a, ng);
            let media = media_of(deck, a, ng);
            let num = unknowns_of(mesh, roles);
            let n = unknown_count(mesh, roles);
            if !pec_fits(mesh.tris@, roles, num.edges) {
                Err(ModelError::Mismatch)
            } else {
                match port_shapes(mesh.nodes@, mesh.tris@, groups, deck.ports, deck.ports.len()) {
                    Err(e) => Err(e),
                    Ok(ports) => match all_terms(
                        num,
                        mesh,
                        media,
                        roles,
                        groups,
                        ports,
                        mesh.tris@.len(),
                    ) {
                        Err(e) => Err(e),
                        Ok(terms) => if too_large(n, keys_of(terms)) {
                            Err(ModelError::TooLarge)
                        } else {
                            Ok(
                                SystemModel {
                                    unknowns: num,
                                    n,
                                    terms,
                                    ports,
                                    drives: Seq::new(
                                        ports.len(),
                                        |p: int|
                                            excitation(
                                                drives(
                                                    num,
                                                    mesh.nodes@,
                                                    mesh.tris@,
                                                    groups,
                                                    p as usize,
                                                    ports[p].dir,
                                                    mesh.tris@.len(),
                                                ),
                                            ),
                                    ),
                                    media,
                                    roles,
                                    groups,
                                },
                            )
                        },
                    },
                }
            }
        },
    }
}

/// A system of equations, ready to be solved.
pub struct System<T> {
    pub frame: Frame,
    pub matrix: Matrix<T>,
    pub profile: Profile,
    pub ports: Vec<PortShape<T>>,
    /// The unknowns that each port drives.
    pub drives: Vec<Vec<(usize, T)>>,
    pub groups: Groups<T>,
}

impl<T: Number> System<T> {
    /// The parts of the system belong together.
    pub open spec fn wf(self) -> bool {
        &&& self.frame.wf()
        &&& self.matrix.wf(self.frame.n as nat)
        &&& self.profile.holds(self.frame.n as nat, self.matrix.keys.pairs@)
        &&& self.profile.perm@ == new_numbers(self.frame.n as nat, self.matrix.keys.pairs@)
        &&& self.drives@.len() == self.ports@.len()
        &&& forall|p: int, k: int|
            0 <= p < self.drives@.len() && 0 <= k < self.drives@[p]@.len() ==> (
            #[trigger] self.drives@[p]@[k]).0 < self.frame.n
        &&& forall|p: int, k: int, l: int|
            0 <= p < self.drives@.len() && 0 <= k < l < self.drives@[p]@.len() ==> (
            #[trigger] self.drives@[p]@[k]).0 != (#[trigger] self.drives@[p]@[l]).0
        &&& forall|p: int| 0 <= p < self.ports@.len() ==> (#[trigger] self.ports@[p]).is_sheet()
    }

    /// The system is the one that the model describes.
    pub open spec fn matches(self, m: SystemModel<T>) -> bool {
        &&& self.frame@ == m.unknowns
        &&& self.frame.n == m.n
        &&& self.matrix.terms@ == m.terms
        &&& self.ports@ == m.ports
        &&& self.drives@.len() == m.drives.len()
        &&& forall|p: int| 0 <= p < m.drives.len() ==> (#[trigger] self.drives@[p])@ == m.drives[p]
        &&& self.groups.media@ == m.media
        &&& self.groups.roles@ == m.roles
        &&& self.groups.ports@ == m.groups
    }
}

/// Builds the system of equations of a deck and a mesh.
pub fn build<T: Scalar>(deck: &Deck<T>, mesh: &Mesh<T>) -> (r: Result<System<T>, ModelError>)
    requires
        mesh.wf(),
    ensures
        match system_model(deck.model(), *mesh) {
            Ok(m) => r matches Ok(s) && s.wf() && s.matches(m) && s.ports@.len()
                == deck.ports@.len() && s.frame.edges.at@.len() == mesh.nodes@.len()
                && s.groups.media@.len() == mesh.names@.len(),
            Err(e) => r matches Err(f) && e == f,
        },
{
    let groups = match assign(deck, mesh) {
        Err(e) => {
            return Err(e);
        },
        Ok(g) => g,
    };
    let ghost a = assignment(deck.model(), *mesh)->Ok_0;
    let ghost ng = mesh.names@.len();
    assert(groups.roles@ == roles_of(deck.model(), a, ng));
    assert(groups.ports@ == port_groups(a, ng));
    assert(groups.media@ == media_of(deck.model(), a, ng));
    let edges = number_edges(mesh);
    let fixed = match constrain(mesh, &groups.roles, &edges) {
        Err(e) => {
            return Err(e);
        },
        Ok(v) => v,
    };
    assert(fixed@ =~= fixed_edges(*mesh, groups.roles@));
    let (unknowns, n) = number_unknowns(&fixed);
    let frame = Frame { edges, unknowns, n };
    assert(frame@.unknowns =~= unknowns_of(*mesh, groups.roles@).unknowns);
    assert(frame@ == unknowns_of(*mesh, groups.roles@));
    let ports = match measure_ports(mesh, &groups.ports, deck) {
        Err(e) => {
            return Err(e);
        },
        Ok(v) => v,
    };
    let faces = collect_faces(mesh);
    let matrix = match assemble(&frame, mesh, &faces, &groups, &ports) {
        Err(e) => {
            return Err(e);
        },
        Ok(m) => m,
    };
    let profile = match lay_out(n, &matrix.keys.pairs) {
        Err(e) => {
            return Err(e);
        },
        Ok(p) => p,
    };
    let mut drive_list: Vec<Vec<(usize, T)>> = Vec::new();
    let mut p: usize = 0;
    while p < ports.len()
        invariant
            frame.wf(),
            mesh.wf(),
            frame.edges.at@.len() == mesh.nodes@.len(),
            groups.ports@.len() == mesh.names@.len(),
            p <= ports@.len(),
            drive_list@.len() == p,
            forall|q: int|
                0 <= q < p ==> (#[trigger] drive_list@[q])@ == excitation(
                    drives(
                        frame@,
                        mesh.nodes@,
                        mesh.tris@,
                        groups.ports@,
                        q as usize,
                        ports@[q].dir,
                        mesh.tris@.len(),
                    ),
                ),
            forall|q: int, k: int|
                0 <= q < drive_list@.len() && 0 <= k < drive_list@[q]@.len() ==> (
                #[trigger] drive_list@[q]@[k]).0 < frame.n,
            forall|q: int, k: int, l: int|
                0 <= q < drive_list@.len() && 0 <= k < l < drive_list@[q]@.len() ==> (
                #[trigger] drive_list@[q]@[k]).0 != (#[trigger] drive_list@[q]@[l]).0,
        decreases ports@.len() - p,
    {
        let exc = excite(&frame, mesh, &groups.ports, p, ports[p].dir);
        proof {
            let terms = drives(
                frame@,
                mesh.nodes@,
                mesh.tris@,
                groups.ports@,
                p,
                ports@[p as int].dir,
                mesh.tris@.len(),
            );
            assert forall|k: int, l: int| 0 <= k < l < exc@.len() implies (#[trigger] exc@[k]).0 != (
            #[trigger] exc@[l]).0 by {
                lemma_excitation_distinct(terms, k, l);
            }
        }
        drive_list.push(exc);
        p += 1;
    }
    Ok(System { frame, matrix, profile, ports, drives: drive_list, groups })
}

// ---------------------------------------------------------------- matrix

/// The matrix at wave number `k0`, as far as the first `n` entries fill it.
pub open spec fn filled<T: Number>(s: System<T>, k0: T, n: nat) -> Seq<Cx<T>>
    decreases n,
{
    if n == 0 {
        Seq::new(s.profile.len as nat, |k: int| Cx::<T>::zero())
    } else {
        filled(s, k0, (n - 1) as nat).update(
            s.profile.places@[n - 1] as int,
            s.matrix.vals@[n - 1].at_wave(k0),
        )
    }
}

impl<T: Number> System<T> {
    /// The matrix at wave number `k0`.
    pub open spec fn at_wave(self, k0: T) -> Sky<Cx<T>> {
        Sky {
            frow: self.profile.frow@,
            off: self.profile.off@,
            data: filled(self, k0, self.matrix.vals@.len()),
        }
    }
}

impl<T: Scalar> System<T> {
    /// Fills in the matrix at wave number `k0`.
    pub fn fill(&self, k0: T) -> (r: Vec<Cx<T>>)
        requires
            self.wf(),
        ensures
            sky(&self.profile.frow, &self.profile.off, &r) == self.at_wave(k0),
            self.at_wave(k0).wf(),
            r@.len() == self.profile.len,
    {
        proof {
            lemma_profile(self.profile, self.frame.n as nat, self.matrix.keys.pairs@);
        }
        let zero: Cx<T> = Cx::nil();
        let mut a: Vec<Cx<T>> = Vec::new();
        let mut i: usize = 0;
        while i < self.profile.len
            invariant
                i <= self.profile.len,
                a@.len() == i,
                zero == Cx::<T>::zero(),
                forall|k: int| 0 <= k < i ==> #[trigger] a@[k] == Cx::<T>::zero(),
            decreases self.profile.len - i,
        {
            a.push(zero);
            i += 1;
        }
        assert(a@ =~= filled(*self, k0, 0));
        let mut k: usize = 0;
        while k < self.matrix.vals.len()
            invariant
                self.wf(),
                k <= self.matrix.vals@.len(),
                self.matrix.vals@.len() == self.profile.places@.len(),
                forall|k: int|
                    0 <= k < self.profile.places@.len() ==> #[trigger] self.profile.places@[k]
                        < self.profile.len,
                a@.len() == self.profile.len,
                a@ == filled(*self, k0, k as nat),
            decreases self.matrix.vals@.len() - k,
        {
            let place: usize = self.profile.places[k];
            a.set(place, self.matrix.vals[k].at(k0));
            k += 1;
        }
        a
    }
}

proof fn lemma_filled<T: Number>(s: System<T>, k0: T, n: nat)
    requires
        s.wf(),
        n <= s.matrix.vals@.len(),
    ensures
        filled(s, k0, n).len() == s.profile.len,
        forall|k: int|
            0 <= k < n ==> filled(s, k0, n)[#[trigger] s.profile.places@[k] as int]
                == s.matrix.vals@[k].at_wave(k0),
        forall|x: int|
            0 <= x < s.profile.len && (forall|k: int| 0 <= k < n ==> s.profile.places@[k] != x)
                ==> #[trigger] filled(s, k0, n)[x] == Cx::<T>::zero(),
    decreases n,
{
    lemma_profile(s.profile, s.frame.n as nat, s.matrix.keys.pairs@);
    if n > 0 {
        lemma_filled(s, k0, (n - 1) as nat);
        let place = s.profile.places@[n - 1] as int;
        let before = filled(s, k0, (n - 1) as nat);
        assert forall|k: int| 0 <= k < n implies filled(s, k0, n)[#[trigger] s.profile.places@[k] as int]
            == s.matrix.vals@[k].at_wave(k0) by {
            if k < n - 1 {
                assert(s.profile.places@[k] != s.profile.places@[n - 1]);
                assert(before[s.profile.places@[k] as int] == s.matrix.vals@[k].at_wave(k0));
            }
        }
        assert forall|x: int|
            0 <= x < s.profile.len && (forall|k: int| 0 <= k < n ==> s.profile.places@[k]
                != x) implies #[trigger] filled(s, k0, n)[x] == Cx::<T>::zero() by {
            assert(s.profile.places@[n - 1] != x);
            assert(before[x] == Cx::<T>::zero());
        }
    }
}

/// The matrix of a system is laid out well.
pub proof fn lemma_at_wave_wf<T: Number>(s: System<T>, k0: T)
    requires
        s.wf(),
    ensures
        s.at_wave(k0).wf(),
        s.at_wave(k0).n() == s.frame.n,
{
    lemma_profile(s.profile, s.frame.n as nat, s.matrix.keys.pairs@);
    lemma_filled(s, k0, s.matrix.vals@.len());
}

/// The matrix holds what the elements give: the entry of two unknowns is the sum
/// of the terms that the elements add to it, taken at the wave number, and zero
/// where no element joins the two.
pub proof fn lemma_matrix_entries<T: Number>(s: System<T>, k0: T, i: usize, j: usize)
    requires
        s.wf(),
        i <= j < s.frame.n,
    ensures
        s.at_wave(k0).entry(s.profile.perm@[i as int] as int, s.profile.perm@[j as int] as int)
            == if keys_of(s.matrix.terms@).contains((i, j)) {
            gathered(s.matrix.terms@, (i, j)).at_wave(k0)
        } else {
            Cx::<T>::zero()
        },
{
    let p = s.profile;
    let keys = s.matrix.keys.pairs@;
    let m = s.at_wave(k0);
    lemma_profile(p, s.frame.n as nat, keys);
    lemma_filled(s, k0, keys.len());
    let (lo, hi) = spot(p.perm@, (i, j));
    assert(p.perm@[i as int] < s.frame.n && p.perm@[j as int] < s.frame.n);
    assert(p.frow@[hi as int] <= hi);
    if keys.contains((i, j)) {
        let k = keys.index_of((i, j));
        assert(keys[k] == (i, j));
        assert(p.frow@[spot(p.perm@, keys[k]).1 as int] <= lo);
        assert(p.places@[k] == p.off@[hi as int] + (lo - p.frow@[hi as int]));
        assert(s.matrix.vals@[k] == gathered(s.matrix.terms@, keys[k]));
        assert(m.data[p.places@[k] as int] == s.matrix.vals@[k].at_wave(k0));
        assert(m.entry(lo as int, hi as int) == m.at(lo as int, hi as int));
    } else if p.frow@[hi as int] <= lo {
        let x = p.off@[hi as int] + (lo - p.frow@[hi as int]);
        assert(p.off@[hi as int] + (hi - p.frow@[hi as int]) < p.len);
        assert forall|k: int| 0 <= k < keys.len() implies p.places@[k] != x by {
            let (r, c) = spot(p.perm@, keys[k]);
            assert(keys[k].0 <= keys[k].1 < s.frame.n);
            assert(keys[k] != (i, j));
            assert(p.perm@[keys[k].0 as int] < s.frame.n && p.perm@[keys[k].1 as int] < s.frame.n);
            assert(p.frow@[c as int] <= r);
            if c == hi {
                if r == lo {
                    let (a, b) = keys[k];
                    if p.perm@[a as int] == p.perm@[i as int] {
                        assert(a == i);
                        assert(p.perm@[b as int] == p.perm@[j as int]);
                        assert(b == j);
                    } else {
                        assert(p.perm@[a as int] == p.perm@[j as int]);
                        assert(p.perm@[b as int] == p.perm@[i as int]);
                        assert(a == j && b == i);
                    }
                }
            } else if c < hi {
                assert(p.off@[c as int] + (c - p.frow@[c as int]) < p.off@[hi as int]);
            } else {
                assert(p.off@[hi as int] + (hi - p.frow@[hi as int]) < p.off@[c as int]);
            }
        }
        assert(m.data[x] == Cx::<T>::zero());
    }
}

} // verus!
