//! The edges of a mesh, which carry the unknowns, and the faces of its tetrahedra.

use crate::groups::{ModelError, Role};
use crate::msh::{last_index, lemma_last_index, Mesh, Tet, Tri};
use crate::pairs::{with_pair, PairTable};
use vstd::prelude::*;

verus! {

/// The two corners of edge `i` of a tetrahedron.
pub open spec fn tet_ends(i: int) -> (int, int) {
    if i == 0 {
        (0, 1)
    } else if i == 1 {
        (0, 2)
    } else if i == 2 {
        (0, 3)
    } else if i == 3 {
        (1, 2)
    } else if i == 4 {
        (1, 3)
    } else {
        (2, 3)
    }
}

/// The two corners of edge `i` of a triangle.
pub open spec fn tri_ends(i: int) -> (int, int) {
    if i == 0 {
        (0, 1)
    } else if i == 1 {
        (0, 2)
    } else {
        (1, 2)
    }
}

impl Tet {
    /// Corner `i`.
    pub open spec fn corner(self, i: int) -> usize {
        if i == 0 {
            self.a
        } else if i == 1 {
            self.b
        } else if i == 2 {
            self.c
        } else {
            self.d
        }
    }

    /// Edge `i`, from the lower to the higher node.
    pub open spec fn edge(self, i: int) -> (usize, usize) {
        (self.corner(tet_ends(i).0), self.corner(tet_ends(i).1))
    }

    /// The triangle is a face of the tetrahedron.
    pub open spec fn has_face(self, t: Tri) -> bool {
        ||| (t.a, t.b, t.c) == (self.a, self.b, self.c)
        ||| (t.a, t.b, t.c) == (self.a, self.b, self.d)
        ||| (t.a, t.b, t.c) == (self.a, self.c, self.d)
        ||| (t.a, t.b, t.c) == (self.b, self.c, self.d)
    }
}

impl Tri {
    /// Corner `i`.
    pub open spec fn corner(self, i: int) -> usize {
        if i == 0 {
            self.a
        } else if i == 1 {
            self.b
        } else {
            self.c
        }
    }

    /// Edge `i`, from the lower to the higher node.
    pub open spec fn edge(self, i: int) -> (usize, usize) {
        (self.corner(tri_ends(i).0), self.corner(tri_ends(i).1))
    }
}

/// Every edge of an element runs from a node to one that is not lower, so that
/// elements that share an edge agree on its direction.
pub proof fn lemma_edges_ascend(t: Tet, s: Tri, nodes: nat, groups: nat, i: int, j: int)
    requires
        t.within(nodes, groups),
        s.within(nodes, groups),
        0 <= i < 6,
        0 <= j < 3,
    ensures
        t.edge(i).0 <= t.edge(i).1,
        s.edge(j).0 <= s.edge(j).1,
        t.edge(i).1 < nodes,
        s.edge(j).1 < nodes,
{
}

/// `list` with the first `k` edges of a tetrahedron.
pub open spec fn with_tet(list: Seq<(usize, usize)>, t: Tet, k: int) -> Seq<(usize, usize)>
    decreases k,
{
    if k <= 0 {
        list
    } else {
        with_pair(with_tet(list, t, k - 1), t.edge(k - 1))
    }
}

/// The edges of the first `n` tetrahedra, in order of appearance, each once.
pub open spec fn edges_of(tets: Seq<Tet>, n: nat) -> Seq<(usize, usize)>
    decreases n,
{
    if n == 0 {
        seq![]
    } else {
        with_tet(edges_of(tets, (n - 1) as nat), tets[n - 1], 6)
    }
}

proof fn lemma_with_tet(list: Seq<(usize, usize)>, t: Tet, k: int)
    requires
        list.no_duplicates(),
        0 <= k,
    ensures
        with_tet(list, t, k).no_duplicates(),
        list.len() <= with_tet(list, t, k).len() <= list.len() + k,
        forall|e: int| 0 <= e < list.len() ==> #[trigger] with_tet(list, t, k)[e] == list[e],
        forall|i: int| 0 <= i < k ==> with_tet(list, t, k).contains(#[trigger] t.edge(i)),
        forall|e: int|
            list.len() <= e < with_tet(list, t, k).len() ==> exists|i: int|
                0 <= i < k && #[trigger] t.edge(i) == #[trigger] with_tet(list, t, k)[e],
    decreases k,
{
    if k > 0 {
        lemma_with_tet(list, t, k - 1);
        let before = with_tet(list, t, k - 1);
        let now = with_tet(list, t, k);
        lemma_last_index(before, t.edge(k - 1));
        assert forall|i: int| 0 <= i < k implies now.contains(#[trigger] t.edge(i)) by {
            if i < k - 1 {
                assert(before.contains(t.edge(i)));
                let e = before.index_of(t.edge(i));
                assert(now[e] == t.edge(i));
            } else if last_index(before, t.edge(i)) is None {
                assert(now[before.len() as int] == t.edge(i));
            } else {
                assert(now[last_index(before, t.edge(i))->0] == t.edge(i));
            }
        }
        assert forall|e: int| list.len() <= e < now.len() implies exists|i: int|
            0 <= i < k && #[trigger] t.edge(i) == #[trigger] now[e] by {
            if e < before.len() {
                let i = choose|i: int| 0 <= i < k - 1 && #[trigger] t.edge(i) == before[e];
                assert(t.edge(i) == now[e]);
            } else {
                assert(t.edge(k - 1) == now[e]);
            }
        }
    }
}

/// Every edge of the mesh has one number: the list of edges holds each edge of
/// each tetrahedron, nothing else, and nothing twice.
pub proof fn lemma_edges_complete(tets: Seq<Tet>, n: nat)
    requires
        n <= tets.len(),
    ensures
        edges_of(tets, n).no_duplicates(),
        edges_of(tets, n).len() <= 6 * n,
        forall|t: int, i: int|
            0 <= t < n && 0 <= i < 6 ==> edges_of(tets, n).contains(#[trigger] tets[t].edge(i)),
        forall|e: int|
            0 <= e < edges_of(tets, n).len() ==> exists|t: int, i: int|
                0 <= t < n && 0 <= i < 6 && #[trigger] tets[t].edge(i) == #[trigger] edges_of(
                    tets,
                    n,
                )[e],
    decreases n,
{
    if n > 0 {
        let m = (n - 1) as nat;
        lemma_edges_complete(tets, m);
        let before = edges_of(tets, m);
        let now = edges_of(tets, n);
        lemma_with_tet(before, tets[m as int], 6);
        assert forall|t: int, i: int| 0 <= t < n && 0 <= i < 6 implies now.contains(
            #[trigger] tets[t].edge(i),
        ) by {
            if t < m {
                assert(before.contains(tets[t].edge(i)));
                let e = before.index_of(tets[t].edge(i));
                assert(now[e] == tets[t].edge(i));
            }
        }
        assert forall|e: int| 0 <= e < now.len() implies exists|t: int, i: int|
            0 <= t < n && 0 <= i < 6 && #[trigger] tets[t].edge(i) == #[trigger] now[e] by {
            if e < before.len() {
                let (t, i) = choose|t: int, i: int|
                    0 <= t < m && 0 <= i < 6 && #[trigger] tets[t].edge(i) == before[e];
                assert(tets[t].edge(i) == now[e]);
            } else {
                let i = choose|i: int| 0 <= i < 6 && #[trigger] tets[m as int].edge(i) == now[e];
                assert(tets[m as int].edge(i) == now[e]);
            }
        }
    }
}

/// Corner `i` of a tetrahedron.
pub fn tet_corner(t: &Tet, i: usize) -> (r: usize)
    requires
        i < 4,
    ensures
        r == t.corner(i as int),
{
    if i == 0 {
        t.a
    } else if i == 1 {
        t.b
    } else if i == 2 {
        t.c
    } else {
        t.d
    }
}

/// The corners of edge `i` of a tetrahedron.
pub fn tet_pair(i: usize) -> (r: (usize, usize))
    requires
        i < 6,
    ensures
        r.0 == tet_ends(i as int).0,
        r.1 == tet_ends(i as int).1,
        r.0 < r.1 < 4,
{
    if i == 0 {
        (0, 1)
    } else if i == 1 {
        (0, 2)
    } else if i == 2 {
        (0, 3)
    } else if i == 3 {
        (1, 2)
    } else if i == 4 {
        (1, 3)
    } else {
        (2, 3)
    }
}

/// Corner `i` of a triangle.
pub fn tri_corner(t: &Tri, i: usize) -> (r: usize)
    requires
        i < 3,
    ensures
        r == t.corner(i as int),
{
    if i == 0 {
        t.a
    } else if i == 1 {
        t.b
    } else {
        t.c
    }
}

/// The corners of edge `i` of a triangle.
pub fn tri_pair(i: usize) -> (r: (usize, usize))
    requires
        i < 3,
    ensures
        r.0 == tri_ends(i as int).0,
        r.1 == tri_ends(i as int).1,
        r.0 < r.1 < 3,
{
    if i == 0 {
        (0, 1)
    } else if i == 1 {
        (0, 2)
    } else {
        (1, 2)
    }
}

/// Numbers the edges of a mesh.
pub fn number_edges<T>(mesh: &Mesh<T>) -> (r: PairTable)
    requires
        mesh.wf(),
    ensures
        r.wf(),
        r.at@.len() == mesh.nodes@.len(),
        r.pairs@ == edges_of(mesh.tets@, mesh.tets@.len()),
{
    let mut table = PairTable::new(mesh.nodes.len());
    let mut i: usize = 0;
    while i < mesh.tets.len()
        invariant
            mesh.wf(),
            i <= mesh.tets@.len(),
            table.wf(),
            table.at@.len() == mesh.nodes@.len(),
            table.pairs@ == edges_of(mesh.tets@, i as nat),
        decreases mesh.tets@.len() - i,
    {
        let t = mesh.tets[i];
        let ghost start = table.pairs@;
        assert(mesh.tets@[i as int].within(mesh.nodes@.len(), mesh.names@.len()));
        let mut k: usize = 0;
        while k < 6
            invariant
                k <= 6,
                t.within(mesh.nodes@.len(), mesh.names@.len()),
                table.wf(),
                table.at@.len() == mesh.nodes@.len(),
                table.pairs@ == with_tet(start, t, k as int),
            decreases 6 - k,
        {
            let (p, q) = tet_pair(k);
            table.place(tet_corner(&t, p), tet_corner(&t, q));
            k += 1;
        }
        i += 1;
    }
    table
}

// ---------------------------------------------------------------- unknowns

/// Edge `e` lies on a perfect conductor.
pub open spec fn on_pec<T>(
    tris: Seq<Tri>,
    roles: Seq<Role<T>>,
    ends: Seq<(usize, usize)>,
    e: int,
) -> bool {
    exists|i: int, k: int|
        0 <= i < tris.len() && 0 <= k < 3 && roles[tris[i].group as int] is Pec
            && #[trigger] tris[i].edge(k) == ends[e]
}

/// Every edge on a perfect conductor is the edge of a tetrahedron.
pub open spec fn pec_fits<T>(
    tris: Seq<Tri>,
    roles: Seq<Role<T>>,
    ends: Seq<(usize, usize)>,
) -> bool {
    forall|i: int, k: int|
        0 <= i < tris.len() && 0 <= k < 3 && roles[tris[i].group as int] is Pec ==> last_index(
            ends,
            #[trigger] tris[i].edge(k),
        ) is Some
}

/// Marks the edges on perfect conductors: the field along them is zero.
pub fn constrain<T>(mesh: &Mesh<T>, roles: &Vec<Role<T>>, table: &PairTable) -> (r: Result<
    Vec<bool>,
    ModelError,
>)
    requires
        mesh.wf(),
        roles@.len() == mesh.names@.len(),
        table.wf(),
        table.at@.len() == mesh.nodes@.len(),
    ensures
        pec_fits(mesh.tris@, roles@, table.pairs@) ==> r is Ok,
        !pec_fits(mesh.tris@, roles@, table.pairs@) ==> (r matches Err(e) && e
            == ModelError::Mismatch),
        r matches Ok(cons) ==> cons@.len() == table.pairs@.len() && forall|e: int|
            0 <= e < cons@.len() ==> #[trigger] cons@[e] == on_pec(
                mesh.tris@,
                roles@,
                table.pairs@,
                e,
            ),
{
    let ne: usize = table.pairs.len();
    let mut cons: Vec<bool> = Vec::new();
    while cons.len() < ne
        invariant
            ne == table.pairs@.len(),
            cons@.len() <= ne,
            forall|e: int| 0 <= e < cons@.len() ==> !#[trigger] cons@[e],
        decreases ne - cons@.len(),
    {
        cons.push(false);
    }
    let mut i: usize = 0;
    while i < mesh.tris.len()
        invariant
            mesh.wf(),
            roles@.len() == mesh.names@.len(),
            table.wf(),
            table.at@.len() == mesh.nodes@.len(),
            i <= mesh.tris@.len(),
            cons@.len() == table.pairs@.len(),
            pec_fits(mesh.tris@.take(i as int), roles@, table.pairs@),
            forall|e: int|
                0 <= e < cons@.len() ==> #[trigger] cons@[e] == on_pec(
                    mesh.tris@.take(i as int),
                    roles@,
                    table.pairs@,
                    e,
                ),
        decreases mesh.tris@.len() - i,
    {
        let t = mesh.tris[i];
        assert(mesh.tris@[i as int].within(mesh.nodes@.len(), mesh.names@.len()));
        let ghost done = mesh.tris@.take(i as int);
        let ghost now = mesh.tris@.take(i + 1);
        let ghost before = cons@;
        assert(forall|m: int| 0 <= m < i ==> #[trigger] now[m] == done[m]);
        assert(now[i as int] == t);
        let pec: bool = match roles[t.group] {
            Role::Pec => true,
            _ => false,
        };
        if pec {
            let mut k: usize = 0;
            while k < 3
                invariant
                    mesh.wf(),
                    roles@.len() == mesh.names@.len(),
                    table.wf(),
                    table.at@.len() == mesh.nodes@.len(),
                    t.within(mesh.nodes@.len(), mesh.names@.len()),
                    i < mesh.tris@.len(),
                    t == mesh.tris@[i as int],
                    roles@[t.group as int] is Pec,
                    k <= 3,
                    cons@.len() == table.pairs@.len(),
                    before.len() == table.pairs@.len(),
                    forall|m: int|
                        0 <= m < k ==> last_index(table.pairs@, #[trigger] t.edge(m)) is Some,
                    forall|e: int|
                        0 <= e < cons@.len() ==> (#[trigger] cons@[e] <==> before[e] || exists|m: int|
                            0 <= m < k && #[trigger] t.edge(m) == table.pairs@[e]),
                decreases 3 - k,
            {
                let (p, q) = tri_pair(k);
                let ghost marked = cons@;
                match table.find(tri_corner(&t, p), tri_corner(&t, q)) {
                    None => {
                        assert(last_index(table.pairs@, mesh.tris@[i as int].edge(k as int)) is None);
                        assert(!pec_fits(mesh.tris@, roles@, table.pairs@));
                        return Err(ModelError::Mismatch);
                    },
                    Some(e) => {
                        cons.set(e, true);
                        assert(t.edge(k as int) == table.pairs@[e as int]);
                        assert forall|f: int| 0 <= f < cons@.len() implies (#[trigger] cons@[f]
                            <==> before[f] || exists|m: int|
                            0 <= m < k + 1 && #[trigger] t.edge(m) == table.pairs@[f]) by {
                            assert(marked[f] <==> before[f] || exists|m: int|
                                0 <= m < k && #[trigger] t.edge(m) == table.pairs@[f]);
                            if f != e && table.pairs@[f] == table.pairs@[e as int] {
                                assert(false);
                            }
                        }
                    },
                }
                k += 1;
            }
        }
        proof {
            assert forall|e: int| 0 <= e < cons@.len() implies #[trigger] cons@[e] == on_pec(
                now,
                roles@,
                table.pairs@,
                e,
            ) by {
                assert(before[e] == on_pec(done, roles@, table.pairs@, e));
                if on_pec(done, roles@, table.pairs@, e) {
                    let (m, k) = choose|m: int, k: int|
                        0 <= m < done.len() && 0 <= k < 3 && roles@[done[m].group as int] is Pec
                            && #[trigger] done[m].edge(k) == table.pairs@[e];
                    assert(now[m].edge(k) == table.pairs@[e]);
                }
                if on_pec(now, roles@, table.pairs@, e) {
                    let (m, k) = choose|m: int, k: int|
                        0 <= m < now.len() && 0 <= k < 3 && roles@[now[m].group as int] is Pec
                            && #[trigger] now[m].edge(k) == table.pairs@[e];
                    if m < i {
                        assert(done[m].edge(k) == table.pairs@[e]);
                    } else {
                        assert(t.edge(k) == table.pairs@[e]);
                    }
                }
                if pec && cons@[e] && !before[e] {
                    let k = choose|k: int| 0 <= k < 3 && #[trigger] t.edge(k) == table.pairs@[e];
                    assert(now[i as int].edge(k) == table.pairs@[e]);
                }
            }
            assert forall|m: int, k: int|
                0 <= m < now.len() && 0 <= k < 3
                    && roles@[now[m].group as int] is Pec implies last_index(
                table.pairs@,
                #[trigger] now[m].edge(k),
            ) is Some by {
                if m < i {
                    assert(last_index(table.pairs@, done[m].edge(k)) is Some);
                } else {
                    assert(last_index(table.pairs@, t.edge(k)) is Some);
                }
            }
        }
        i += 1;
    }
    assert(mesh.tris@.take(i as int) =~= mesh.tris@);
    Ok(cons)
}

/// How many of the first `e` edges are free.
pub open spec fn free_before(cons: Seq<bool>, e: int) -> nat
    decreases e,
{
    if e <= 0 {
        0
    } else {
        free_before(cons, e - 1) + if cons[e - 1] {
            0nat
        } else {
            1nat
        }
    }
}

/// The unknown that edge `e` carries: free edges are numbered in order.
pub open spec fn unknown_of(cons: Seq<bool>, e: int) -> Option<usize> {
    if cons[e] {
        None
    } else {
        Some(free_before(cons, e) as usize)
    }
}

/// The unknowns of all edges, and how many there are.
pub fn number_unknowns(cons: &Vec<bool>) -> (r: (Vec<Option<usize>>, usize))
    ensures
        r.0@ == Seq::new(cons@.len(), |e: int| unknown_of(cons@, e)),
        r.1 == free_before(cons@, cons@.len() as int),
        r.1 <= cons@.len(),
        forall|e: int| 0 <= e < r.0@.len() ==> (#[trigger] r.0@[e] matches Some(d) ==> d < r.1),
{
    let mut dof: Vec<Option<usize>> = Vec::new();
    let mut n: usize = 0;
    let mut e: usize = 0;
    while e < cons.len()
        invariant
            e <= cons@.len(),
            n <= e,
            n == free_before(cons@, e as int),
            dof@.len() == e,
            forall|f: int| 0 <= f < e ==> #[trigger] dof@[f] == unknown_of(cons@, f),
            forall|f: int| 0 <= f < e ==> (#[trigger] dof@[f] matches Some(d) ==> d < n),
        decreases cons@.len() - e,
    {
        if cons[e] {
            dof.push(None);
        } else {
            dof.push(Some(n));
            n += 1;
        }
        e += 1;
    }
    assert(dof@ =~= Seq::new(cons@.len(), |e: int| unknown_of(cons@, e)));
    (dof, n)
}

proof fn lemma_free_before_monotone(cons: Seq<bool>, e: int, f: int)
    requires
        0 <= e <= f,
    ensures
        free_before(cons, e) <= free_before(cons, f),
        e < f && !cons[e] ==> free_before(cons, e) < free_before(cons, f),
    decreases f - e,
{
    if e < f {
        lemma_free_before_monotone(cons, e + 1, f);
    }
}

/// No two edges carry the same unknown.
pub proof fn lemma_unknowns_distinct(cons: Seq<bool>, e: int, f: int)
    requires
        cons.len() <= usize::MAX,
        0 <= e < f < cons.len(),
        !cons[e],
        !cons[f],
    ensures
        unknown_of(cons, e) != unknown_of(cons, f),
{
    lemma_free_before_monotone(cons, e, f);
    lemma_free_before_monotone(cons, f, cons.len() as int);
    lemma_free_before_small(cons, cons.len() as int);
}

/// Every unknown is carried by an edge.
pub proof fn lemma_unknowns_carried(cons: Seq<bool>, n: int, d: nat)
    requires
        0 <= n <= cons.len(),
        cons.len() <= usize::MAX,
        d < free_before(cons, n),
    ensures
        exists|e: int| 0 <= e < n && #[trigger] unknown_of(cons, e) == Some(d as usize),
    decreases n,
{
    if !cons[n - 1] && d == free_before(cons, n - 1) {
        assert(unknown_of(cons, n - 1) == Some(d as usize));
    } else {
        lemma_unknowns_carried(cons, n - 1, d);
        let e = choose|e: int| 0 <= e < n - 1 && #[trigger] unknown_of(cons, e) == Some(d as usize);
        assert(unknown_of(cons, e) == Some(d as usize));
    }
}

proof fn lemma_free_before_small(cons: Seq<bool>, e: int)
    requires
        0 <= e,
    ensures
        free_before(cons, e) <= e,
    decreases e,
{
    if e > 0 {
        lemma_free_before_small(cons, e - 1);
    }
}

// ---------------------------------------------------------------- faces

/// The last of the first `n` tetrahedra that has the triangle for a face.
pub open spec fn touching(tets: Seq<Tet>, t: Tri, n: nat) -> Option<int>
    decreases n,
{
    if n == 0 {
        None
    } else if tets[n - 1].has_face(t) {
        Some(n - 1)
    } else {
        touching(tets, t, (n - 1) as nat)
    }
}

proof fn lemma_touching(tets: Seq<Tet>, t: Tri, n: nat, k: int)
    requires
        n <= tets.len(),
        k < n,
        k >= 0 ==> tets[k].has_face(t),
        forall|m: int| k < m < n && 0 <= m ==> !(#[trigger] tets[m]).has_face(t),
    ensures
        k >= 0 ==> touching(tets, t, n) == Some(k),
        k < 0 ==> touching(tets, t, n) is None,
    decreases n,
{
    if n > 0 && k < n - 1 {
        assert(!tets[n - 1].has_face(t));
        lemma_touching(tets, t, (n - 1) as nat, k);
    }
}

/// For each node, the tetrahedra with a face whose lowest node it is.
pub struct FaceTable {
    pub at: Vec<Vec<usize>>,
}

impl FaceTable {
    /// Every tetrahedron is listed at its two lowest nodes, which are the lowest nodes of
    /// its faces.
    pub open spec fn wf(self, tets: Seq<Tet>) -> bool {
        &&& forall|i: int|
            0 <= i < tets.len() ==> (#[trigger] tets[i]).a < self.at@.len() && tets[i].b
                < self.at@.len() && self.at@[tets[i].a as int]@.contains(i as usize)
                && self.at@[tets[i].b as int]@.contains(i as usize)
        &&& forall|v: int, k: int|
            0 <= v < self.at@.len() && 0 <= k < self.at@[v]@.len() ==> (#[trigger] self.at@[v]@[k])
                < tets.len()
    }
}

fn has_face(t: &Tet, s: &Tri) -> (r: bool)
    ensures
        r == t.has_face(*s),
{
    (s.a == t.a && s.b == t.b && s.c == t.c) || (s.a == t.a && s.b == t.b && s.c == t.d) || (s.a
        == t.a && s.b == t.c && s.c == t.d) || (s.a == t.b && s.b == t.c && s.c == t.d)
}

/// Collects the faces of a mesh.
pub fn collect_faces<T>(mesh: &Mesh<T>) -> (r: FaceTable)
    requires
        mesh.wf(),
    ensures
        r.wf(mesh.tets@),
        r.at@.len() == mesh.nodes@.len(),
{
    let mut table = FaceTable { at: Vec::new() };
    let n: usize = mesh.nodes.len();
    while table.at.len() < n
        invariant
            table.at@.len() <= n,
            forall|v: int| 0 <= v < table.at@.len() ==> (#[trigger] table.at@[v])@.len() == 0,
        decreases n - table.at@.len(),
    {
        table.at.push(Vec::new());
    }
    let mut i: usize = 0;
    while i < mesh.tets.len()
        invariant
            mesh.wf(),
            i <= mesh.tets@.len(),
            table.at@.len() == mesh.nodes@.len(),
            table.wf(mesh.tets@.take(i as int)),
        decreases mesh.tets@.len() - i,
    {
        let t = mesh.tets[i];
        assert(mesh.tets@[i as int].within(mesh.nodes@.len(), mesh.names@.len()));
        let ghost before = table;
        let ghost now = mesh.tets@.take(i + 1);
        let ghost done = mesh.tets@.take(i as int);
        table.at[t.a].push(i);
        let ghost mid = table;
        table.at[t.b].push(i);
        proof {
            assert forall|v: int, k: int|
                0 <= v < before.at@.len() && 0 <= k < before.at@[v]@.len() implies k
                < table.at@[v]@.len() && #[trigger] before.at@[v]@[k] == table.at@[v]@[k] by {
                assert(mid.at@[v]@[k] == before.at@[v]@[k]);
            }
            assert(mid.at@[t.a as int]@.last() == i);
            let pa = mid.at@[t.a as int]@.len() - 1;
            assert(table.at@[t.a as int]@[pa] == i);
            let pb = table.at@[t.b as int]@.len() - 1;
            assert(table.at@[t.b as int]@[pb] == i);
            assert forall|m: int| 0 <= m < now.len() implies (#[trigger] now[m]).a < table.at@.len()
                && now[m].b < table.at@.len() && table.at@[now[m].a as int]@.contains(m as usize)
                && table.at@[now[m].b as int]@.contains(m as usize) by {
                if m < i {
                    assert(done[m] == now[m]);
                    let u = done[m];
                    let k = choose|k: int|
                        0 <= k < before.at@[u.a as int]@.len() && before.at@[u.a as int]@[k]
                            == m as usize;
                    assert(table.at@[u.a as int]@[k] == m as usize);
                    let k = choose|k: int|
                        0 <= k < before.at@[u.b as int]@.len() && before.at@[u.b as int]@[k]
                            == m as usize;
                    assert(table.at@[u.b as int]@[k] == m as usize);
                }
            }
            assert forall|v: int, k: int|
                0 <= v < table.at@.len() && 0 <= k < table.at@[v]@.len() implies (
            #[trigger] table.at@[v]@[k]) < now.len() by {
                if k < before.at@[v]@.len() {
                    assert(before.at@[v]@[k] < done.len());
                }
            }
        }
        i += 1;
    }
    assert(mesh.tets@.take(i as int) =~= mesh.tets@);
    table
}

/// The tetrahedron behind a boundary triangle; of two, the later one.
pub fn tet_behind(tets: &Vec<Tet>, table: &FaceTable, t: &Tri) -> (r: Option<usize>)
    requires
        table.wf(tets@),
        t.a < table.at@.len(),
    ensures
        match r {
            Some(k) => k < tets@.len() && touching(tets@, *t, tets@.len()) == Some(k as int),
            None => touching(tets@, *t, tets@.len()) is None,
        },
{
    let count: usize = tets.len();
    let list: &Vec<usize> = &table.at[t.a];
    let mut best: Option<usize> = None;
    let mut k: usize = 0;
    while k < list.len()
        invariant
            table.wf(tets@),
            t.a < table.at@.len(),
            list == table.at@[t.a as int],
            k <= list@.len(),
            match best {
                Some(b) => b < tets@.len() && tets@[b as int].has_face(*t) && forall|m: int|
                    0 <= m < k && tets@[#[trigger] list@[m] as int].has_face(*t) ==> list@[m] <= b,
                None => forall|m: int|
                    0 <= m < k ==> !tets@[#[trigger] list@[m] as int].has_face(*t),
            },
        decreases list@.len() - k,
    {
        let i: usize = list[k];
        assert(table.at@[t.a as int]@[k as int] < tets@.len());
        if has_face(&tets[i], t) {
            best = match best {
                Some(b) => if b >= i {
                    Some(b)
                } else {
                    Some(i)
                },
                None => Some(i),
            };
        }
        k += 1;
    }
    proof {
        let top: int = match best {
            Some(b) => b as int,
            None => -1,
        };
        assert forall|m: int| top < m < count && 0 <= m implies !(
        #[trigger] tets@[m]).has_face(*t) by {
            if tets@[m].has_face(*t) {
                assert(tets@[m].a < table.at@.len());
                assert(list@.contains(m as usize));
                let p = choose|p: int| 0 <= p < list@.len() && list@[p] == m as usize;
                assert(tets@[list@[p] as int].has_face(*t));
            }
        }
        lemma_touching(tets@, *t, tets@.len(), top);
    }
    best
}

} // verus!
