//! Models that come to the same: systems with the same equations, and a card that says
//! what holds without it.

use crate::assembly::gathered;
use crate::deck::{vacuum, DeckModel, Mat};
use crate::groups::{
    assignment, group_of, groups_of, has_tets, mat_of, Assignment, CardKind, ModelError,
};
use crate::msh::{last_index, lemma_last_index, Mesh};
use crate::profile::{offset, spot};
use crate::scalar::Number;
use crate::system::{filled, media_of, port_groups, roles_of, system_model, System};
use crate::text::spelled;
use vstd::prelude::*;

verus! {

// ---------------------------------------------------------------- systems

proof fn lemma_same_filled<T: Number>(s: System<T>, t: System<T>, k0: T, n: nat)
    requires
        n <= s.matrix.vals@.len(),
        s.profile.len == t.profile.len,
        s.profile.places@ == t.profile.places@,
        s.matrix.vals@ == t.matrix.vals@,
    ensures
        filled(s, k0, n) == filled(t, k0, n),
    decreases n,
{
    if n > 0 {
        lemma_same_filled(s, t, k0, (n - 1) as nat);
    }
}

/// The terms of a system fix its matrix and the order of its unknowns.
pub proof fn lemma_same_matrix<T: Number>(s: System<T>, t: System<T>, k0: T)
    requires
        s.wf(),
        t.wf(),
        s.frame.n == t.frame.n,
        s.matrix.terms@ == t.matrix.terms@,
    ensures
        s.at_wave(k0) == t.at_wave(k0),
        s.profile.perm@ == t.profile.perm@,
{
    let n = s.frame.n as nat;
    let keys = s.matrix.keys.pairs@;
    assert(keys == t.matrix.keys.pairs@);
    assert(s.matrix.vals@ =~= t.matrix.vals@) by {
        assert forall|k: int| 0 <= k < keys.len() implies #[trigger] s.matrix.vals@[k]
            == t.matrix.vals@[k] by {
            assert(s.matrix.vals@[k] == gathered(s.matrix.terms@, keys[k]));
            assert(t.matrix.vals@[k] == gathered(t.matrix.terms@, keys[k]));
        }
    }
    let (p, q) = (s.profile, t.profile);
    assert(p.perm@ == q.perm@);
    assert(p.frow@ =~= q.frow@);
    assert(p.off@ =~= q.off@) by {
        assert forall|j: int| 0 <= j < n implies #[trigger] p.off@[j] == q.off@[j] by {
            assert(p.off@[j] == offset(p.frow@, j));
            assert(q.off@[j] == offset(q.frow@, j));
        }
    }
    assert(p.places@ =~= q.places@) by {
        assert forall|k: int| 0 <= k < keys.len() implies #[trigger] p.places@[k]
            == q.places@[k] by {
            let at = spot(p.perm@, keys[k]);
            assert(p.places@[k] == p.off@[at.1 as int] + (at.0 - p.frow@[at.1 as int]));
            assert(q.places@[k] == q.off@[at.1 as int] + (at.0 - q.frow@[at.1 as int]));
        }
    }
    lemma_same_filled(s, t, k0, s.matrix.vals@.len());
}

/// Two systems with the same unknowns, terms, ports and drives scatter alike.
pub proof fn lemma_same_scattering<T: Number>(s: System<T>, t: System<T>, k0: T, q: int, p: int)
    requires
        s.wf(),
        t.wf(),
        s.frame.n == t.frame.n,
        s.matrix.terms@ == t.matrix.terms@,
        s.ports@ == t.ports@,
        forall|k: int| 0 <= k < s.ports@.len() ==> (#[trigger] s.drives@[k])@ == t.drives@[k]@,
        0 <= q < s.ports@.len(),
        0 <= p < s.ports@.len(),
    ensures
        s.at_wave(k0) == t.at_wave(k0),
        s.scattering(k0, q, p) == t.scattering(k0, q, p),
{
    lemma_same_matrix(s, t, k0);
    assert(s.drives@[p]@ == t.drives@[p]@);
    assert(s.drives@[q]@ == t.drives@[q]@);
}

// ---------------------------------------------------------------- groups

/// Looking up the groups of a list of names: each name for itself.
pub proof fn lemma_groups<T>(mesh: Mesh<T>, names: Seq<Seq<char>>, kind: CardKind)
    ensures
        groups_of(mesh, names, kind) matches Ok(v) ==> v.len() == names.len() && forall|i: int|
            0 <= i < v.len() ==> group_of(mesh, names[i], kind, 0) == Ok::<usize, ModelError>(
                #[trigger] v[i],
            ),
    decreases names.len(),
{
    if names.len() > 0 {
        let before = names.drop_last();
        lemma_groups(mesh, before, kind);
        match groups_of(mesh, names, kind) {
            Ok(v) => {
                let w = groups_of(mesh, before, kind)->Ok_0;
                assert forall|i: int| 0 <= i < v.len() implies group_of(mesh, names[i], kind, 0)
                    == Ok::<usize, ModelError>(#[trigger] v[i]) by {
                    if i < w.len() {
                        assert(v[i] == w[i]);
                        assert(before[i] == names[i]);
                    }
                }
            },
            Err(_) => {},
        }
    }
}

pub proof fn lemma_groups_found<T>(
    mesh: Mesh<T>,
    names: Seq<Seq<char>>,
    kind: CardKind,
    v: Seq<usize>,
)
    requires
        v.len() == names.len(),
        forall|i: int|
            0 <= i < v.len() ==> group_of(mesh, names[i], kind, 0) == Ok::<usize, ModelError>(
                #[trigger] v[i],
            ),
    ensures
        groups_of(mesh, names, kind) == Ok::<Seq<usize>, ModelError>(v),
    decreases names.len(),
{
    if names.len() > 0 {
        let (before, w) = (names.drop_last(), v.drop_last());
        assert forall|i: int| 0 <= i < w.len() implies group_of(mesh, before[i], kind, 0) == Ok::<
            usize,
            ModelError,
        >(#[trigger] w[i]) by {
            assert(w[i] == v[i] && before[i] == names[i]);
        }
        lemma_groups_found(mesh, before, kind, w);
        assert(v[v.len() - 1] == v.last());
        assert(w.push(v.last()) =~= v);
    } else {
        assert(v =~= seq![]);
    }
}

/// The place of the last item that equals `x` is the one with none after it.
pub proof fn lemma_is_last<A>(s: Seq<A>, x: A, k: int)
    requires
        0 <= k < s.len(),
        s[k] == x,
        forall|j: int| k < j < s.len() ==> #[trigger] s[j] != x,
    ensures
        last_index(s, x) == Some(k),
    decreases s.len(),
{
    if k < s.len() - 1 {
        assert(s[s.len() - 1] != x);
        let rest = s.drop_last();
        assert forall|j: int| k < j < rest.len() implies #[trigger] rest[j] != x by {
            assert(rest[j] == s[j]);
        }
        lemma_is_last(rest, x, k);
    }
}

pub proof fn lemma_none_after<A>(s: Seq<A>, x: A)
    ensures
        last_index(s, x) matches Some(k) ==> forall|j: int|
            k < j < s.len() ==> #[trigger] s[j] != x,
    decreases s.len(),
{
    if s.len() > 0 && s.last() != x {
        let rest = s.drop_last();
        lemma_none_after(rest, x);
        lemma_last_index(rest, x);
        match last_index(s, x) {
            Some(k) => {
                assert forall|j: int| k < j < s.len() implies #[trigger] s[j] != x by {
                    if j < s.len() - 1 {
                        assert(rest[j] == s[j]);
                    }
                }
            },
            None => {},
        }
    }
}

// ---------------------------------------------------------------- vacuum

/// A deck with one more material card at place `k`.
pub open spec fn with_mat<T>(
    deck: DeckModel<T>,
    k: int,
    name: Seq<char>,
    mat: Mat<T>,
) -> DeckModel<T> {
    DeckModel { mats: deck.mats.insert(k, (name, mat)), ..deck }
}

/// The groups on the material cards, with one more at place `k`.
proof fn lemma_mat_of_insert<T: Number>(
    deck: DeckModel<T>,
    a: Assignment,
    k: int,
    name: Seq<char>,
    g: usize,
    group: usize,
)
    requires
        0 <= k <= deck.mats.len(),
        a.mats.len() == deck.mats.len(),
        !a.mats.contains(g),
    ensures
        mat_of(
            with_mat(deck, k, name, vacuum()),
            (Assignment { mats: a.mats.insert(k, g), ..a }),
            group,
        ) == mat_of(deck, a, group),
{
    let wide = a.mats.insert(k, g);
    let more = deck.mats.insert(k, (name, vacuum::<T>()));
    lemma_last_index(a.mats, group);
    lemma_none_after(a.mats, group);
    lemma_last_index(wide, group);
    if group == g {
        assert(wide[k] == g);
        assert forall|j: int| k < j < wide.len() implies #[trigger] wide[j] != g by {
            assert(wide[j] == a.mats[j - 1]);
            assert(a.mats.contains(a.mats[j - 1]));
        }
        lemma_is_last(wide, g, k);
        match last_index(a.mats, group) {
            Some(i) => {
                assert(a.mats.contains(a.mats[i]));
            },
            None => {},
        }
    } else {
        match last_index(a.mats, group) {
            Some(i) => {
                let j = if i < k {
                    i
                } else {
                    i + 1
                };
                assert(wide[j] == group);
                assert forall|l: int| j < l < wide.len() implies #[trigger] wide[l] != group by {
                    if l < k {
                        assert(wide[l] == a.mats[l]);
                    } else if l > k {
                        assert(wide[l] == a.mats[l - 1]);
                    }
                }
                lemma_is_last(wide, group, j);
                assert(more[j] == deck.mats[i]);
            },
            None => {
                match last_index(wide, group) {
                    Some(l) => {
                        if l < k {
                            assert(wide[l] == a.mats[l]);
                        } else if l > k {
                            assert(wide[l] == a.mats[l - 1]);
                        }
                    },
                    None => {},
                }
            },
        }
    }
}

/// Volumes without a material card are vacuum: a card that says so changes nothing,
/// wherever it stands.
pub proof fn lemma_vacuum_card<T: Number>(
    deck: DeckModel<T>,
    mesh: Mesh<T>,
    k: int,
    name: Seq<char>,
)
    requires
        0 <= k <= deck.mats.len(),
        assignment(deck, mesh) is Ok,
        !deck.mat_names().contains(name),
        last_index(spelled(mesh.names@), name) matches Some(g) && has_tets(mesh.tets@, g),
    ensures
        system_model(with_mat(deck, k, name, vacuum()), mesh) == system_model(deck, mesh),
{
    assert(mesh.names@.len() == mesh.names.len());
    let more = with_mat(deck, k, name, vacuum());
    let a = assignment(deck, mesh)->Ok_0;
    let g = last_index(spelled(mesh.names@), name).unwrap() as usize;
    lemma_last_index(spelled(mesh.names@), name);
    lemma_groups(mesh, deck.mat_names(), CardKind::Mat);
    assert(!a.mats.contains(g)) by {
        if a.mats.contains(g) {
            let i = choose|i: int| 0 <= i < a.mats.len() && a.mats[i] == g;
            assert(group_of(mesh, deck.mat_names()[i], CardKind::Mat, 0) == Ok::<usize, ModelError>(
                a.mats[i],
            ));
            lemma_last_index(spelled(mesh.names@), deck.mat_names()[i]);
            assert(deck.mat_names().contains(deck.mat_names()[i]));
        }
    }
    let wide = a.mats.insert(k, g);
    assert forall|i: int| 0 <= i < wide.len() implies group_of(
        mesh,
        more.mat_names()[i],
        CardKind::Mat,
        0,
    ) == Ok::<usize, ModelError>(#[trigger] wide[i]) by {
        if i < k {
            assert(wide[i] == a.mats[i]);
            assert(more.mat_names()[i] == deck.mat_names()[i]);
        } else if i > k {
            assert(wide[i] == a.mats[i - 1]);
            assert(more.mat_names()[i] == deck.mat_names()[i - 1]);
        }
    }
    lemma_groups_found(mesh, more.mat_names(), CardKind::Mat, wide);
    assert(more.metal_names() =~= deck.metal_names());
    assert(more.port_names() =~= deck.port_names());
    assert(more.pml_names() =~= deck.pml_names());
    let b = Assignment { mats: wide, ..a };
    assert(assignment(more, mesh) == Ok::<Assignment, ModelError>(b));
    let ng = mesh.names@.len();
    assert(roles_of(more, b, ng) =~= roles_of(deck, a, ng));
    assert(port_groups(b, ng) =~= port_groups(a, ng));
    assert(media_of(more, b, ng) =~= media_of(deck, a, ng)) by {
        assert forall|h: int| 0 <= h < ng implies #[trigger] media_of(more, b, ng)[h] == media_of(
            deck,
            a,
            ng,
        )[h] by {
            lemma_mat_of_insert(deck, a, k, name, g, h as usize);
        }
    }
}

} // verus!
