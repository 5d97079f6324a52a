//! What the words of a line and the entries of a mesh file mean.

use crate::alike::lemma_none_after;
use crate::msh::{
    ascending, corners_of, element_line, id_of, joined, label_of, last_index, lemma_last_index,
    name_line, node_line, sorted, texts_from, unquoted, unquoted_back, with_name, MeshError,
    MeshModel,
};
use crate::page::Token;
use crate::scalar::Number;
use crate::text::{i64_of, is_space, lemma_words, spelling, words_of};
use vstd::prelude::*;
use vstd::relations::{sorted_by, total_ordering};

verus! {

// ---------------------------------------------------------------- words

/// White space ends a word: the words of two texts with white space between them are
/// those of the first and those of the second.
pub proof fn lemma_words_parted(a: Seq<char>, c: char, b: Seq<char>)
    requires
        is_space(c),
    ensures
        words_of(a.push(c) + b) == words_of(a) + words_of(b),
    decreases b.len(),
{
    let s = a.push(c) + b;
    if b.len() == 0 {
        assert(s =~= a.push(c));
        assert(s.drop_last() =~= a);
        assert(words_of(a) + words_of(b) =~= words_of(a));
    } else {
        let rest = b.drop_last();
        assert(s.drop_last() =~= a.push(c) + rest);
        lemma_words_parted(a, c, rest);
        lemma_words(rest);
        let x = b.last();
        if !is_space(x) {
            if b.len() == 1 {
                assert(s[s.len() - 2] == c);
                assert(words_of(s) =~= words_of(a) + words_of(b));
            } else {
                assert(s[s.len() - 2] == b[b.len() - 2]);
                assert(rest.last() == b[b.len() - 2]);
                assert(words_of(s) =~= words_of(a) + words_of(b));
            }
        }
    }
}

/// A text without white space is one word.
pub proof fn lemma_one_word(w: Seq<char>)
    requires
        w.len() > 0,
        forall|i: int| 0 <= i < w.len() ==> !is_space(#[trigger] w[i]),
    ensures
        words_of(w) == seq![w],
    decreases w.len(),
{
    let rest = w.drop_last();
    assert(!is_space(w[w.len() - 1]));
    if w.len() == 1 {
        assert(words_of(rest) =~= seq![]);
        assert(w =~= seq![w.last()]);
        assert(words_of(w) =~= seq![w]);
    } else {
        assert forall|i: int| 0 <= i < rest.len() implies !is_space(#[trigger] rest[i]) by {
            assert(rest[i] == w[i]);
        }
        lemma_one_word(rest);
        assert(!is_space(w[w.len() - 2]));
        assert(rest.push(w.last()) =~= w);
        assert(words_of(w) =~= seq![w]);
    }
}

/// Words that are joined to a text are the words of that text.
pub proof fn lemma_joined_words(words: Seq<Seq<char>>)
    requires
        forall|i: int| 0 <= i < words.len() ==> (#[trigger] words[i]).len() > 0,
        forall|i: int, k: int|
            0 <= i < words.len() && 0 <= k < words[i].len() ==> !is_space(#[trigger] words[i][k]),
    ensures
        words_of(joined(words)) == words,
    decreases words.len(),
{
    if words.len() == 1 {
        assert(words[0].len() > 0);
        assert forall|k: int| 0 <= k < words[0].len() implies !is_space(#[trigger] words[0][k]) by {}
        lemma_one_word(words[0]);
        assert(words =~= seq![words[0]]);
    } else if words.len() > 1 {
        let rest = words.drop_last();
        let last = words.len() - 1;
        assert forall|i: int| 0 <= i < rest.len() implies (#[trigger] rest[i]).len() > 0 by {
            assert(words[i].len() > 0);
        }
        assert forall|i: int, k: int|
            0 <= i < rest.len() && 0 <= k < rest[i].len() implies !is_space(#[trigger] rest[i][k]) by {
            assert(!is_space(words[i][k]));
        }
        lemma_joined_words(rest);
        let w = words.last();
        assert(words[last].len() > 0);
        assert forall|k: int| 0 <= k < w.len() implies !is_space(#[trigger] w[k]) by {
            assert(!is_space(words[last][k]));
        }
        lemma_one_word(w);
        assert(joined(words) =~= joined(rest).push(' ') + w);
        lemma_words_parted(joined(rest), ' ', w);
        assert(rest + seq![w] =~= words);
    } else {
        assert(words_of(joined(words)) =~= words);
    }
}

/// One space stands between the words of a joined text.
pub proof fn lemma_joined_parts(a: Seq<Seq<char>>, b: Seq<Seq<char>>)
    requires
        a.len() > 0,
        b.len() > 0,
    ensures
        joined(a + b) == joined(a) + seq![' '] + joined(b),
    decreases b.len(),
{
    let all = a + b;
    assert(all.last() == b.last());
    assert(all.drop_last() =~= a + b.drop_last());
    if b.len() > 1 {
        lemma_joined_parts(a, b.drop_last());
        assert(joined(all) =~= joined(a) + seq![' '] + joined(b));
    } else {
        assert(all.drop_last() =~= a);
    }
}

/// Quotation marks around a text that neither begins nor ends with one come off, and
/// nothing else does.
pub proof fn lemma_unquoted(front: nat, s: Seq<char>, back: nat)
    requires
        s.len() > 0,
        s[0] != '"',
        s.last() != '"',
    ensures
        unquoted(Seq::new(front, |i: int| '"') + s + Seq::new(back, |i: int| '"')) == s,
    decreases front + back,
{
    let q = Seq::new(front, |i: int| '"');
    let r = Seq::new(back, |i: int| '"');
    let all = q + s + r;
    if front > 0 {
        lemma_unquoted((front - 1) as nat, s, back);
        assert(all.skip(1) =~= Seq::new((front - 1) as nat, |i: int| '"') + s + r);
        assert(all[0] == '"');
    } else {
        lemma_unquoted_back(s, back);
        assert(all =~= s + r);
        assert(all[0] == s[0]);
    }
}

proof fn lemma_unquoted_back(s: Seq<char>, back: nat)
    requires
        s.len() > 0,
        s.last() != '"',
    ensures
        unquoted_back(s + Seq::new(back, |i: int| '"')) == s,
    decreases back,
{
    let all = s + Seq::new(back, |i: int| '"');
    if back > 0 {
        lemma_unquoted_back(s, (back - 1) as nat);
        assert(all.drop_last() =~= s + Seq::new((back - 1) as nat, |i: int| '"'));
        assert(all.last() == '"');
    } else {
        assert(all =~= s);
    }
}

// ---------------------------------------------------------------- entries

/// The item at `k` is the last that equals `x`.
pub open spec fn is_last<A>(s: Seq<A>, x: A, k: int) -> bool {
    &&& 0 <= k < s.len()
    &&& s[k] == x
    &&& forall|j: int| k < j < s.len() ==> #[trigger] s[j] != x
}

/// The label at `k` is the last for the group with the number `id` of dimension `dim`.
pub open spec fn is_label(labels: Seq<(i64, i64, Seq<char>)>, dim: i64, id: i64, k: int) -> bool {
    &&& 0 <= k < labels.len()
    &&& labels[k].0 == dim
    &&& labels[k].1 == id
    &&& forall|j: int|
        k < j < labels.len() ==> !((#[trigger] labels[j]).0 == dim && labels[j].1 == id)
}

/// A group has the name that the last label for it gives, and none where there is no label
/// for it.
pub proof fn lemma_label(labels: Seq<(i64, i64, Seq<char>)>, dim: i64, id: i64)
    ensures
        match label_of(labels, dim, id) {
            Some(name) => exists|k: int| #[trigger]
                is_label(labels, dim, id, k) && labels[k].2 == name,
            None => forall|k: int|
                0 <= k < labels.len() ==> !((#[trigger] labels[k]).0 == dim && labels[k].1 == id),
        },
    decreases labels.len(),
{
    if labels.len() > 0 {
        let rest = labels.drop_last();
        let last = labels.len() - 1;
        if labels.last().0 == dim && labels.last().1 == id {
            assert(is_label(labels, dim, id, last));
        } else {
            lemma_label(rest, dim, id);
            match label_of(rest, dim, id) {
                Some(name) => {
                    let k = choose|k: int| #[trigger]
                        is_label(rest, dim, id, k) && rest[k].2 == name;
                    assert forall|j: int| k < j < labels.len() implies !((
                    #[trigger] labels[j]).0 == dim && labels[j].1 == id) by {
                        if j < last {
                            assert(rest[j] == labels[j]);
                        }
                    }
                    assert(is_label(labels, dim, id, k));
                },
                None => {
                    assert forall|k: int| 0 <= k < labels.len() implies !((
                    #[trigger] labels[k]).0 == dim && labels[k].1 == id) by {
                        if k < last {
                            assert(rest[k] == labels[k]);
                        }
                    }
                },
            }
        }
    }
}

/// The corners of an element are, one after the other, the nodes with the numbers on its
/// line, for each number the last such node; it is refused where a number has no node.
pub proof fn lemma_corners<T>(ids: Seq<i64>, line: Seq<Token<T>>, from: int, to: int)
    requires
        ids.len() <= usize::MAX,
        from <= to,
    ensures
        match corners_of(ids, line, from, to) {
            Some(v) => v.len() == to - from && forall|i: int|
                0 <= i < v.len() ==> is_last(
                    ids,
                    id_of(line[from + i].text),
                    (#[trigger] v[i]) as int,
                ),
            None => exists|i: int|
                from <= i < to && !ids.contains(id_of((#[trigger] line[i]).text)),
        },
    decreases to - from,
{
    if from < to {
        lemma_corners(ids, line, from, to - 1);
        let id = id_of(line[to - 1].text);
        lemma_last_index(ids, id);
        lemma_none_after(ids, id);
        match corners_of(ids, line, from, to - 1) {
            Some(before) => {
                match last_index(ids, id) {
                    Some(k) => {
                        let v = before.push(k as usize);
                        assert forall|i: int| 0 <= i < v.len() implies is_last(
                            ids,
                            id_of(line[from + i].text),
                            (#[trigger] v[i]) as int,
                        ) by {
                            if i < before.len() {
                                assert(v[i] == before[i]);
                            }
                        }
                    },
                    None => {
                        assert(!ids.contains(id_of(line[to - 1].text)));
                    },
                }
            },
            None => {},
        }
    }
}

/// The name of the group with the number `id` of dimension `dim`: its label, or else the
/// number as it is spelled.
pub open spec fn is_group_name<T>(m: MeshModel<T>, dim: i64, id: i64, name: Seq<char>) -> bool {
    if exists|k: int| is_label(m.labels, dim, id, k) {
        exists|k: int| #[trigger] is_label(m.labels, dim, id, k) && m.labels[k].2 == name
    } else {
        name == spelling(id as int)
    }
}

/// The nodes stand in ascending order, and are those with the numbers on the line from
/// the word at `from` on.
pub open spec fn are_corners<T>(
    m: MeshModel<T>,
    line: Seq<Token<T>>,
    from: int,
    corners: Seq<usize>,
) -> bool {
    &&& forall|i: int, j: int|
        0 <= i <= j < corners.len() ==> #[trigger] corners[i] <= #[trigger] corners[j]
    &&& exists|v: Seq<usize>| #[trigger]
        v.to_multiset() == corners.to_multiset() && v.len() == corners.len() && forall|i: int|
            0 <= i < v.len() ==> is_last(m.ids, id_of(line[from + i].text), (#[trigger] v[i]) as int)
}

/// The element belongs to the group that its first tag names; a group without members so
/// far is added to the names.
pub open spec fn is_grouped<T>(
    m: MeshModel<T>,
    n: MeshModel<T>,
    dim: i64,
    id: i64,
    group: usize,
) -> bool {
    &&& group < n.names.len()
    &&& is_group_name(m, dim, id, n.names[group as int])
    &&& m.names.is_prefix_of(n.names)
    &&& n.names.len() <= m.names.len() + 1
    &&& m.names.contains(n.names[group as int]) ==> n.names == m.names
    &&& n.ids == m.ids && n.nodes == m.nodes && n.labels == m.labels
}

/// The group of an element: its first tag, zero without tags.
pub open spec fn group_id<T>(line: Seq<Token<T>>) -> i64 {
    if id_of(line[2].text) >= 1 {
        id_of(line[3].text)
    } else {
        0
    }
}

proof fn lemma_named<T>(m: MeshModel<T>, dim: i64, id: i64, name: Seq<char>)
    requires
        name == (match label_of(m.labels, dim, id) {
            Some(name) => name,
            None => spelling(id as int),
        }),
        m.names.len() < usize::MAX,
    ensures
        is_group_name(m, dim, id, name),
        ({
            let names = with_name(m.names, name);
            let k = last_index(names, name);
            &&& k is Some
            &&& 0 <= k.unwrap() < names.len()
            &&& names[k.unwrap()] == name
            &&& m.names.is_prefix_of(names)
            &&& names.len() <= m.names.len() + 1
            &&& m.names.contains(name) ==> names == m.names
        }),
{
    lemma_label(m.labels, dim, id);
    match label_of(m.labels, dim, id) {
        Some(w) => {
            let k = choose|k: int| #[trigger]
                is_label(m.labels, dim, id, k) && m.labels[k].2 == w;
            assert(is_label(m.labels, dim, id, k));
        },
        None => {
            assert(!exists|k: int| is_label(m.labels, dim, id, k));
        },
    }
    lemma_last_index(m.names, name);
    let names = with_name(m.names, name);
    lemma_last_index(names, name);
    if last_index(m.names, name) is None {
        assert(names[names.len() - 1] == name);
    }
}

proof fn lemma_sorted_corners<T>(
    m: MeshModel<T>,
    line: Seq<Token<T>>,
    from: int,
    n: int,
    all: Seq<usize>,
)
    requires
        m.ids.len() <= usize::MAX,
        0 <= n <= all.len(),
        from + n <= line.len(),
        corners_of(m.ids, line, from, line.len() as int) == Some(all),
    ensures
        sorted(all.take(n)).len() == n,
        are_corners(m, line, from, sorted(all.take(n))),
{
    let v = all.take(n);
    let leq = ascending();
    assert(total_ordering(leq));
    v.lemma_sort_by_ensures(leq);
    let s = sorted(v);
    assert(sorted_by(s, leq));
    s.to_multiset_ensures();
    v.to_multiset_ensures();
    assert(s.len() == v.len());
    lemma_corners(m.ids, line, from, line.len() as int);
    assert forall|i: int| 0 <= i < v.len() implies is_last(
        m.ids,
        id_of(line[from + i].text),
        (#[trigger] v[i]) as int,
    ) by {
        assert(v[i] == all[i]);
    }
    assert(v.to_multiset() == s.to_multiset());
    assert forall|i: int, j: int| 0 <= i <= j < s.len() implies #[trigger] s[i] <= #[trigger] s[j] by {
        if i < j {
            assert(leq(s[i], s[j]));
        }
    }
}

/// An element of three corners is a triangle, one of four a tetrahedron: the numbers of
/// its corners follow the tags, the first of which is its group. Any other element is
/// passed over.
pub proof fn lemma_element<T>(m: MeshModel<T>, line: Seq<Token<T>>)
    requires
        m.ids.len() <= usize::MAX,
        m.names.len() < usize::MAX,
        line.len() >= 3,
    ensures
        ({
            let (kind, tags) = (id_of(line[1].text), id_of(line[2].text));
            match element_line(m, line) {
                Ok(n) => {
                    &&& kind == 2 ==> {
                        let t = n.tris.last();
                        &&& n.tets == m.tets
                        &&& n.tris == m.tris.push(t)
                        &&& are_corners(m, line, 3 + tags, seq![t.a, t.b, t.c])
                        &&& is_grouped(m, n, 2, group_id(line), t.group)
                    }
                    &&& kind == 4 ==> {
                        let t = n.tets.last();
                        &&& n.tris == m.tris
                        &&& n.tets == m.tets.push(t)
                        &&& are_corners(m, line, 3 + tags, seq![t.a, t.b, t.c, t.d])
                        &&& is_grouped(m, n, 3, group_id(line), t.group)
                    }
                    &&& kind != 2 && kind != 4 ==> n == m
                },
                Err(e) => (kind == 2 || kind == 4) && match e {
                    MeshError::BadElement => tags < 0 || line.len() < 3 + tags,
                    MeshError::FewNodes => 0 <= tags && 3 + tags <= line.len() < 3 + tags + (
                    if kind == 2 {
                        3int
                    } else {
                        4
                    }),
                    MeshError::UnknownNode => exists|i: int|
                        3 + tags <= i < line.len() && !m.ids.contains(
                            id_of((#[trigger] line[i]).text),
                        ),
                    _ => false,
                },
            }
        }),
{
    let (kind, tags) = (id_of(line[1].text), id_of(line[2].text));
    if (kind == 2 || kind == 4) && 0 <= tags && 3 + tags <= line.len() {
        let dim: i64 = if kind == 2 {
            2
        } else {
            3
        };
        let id = group_id(line);
        let name = match label_of(m.labels, dim, id) {
            Some(name) => name,
            None => spelling(id as int),
        };
        lemma_named(m, dim, id, name);
        lemma_corners(m.ids, line, 3 + tags, line.len() as int);
        if line.len() - (3 + tags) >= dim + 1 {
            match corners_of(m.ids, line, 3 + tags, line.len() as int) {
                Some(all) => {
                    lemma_sorted_corners(m, line, 3 + tags, dim + 1, all);
                    let s = sorted(all.take(dim + 1));
                    if kind == 2 {
                        assert(seq![s[0], s[1], s[2]] =~= s);
                    } else {
                        assert(seq![s[0], s[1], s[2], s[3]] =~= s);
                    }
                },
                None => {},
            }
        }
    }
}

/// A node has the number and the three coordinates on its line, in this order; nothing
/// else changes.
pub proof fn lemma_node<T: Number>(m: MeshModel<T>, line: Seq<Token<T>>)
    ensures
        line.len() < 4 ==> node_line(m, line) == Err::<MeshModel<T>, MeshError>(MeshError::BadNode),
        line.len() >= 4 ==> match node_line(m, line) {
            Ok(n) => {
                let p = n.nodes.last();
                &&& n.ids == m.ids.push(n.ids.last())
                &&& n.nodes == m.nodes.push(p)
                &&& n.tets == m.tets && n.tris == m.tris && n.names == m.names
                &&& n.labels == m.labels
                &&& line[0].num matches Some(v) ==> n.ids.last() == v.to_id()
                &&& line[1].num matches Some(v) ==> p.x == v
                &&& line[2].num matches Some(v) ==> p.y == v
                &&& line[3].num matches Some(v) ==> p.z == v
            },
            Err(_) => false,
        },
{
}

/// A label has the dimension, the number and the name on its line, the name without the
/// quotation marks around it, with the words that it has.
pub proof fn lemma_name<T>(m: MeshModel<T>, line: Seq<Token<T>>, dim: i64, id: i64)
    requires
        line.len() >= 2,
        i64_of(line[0].text) == Some(dim),
        i64_of(line[1].text) == Some(id),
        forall|i: int| 0 <= i < line.len() ==> (#[trigger] line[i]).text.len() > 0,
        forall|i: int, k: int|
            0 <= i < line.len() && 0 <= k < line[i].text.len() ==> !is_space(
                #[trigger] line[i].text[k],
            ),
    ensures
        name_line(m, line) matches Ok(n) && n.labels.len() == m.labels.len() + 1
            && n.labels.drop_last() == m.labels && n.labels.last().0 == dim && n.labels.last().1
            == id && n.labels.last().2 == unquoted(
            joined(Seq::new((line.len() - 2) as nat, |i: int| line[2 + i].text)),
        ) && words_of(joined(Seq::new((line.len() - 2) as nat, |i: int| line[2 + i].text)))
            == Seq::new((line.len() - 2) as nat, |i: int| line[2 + i].text),
{
    let words = texts_from(line, 2);
    assert forall|i: int| 0 <= i < words.len() implies (#[trigger] words[i]).len() > 0 by {
        assert(line[2 + i].text.len() > 0);
    }
    assert forall|i: int, k: int|
        0 <= i < words.len() && 0 <= k < words[i].len() implies !is_space(#[trigger] words[i][k]) by {
        assert(!is_space(line[2 + i].text[k]));
    }
    lemma_joined_words(words);
    let n = name_line(m, line).unwrap();
    assert(n.labels.drop_last() =~= m.labels);
    assert(words_of(joined(words)) == words);
    assert(words =~= Seq::new((line.len() - 2) as nat, |i: int| line[2 + i].text));
}

} // verus!
