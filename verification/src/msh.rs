//! Meshes in the ASCII format of Gmsh, version 2.2.
//!
//! Of the elements only triangles (type 2) and tetrahedra (type 4) are kept. The
//! first tag of an element is its physical group; `$PhysicalNames` names a group
//! by its dimension and its number, a group without a name has its number for a
//! name, and an element without tags belongs to the group 0. The corners of an
//! element are sorted, so that every edge of it runs from the lower to the higher
//! node.

use crate::page::{line_view, page_of, page_view, read_page, Token, Word};
use crate::scalar::{Number, Scalar, V3};
use crate::text::{equals, i64_of, parse_i64, parse_usize, same, spell, spelled, spelling, usize_of};
use std::collections::HashMap;
use vstd::prelude::*;
use vstd::relations::{sorted_by, total_ordering};

verus! {

broadcast use vstd::std_specs::hash::group_hash_axioms;

/// A tetrahedron: its corners in ascending order, and its group.
#[derive(Clone, Copy, PartialEq, Eq, Structural)]
pub struct Tet {
    pub a: usize,
    pub b: usize,
    pub c: usize,
    pub d: usize,
    pub group: usize,
}

/// A triangle: its corners in ascending order, and its group.
#[derive(Clone, Copy, PartialEq, Eq, Structural)]
pub struct Tri {
    pub a: usize,
    pub b: usize,
    pub c: usize,
    pub group: usize,
}

/// A mesh.
pub struct Mesh<T> {
    pub nodes: Vec<V3<T>>,
    pub tets: Vec<Tet>,
    pub tris: Vec<Tri>,
    pub names: Vec<Vec<char>>,
}

/// Why a mesh file is refused.
#[derive(Clone, Copy, PartialEq, Eq, Structural, Debug)]
pub enum MeshError {
    /// The file ends inside a section.
    Ends,
    /// The number of entries of a section cannot be read.
    BadCount,
    /// The format is not version 2.2.
    Version,
    /// An entry of `$PhysicalNames` has less than two words.
    BadName,
    /// A node has less than four words.
    BadNode,
    /// An element has no type, or less tags than it announces.
    BadElement,
    /// An element has fewer nodes than its type.
    FewNodes,
    /// An element names a node that is not there.
    UnknownNode,
    /// There is no tetrahedron.
    NoTets,
}

impl MeshError {
    pub open spec fn wording(self) -> &'static str {
        match self {
            MeshError::Ends => "mesh file ends inside a section",
            MeshError::BadCount => "bad section count",
            MeshError::Version => "mesh must be Gmsh ASCII v2.2 (export with -format msh22)",
            MeshError::BadName => "bad $PhysicalNames entry",
            MeshError::BadNode => "bad node line",
            MeshError::BadElement => "bad element line",
            MeshError::FewNodes => "element has fewer nodes than its type needs",
            MeshError::UnknownNode => "element references unknown node",
            MeshError::NoTets => "mesh has no tetrahedra",
        }
    }

    /// What to tell the user.
    pub fn message(self) -> (r: &'static str)
        ensures
            r == self.wording(),
    {
        match self {
            MeshError::Ends => "mesh file ends inside a section",
            MeshError::BadCount => "bad section count",
            MeshError::Version => "mesh must be Gmsh ASCII v2.2 (export with -format msh22)",
            MeshError::BadName => "bad $PhysicalNames entry",
            MeshError::BadNode => "bad node line",
            MeshError::BadElement => "bad element line",
            MeshError::FewNodes => "element has fewer nodes than its type needs",
            MeshError::UnknownNode => "element references unknown node",
            MeshError::NoTets => "mesh has no tetrahedra",
        }
    }
}

// ---------------------------------------------------------------- model

/// What has been read of a mesh file.
pub struct MeshModel<T> {
    /// The numbers of the nodes, as the file has them.
    pub ids: Seq<i64>,
    pub nodes: Seq<V3<T>>,
    pub tets: Seq<Tet>,
    pub tris: Seq<Tri>,
    /// The names of the groups that elements belong to, in order of appearance.
    pub names: Seq<Seq<char>>,
    /// The entries of `$PhysicalNames`: dimension, number and name.
    pub labels: Seq<(i64, i64, Seq<char>)>,
}

impl<T> MeshModel<T> {
    /// Nothing read yet.
    pub open spec fn empty() -> MeshModel<T> {
        MeshModel {
            ids: seq![],
            nodes: seq![],
            tets: seq![],
            tris: seq![],
            names: seq![],
            labels: seq![],
        }
    }
}

/// The words of a line with one space between two of them.
pub open spec fn joined(words: Seq<Seq<char>>) -> Seq<char>
    decreases words.len(),
{
    if words.len() == 0 {
        seq![]
    } else if words.len() == 1 {
        words[0]
    } else {
        joined(words.drop_last()) + seq![' '] + words.last()
    }
}

/// A text without the quotation marks in front.
pub open spec fn unquoted_front(s: Seq<char>) -> Seq<char>
    decreases s.len(),
{
    if s.len() > 0 && s[0] == '"' {
        unquoted_front(s.skip(1))
    } else {
        s
    }
}

/// A text without the quotation marks at the end.
pub open spec fn unquoted_back(s: Seq<char>) -> Seq<char>
    decreases s.len(),
{
    if s.len() > 0 && s.last() == '"' {
        unquoted_back(s.drop_last())
    } else {
        s
    }
}

/// A text without the quotation marks around it.
pub open spec fn unquoted(s: Seq<char>) -> Seq<char> {
    unquoted_back(unquoted_front(s))
}

/// The words of a line from `from` on.
pub open spec fn texts_from<T>(line: Seq<Token<T>>, from: int) -> Seq<Seq<char>> {
    Seq::new((line.len() - from) as nat, |i: int| line[from + i].text)
}

/// The integer that a word spells; a word that spells none counts as -1.
pub open spec fn id_of(s: Seq<char>) -> i64 {
    match i64_of(s) {
        Some(v) => v,
        None => (-1int) as i64,
    }
}

/// The number that a word spells; a word that spells none is not a number.
pub open spec fn value_of<T: Number>(t: Token<T>) -> T {
    match t.num {
        Some(v) => v,
        None => T::constants().nan,
    }
}

/// The name that the last fitting label gives to a group.
pub open spec fn label_of(labels: Seq<(i64, i64, Seq<char>)>, dim: i64, id: i64) -> Option<
    Seq<char>,
>
    decreases labels.len(),
{
    if labels.len() == 0 {
        None
    } else if labels.last().0 == dim && labels.last().1 == id {
        Some(labels.last().2)
    } else {
        label_of(labels.drop_last(), dim, id)
    }
}

/// The place of the last item of `s` that equals `x`.
pub open spec fn last_index<A>(s: Seq<A>, x: A) -> Option<int>
    decreases s.len(),
{
    if s.len() == 0 {
        None
    } else if s.last() == x {
        Some(s.len() - 1)
    } else {
        last_index(s.drop_last(), x)
    }
}

/// `names`, with `name` at the end unless it is there already.
pub open spec fn with_name(names: Seq<Seq<char>>, name: Seq<char>) -> Seq<Seq<char>> {
    if last_index(names, name) is Some {
        names
    } else {
        names.push(name)
    }
}

/// The order of numbers.
pub open spec fn ascending() -> spec_fn(usize, usize) -> bool {
    |x: usize, y: usize| x <= y
}

/// `s` in ascending order.
pub open spec fn sorted(s: Seq<usize>) -> Seq<usize> {
    s.sort_by(ascending())
}

/// One entry of `$PhysicalNames`.
pub open spec fn name_line<T>(m: MeshModel<T>, line: Seq<Token<T>>) -> Result<
    MeshModel<T>,
    MeshError,
> {
    if line.len() < 2 {
        Err(MeshError::BadName)
    } else {
        let label = (
            id_of(line[0].text),
            id_of(line[1].text),
            unquoted(joined(texts_from(line, 2))),
        );
        Ok(MeshModel { labels: m.labels.push(label), ..m })
    }
}

/// One node.
pub open spec fn node_line<T: Number>(m: MeshModel<T>, line: Seq<Token<T>>) -> Result<
    MeshModel<T>,
    MeshError,
> {
    if line.len() < 4 {
        Err(MeshError::BadNode)
    } else {
        let p = V3 { x: value_of(line[1]), y: value_of(line[2]), z: value_of(line[3]) };
        Ok(
            MeshModel {
                ids: m.ids.push(value_of(line[0]).to_id()),
                nodes: m.nodes.push(p),
                ..m
            },
        )
    }
}

/// The nodes that an element names, from the word at `from` on; `None` if one of
/// them is not there.
pub open spec fn corners_of<T>(ids: Seq<i64>, line: Seq<Token<T>>, from: int, to: int) -> Option<
    Seq<usize>,
>
    decreases to - from,
{
    if from >= to {
        Some(seq![])
    } else {
        match (corners_of(ids, line, from, to - 1), last_index(ids, id_of(line[to - 1].text))) {
            (Some(before), Some(k)) => Some(before.push(k as usize)),
            _ => None,
        }
    }
}

/// One element.
pub open spec fn element_line<T>(m: MeshModel<T>, line: Seq<Token<T>>) -> Result<
    MeshModel<T>,
    MeshError,
> {
    if line.len() < 3 {
        Err(MeshError::BadElement)
    } else {
        let kind = id_of(line[1].text);
        let tags = id_of(line[2].text);
        if kind != 2 && kind != 4 {
            Ok(m)
        } else if tags < 0 || 3 + tags > line.len() {
            Err(MeshError::BadElement)
        } else {
            let dim: i64 = if kind == 2 {
                2
            } else {
                3
            };
            let id: i64 = if tags >= 1 {
                id_of(line[3].text)
            } else {
                0
            };
            let name = match label_of(m.labels, dim, id) {
                Some(name) => name,
                None => spelling(id as int),
            };
            if line.len() - (3 + tags) < dim + 1 {
                Err(MeshError::FewNodes)
            } else {
                match corners_of(m.ids, line, 3 + tags, line.len() as int) {
                    None => Err(MeshError::UnknownNode),
                    Some(all) => {
                        let names = with_name(m.names, name);
                        let group = last_index(names, name).unwrap() as usize;
                        let s = sorted(all.take(dim + 1));
                        if dim == 2 {
                            let tri = Tri { a: s[0], b: s[1], c: s[2], group };
                            Ok(MeshModel { names, tris: m.tris.push(tri), ..m })
                        } else {
                            let tet = Tet { a: s[0], b: s[1], c: s[2], d: s[3], group };
                            Ok(MeshModel { names, tets: m.tets.push(tet), ..m })
                        }
                    },
                }
            }
        }
    }
}

/// The sections that hold counted entries.
#[derive(Clone, Copy, PartialEq, Eq, Structural)]
pub enum Section {
    Names,
    Nodes,
    Elements,
}

/// One entry of a section.
pub open spec fn section_line<T: Number>(
    kind: Section,
    m: MeshModel<T>,
    line: Seq<Token<T>>,
) -> Result<MeshModel<T>, MeshError> {
    match kind {
        Section::Names => name_line(m, line),
        Section::Nodes => node_line(m, line),
        Section::Elements => element_line(m, line),
    }
}

/// A line with nothing on it but the given word.
pub open spec fn is_heading<T>(line: Seq<Token<T>>, word: Seq<char>) -> bool {
    line.len() == 1 && line[0].text == word
}

/// The section that a line opens.
pub open spec fn section_of<T>(line: Seq<Token<T>>) -> Option<Section> {
    if is_heading(line, "$PhysicalNames"@) {
        Some(Section::Names)
    } else if is_heading(line, "$Nodes"@) {
        Some(Section::Nodes)
    } else if is_heading(line, "$Elements"@) {
        Some(Section::Elements)
    } else {
        None
    }
}

/// The count on a line with nothing else on it.
pub open spec fn count_of<T>(line: Seq<Token<T>>) -> Option<usize> {
    if line.len() == 1 {
        usize_of(line[0].text)
    } else {
        None
    }
}

/// The first word of the line begins with the version.
pub open spec fn supported<T>(line: Seq<Token<T>>) -> bool {
    line.len() > 0 && line[0].text.len() >= 3 && line[0].text.take(3) == "2.2"@
}

/// Reads a mesh file from line `i` on. Lines outside the known sections are passed
/// over.
pub open spec fn scan<T: Number>(page: Seq<Seq<Token<T>>>, i: int, m: MeshModel<T>) -> Result<
    MeshModel<T>,
    MeshError,
>
    decreases page.len() - i, 0int,
{
    if i < 0 || i >= page.len() {
        Ok(m)
    } else if is_heading(page[i], "$MeshFormat"@) {
        if i + 1 >= page.len() {
            Err(MeshError::Ends)
        } else if !supported(page[i + 1]) {
            Err(MeshError::Version)
        } else {
            scan(page, i + 2, m)
        }
    } else {
        match section_of(page[i]) {
            None => scan(page, i + 1, m),
            Some(kind) => if i + 1 >= page.len() {
                Err(MeshError::Ends)
            } else {
                match count_of(page[i + 1]) {
                    None => Err(MeshError::BadCount),
                    Some(count) => scan_section(page, i + 2, m, kind, count as int),
                }
            },
        }
    }
}

/// Reads the next `count` entries of a section, and then the rest of the file.
pub open spec fn scan_section<T: Number>(
    page: Seq<Seq<Token<T>>>,
    i: int,
    m: MeshModel<T>,
    kind: Section,
    count: int,
) -> Result<MeshModel<T>, MeshError>
    decreases page.len() - i, 1int,
{
    if count <= 0 {
        scan(page, i, m)
    } else if i < 0 || i >= page.len() {
        Err(MeshError::Ends)
    } else {
        match section_line(kind, m, page[i]) {
            Err(e) => Err(e),
            Ok(next) => scan_section(page, i + 1, next, kind, count - 1),
        }
    }
}

/// What a mesh file holds.
pub open spec fn mesh_model<T: Number>(page: Seq<Seq<Token<T>>>) -> Result<
    MeshModel<T>,
    MeshError,
> {
    match scan(page, 0, MeshModel::empty()) {
        Err(e) => Err(e),
        Ok(m) => if m.tets.len() == 0 {
            Err(MeshError::NoTets)
        } else {
            Ok(m)
        },
    }
}

impl<T> Mesh<T> {
    /// The mesh is the one that the model describes.
    pub open spec fn matches(self, m: MeshModel<T>) -> bool {
        &&& self.nodes@ == m.nodes
        &&& self.tets@ == m.tets
        &&& self.tris@ == m.tris
        &&& spelled(self.names@) == m.names
    }

    /// The corners of every element are nodes of the mesh, in ascending order, its
    /// group is one of the groups, and no two groups have the same name.
    pub open spec fn wf(self) -> bool {
        &&& forall|i: int|
            0 <= i < self.tets@.len() ==> (#[trigger] self.tets@[i]).within(
                self.nodes@.len(),
                self.names@.len(),
            )
        &&& forall|i: int|
            0 <= i < self.tris@.len() ==> (#[trigger] self.tris@[i]).within(
                self.nodes@.len(),
                self.names@.len(),
            )
        &&& forall|i: int, j: int|
            0 <= i < j < self.names@.len() ==> (#[trigger] self.names@[i])@ != (
            #[trigger] self.names@[j])@
    }
}

impl Tet {
    /// The corners are nodes in ascending order, the group is one of the groups.
    pub open spec fn within(self, nodes: nat, groups: nat) -> bool {
        &&& self.a <= self.b <= self.c <= self.d < nodes
        &&& self.group < groups
    }
}

impl Tri {
    /// The corners are nodes in ascending order, the group is one of the groups.
    pub open spec fn within(self, nodes: nat, groups: nat) -> bool {
        &&& self.a <= self.b <= self.c < nodes
        &&& self.group < groups
    }
}

// ---------------------------------------------------------------- reading

/// Sorts a few numbers.
pub fn sort_few(v: &mut Vec<usize>)
    ensures
        final(v)@ == sorted(old(v)@),
        final(v)@.len() == old(v)@.len(),
        forall|i: int, j: int|
            0 <= i <= j < final(v)@.len() ==> #[trigger] final(v)@[i] <= #[trigger] final(v)@[j],
        forall|i: int|
            0 <= i < final(v)@.len() ==> old(v)@.contains(#[trigger] final(v)@[i]),
{
    broadcast use {
        vstd::seq_lib::group_to_multiset_ensures,
        vstd::multiset::group_multiset_axioms,
    };

    let ghost v0 = v@;
    let n: usize = v.len();
    let mut i: usize = 0;
    while i < n
        invariant
            n == v@.len(),
            i <= n,
            v@.to_multiset() == v0.to_multiset(),
            forall|x: int, y: int| 0 <= x <= y < i ==> #[trigger] v@[x] <= #[trigger] v@[y],
        decreases n - i,
    {
        let mut k: usize = i;
        while k > 0 && v[k] < v[k - 1]
            invariant
                n == v@.len(),
                k <= i < n,
                v@.to_multiset() == v0.to_multiset(),
                forall|x: int, y: int|
                    0 <= x <= y <= i && x != k && y != k ==> #[trigger] v@[x] <= #[trigger] v@[y],
                forall|y: int| k < y <= i ==> v@[k as int] <= #[trigger] v@[y],
            decreases k,
        {
            let ghost before = v@;
            let (p, q) = (v[k - 1], v[k]);
            v.set(k - 1, q);
            v.set(k, p);
            proof {
                let mid = before.update(k - 1, q);
                vstd::seq_lib::to_multiset_update(before, k - 1, q);
                vstd::seq_lib::to_multiset_update(mid, k as int, p);
                assert(v@ =~= mid.update(k as int, p));
                assert(before.contains(p));
                vstd::seq_lib::to_multiset_contains(before, p);
                assert(v@.to_multiset() =~= before.to_multiset());
            }
            k -= 1;
        }
        i += 1;
    }
    proof {
        let leq = ascending();
        assert(total_ordering(leq));
        v0.lemma_sort_by_ensures(leq);
        assert(sorted_by(v@, leq));
        vstd::seq_lib::lemma_sorted_unique(v@, v0.sort_by(leq), leq);
        assert(v@.to_multiset().len() == v0.to_multiset().len());
        assert forall|i: int| 0 <= i < v@.len() implies v0.contains(#[trigger] v@[i]) by {
            assert(v@.to_multiset().contains(v@[i]));
        }
    }
}

/// Joins the words of a line from `from` on.
fn join_words<T>(line: &Vec<Word<T>>, from: usize) -> (r: Vec<char>)
    requires
        from <= line@.len(),
    ensures
        r@ == joined(texts_from(line_view(line@), from as int)),
{
    let ghost all = texts_from(line_view(line@), from as int);
    let mut r: Vec<char> = Vec::new();
    let mut i: usize = from;
    assert(all.take(0) =~= seq![]);
    while i < line.len()
        invariant
            from <= i <= line@.len(),
            all == texts_from(line_view(line@), from as int),
            r@ == joined(all.take(i - from)),
        decreases line@.len() - i,
    {
        let ghost done = all.take(i - from);
        assert(all.take(i - from + 1).drop_last() =~= done);
        assert(all[i - from] == line@[i as int].text@);
        if i > from {
            r.push(' ');
        }
        let ghost start = r@;
        let word: &Vec<char> = &line[i].text;
        let mut k: usize = 0;
        while k < word.len()
            invariant
                k <= word@.len(),
                r@ == start + word@.take(k as int),
            decreases word@.len() - k,
        {
            r.push(word[k]);
            assert(word@.take(k + 1) =~= word@.take(k as int).push(word@[k as int]));
            k += 1;
        }
        assert(word@.take(k as int) =~= word@);
        assert(r@ =~= joined(all.take(i - from + 1)));
        i += 1;
    }
    assert(all.take(i - from) =~= all);
    r
}

/// Takes the quotation marks around a text off.
fn unquote(s: &Vec<char>) -> (r: Vec<char>)
    ensures
        r@ == unquoted(s@),
{
    let mut lo: usize = 0;
    assert(s@.skip(0) =~= s@);
    while lo < s.len() && s[lo] == '"'
        invariant
            lo <= s@.len(),
            unquoted_front(s@.skip(lo as int)) == unquoted_front(s@),
        decreases s@.len() - lo,
    {
        assert(s@.skip(lo as int).skip(1) =~= s@.skip(lo + 1));
        lo += 1;
    }
    let ghost front = s@.skip(lo as int);
    assert(unquoted_front(s@) == front);
    let mut hi: usize = s.len();
    assert(s@.subrange(lo as int, hi as int) =~= front);
    while hi > lo && s[hi - 1] == '"'
        invariant
            lo <= hi <= s@.len(),
            unquoted_back(s@.subrange(lo as int, hi as int)) == unquoted_back(front),
        decreases hi,
    {
        assert(s@.subrange(lo as int, hi as int).drop_last() =~= s@.subrange(lo as int, hi - 1));
        hi -= 1;
    }
    let ghost inner = s@.subrange(lo as int, hi as int);
    assert(unquoted_back(front) == inner);
    let mut r: Vec<char> = Vec::new();
    let mut i: usize = lo;
    while i < hi
        invariant
            lo <= i <= hi <= s@.len(),
            r@ == s@.subrange(lo as int, i as int),
        decreases hi - i,
    {
        r.push(s[i]);
        assert(s@.subrange(lo as int, i + 1) =~= s@.subrange(lo as int, i as int).push(
            s@[i as int],
        ));
        i += 1;
    }
    r
}

/// The integer that a word spells, or -1.
fn word_id(s: &Vec<char>) -> (r: i64)
    ensures
        r == id_of(s@),
{
    match parse_i64(s) {
        Some(v) => v,
        None => -1,
    }
}

/// The number that a word spells, or not a number.
fn word_value<T: Scalar>(w: &Word<T>) -> (r: T)
    ensures
        r == value_of(w@),
{
    match w.num {
        Some(v) => v,
        None => T::known().nan,
    }
}

/// A label of `$PhysicalNames`.
struct Label {
    dim: i64,
    id: i64,
    name: Vec<char>,
}

spec fn label_view(labels: Seq<Label>) -> Seq<(i64, i64, Seq<char>)> {
    Seq::new(labels.len(), |i: int| (labels[i].dim, labels[i].id, labels[i].name@))
}

/// A mesh under construction.
struct Loader<T> {
    mesh: Mesh<T>,
    labels: Vec<Label>,
    index: HashMap<i64, usize>,
    ids: Ghost<Seq<i64>>,
}

impl<T> Loader<T> {
    spec fn model(self) -> MeshModel<T> {
        MeshModel {
            ids: self.ids@,
            nodes: self.mesh.nodes@,
            tets: self.mesh.tets@,
            tris: self.mesh.tris@,
            names: spelled(self.mesh.names@),
            labels: label_view(self.labels@),
        }
    }

    spec fn wf(self) -> bool {
        &&& self.mesh.wf()
        &&& self.ids@.len() == self.mesh.nodes@.len()
        &&& forall|id: i64| #[trigger]
            self.index@.contains_key(id) <==> last_index(self.ids@, id) is Some
        &&& forall|id: i64| #[trigger]
            self.index@.contains_key(id) ==> last_index(self.ids@, id) == Some(
                self.index@[id] as int,
            )
    }
}

/// The last place of an item holds it; where there is none, no place does.
pub proof fn lemma_last_index<A>(s: Seq<A>, x: A)
    ensures
        last_index(s, x) matches Some(k) ==> 0 <= k < s.len() && s[k] == x,
        last_index(s, x) is None ==> forall|k: int| 0 <= k < s.len() ==> #[trigger] s[k] != x,
    decreases s.len(),
{
    if s.len() > 0 && s.last() != x {
        lemma_last_index(s.drop_last(), x);
        assert forall|k: int| last_index(s, x) is None && 0 <= k < s.len() implies #[trigger] s[k]
            != x by {
            if k < s.len() - 1 {
                assert(s.drop_last()[k] == s[k]);
            }
        }
    }
}

/// The name of a group: its label, or its number.
fn group_name(labels: &Vec<Label>, dim: i64, id: i64) -> (r: Vec<char>)
    ensures
        r@ == (match label_of(label_view(labels@), dim, id) {
            Some(name) => name,
            None => spelling(id as int),
        }),
{
    let ghost all = label_view(labels@);
    let mut i: usize = labels.len();
    assert(all.take(i as int) =~= all);
    while i > 0
        invariant
            i <= labels@.len(),
            all == label_view(labels@),
            label_of(all.take(i as int), dim, id) == label_of(all, dim, id),
        decreases i,
    {
        i -= 1;
        assert(all.take(i + 1).drop_last() =~= all.take(i as int));
        assert(all.take(i + 1).last() == all[i as int]);
        if labels[i].dim == dim && labels[i].id == id {
            let name: &Vec<char> = &labels[i].name;
            let r = copy_text(name);
            return r;
        }
    }
    assert(all.take(0) =~= seq![]);
    spell(id)
}

/// A copy of a text.
pub fn copy_text(s: &Vec<char>) -> (r: Vec<char>)
    ensures
        r@ == s@,
{
    let mut r: Vec<char> = Vec::new();
    let mut i: usize = 0;
    while i < s.len()
        invariant
            i <= s@.len(),
            r@ == s@.take(i as int),
        decreases s@.len() - i,
    {
        r.push(s[i]);
        assert(s@.take(i + 1) =~= s@.take(i as int).push(s@[i as int]));
        i += 1;
    }
    assert(s@.take(i as int) =~= s@);
    r
}

/// The place of a name in a list of names, the last one if there are several.
pub fn find_name(names: &Vec<Vec<char>>, name: &Vec<char>) -> (r: Option<usize>)
    ensures
        match r {
            Some(k) => last_index(spelled(names@), name@) == Some(k as int),
            None => last_index(spelled(names@), name@) is None,
        },
{
    let ghost all = spelled(names@);
    let mut i: usize = names.len();
    assert(all.take(i as int) =~= all);
    while i > 0
        invariant
            i <= names@.len(),
            all == spelled(names@),
            last_index(all.take(i as int), name@) == last_index(all, name@),
        decreases i,
    {
        i -= 1;
        assert(all.take(i + 1).drop_last() =~= all.take(i as int));
        assert(all.take(i + 1).last() == names@[i as int]@);
        if same(&names[i], name) {
            return Some(i);
        }
    }
    assert(all.take(0) =~= seq![]);
    None
}

impl<T: Scalar> Loader<T> {
    fn new() -> (r: Loader<T>)
        ensures
            r.wf(),
            r.model() == MeshModel::<T>::empty(),
    {
        let r = Loader {
            mesh: Mesh {
                nodes: Vec::new(),
                tets: Vec::new(),
                tris: Vec::new(),
                names: Vec::new(),
            },
            labels: Vec::new(),
            index: HashMap::new(),
            ids: Ghost(Seq::empty()),
        };
        proof {
            let e = MeshModel::<T>::empty();
            assert(r.model().nodes =~= e.nodes);
            assert(r.model().tets =~= e.tets);
            assert(r.model().tris =~= e.tris);
            assert(r.model().names =~= e.names);
            assert(r.model().labels =~= e.labels);
        }
        r
    }

    fn add_name(&mut self, line: &Vec<Word<T>>) -> (r: Result<(), MeshError>)
        requires
            old(self).wf(),
        ensures
            final(self).wf(),
            match name_line(old(self).model(), line_view(line@)) {
                Ok(m) => r is Ok && final(self).model() == m,
                Err(e) => r == Err::<(), MeshError>(e),
            },
    {
        if line.len() < 2 {
            return Err(MeshError::BadName);
        }
        let dim: i64 = word_id(&line[0].text);
        let id: i64 = word_id(&line[1].text);
        let quoted = join_words(line, 2);
        let name = unquote(&quoted);
        let ghost before = label_view(self.labels@);
        let ghost label = (dim, id, name@);
        self.labels.push(Label { dim, id, name });
        assert(label_view(self.labels@) =~= before.push(label));
        Ok(())
    }

    fn add_node(&mut self, line: &Vec<Word<T>>) -> (r: Result<(), MeshError>)
        requires
            old(self).wf(),
        ensures
            final(self).wf(),
            match node_line(old(self).model(), line_view(line@)) {
                Ok(m) => r is Ok && final(self).model() == m,
                Err(e) => r == Err::<(), MeshError>(e),
            },
    {
        if line.len() < 4 {
            return Err(MeshError::BadNode);
        }
        let id: i64 = word_value(&line[0]).as_i64();
        let p = V3 { x: word_value(&line[1]), y: word_value(&line[2]), z: word_value(&line[3]) };
        let ghost before = self.ids@;
        self.index.insert(id, self.mesh.nodes.len());
        self.mesh.nodes.push(p);
        self.ids = Ghost(self.ids@.push(id));
        proof {
            assert(self.ids@.drop_last() =~= before);
            assert forall|x: i64| #[trigger]
                self.index@.contains_key(x) <==> last_index(self.ids@, x) is Some by {}
        }
        Ok(())
    }

    fn corners(&self, line: &Vec<Word<T>>, from: usize) -> (r: Option<Vec<usize>>)
        requires
            self.wf(),
            from <= line@.len(),
        ensures
            match r {
                Some(v) => corners_of(
                    self.model().ids,
                    line_view(line@),
                    from as int,
                    line@.len() as int,
                ) == Some(v@) && v@.len() == line@.len() - from && forall|i: int|
                    0 <= i < v@.len() ==> #[trigger] v@[i] < self.mesh.nodes@.len(),
                None => corners_of(
                    self.model().ids,
                    line_view(line@),
                    from as int,
                    line@.len() as int,
                ) is None,
            },
    {
        let ghost tokens = line_view(line@);
        let mut v: Vec<usize> = Vec::new();
        let mut i: usize = from;
        assert(v@ =~= seq![]);
        let mut missing: bool = false;
        while i < line.len()
            invariant
                self.wf(),
                from <= i <= line@.len(),
                tokens == line_view(line@),
                missing ==> corners_of(self.ids@, tokens, from as int, i as int) is None,
                !missing ==> corners_of(self.ids@, tokens, from as int, i as int) == Some(v@)
                    && v@.len() == i - from,
                forall|k: int| 0 <= k < v@.len() ==> #[trigger] v@[k] < self.mesh.nodes@.len(),
            decreases line@.len() - i,
        {
            let id: i64 = word_id(&line[i].text);
            assert(tokens[i as int].text == line@[i as int].text@);
            proof {
                lemma_last_index(self.ids@, id);
            }
            match self.index.get(&id) {
                Some(k) => {
                    v.push(*k);
                },
                None => {
                    missing = true;
                },
            }
            i += 1;
        }
        if missing {
            None
        } else {
            Some(v)
        }
    }

    fn add_element(&mut self, line: &Vec<Word<T>>) -> (r: Result<(), MeshError>)
        requires
            old(self).wf(),
        ensures
            final(self).wf(),
            match element_line(old(self).model(), line_view(line@)) {
                Ok(m) => r is Ok && final(self).model() == m,
                Err(e) => r == Err::<(), MeshError>(e),
            },
    {
        if line.len() < 3 {
            return Err(MeshError::BadElement);
        }
        let ghost tokens = line_view(line@);
        let kind: i64 = word_id(&line[1].text);
        let tags: i64 = word_id(&line[2].text);
        if kind != 2 && kind != 4 {
            return Ok(());
        }
        if tags < 0 || tags as u64 > (line.len() - 3) as u64 {
            return Err(MeshError::BadElement);
        }
        let from: usize = 3 + tags as usize;
        let dim: i64 = if kind == 2 {
            2
        } else {
            3
        };
        let id: i64 = if tags >= 1 {
            word_id(&line[3].text)
        } else {
            0
        };
        let name = group_name(&self.labels, dim, id);
        let need: usize = if kind == 2 {
            3
        } else {
            4
        };
        if line.len() - from < need {
            return Err(MeshError::FewNodes);
        }
        match self.corners(line, from) {
            None => Err(MeshError::UnknownNode),
            Some(mut all) => {
                let ghost given = all@;
                all.truncate(need);
                assert(all@ =~= given.take(need as int));
                sort_few(&mut all);
                assert forall|i: int| 0 <= i < all@.len() implies #[trigger] all@[i]
                    < self.mesh.nodes@.len() by {
                    let x = all@[i];
                    assert(given.take(need as int).contains(x));
                    let k = choose|k: int|
                        0 <= k < given.take(need as int).len() && given.take(need as int)[k] == x;
                    assert(given[k] < self.mesh.nodes@.len());
                }
                let group: usize = self.group(name);
                if kind == 2 {
                    self.mesh.tris.push(Tri { a: all[0], b: all[1], c: all[2], group });
                } else {
                    self.mesh.tets.push(Tet { a: all[0], b: all[1], c: all[2], d: all[3], group });
                }
                Ok(())
            },
        }
    }

    /// The number of the group with the given name; a new name gets the next one.
    fn group(&mut self, name: Vec<char>) -> (r: usize)
        requires
            old(self).wf(),
        ensures
            final(self).wf(),
            final(self).model() == (MeshModel {
                names: with_name(old(self).model().names, name@),
                ..old(self).model()
            }),
            last_index(with_name(old(self).model().names, name@), name@) == Some(r as int),
            r < final(self).mesh.names@.len(),
            final(self).mesh.nodes@ == old(self).mesh.nodes@,
    {
        let ghost names = spelled(self.mesh.names@);
        proof {
            lemma_last_index(names, name@);
        }
        match find_name(&self.mesh.names, &name) {
            Some(k) => k,
            None => {
                let k: usize = self.mesh.names.len();
                let ghost text = name@;
                let ghost before = self.mesh.names@;
                self.mesh.names.push(name);
                proof {
                    assert(spelled(self.mesh.names@) =~= names.push(text));
                    assert forall|i: int, j: int|
                        0 <= i < j < self.mesh.names@.len() implies (
                    #[trigger] self.mesh.names@[i])@ != (#[trigger] self.mesh.names@[j])@ by {
                        assert(before[i] == self.mesh.names@[i]);
                        if j < before.len() {
                            assert(before[j] == self.mesh.names@[j]);
                        } else {
                            assert(names[i] == before[i]@);
                        }
                    }
                }
                k
            },
        }
    }

    fn add_line(&mut self, kind: Section, line: &Vec<Word<T>>) -> (r: Result<(), MeshError>)
        requires
            old(self).wf(),
        ensures
            final(self).wf(),
            match section_line(kind, old(self).model(), line_view(line@)) {
                Ok(m) => r is Ok && final(self).model() == m,
                Err(e) => r == Err::<(), MeshError>(e),
            },
    {
        match kind {
            Section::Names => self.add_name(line),
            Section::Nodes => self.add_node(line),
            Section::Elements => self.add_element(line),
        }
    }
}

fn heading<T>(line: &Vec<Word<T>>, word: &str) -> (r: bool)
    ensures
        r == is_heading(line_view(line@), word@),
{
    line.len() == 1 && equals(&line[0].text, word)
}

fn opened<T>(line: &Vec<Word<T>>) -> (r: Option<Section>)
    ensures
        r == section_of(line_view(line@)),
{
    if heading(line, "$PhysicalNames") {
        Some(Section::Names)
    } else if heading(line, "$Nodes") {
        Some(Section::Nodes)
    } else if heading(line, "$Elements") {
        Some(Section::Elements)
    } else {
        None
    }
}

fn line_count<T>(line: &Vec<Word<T>>) -> (r: Option<usize>)
    ensures
        r == count_of(line_view(line@)),
{
    if line.len() == 1 {
        parse_usize(&line[0].text)
    } else {
        None
    }
}

fn is_supported<T>(line: &Vec<Word<T>>) -> (r: bool)
    ensures
        r == supported(line_view(line@)),
{
    if line.len() == 0 || line[0].text.len() < 3 {
        return false;
    }
    let mut start = copy_text(&line[0].text);
    start.truncate(3);
    assert(start@ =~= line@[0].text@.take(3));
    equals(&start, "2.2")
}

/// Reads a mesh.
pub fn load_mesh<T: Scalar>(page: &Vec<Vec<Word<T>>>) -> (r: Result<Mesh<T>, MeshError>)
    ensures
        match mesh_model(page_view(page@)) {
            Ok(m) => r matches Ok(mesh) && mesh.matches(m) && mesh.wf(),
            Err(e) => r matches Err(f) && e == f,
        },
{
    let ghost all = page_view(page@);
    let mut loader = Loader::<T>::new();
    let mut i: usize = 0;
    while i < page.len()
        invariant
            i <= page@.len(),
            all == page_view(page@),
            loader.wf(),
            scan(all, i as int, loader.model()) == scan(all, 0, MeshModel::empty()),
        decreases page@.len() - i,
    {
        assert(all[i as int] == line_view(page@[i as int]@));
        if heading(&page[i], "$MeshFormat") {
            if i + 1 >= page.len() {
                return Err(MeshError::Ends);
            }
            assert(all[i + 1] == line_view(page@[i + 1]@));
            if !is_supported(&page[i + 1]) {
                return Err(MeshError::Version);
            }
            i += 2;
        } else {
            match opened(&page[i]) {
                None => {
                    i += 1;
                },
                Some(kind) => {
                    if i + 1 >= page.len() {
                        return Err(MeshError::Ends);
                    }
                    assert(all[i + 1] == line_view(page@[i + 1]@));
                    let count: usize = match line_count(&page[i + 1]) {
                        None => {
                            return Err(MeshError::BadCount);
                        },
                        Some(count) => count,
                    };
                    let ghost start = i;
                    i += 2;
                    let mut left: usize = count;
                    while left > 0
                        invariant
                            start < i <= page@.len(),
                            all == page_view(page@),
                            loader.wf(),
                            scan_section(all, i as int, loader.model(), kind, left as int) == scan(
                                all,
                                0,
                                MeshModel::empty(),
                            ),
                        decreases left,
                    {
                        if i >= page.len() {
                            return Err(MeshError::Ends);
                        }
                        assert(all[i as int] == line_view(page@[i as int]@));
                        match loader.add_line(kind, &page[i]) {
                            Err(e) => {
                                return Err(e);
                            },
                            Ok(_) => {},
                        }
                        i += 1;
                        left -= 1;
                    }
                },
            }
        }
    }
    if loader.mesh.tets.len() == 0 {
        return Err(MeshError::NoTets);
    }
    Ok(loader.mesh)
}

/// `r` is what a page of the text holds, with numbers that `read` gives.
pub open spec fn mesh_read<T: Number, F: Fn(&Vec<char>) -> Option<T>>(
    text: Seq<char>,
    read: F,
    r: Result<Mesh<T>, MeshError>,
) -> bool {
    exists|page: Seq<Vec<Word<T>>>| #[trigger]
        page_of(text, read, page) && (match mesh_model(page_view(page)) {
            Ok(m) => r matches Ok(mesh) && mesh.matches(m),
            Err(e) => r matches Err(f) && e == f,
        })
}

/// Reads the mesh in a text; `read` gives the number that a word spells.
pub fn parse_msh<T: Scalar, F: Fn(&Vec<char>) -> Option<T>>(text: &str, read: F) -> (r: Result<
    Mesh<T>,
    MeshError,
>)
    requires
        forall|w: &Vec<char>| #[trigger] call_requires(read, (w,)),
    ensures
        mesh_read(text@, read, r),
        r matches Ok(mesh) ==> mesh.wf(),
{
    let page = read_page(text, read);
    load_mesh(&page)
}

} // verus!
