//! What of a mesh file counts: the entries of the known sections, without elements of
//! other types than triangles and tetrahedra. Everything else may be there or not.

use crate::msh::{
    count_of, id_of, is_heading, mesh_model, mesh_read, scan, scan_section, section_line,
    section_of, supported, Mesh, MeshError, MeshModel, Section,
};
use crate::page::{
    lemma_page_of, lemma_tokens_joined, page_of, page_view, reads, tokens, Token, Word,
};
use crate::scalar::Number;
use crate::text::{lines_of, spelled};
use vstd::prelude::*;

verus! {

/// An element line of another type than a triangle or a tetrahedron.
pub open spec fn is_other_element<T>(line: Seq<Token<T>>) -> bool {
    line.len() >= 3 && id_of(line[1].text) != 2 && id_of(line[1].text) != 4
}

/// The entries that count, from line `i` of a mesh file on; none where a section is cut
/// short, has no count, or the format is another.
pub open spec fn kept<T>(page: Seq<Seq<Token<T>>>, i: int) -> Option<
    Seq<(Section, Seq<Token<T>>)>,
>
    decreases page.len() - i, 0int,
{
    if i < 0 || i >= page.len() {
        Some(seq![])
    } else if is_heading(page[i], "$MeshFormat"@) {
        if i + 1 >= page.len() || !supported(page[i + 1]) {
            None
        } else {
            kept(page, i + 2)
        }
    } else {
        match section_of(page[i]) {
            None => kept(page, i + 1),
            Some(kind) => if i + 1 >= page.len() {
                None
            } else {
                match count_of(page[i + 1]) {
                    None => None,
                    Some(count) => kept_section(page, i + 2, kind, count as int),
                }
            },
        }
    }
}

/// The entries that count among the next `count` lines of a section, and those after it.
pub open spec fn kept_section<T>(
    page: Seq<Seq<Token<T>>>,
    i: int,
    kind: Section,
    count: int,
) -> Option<Seq<(Section, Seq<Token<T>>)>>
    decreases page.len() - i, 1int,
{
    if count <= 0 {
        kept(page, i)
    } else if i < 0 || i >= page.len() {
        None
    } else {
        match kept_section(page, i + 1, kind, count - 1) {
            None => None,
            Some(rest) => if kind == Section::Elements && is_other_element(page[i]) {
                Some(rest)
            } else {
                Some(seq![(kind, page[i])] + rest)
            },
        }
    }
}

/// What a list of entries adds to what has been read.
pub open spec fn entered<T: Number>(
    entries: Seq<(Section, Seq<Token<T>>)>,
    m: MeshModel<T>,
) -> Result<MeshModel<T>, MeshError>
    decreases entries.len(),
{
    if entries.len() == 0 {
        Ok(m)
    } else {
        match section_line(entries[0].0, m, entries[0].1) {
            Err(e) => Err(e),
            Ok(next) => entered(entries.skip(1), next),
        }
    }
}

proof fn lemma_scan_kept<T: Number>(page: Seq<Seq<Token<T>>>, i: int, m: MeshModel<T>)
    ensures
        match kept(page, i) {
            Some(entries) => scan(page, i, m) == entered(entries, m),
            None => scan(page, i, m) is Err,
        },
    decreases page.len() - i, 0int,
{
    if 0 <= i < page.len() {
        if is_heading(page[i], "$MeshFormat"@) {
            if i + 1 < page.len() {
                lemma_scan_kept(page, i + 2, m);
            }
        } else {
            match section_of(page[i]) {
                None => {
                    lemma_scan_kept(page, i + 1, m);
                },
                Some(kind) => {
                    if i + 1 < page.len() {
                        match count_of(page[i + 1]) {
                            None => {},
                            Some(count) => {
                                lemma_section_kept(page, i + 2, m, kind, count as int);
                            },
                        }
                    }
                },
            }
        }
    }
}

proof fn lemma_section_kept<T: Number>(
    page: Seq<Seq<Token<T>>>,
    i: int,
    m: MeshModel<T>,
    kind: Section,
    count: int,
)
    ensures
        match kept_section(page, i, kind, count) {
            Some(entries) => scan_section(page, i, m, kind, count) == entered(entries, m),
            None => scan_section(page, i, m, kind, count) is Err,
        },
    decreases page.len() - i, 1int,
{
    if count <= 0 {
        lemma_scan_kept(page, i, m);
    } else if 0 <= i < page.len() {
        match section_line(kind, m, page[i]) {
            Ok(next) => {
                lemma_section_kept(page, i + 1, next, kind, count - 1);
            },
            Err(_) => {},
        }
        match kept_section(page, i + 1, kind, count - 1) {
            None => {},
            Some(rest) => {
                assert((seq![(kind, page[i])] + rest).skip(1) =~= rest);
            },
        }
    }
}

/// Two mesh files with the same entries that count give the same mesh, or are refused
/// for the same reason.
pub proof fn lemma_entries_alone<T: Number>(p: Seq<Seq<Token<T>>>, q: Seq<Seq<Token<T>>>)
    requires
        kept(p, 0) == kept(q, 0),
    ensures
        mesh_model(p) is Ok <==> mesh_model(q) is Ok,
        kept(p, 0) is Some ==> mesh_model(q) == mesh_model(p),
        mesh_model(p) is Ok ==> mesh_model(q) == mesh_model(p),
{
    lemma_scan_kept(p, 0, MeshModel::empty());
    lemma_scan_kept(q, 0, MeshModel::empty());
}

// ---------------------------------------------------------------- lines put in

/// The line at which reading goes on after the line or the section at `i`.
pub open spec fn after<T>(page: Seq<Seq<Token<T>>>, i: int) -> int {
    if is_heading(page[i], "$MeshFormat"@) {
        i + 2
    } else {
        match section_of(page[i]) {
            None => i + 1,
            Some(_) => match count_of(page[i + 1]) {
                None => i + 2,
                Some(count) => i + 2 + count,
            },
        }
    }
}

/// Line `k` stands outside the known sections, as seen from line `i`, which does.
pub open spec fn is_between<T>(page: Seq<Seq<Token<T>>>, i: int, k: int) -> bool
    decreases k - i,
{
    if i == k {
        true
    } else if i > k || i < 0 {
        false
    } else {
        after(page, i) <= k && is_between(page, after(page, i), k)
    }
}

/// The line opens no known section.
pub open spec fn is_unknown<T>(line: Seq<Token<T>>) -> bool {
    !is_heading(line, "$MeshFormat"@) && section_of(line) is None
}

/// From line `from` on, `q` holds the lines of `p`, `by` places further.
spec fn shifted<T>(p: Seq<Seq<Token<T>>>, q: Seq<Seq<Token<T>>>, from: int, by: int) -> bool {
    &&& 0 <= from
    &&& 0 <= by
    &&& q.len() == p.len() + by
    &&& forall|x: int| from <= x < p.len() ==> q[x + by] == #[trigger] p[x]
}

proof fn lemma_kept_shifted<T>(
    p: Seq<Seq<Token<T>>>,
    q: Seq<Seq<Token<T>>>,
    from: int,
    by: int,
    i: int,
)
    requires
        shifted(p, q, from, by),
        from <= i,
    ensures
        kept(q, i + by) == kept(p, i),
    decreases p.len() - i, 0int,
{
    if i < p.len() {
        assert(q[i + by] == p[i]);
        if i + 1 < p.len() {
            assert(q[i + 1 + by] == p[i + 1]);
        }
        if is_heading(p[i], "$MeshFormat"@) {
            if i + 1 < p.len() {
                lemma_kept_shifted(p, q, from, by, i + 2);
            }
        } else {
            match section_of(p[i]) {
                None => {
                    lemma_kept_shifted(p, q, from, by, i + 1);
                },
                Some(kind) => {
                    if i + 1 < p.len() {
                        match count_of(p[i + 1]) {
                            None => {},
                            Some(count) => {
                                lemma_section_shifted(p, q, from, by, i + 2, kind, count as int);
                            },
                        }
                    }
                },
            }
        }
    }
}

proof fn lemma_section_shifted<T>(
    p: Seq<Seq<Token<T>>>,
    q: Seq<Seq<Token<T>>>,
    from: int,
    by: int,
    i: int,
    kind: Section,
    count: int,
)
    requires
        shifted(p, q, from, by),
        from <= i,
    ensures
        kept_section(q, i + by, kind, count) == kept_section(p, i, kind, count),
    decreases p.len() - i, 1int,
{
    if count <= 0 {
        lemma_kept_shifted(p, q, from, by, i);
    } else if i < p.len() {
        assert(q[i + by] == p[i]);
        lemma_section_shifted(p, q, from, by, i + 1, kind, count - 1);
    }
}

/// Two files that agree before line `k` and keep the same from there on.
proof fn lemma_kept_before<T>(p: Seq<Seq<Token<T>>>, q: Seq<Seq<Token<T>>>, i: int, k: int)
    requires
        0 <= i,
        k <= p.len(),
        k <= q.len(),
        forall|x: int| 0 <= x < k ==> q[x] == #[trigger] p[x],
        is_between(p, i, k),
        kept(q, k) == kept(p, k),
    ensures
        kept(q, i) == kept(p, i),
    decreases k - i, 0int,
{
    if i < k {
        assert(q[i] == p[i]);
        let next = after(p, i);
        assert(is_between(p, next, k));
        if i + 1 < k {
            assert(q[i + 1] == p[i + 1]);
        }
        lemma_kept_before(p, q, next, k);
        if !is_heading(p[i], "$MeshFormat"@) {
            match section_of(p[i]) {
                None => {},
                Some(kind) => {
                    match count_of(p[i + 1]) {
                        None => {},
                        Some(count) => {
                            lemma_section_before(p, q, i + 2, k, kind, count as int);
                        },
                    }
                },
            }
        }
    }
}

proof fn lemma_section_before<T>(
    p: Seq<Seq<Token<T>>>,
    q: Seq<Seq<Token<T>>>,
    i: int,
    k: int,
    kind: Section,
    count: int,
)
    requires
        0 <= i,
        0 <= count,
        i + count <= k,
        k <= p.len(),
        k <= q.len(),
        forall|x: int| 0 <= x < k ==> q[x] == #[trigger] p[x],
        kept(q, i + count) == kept(p, i + count),
    ensures
        kept_section(q, i, kind, count) == kept_section(p, i, kind, count),
    decreases count,
{
    if count > 0 {
        assert(q[i] == p[i]);
        lemma_section_before(p, q, i + 1, k, kind, count - 1);
    }
}

proof fn lemma_unknown_lines<T>(page: Seq<Seq<Token<T>>>, i: int, to: int)
    requires
        0 <= i <= to <= page.len(),
        forall|x: int| i <= x < to ==> is_unknown(#[trigger] page[x]),
    ensures
        kept(page, i) == kept(page, to),
    decreases to - i,
{
    if i < to {
        assert(is_unknown(page[i]));
        lemma_unknown_lines(page, i + 1, to);
    }
}

/// `page` with the lines `extra` put in before line `k`.
pub open spec fn with_lines<T>(
    page: Seq<Seq<Token<T>>>,
    k: int,
    extra: Seq<Seq<Token<T>>>,
) -> Seq<Seq<Token<T>>> {
    page.take(k) + extra + page.skip(k)
}

/// Unknown sections and other lines outside the known sections leave a mesh as it is.
pub proof fn lemma_unknown_sections<T: Number>(
    page: Seq<Seq<Token<T>>>,
    k: int,
    extra: Seq<Seq<Token<T>>>,
)
    requires
        0 <= k <= page.len(),
        is_between(page, 0, k),
        forall|i: int| 0 <= i < extra.len() ==> is_unknown(#[trigger] extra[i]),
    ensures
        kept(with_lines(page, k, extra), 0) == kept(page, 0),
        mesh_model(with_lines(page, k, extra)) is Ok <==> mesh_model(page) is Ok,
        mesh_model(page) is Ok ==> mesh_model(with_lines(page, k, extra)) == mesh_model(page),
{
    let wide = with_lines(page, k, extra);
    let by = extra.len() as int;
    assert forall|x: int| k <= x < page.len() implies wide[x + by] == #[trigger] page[x] by {
        assert(page.skip(k)[x - k] == page[x]);
    }
    assert forall|x: int| k <= x < k + by implies is_unknown(#[trigger] wide[x]) by {
        assert(wide[x] == extra[x - k]);
    }
    lemma_kept_shifted(page, wide, k, by, k);
    lemma_unknown_lines(wide, k, k + by);
    lemma_kept_before(page, wide, 0, k);
    lemma_entries_alone(page, wide);
}

/// Whole lines `block` that open no known section, put into a mesh file between the lines
/// of `a` and those of `b`, outside the known sections, leave a mesh as it is.
pub proof fn lemma_unknown_text<T: Number>(
    a: Seq<char>,
    block: Seq<char>,
    b: Seq<char>,
    num: spec_fn(Seq<char>) -> Option<T>,
)
    requires
        a.len() == 0 || a.last() == '\n',
        block.len() == 0 || block.last() == '\n',
        is_between(tokens(a + b, num), 0, lines_of(a).len() as int),
        forall|i: int|
            0 <= i < tokens(block, num).len() ==> is_unknown(#[trigger] tokens(block, num)[i]),
    ensures
        mesh_model(tokens(a + (block + b), num)) is Ok <==> mesh_model(tokens(a + b, num)) is Ok,
        mesh_model(tokens(a + b, num)) is Ok ==> mesh_model(tokens(a + (block + b), num))
            == mesh_model(tokens(a + b, num)),
{
    lemma_tokens_joined(a, b, num);
    lemma_tokens_joined(a, block + b, num);
    lemma_tokens_joined(block, b, num);
    let (p, q, r) = (tokens(a, num), tokens(block, num), tokens(b, num));
    assert(p + (q + r) =~= with_lines(p + r, p.len() as int, q));
    lemma_unknown_sections(p + r, p.len() as int, q);
}

/// Reading a mesh twice, once with unknown sections or lines more, gives the same mesh,
/// where the number of a word is always the same.
pub proof fn lemma_unknown_sections_read<T: Number, F: Fn(&Vec<char>) -> Option<T>>(
    a: Seq<char>,
    block: Seq<char>,
    b: Seq<char>,
    read: F,
    num: spec_fn(Seq<char>) -> Option<T>,
    r: Result<Mesh<T>, MeshError>,
    t: Result<Mesh<T>, MeshError>,
)
    requires
        a.len() == 0 || a.last() == '\n',
        block.len() == 0 || block.last() == '\n',
        is_between(tokens(a + b, num), 0, lines_of(a).len() as int),
        forall|i: int|
            0 <= i < tokens(block, num).len() ==> is_unknown(#[trigger] tokens(block, num)[i]),
        reads(read, num),
        mesh_read(a + b, read, r),
        mesh_read(a + (block + b), read, t),
    ensures
        r is Ok <==> t is Ok,
        (r, t) matches (Ok(m), Ok(n)) ==> m.nodes@ == n.nodes@ && m.tets@ == n.tets@ && m.tris@
            == n.tris@ && spelled(m.names@) == spelled(n.names@),
{
    let wide = a + (block + b);
    let p = choose|page: Seq<Vec<Word<T>>>| #[trigger]
        page_of(a + b, read, page) && (match mesh_model(page_view(page)) {
            Ok(m) => r matches Ok(mesh) && mesh.matches(m),
            Err(e) => r matches Err(f) && e == f,
        });
    let q = choose|page: Seq<Vec<Word<T>>>| #[trigger]
        page_of(wide, read, page) && (match mesh_model(page_view(page)) {
            Ok(m) => t matches Ok(mesh) && mesh.matches(m),
            Err(e) => t matches Err(f) && e == f,
        });
    lemma_page_of(a + b, read, p, num);
    lemma_page_of(wide, read, q, num);
    lemma_unknown_text(a, block, b, num);
}

proof fn lemma_other_lines<T>(page: Seq<Seq<Token<T>>>, i: int, to: int, count: int)
    requires
        0 <= i <= to <= page.len(),
        0 <= count,
        forall|x: int| i <= x < to ==> is_other_element(#[trigger] page[x]),
    ensures
        kept_section(page, i, Section::Elements, count + to - i) == kept_section(
            page,
            to,
            Section::Elements,
            count,
        ),
    decreases to - i,
{
    if i < to {
        assert(is_other_element(page[i]));
        lemma_other_lines(page, i + 1, to, count);
    }
}

/// A section of elements in which others are put in at line `j`.
proof fn lemma_section_widened<T>(
    p: Seq<Seq<Token<T>>>,
    q: Seq<Seq<Token<T>>>,
    i: int,
    j: int,
    by: int,
    count: int,
)
    requires
        shifted(p, q, j, by),
        0 <= i <= j <= i + count,
        j <= p.len(),
        forall|x: int| i <= x < j ==> q[x] == #[trigger] p[x],
        forall|x: int| j <= x < j + by ==> is_other_element(#[trigger] q[x]),
    ensures
        kept_section(q, i, Section::Elements, count + by) == kept_section(
            p,
            i,
            Section::Elements,
            count,
        ),
    decreases j - i,
{
    if i < j {
        assert(q[i] == p[i]);
        lemma_section_widened(p, q, i + 1, j, by, count - 1);
    } else {
        lemma_other_lines(q, j, j + by, count);
        lemma_section_shifted(p, q, j, by, j, Section::Elements, count);
    }
}

/// Elements of other types leave a mesh as it is: the section of elements at line `h`
/// gets the lines `extra` before line `j`, and its count, which `count_line` holds, is
/// raised to match.
pub proof fn lemma_other_elements<T: Number>(
    page: Seq<Seq<Token<T>>>,
    h: int,
    j: int,
    count_line: Seq<Token<T>>,
    extra: Seq<Seq<Token<T>>>,
)
    requires
        0 <= h,
        h + 2 <= j <= page.len(),
        is_between(page, 0, h),
        is_heading(page[h], "$Elements"@),
        count_of(page[h + 1]) matches Some(c) && j <= h + 2 + c,
        (count_of(page[h + 1]), count_of(count_line)) matches (Some(c), Some(d)) && d == c
            + extra.len(),
        forall|i: int| 0 <= i < extra.len() ==> is_other_element(#[trigger] extra[i]),
    ensures
        kept(with_lines(page.update(h + 1, count_line), j, extra), 0) == kept(page, 0),
        mesh_model(with_lines(page.update(h + 1, count_line), j, extra)) is Ok <==> mesh_model(
            page,
        ) is Ok,
        mesh_model(page) is Ok ==> mesh_model(
            with_lines(page.update(h + 1, count_line), j, extra),
        ) == mesh_model(page),
{
    let fixed = page.update(h + 1, count_line);
    let wide = with_lines(fixed, j, extra);
    let by = extra.len() as int;
    let count = count_of(page[h + 1]).unwrap() as int;
    assert forall|x: int| j <= x < page.len() implies wide[x + by] == #[trigger] page[x] by {
        assert(fixed.skip(j)[x - j] == page[x]);
    }
    assert forall|x: int| j <= x < j + by implies is_other_element(#[trigger] wide[x]) by {
        assert(wide[x] == extra[x - j]);
    }
    reveal_strlit("$Elements");
    reveal_strlit("$MeshFormat");
    reveal_strlit("$PhysicalNames");
    reveal_strlit("$Nodes");
    assert("$Elements"@.len() == 9 && "$MeshFormat"@.len() == 11 && "$PhysicalNames"@.len() == 14
        && "$Nodes"@.len() == 6);
    assert(section_of(page[h]) == Some(Section::Elements));
    assert(wide[h] == page[h]);
    assert(wide[h + 1] == count_line);
    lemma_section_widened(page, wide, h + 2, j, by, count);
    assert(kept(wide, h) == kept(page, h));
    lemma_kept_before(page, wide, 0, h);
    lemma_entries_alone(page, wide);
}

} // verus!
