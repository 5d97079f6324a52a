//! What each card of a deck says.

use crate::deck::{
    arguments, card, checked_mat, is_property, number_at, properties, vacuum, with_property,
    DeckError, DeckModel, Mat, Output,
};
use crate::page::Token;
use crate::scalar::{Algebra, Number, V3};
use crate::text::{lower, lowered};
use vstd::prelude::*;

verus! {

// ---------------------------------------------------------------- keys

/// Lower case moves each capital letter by the way from `A` to `a`, and leaves what is
/// none.
pub proof fn lemma_lower(c: char)
    ensures
        'A' <= c <= 'Z' ==> lower(c) as int - 'a' as int == c as int - 'A' as int,
        !('A' <= c <= 'Z') ==> lower(c) == c,
        lower(lower(c)) == lower(c),
{
}

/// A card means the same however its key is capitalized.
pub proof fn lemma_key_case<T: Number>(
    d: DeckModel<T>,
    no: usize,
    line: Seq<Token<T>>,
    key: Token<T>,
)
    requires
        line.len() > 0,
        lowered(key.text) == lowered(line[0].text),
    ensures
        card(d, no, line.update(0, key)) == card(d, no, line),
{
    let other = line.update(0, key);
    assert(forall|k: int| 1 <= k < line.len() ==> other[k] == line[k]);
    assert(arguments(other) =~= arguments(line));
    lemma_same_properties(no, line, other, 2, vacuum::<T>());
}

proof fn lemma_same_properties<T>(
    no: usize,
    line: Seq<Token<T>>,
    other: Seq<Token<T>>,
    k: int,
    mat: Mat<T>,
)
    requires
        other.len() == line.len(),
        0 <= k,
        forall|i: int| k <= i < line.len() ==> other[i] == #[trigger] line[i],
    ensures
        properties(no, other, k, mat) == properties(no, line, k, mat),
    decreases line.len() - k,
{
    if k < line.len() {
        assert(other[k] == line[k]);
        let key = lowered(line[k].text);
        if is_property(key) && k + 1 < line.len() {
            assert(other[k + 1] == line[k + 1]);
            match number_at(no, line, k + 1) {
                Ok(v) => {
                    lemma_same_properties(no, line, other, k + 2, with_property(mat, key, v).unwrap());
                },
                Err(_) => {},
            }
        }
    }
}

// ---------------------------------------------------------------- materials

/// The word at `p` is the last that names the property, among every second word from `k`
/// on.
pub open spec fn is_given<T>(line: Seq<Token<T>>, k: int, key: Seq<char>, p: int) -> bool {
    &&& k <= p < line.len()
    &&& (p - k) % 2 == 0
    &&& lowered(line[p].text) == key
    &&& forall|q: int|
        p < q < line.len() && (q - k) % 2 == 0 ==> lowered((#[trigger] line[q]).text) != key
}

/// The property has the number behind the last word that names it, and without such a
/// word the value that it had.
pub open spec fn is_set<T>(
    line: Seq<Token<T>>,
    k: int,
    key: Seq<char>,
    before: T,
    after: T,
) -> bool {
    &&& forall|p: int| #[trigger]
        is_given(line, k, key, p) ==> p + 1 < line.len() && line[p + 1].num == Some(after)
    &&& (forall|p: int| !#[trigger] is_given(line, k, key, p)) ==> after == before
}

proof fn lemma_given_later<T>(line: Seq<Token<T>>, k: int, l: int, key: Seq<char>)
    requires
        0 <= k,
        k + 1 < line.len(),
        l == k + 2,
    ensures
        forall|p: int| #[trigger] is_given(line, l, key, p) ==> is_given(line, k, key, p),
        forall|p: int| #[trigger]
            is_given(line, k, key, p) ==> p == k || is_given(line, l, key, p),
        lowered(line[k].text) == key && (forall|p: int| !is_given(line, l, key, p))
            ==> is_given(line, k, key, k),
        is_given(line, k, key, k) ==> lowered(line[k].text) == key && forall|p: int|
            !is_given(line, l, key, p),
{
    assert forall|p: int| #[trigger] is_given(line, k, key, p) implies p == k || is_given(
        line,
        l,
        key,
        p,
    ) by {}
    assert forall|p: int| #[trigger] is_given(line, l, key, p) implies is_given(
        line,
        k,
        key,
        p,
    ) by {}
    if is_given(line, k, key, k) {
        assert forall|p: int| !is_given(line, l, key, p) by {
            if is_given(line, l, key, p) {
                assert(lowered(line[p].text) != key);
            }
        }
    }
    if lowered(line[k].text) == key && (forall|p: int| !is_given(line, l, key, p)) {
        assert forall|q: int| k < q < line.len() && (q - k) % 2 == 0 implies lowered(
            (#[trigger] line[q]).text,
        ) != key by {
            if lowered(line[q].text) == key {
                lemma_some_last(line, l, key, q);
            }
        }
    }
}

/// Where a word names the property there is a last such word.
proof fn lemma_some_last<T>(line: Seq<Token<T>>, k: int, key: Seq<char>, q: int)
    requires
        k <= q < line.len(),
        (q - k) % 2 == 0,
        lowered(line[q].text) == key,
    ensures
        exists|p: int| is_given(line, k, key, p),
    decreases line.len() - q,
{
    if exists|r: int|
        q < r < line.len() && (r - k) % 2 == 0 && lowered((#[trigger] line[r]).text) == key {
        let r = choose|r: int|
            q < r < line.len() && (r - k) % 2 == 0 && lowered((#[trigger] line[r]).text) == key;
        lemma_some_last(line, k, key, r);
    } else {
        assert(is_given(line, k, key, q));
    }
}

proof fn lemma_set_later<T>(
    line: Seq<Token<T>>,
    k: int,
    l: int,
    key: Seq<char>,
    before: T,
    mid: T,
    after: T,
    v: T,
)
    requires
        0 <= k,
        k + 1 < line.len(),
        l == k + 2,
        line[k + 1].num == Some(v),
        mid == (if lowered(line[k].text) == key {
            v
        } else {
            before
        }),
        is_set(line, l, key, mid, after),
    ensures
        is_set(line, k, key, before, after),
{
    lemma_given_later(line, k, l, key);
    if lowered(line[k].text) == key && (forall|p: int| !is_given(line, l, key, p)) {
        assert(is_given(line, k, key, k));
        assert(after == mid);
    }
    assert forall|p: int| #[trigger] is_given(line, k, key, p) implies p + 1 < line.len()
        && line[p + 1].num == Some(after) by {
        if p != k {
            assert(is_given(line, l, key, p));
        }
    }
    if forall|p: int| !#[trigger] is_given(line, k, key, p) {
        assert forall|p: int| !#[trigger] is_given(line, l, key, p) by {
            if is_given(line, l, key, p) {
                assert(is_given(line, k, key, p));
            }
        }
    }
}

/// The properties on a material card: each has the number behind the last word that names
/// it, in whatever order they stand.
pub proof fn lemma_properties<T>(no: usize, line: Seq<Token<T>>, k: int, mat: Mat<T>)
    requires
        0 <= k,
    ensures
        properties(no, line, k, mat) matches Ok(m) ==> {
            &&& is_set(line, k, "eps"@, mat.eps, m.eps)
            &&& is_set(line, k, "tand"@, mat.tand, m.tand)
            &&& is_set(line, k, "mur"@, mat.mur, m.mur)
            &&& is_set(line, k, "sigma"@, mat.sigma, m.sigma)
        },
    decreases line.len() - k,
{
    lemma_keys_differ();
    if k < line.len() {
        let key = lowered(line[k].text);
        match properties(no, line, k, mat) {
            Ok(m) => {
                let v = line[k + 1].num.unwrap();
                let next = with_property(mat, key, v).unwrap();
                lemma_properties(no, line, k + 2, next);
                lemma_set_later(line, k, k + 2, "eps"@, mat.eps, next.eps, m.eps, v);
                lemma_set_later(line, k, k + 2, "tand"@, mat.tand, next.tand, m.tand, v);
                lemma_set_later(line, k, k + 2, "mur"@, mat.mur, next.mur, m.mur, v);
                lemma_set_later(line, k, k + 2, "sigma"@, mat.sigma, next.sigma, m.sigma, v);
            },
            Err(_) => {},
        }
    }
}

proof fn lemma_keys_differ()
    ensures
        "eps"@ != "tand"@,
        "eps"@ != "mur"@,
        "eps"@ != "sigma"@,
        "tand"@ != "mur"@,
        "tand"@ != "sigma"@,
        "mur"@ != "sigma"@,
{
    reveal_strlit("eps");
    reveal_strlit("tand");
    reveal_strlit("mur");
    reveal_strlit("sigma");
    assert("eps"@[0] == 'e' && "mur"@[0] == 'm' && "tand"@[0] == 't' && "sigma"@[0] == 's');
}

/// A material is refused where its permittivity or its permeability is not positive, or
/// its loss tangent is negative, and is kept as it is otherwise.
pub proof fn lemma_material<T: Number>(mat: Mat<T>)
    ensures
        match checked_mat(mat) {
            Ok(m) => m == mat && T::zero().less(mat.eps) && T::zero().less(mat.mur)
                && !mat.tand.less(T::zero()),
            Err(e) => {
                ||| e is Eps && !T::zero().less(mat.eps)
                ||| e is Tand && mat.tand.less(T::zero())
                ||| e is Mur && !T::zero().less(mat.mur)
            },
        },
{
}

// ---------------------------------------------------------------- cards

/// The card has the given key, in whatever case.
pub open spec fn has_key<T>(line: Seq<Token<T>>, key: Seq<char>) -> bool {
    line.len() > 0 && lowered(line[0].text) == key
}

/// The numbers that three words in a row spell.
pub open spec fn spells<T>(line: Seq<Token<T>>, k: int, v: V3<T>) -> bool {
    line[k].num == Some(v.x) && line[k + 1].num == Some(v.y) && line[k + 2].num == Some(v.z)
}

/// Cards with names and numbers only: a mesh card names the file, cards for perfect
/// conductors and for absorbing boundaries add all the groups that they name, a conductor
/// card adds a group with its conductivity, a card for a matched layer a group with its
/// stretch along the three axes, a field card names the file and the frequency, and an
/// output card the format. Each leaves the rest of the deck as it was.
pub proof fn lemma_plain_cards<T: Number>(
    d: DeckModel<T>,
    no: usize,
    line: Seq<Token<T>>,
    x: T,
    v: V3<T>,
)
    requires
        line.len() > 0,
    ensures
        has_key(line, "mesh"@) && line.len() == 2 ==> card(d, no, line) == Ok::<_, DeckError>(
            (DeckModel { mesh: Some(line[1].text), ..d }),
        ),
        has_key(line, "pec"@) && line.len() >= 2 ==> (card(d, no, line) matches Ok(e) && e == (
        DeckModel { pec: e.pec, ..d }) && e.pec == d.pec + arguments(line)),
        has_key(line, "abc"@) && line.len() >= 2 ==> (card(d, no, line) matches Ok(e) && e == (
        DeckModel { abc: e.abc, ..d }) && e.abc == d.abc + arguments(line)),
        arguments(line).len() == line.len() - 1 && forall|i: int|
            1 <= i < line.len() ==> arguments(line)[i - 1] == (#[trigger] line[i]).text,
        has_key(line, "metal"@) && line.len() == 3 && line[2].num == Some(x) ==> card(d, no, line)
            == Ok::<_, DeckError>((DeckModel { metals: d.metals.push((line[1].text, x)), ..d })),
        has_key(line, "pml"@) && line.len() == 5 && spells(line, 2, v) ==> card(d, no, line)
            == Ok::<_, DeckError>((DeckModel { pmls: d.pmls.push((line[1].text, v)), ..d })),
        has_key(line, "field"@) && line.len() == 3 && line[2].num == Some(x) ==> card(d, no, line)
            == Ok::<_, DeckError>((DeckModel { field: Some((line[1].text, x)), ..d })),
        has_key(line, "output"@) && line.len() == 2 && line[1].text == "s"@ ==> card(d, no, line)
            == Ok::<_, DeckError>((DeckModel { output: Output::S, ..d })),
        has_key(line, "output"@) && line.len() == 2 && line[1].text == "z"@ ==> card(d, no, line)
            == Ok::<_, DeckError>((DeckModel { output: Output::Z, ..d })),
        has_key(line, "output"@) && line.len() == 2 && line[1].text == "y"@ ==> card(d, no, line)
            == Ok::<_, DeckError>((DeckModel { output: Output::Y, ..d })),
        has_key(line, "output"@) && line.len() == 2 && line[1].text == "lq"@ ==> card(d, no, line)
            == Ok::<_, DeckError>((DeckModel { output: Output::Lq, ..d })),
{
    lemma_card_keys();
    lemma_outputs();
}

/// A material card adds its group with the properties on it, vacuum where it names none;
/// one that cannot exist is refused.
pub proof fn lemma_material_card<T: Number>(d: DeckModel<T>, no: usize, line: Seq<Token<T>>)
    requires
        has_key(line, "mat"@),
        line.len() >= 4,
    ensures
        card(d, no, line) matches Ok(e) ==> {
            let (group, mat) = e.mats.last();
            &&& e == (DeckModel { mats: d.mats.push((group, mat)), ..d })
            &&& group == line[1].text
            &&& is_set(line, 2, "eps"@, T::one(), mat.eps)
            &&& is_set(line, 2, "tand"@, T::zero(), mat.tand)
            &&& is_set(line, 2, "mur"@, T::one(), mat.mur)
            &&& is_set(line, 2, "sigma"@, T::zero(), mat.sigma)
            &&& T::zero().less(mat.eps) && T::zero().less(mat.mur) && !mat.tand.less(T::zero())
        },
        card(d, no, line) matches Err(e) ==> e is BadCard || e is BadNumber || e is Eps || e is Tand
            || e is Mur,
{
    lemma_card_keys();
    lemma_properties(no, line, 2, vacuum::<T>());
    lemma_property_errors(no, line, 2, vacuum::<T>());
}

proof fn lemma_property_errors<T>(no: usize, line: Seq<Token<T>>, k: int, mat: Mat<T>)
    ensures
        properties(no, line, k, mat) matches Err(e) ==> e is BadCard || e is BadNumber,
    decreases line.len() - k,
{
    if k < line.len() {
        let key = lowered(line[k].text);
        if is_property(key) && k + 1 < line.len() {
            match number_at(no, line, k + 1) {
                Ok(v) => {
                    lemma_property_errors(no, line, k + 2, with_property(mat, key, v).unwrap());
                },
                Err(_) => {},
            }
        }
    }
}

/// A sweep card sets both frequencies and the number of points; the first frequency must
/// be positive, and the second too where there is more than one point.
pub proof fn lemma_sweep_card<T: Number>(
    d: DeckModel<T>,
    no: usize,
    line: Seq<Token<T>>,
    v: V3<T>,
)
    requires
        has_key(line, "sweep"@),
        line.len() == 5,
        line[1].text == "lin"@,
        spells(line, 2, v),
    ensures
        match card(d, no, line) {
            Ok(e) => {
                &&& e == (DeckModel { f0: v.x, f1: v.y, nf: v.z.to_count(), ..d })
                &&& T::zero().less(e.f0)
                &&& e.nf > 1 ==> T::zero().less(e.f1)
            },
            Err(e) => e is Frequency && (!T::zero().less(v.x) || (v.z.to_count() > 1
                && !T::zero().less(v.y))),
        },
{
    lemma_card_keys();
}

/// A port card adds the port with the next number, on the group and with the impedance
/// that it names, and with its direction brought to length one. Cards out of order, with
/// no direction or with an impedance that is not positive are refused.
pub proof fn lemma_port_card<T: Number>(
    d: DeckModel<T>,
    no: usize,
    line: Seq<Token<T>>,
    n: T,
    dir: V3<T>,
    z0: T,
)
    requires
        has_key(line, "port"@),
        line.len() == 7,
        line[1].num == Some(n),
        spells(line, 3, dir),
        line[6].num == Some(z0),
    ensures
        match card(d, no, line) {
            Ok(e) => {
                let port = e.ports.last();
                let l = dir.dot(dir).root();
                &&& e == (DeckModel { ports: d.ports.push(port), ..d })
                &&& e.ports.len() == n.to_count()
                &&& port.group == line[2].text
                &&& port.z0 == z0
                &&& T::zero().less(z0)
                &&& port.dir.x == dir.x * T::one().over(l)
                &&& port.dir.y == dir.y * T::one().over(l)
                &&& port.dir.z == dir.z * T::one().over(l)
                &&& !(l.at_most(T::zero()) && T::zero().at_most(l))
            },
            Err(e) => {
                let l = dir.dot(dir).root();
                ||| e is PortOrder && n.to_count() != d.ports.len() + 1
                ||| e is NoDirection && l.at_most(T::zero()) && T::zero().at_most(l)
                ||| e is Impedance && !T::zero().less(z0)
            },
        },
{
    lemma_card_keys();
}

proof fn lemma_outputs()
    ensures
        "s"@ != "z"@,
        "s"@ != "y"@,
        "s"@ != "lq"@,
        "z"@ != "y"@,
        "z"@ != "lq"@,
        "y"@ != "lq"@,
{
    reveal_strlit("s");
    reveal_strlit("z");
    reveal_strlit("y");
    reveal_strlit("lq");
    assert("s"@[0] == 's' && "z"@[0] == 'z' && "y"@[0] == 'y' && "lq"@[0] == 'l');
}

/// The length and the first two letters of a key tell it from all others.
spec fn begins(key: Seq<char>, n: nat, a: char, b: char) -> bool {
    key.len() == n && key[0] == a && key[1] == b
}

proof fn lemma_card_keys()
    ensures
        begins("mesh"@, 4, 'm', 'e'),
        begins("mat"@, 3, 'm', 'a'),
        begins("pec"@, 3, 'p', 'e'),
        begins("abc"@, 3, 'a', 'b'),
        begins("metal"@, 5, 'm', 'e'),
        begins("pml"@, 3, 'p', 'm'),
        begins("port"@, 4, 'p', 'o'),
        begins("sweep"@, 5, 's', 'w'),
        begins("output"@, 6, 'o', 'u'),
        begins("field"@, 5, 'f', 'i'),
{
    reveal_strlit("mesh");
    reveal_strlit("mat");
    reveal_strlit("pec");
    reveal_strlit("abc");
    reveal_strlit("metal");
    reveal_strlit("pml");
    reveal_strlit("port");
    reveal_strlit("sweep");
    reveal_strlit("output");
    reveal_strlit("field");
}

} // verus!
