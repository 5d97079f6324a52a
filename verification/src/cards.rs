//! What the cards of a deck mean, whatever stands around them and however long the
//! directions of the ports are written.

use crate::complex::{is_real_root, real_root, Real};
use crate::deck::{
    card, cards, deck_model, deck_read, is_blank, length, number_at, port_card, properties,
    vacuum, vector_at, with_property, Deck, DeckError, DeckModel, Mat,
};
use crate::page::{
    lemma_page_of, lemma_tokens_joined, page_of, page_view, reads, tokens, Token, Word,
};
use crate::reals::{
    real_cancel, real_distribute, real_mul_assoc, real_mul_comm, real_mul_one, real_mul_zero,
    real_no_divisors, real_product_nonnegative, real_quotient, real_same_square,
    real_square_of_product,
};
use crate::scalar::{Algebra, Number, V3};
use crate::text::{lemma_one_line, lemma_words, lines_of, lowered, split, words_of};
use vstd::prelude::*;

verus! {

// ---------------------------------------------------------------- lines that are no cards

/// The cards among the first `n` lines of a deck: the lines that are neither empty nor
/// comments.
pub open spec fn card_lines<T>(page: Seq<Seq<Token<T>>>, n: nat) -> Seq<Seq<Token<T>>>
    decreases n,
{
    if n == 0 {
        seq![]
    } else {
        let before = card_lines(page, (n - 1) as nat);
        if is_blank(page[n - 1]) {
            before
        } else {
            before.push(page[n - 1])
        }
    }
}

/// An error without the number of its line.
pub open spec fn unplaced(e: DeckError) -> DeckError {
    match e {
        DeckError::BadCard { .. } => DeckError::BadCard { line: 0 },
        DeckError::BadNumber { word, .. } => DeckError::BadNumber { line: 0, word },
        _ => e,
    }
}

/// A result whose error has no line number.
pub open spec fn anywhere<A>(r: Result<A, DeckError>) -> Result<A, DeckError> {
    match r {
        Ok(v) => Ok(v),
        Err(e) => Err(unplaced(e)),
    }
}

/// What a list of cards gives.
spec fn reading<T: Number>(lines: Seq<Seq<Token<T>>>) -> Result<DeckModel<T>, DeckError>
    decreases lines.len(),
{
    if lines.len() == 0 {
        Ok(DeckModel::empty())
    } else {
        match reading(lines.drop_last()) {
            Err(e) => Err(e),
            Ok(d) => anywhere(card(d, 0, lines.last())),
        }
    }
}

proof fn lemma_properties_anywhere<T>(a: usize, b: usize, line: Seq<Token<T>>, k: int, mat: Mat<T>)
    ensures
        anywhere(properties(a, line, k, mat)) == anywhere(properties(b, line, k, mat)),
    decreases line.len() - k,
{
    if k + 1 < line.len() {
        let key = lowered(line[k].text);
        match number_at(a, line, k + 1) {
            Err(_) => {},
            Ok(v) => {
                lemma_properties_anywhere(
                    a,
                    b,
                    line,
                    k + 2,
                    with_property(mat, key, v).unwrap(),
                );
            },
        }
    }
}

/// A card means the same on every line.
proof fn lemma_card_anywhere<T: Number>(d: DeckModel<T>, a: usize, b: usize, line: Seq<Token<T>>)
    ensures
        anywhere(card(d, a, line)) == anywhere(card(d, b, line)),
{
    lemma_properties_anywhere(a, b, line, 2, vacuum());
    match properties(a, line, 2, vacuum()) {
        Ok(mat) => {
            assert(properties(b, line, 2, vacuum()) == Ok::<Mat<T>, DeckError>(mat));
        },
        Err(e) => {},
    }
}

proof fn lemma_reading<T: Number>(page: Seq<Seq<Token<T>>>, n: nat)
    ensures
        anywhere(cards(page, n)) == reading(card_lines(page, n)),
    decreases n,
{
    if n > 0 {
        lemma_reading(page, (n - 1) as nat);
        let before = card_lines(page, (n - 1) as nat);
        let line = page[n - 1];
        if !is_blank(line) {
            assert(before.push(line).drop_last() =~= before);
            match cards(page, (n - 1) as nat) {
                Ok(d) => {
                    lemma_card_anywhere(d, (n - 1) as usize, 0, line);
                },
                Err(_) => {},
            }
        }
    }
}

/// Two decks with the same cards in the same order hold the same, whatever empty lines
/// and comments stand between the cards. Where one is refused, so is the other, for the
/// same reason; only the number of the line may differ.
pub proof fn lemma_cards_alone<T: Number>(p: Seq<Seq<Token<T>>>, q: Seq<Seq<Token<T>>>)
    requires
        card_lines(p, p.len()) == card_lines(q, q.len()),
    ensures
        anywhere(deck_model(p)) == anywhere(deck_model(q)),
        deck_model(p) is Ok ==> deck_model(q) == deck_model(p),
{
    lemma_reading(p, p.len());
    lemma_reading(q, q.len());
}

proof fn lemma_card_lines_insert<T>(
    page: Seq<Seq<Token<T>>>,
    i: nat,
    line: Seq<Token<T>>,
    n: nat,
)
    requires
        i <= page.len(),
        n <= page.len(),
        is_blank(line),
    ensures
        n <= i ==> card_lines(page.insert(i as int, line), n) == card_lines(page, n),
        n >= i ==> card_lines(page.insert(i as int, line), n + 1) == card_lines(page, n),
    decreases n,
{
    let wide = page.insert(i as int, line);
    if n > 0 {
        lemma_card_lines_insert(page, i, line, (n - 1) as nat);
        if n <= i {
            assert(wide[n - 1] == page[n - 1]);
        } else {
            assert(wide[n as int] == page[n - 1]);
        }
    }
    if n == i {
        assert(wide[n as int] == line);
    }
}

/// An empty line or a comment, put in anywhere, changes nothing of what a deck holds.
pub proof fn lemma_blank_line<T: Number>(page: Seq<Seq<Token<T>>>, i: nat, line: Seq<Token<T>>)
    requires
        i <= page.len(),
        is_blank(line),
    ensures
        anywhere(deck_model(page.insert(i as int, line))) == anywhere(deck_model(page)),
        deck_model(page) is Ok ==> deck_model(page.insert(i as int, line)) == deck_model(page),
{
    lemma_card_lines_insert(page, i, line, page.len());
    lemma_cards_alone(page, page.insert(i as int, line));
}

/// The line `w`, put into a deck between the lines of `a` and those of `b`, changes
/// nothing of what the deck holds, where it has no words or its first word begins with
/// an asterisk.
pub proof fn lemma_blank_text<T: Number>(
    a: Seq<char>,
    w: Seq<char>,
    b: Seq<char>,
    num: spec_fn(Seq<char>) -> Option<T>,
)
    requires
        a.len() == 0 || a.last() == '\n',
        forall|i: int| 0 <= i < w.len() ==> #[trigger] w[i] != '\n',
        words_of(w).len() == 0 || words_of(w)[0][0] == '*',
    ensures
        anywhere(deck_model(tokens(a + (w.push('\n') + b), num))) == anywhere(
            deck_model(tokens(a + b, num)),
        ),
        deck_model(tokens(a + b, num)) is Ok ==> deck_model(tokens(a + (w.push('\n') + b), num))
            == deck_model(tokens(a + b, num)),
{
    let line = w.push('\n');
    lemma_tokens_joined(a, b, num);
    lemma_tokens_joined(a, line + b, num);
    lemma_tokens_joined(line, b, num);
    lemma_one_line(w);
    lemma_words(w);
    let (p, q, r) = (tokens(a, num), tokens(line, num), tokens(b, num));
    assert(lines_of(line)[0] == w);
    assert(split(line)[0] == words_of(w));
    assert(is_blank(q[0]));
    assert(p + (q + r) =~= (p + r).insert(p.len() as int, q[0]));
    lemma_blank_line(p + r, p.len(), q[0]);
}

/// Reading a deck twice, once with an empty line or a comment more, gives the same deck,
/// where the number of a word is always the same.
pub proof fn lemma_blank_lines_read<T: Number, F: Fn(&Vec<char>) -> Option<T>>(
    a: Seq<char>,
    w: Seq<char>,
    b: Seq<char>,
    read: F,
    num: spec_fn(Seq<char>) -> Option<T>,
    r: Result<Deck<T>, DeckError>,
    t: Result<Deck<T>, DeckError>,
)
    requires
        a.len() == 0 || a.last() == '\n',
        forall|i: int| 0 <= i < w.len() ==> #[trigger] w[i] != '\n',
        words_of(w).len() == 0 || words_of(w)[0][0] == '*',
        reads(read, num),
        deck_read(a + b, read, r),
        deck_read(a + (w.push('\n') + b), read, t),
    ensures
        r is Ok <==> t is Ok,
        (r, t) matches (Ok(d), Ok(e)) ==> d.model() == e.model(),
        (r, t) matches (Err(d), Err(e)) ==> unplaced(d) == unplaced(e),
{
    let wide = a + (w.push('\n') + b);
    let p = choose|page: Seq<Vec<Word<T>>>| #[trigger]
        page_of(a + b, read, page) && (match deck_model(page_view(page)) {
            Ok(d) => r matches Ok(deck) && deck.model() == d,
            Err(e) => r matches Err(f) && e == f,
        });
    let q = choose|page: Seq<Vec<Word<T>>>| #[trigger]
        page_of(wide, read, page) && (match deck_model(page_view(page)) {
            Ok(d) => t matches Ok(deck) && deck.model() == d,
            Err(e) => t matches Err(f) && e == f,
        });
    lemma_page_of(a + b, read, p, num);
    lemma_page_of(wide, read, q, num);
    lemma_blank_text(a, w, b, num);
}

// ---------------------------------------------------------------- directions

proof fn lemma_squares(v: V3<Real>, s: Real)
    ensures
        v.times(s).dot(v.times(s)).v == v.dot(v).v * (s.v * s.v),
{
    let (x, y, z, t) = (v.x.v, v.y.v, v.z.v, s.v * s.v);
    real_square_of_product(x, s.v);
    real_square_of_product(y, s.v);
    real_square_of_product(z, s.v);
    real_mul_comm(x * x + y * y + z * z, t);
    real_distribute(t, x * x + y * y, z * z);
    real_distribute(t, x * x, y * y);
    real_mul_comm(x * x, t);
    real_mul_comm(y * y, t);
    real_mul_comm(z * z, t);
}

/// The length of a vector exists as a real number.
pub open spec fn has_length(v: V3<Real>) -> bool {
    is_real_root(v.dot(v).v, length(v).v)
}

/// The direction of a port has length one.
pub proof fn lemma_unit_direction(v: V3<Real>)
    requires
        has_length(v),
        length(v).v != 0real,
    ensures
        v.times(Real::one().over(length(v))).dot(v.times(Real::one().over(length(v)))).v == 1real,
        length(v.times(Real::one().over(length(v)))).v == 1real,
{
    let l = length(v).v;
    let u = Real::one().over(length(v));
    lemma_squares(v, u);
    real_quotient(1real, l);
    // (l l) (u u) = (l u) (l u) = 1
    real_square_of_product(l, u.v);
    real_mul_one(1real);
    real_mul_comm(l, u.v);
    assert(is_real_root(1real, 1real));
    let one = real_root(1real);
    assert(is_real_root(1real, one));
    real_same_square(one, 1real);
}

/// A vector and a positive multiple of it have the same direction.
pub proof fn lemma_same_direction(v: V3<Real>, s: Real)
    requires
        has_length(v),
        0real < s.v,
    ensures
        length(v.times(s)).v == length(v).v * s.v,
        length(v.times(s)).v == 0real <==> length(v).v == 0real,
        length(v).v != 0real ==> v.times(s).times(Real::one().over(length(v.times(s)))) == v.times(
            Real::one().over(length(v)),
        ),
{
    let l = length(v).v;
    let w = v.times(s);
    lemma_squares(v, s);
    real_square_of_product(l, s.v);
    real_product_nonnegative(l, s.v);
    assert(is_real_root(w.dot(w).v, l * s.v));
    let m = length(w).v;
    assert(is_real_root(w.dot(w).v, m));
    real_same_square(m, l * s.v);
    real_mul_zero(s.v);
    if l != 0real {
        real_no_divisors(l, s.v);
        lemma_rescaled(v.x.v, s.v, l);
        lemma_rescaled(v.y.v, s.v, l);
        lemma_rescaled(v.z.v, s.v, l);
    }
}

proof fn lemma_rescaled(x: real, s: real, l: real)
    requires
        s != 0real,
        l != 0real,
        l * s != 0real,
    ensures
        (x * s) * (1real / (l * s)) == x * (1real / l),
{
    let (a, b) = (1real / (l * s), 1real / l);
    real_quotient(1real, l * s);
    real_quotient(1real, l);
    // l (s a) = l b
    real_mul_assoc(l, s, a);
    real_mul_comm(a, l * s);
    real_mul_comm(b, l);
    real_cancel(l, s * a, b);
    real_mul_assoc(x, s, a);
}

/// Two port cards that differ only in that the direction on the second is that on the
/// first times `s`.
pub open spec fn stretched_port(line: Seq<Token<Real>>, wide: Seq<Token<Real>>, s: Real) -> bool {
    &&& line.len() == 7
    &&& wide.len() == 7
    &&& lowered(line[0].text) == "port"@
    &&& wide[0] == line[0]
    &&& wide[1] == line[1]
    &&& wide[2] == line[2]
    &&& wide[6] == line[6]
    &&& forall|k: int|
        3 <= k < 6 ==> match ((#[trigger] line[k]).num, wide[k].num) {
            (Some(v), Some(w)) => w == v * s,
            (None, None) => true,
            _ => false,
        }
}

proof fn lemma_stretched_card(
    d: DeckModel<Real>,
    no: usize,
    line: Seq<Token<Real>>,
    wide: Seq<Token<Real>>,
    s: Real,
)
    requires
        0real < s.v,
        stretched_port(line, wide, s),
        vector_at(0, line, 3) matches Ok(v) ==> has_length(v),
    ensures
        card(d, no, wide) == card(d, no, line),
{
    reveal_strlit("port");
    reveal_strlit("mat");
    reveal_strlit("pec");
    reveal_strlit("abc");
    assert("port"@.len() == 4 && "mat"@.len() == 3 && "pec"@.len() == 3 && "abc"@.len() == 3);
    assert(card(d, no, line) == port_card(d, no, line));
    assert(card(d, no, wide) == port_card(d, no, wide));
    assert(line[3].num is Some <==> wide[3].num is Some);
    assert(line[4].num is Some <==> wide[4].num is Some);
    assert(line[5].num is Some <==> wide[5].num is Some);
    match vector_at(no, line, 3) {
        Ok(v) => {
            assert(vector_at(0, line, 3) == Ok::<V3<Real>, DeckError>(v));
            assert(vector_at(no, wide, 3) == Ok::<V3<Real>, DeckError>(v.times(s)));
            lemma_same_direction(v, s);
        },
        Err(_) => {
            assert(vector_at(no, wide, 3) == vector_at(no, line, 3));
        },
    }
}

proof fn lemma_cards_replaced<T: Number>(
    page: Seq<Seq<Token<T>>>,
    i: int,
    line: Seq<Token<T>>,
    n: nat,
)
    requires
        0 <= i < page.len(),
        n <= page.len(),
        is_blank(line) == is_blank(page[i]),
        forall|d: DeckModel<T>| #[trigger] card(d, i as usize, line) == card(d, i as usize, page[i]),
    ensures
        cards(page.update(i, line), n) == cards(page, n),
    decreases n,
{
    if n > 0 {
        lemma_cards_replaced(page, i, line, (n - 1) as nat);
        match cards(page, (n - 1) as nat) {
            Ok(d) => {
                assert(card(d, i as usize, line) == card(d, i as usize, page[i]));
            },
            Err(_) => {},
        }
    }
}

/// The direction of a port counts, not its length: with the direction on a port card
/// replaced by a positive multiple of it, a deck holds the same, and a direction without
/// length is refused either way.
pub proof fn lemma_port_direction(
    page: Seq<Seq<Token<Real>>>,
    i: int,
    line: Seq<Token<Real>>,
    s: Real,
)
    requires
        0 <= i < page.len(),
        0real < s.v,
        stretched_port(page[i], line, s),
        vector_at(0, page[i], 3) matches Ok(v) ==> has_length(v),
    ensures
        deck_model(page.update(i, line)) == deck_model(page),
{
    assert forall|d: DeckModel<Real>| #[trigger]
        card(d, i as usize, line) == card(d, i as usize, page[i]) by {
        lemma_stretched_card(d, i as usize, page[i], line, s);
    }
    lemma_cards_replaced(page, i, line, page.len());
}

proof fn lemma_unit_ports(page: Seq<Seq<Token<Real>>>, n: nat)
    requires
        n <= page.len(),
        forall|i: int|
            0 <= i < page.len() ==> (vector_at(0, #[trigger] page[i], 3) matches Ok(v)
                ==> has_length(v)),
    ensures
        cards(page, n) matches Ok(d) ==> forall|k: int|
            0 <= k < d.ports.len() ==> length((#[trigger] d.ports[k]).dir).v == 1real,
    decreases n,
{
    if n > 0 {
        lemma_unit_ports(page, (n - 1) as nat);
        let (no, line) = ((n - 1) as usize, page[n - 1]);
        match (cards(page, (n - 1) as nat), vector_at(no, line, 3)) {
            (Ok(d), Ok(v)) => {
                assert(vector_at(0, line, 3) == Ok::<V3<Real>, DeckError>(v));
                if length(v).v != 0real {
                    lemma_unit_direction(v);
                }
            },
            _ => {},
        }
    }
}

/// Every port of a deck that is accepted has a direction of length one.
pub proof fn lemma_ports_are_unit(page: Seq<Seq<Token<Real>>>)
    requires
        forall|i: int|
            0 <= i < page.len() ==> (vector_at(0, #[trigger] page[i], 3) matches Ok(v)
                ==> has_length(v)),
    ensures
        deck_model(page) matches Ok(d) ==> forall|k: int|
            0 <= k < d.ports.len() ==> length((#[trigger] d.ports[k]).dir).v == 1real,
{
    lemma_unit_ports(page, page.len());
}

} // verus!
