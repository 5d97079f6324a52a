//! Text: lines, words, and the decimal integers that words spell.

use vstd::prelude::*;

verus! {

/// White space as Unicode defines it.
pub open spec fn is_space(c: char) -> bool {
    let u = c as u32;
    ||| 0x9 <= u <= 0xD
    ||| u == 0x20
    ||| u == 0x85
    ||| u == 0xA0
    ||| u == 0x1680
    ||| 0x2000 <= u <= 0x200A
    ||| u == 0x2028
    ||| u == 0x2029
    ||| u == 0x202F
    ||| u == 0x205F
    ||| u == 0x3000
}

/// The lines of a text. A line ends at a line feed, or where the text ends.
pub open spec fn lines_of(s: Seq<char>) -> Seq<Seq<char>>
    decreases s.len(),
{
    if s.len() == 0 {
        seq![]
    } else {
        let before = lines_of(s.drop_last());
        let c = s.last();
        if s.len() == 1 || s[s.len() - 2] == '\n' {
            before.push(
                if c == '\n' {
                    seq![]
                } else {
                    seq![c]
                },
            )
        } else if c == '\n' {
            before
        } else {
            before.update(before.len() - 1, before.last().push(c))
        }
    }
}

/// The words of a line: its longest runs without white space.
pub open spec fn words_of(s: Seq<char>) -> Seq<Seq<char>>
    decreases s.len(),
{
    if s.len() == 0 {
        seq![]
    } else {
        let before = words_of(s.drop_last());
        let c = s.last();
        if is_space(c) {
            before
        } else if s.len() == 1 || is_space(s[s.len() - 2]) {
            before.push(seq![c])
        } else {
            before.update(before.len() - 1, before.last().push(c))
        }
    }
}

/// The words of every line of a text.
pub open spec fn split(s: Seq<char>) -> Seq<Seq<Seq<char>>> {
    Seq::new(lines_of(s).len(), |i: int| words_of(lines_of(s)[i]))
}

/// The characters of each item.
pub open spec fn spelled(words: Seq<Vec<char>>) -> Seq<Seq<char>> {
    Seq::new(words.len(), |i: int| words[i]@)
}

/// Every word has a character, and none of its characters is white space.
pub proof fn lemma_words(s: Seq<char>)
    ensures
        forall|i: int| #![trigger words_of(s)[i]] 0 <= i < words_of(s).len() ==> words_of(s)[i].len() > 0,
        forall|i: int, k: int|
            0 <= i < words_of(s).len() && 0 <= k < words_of(s)[i].len() ==> !is_space(
                #[trigger] words_of(s)[i][k],
            ),
        s.len() > 0 && !is_space(s.last()) ==> words_of(s).len() > 0,
    decreases s.len(),
{
    if s.len() > 0 {
        let rest = s.drop_last();
        lemma_words(rest);
        let before = words_of(rest);
        let after = words_of(s);
        let c = s.last();
        if !is_space(c) && s.len() > 1 && !is_space(s[s.len() - 2]) {
            assert(rest.last() == s[s.len() - 2]);
        }
        assert forall|i: int| #![trigger after[i]] 0 <= i < after.len() implies after[i].len() > 0 by {
            if i < before.len() {
                assert(before[i].len() > 0);
            }
        }
        assert forall|i: int, k: int|
            0 <= i < after.len() && 0 <= k < after[i].len() implies !is_space(#[trigger] after[i][k]) by {
            if i < before.len() && k < before[i].len() {
                assert(!is_space(before[i][k]));
            }
        }
    }
}

proof fn lemma_lines_nonempty(s: Seq<char>)
    ensures
        s.len() > 0 ==> lines_of(s).len() > 0,
    decreases s.len(),
{
    if s.len() > 0 {
        lemma_lines_nonempty(s.drop_last());
    }
}

/// A text cut at the end of a line: its lines are those of both parts.
pub proof fn lemma_lines_joined(a: Seq<char>, b: Seq<char>)
    requires
        a.len() == 0 || a.last() == '\n',
    ensures
        lines_of(a + b) == lines_of(a) + lines_of(b),
    decreases b.len(),
{
    let s = a + b;
    if b.len() == 0 {
        assert(s =~= a);
        assert(lines_of(a) + lines_of(b) =~= lines_of(a));
    } else {
        let rest = b.drop_last();
        lemma_lines_joined(a, rest);
        assert(s.drop_last() =~= a + rest);
        assert(s.last() == b.last());
        if b.len() > 1 {
            assert(s[s.len() - 2] == b[b.len() - 2]);
            lemma_lines_nonempty(rest);
        } else if a.len() > 0 {
            assert(s[s.len() - 2] == a.last());
        }
        assert(lines_of(s) =~= lines_of(a) + lines_of(b));
    }
}

/// A text without a line feed but at its end is one line.
pub proof fn lemma_one_line(w: Seq<char>)
    requires
        forall|i: int| 0 <= i < w.len() ==> #[trigger] w[i] != '\n',
    ensures
        lines_of(w.push('\n')) == seq![w],
        w.len() > 0 ==> lines_of(w) == seq![w],
    decreases w.len(),
{
    let s = w.push('\n');
    assert(s.drop_last() =~= w);
    if w.len() > 0 {
        let rest = w.drop_last();
        assert forall|i: int| 0 <= i < rest.len() implies #[trigger] rest[i] != '\n' by {
            assert(rest[i] == w[i]);
        }
        lemma_one_line(rest);
        assert(w =~= rest.push(w.last()));
        assert(w[w.len() - 1] != '\n');
        if rest.len() > 0 {
            assert(w[w.len() - 2] != '\n');
            assert(lines_of(rest).last() == rest);
            assert(lines_of(w) =~= seq![w]);
        } else {
            assert(lines_of(rest) =~= seq![]);
            assert(w =~= seq![w.last()]);
            assert(lines_of(w) =~= seq![w]);
        }
        assert(s[s.len() - 2] == w[w.len() - 1]);
    } else {
        assert(w =~= seq![]);
        assert(lines_of(w) =~= seq![]);
        assert(lines_of(s) =~= seq![w]);
    }
}

/// Whether a character is white space.
pub fn space(c: char) -> (r: bool)
    ensures
        r == is_space(c),
{
    let u: u32 = c as u32;
    (0x9 <= u && u <= 0xD) || u == 0x20 || u == 0x85 || u == 0xA0 || u == 0x1680 || (0x2000 <= u
        && u <= 0x200A) || u == 0x2028 || u == 0x2029 || u == 0x202F || u == 0x205F || u == 0x3000
}

/// The characters of a text.
pub fn chars_of(text: &str) -> (r: Vec<char>)
    ensures
        r@ == text@,
{
    let mut r: Vec<char> = Vec::new();
    for c in it: text.chars()
        invariant
            r@ == text@.take(it.index() as int),
            it.seq() == text@,
    {
        r.push(c);
        assert(text@.take(it.index() + 1) =~= text@.take(it.index() as int).push(c));
    }
    assert(r@ =~= text@);
    r
}

/// The lines of a text.
pub fn lines(text: &Vec<char>) -> (r: Vec<Vec<char>>)
    ensures
        spelled(r@) == lines_of(text@),
{
    let mut r: Vec<Vec<char>> = Vec::new();
    let mut i: usize = 0;
    assert(text@.take(0) =~= seq![]);
    assert(spelled(r@) =~= seq![]);
    while i < text.len()
        invariant
            i <= text@.len(),
            spelled(r@) == lines_of(text@.take(i as int)),
        decreases text@.len() - i,
    {
        let c = text[i];
        let ghost before = r@;
        let ghost rest = text@.take(i as int);
        let ghost now = text@.take(i + 1);
        assert(now.drop_last() =~= rest);
        assert(i > 0 ==> now[now.len() - 2] == text@[i - 1]);
        if i == 0 || text[i - 1] == '\n' {
            let mut line: Vec<char> = Vec::new();
            if c != '\n' {
                line.push(c);
            }
            r.push(line);
        } else if c != '\n' {
            proof {
                lemma_lines_nonempty(rest);
            }
            assert(spelled(before).len() == before.len());
            let last: usize = r.len() - 1;
            r[last].push(c);
        }
        assert(spelled(r@) =~= lines_of(now));
        i += 1;
    }
    assert(text@.take(i as int) =~= text@);
    r
}

/// The words of a line.
pub fn words(line: &Vec<char>) -> (r: Vec<Vec<char>>)
    ensures
        spelled(r@) == words_of(line@),
{
    let mut r: Vec<Vec<char>> = Vec::new();
    let mut i: usize = 0;
    assert(line@.take(0) =~= seq![]);
    assert(spelled(r@) =~= seq![]);
    while i < line.len()
        invariant
            i <= line@.len(),
            spelled(r@) == words_of(line@.take(i as int)),
        decreases line@.len() - i,
    {
        let c = line[i];
        let ghost before = r@;
        let ghost rest = line@.take(i as int);
        let ghost now = line@.take(i + 1);
        assert(now.drop_last() =~= rest);
        assert(i > 0 ==> now[now.len() - 2] == line@[i - 1]);
        if !space(c) {
            if i == 0 || space(line[i - 1]) {
                let mut word: Vec<char> = Vec::new();
                word.push(c);
                assert(word@ =~= seq![c]);
                r.push(word);
            } else {
                proof {
                    lemma_words(rest);
                }
                assert(spelled(before).len() == before.len());
                let last: usize = r.len() - 1;
                r[last].push(c);
            }
        }
        assert(spelled(r@) =~= words_of(now));
        i += 1;
    }
    assert(line@.take(i as int) =~= line@);
    r
}

/// Whether two texts are the same.
pub fn same(a: &Vec<char>, b: &Vec<char>) -> (r: bool)
    ensures
        r == (a@ == b@),
{
    if a.len() != b.len() {
        return false;
    }
    let mut i: usize = 0;
    while i < a.len()
        invariant
            i <= a@.len(),
            a@.len() == b@.len(),
            forall|k: int| 0 <= k < i ==> a@[k] == b@[k],
        decreases a@.len() - i,
    {
        if a[i] != b[i] {
            assert(a@[i as int] != b@[i as int]);
            return false;
        }
        i += 1;
    }
    assert(a@ =~= b@);
    true
}

/// Whether a text is the given literal.
pub fn equals(a: &Vec<char>, b: &str) -> (r: bool)
    ensures
        r == (a@ == b@),
{
    let b = chars_of(b);
    same(a, &b)
}

/// A letter of the basic alphabet in lower case; any other character as it is.
pub open spec fn lower(c: char) -> char {
    if 'A' <= c <= 'Z' {
        (c as u32 + 32) as char
    } else {
        c
    }
}

/// A text in lower case, letters of the basic alphabet only. No other letter turns
/// into one of the keywords of a deck.
pub open spec fn lowered(s: Seq<char>) -> Seq<char> {
    Seq::new(s.len(), |i: int| lower(s[i]))
}

/// The lower case of a text.
pub fn lower_case(s: &Vec<char>) -> (r: Vec<char>)
    ensures
        r@ == lowered(s@),
{
    let mut r: Vec<char> = Vec::new();
    let mut i: usize = 0;
    while i < s.len()
        invariant
            i <= s@.len(),
            r@ == lowered(s@.take(i as int)),
        decreases s@.len() - i,
    {
        let c = s[i];
        if 'A' <= c && c <= 'Z' {
            r.push(((c as u8) + 32) as char);
        } else {
            r.push(c);
        }
        assert(r@ =~= lowered(s@.take(i + 1)));
        i += 1;
    }
    assert(s@.take(i as int) =~= s@);
    r
}

// ---------------------------------------------------------------- integers

/// A decimal digit.
pub open spec fn is_digit(c: char) -> bool {
    '0' <= c <= '9'
}

/// The value of a digit.
pub open spec fn digit_value(c: char) -> int {
    c as int - '0' as int
}

/// The number that a run of decimal digits spells.
pub open spec fn decimal_value(s: Seq<char>) -> nat
    decreases s.len(),
{
    if s.len() == 0 {
        0
    } else {
        (10 * decimal_value(s.drop_last()) + digit_value(s.last())) as nat
    }
}

/// One or more decimal digits.
pub open spec fn is_decimal(s: Seq<char>) -> bool {
    s.len() > 0 && forall|i: int| 0 <= i < s.len() ==> is_digit(#[trigger] s[i])
}

/// The integer that a word spells: decimal digits, perhaps behind a sign.
pub open spec fn integer_of(s: Seq<char>) -> Option<int> {
    if is_decimal(s) {
        Some(decimal_value(s) as int)
    } else if s.len() > 0 && s[0] == '+' && is_decimal(s.skip(1)) {
        Some(decimal_value(s.skip(1)) as int)
    } else if s.len() > 0 && s[0] == '-' && is_decimal(s.skip(1)) {
        Some(-decimal_value(s.skip(1)))
    } else {
        None
    }
}

/// The word as a signed number of 64 bits, if it spells one.
pub open spec fn i64_of(s: Seq<char>) -> Option<i64> {
    match integer_of(s) {
        Some(v) if i64::MIN <= v <= i64::MAX => Some(v as i64),
        _ => None,
    }
}

/// The word as a count, if it spells one: a minus sign does not.
pub open spec fn usize_of(s: Seq<char>) -> Option<usize> {
    match integer_of(s) {
        Some(v) if s[0] != '-' && v <= usize::MAX => Some(v as usize),
        _ => None,
    }
}

/// The value of the digits of `s` from `from` on, at most `limit`.
fn digits(s: &Vec<char>, from: usize, limit: u64) -> (r: Option<u64>)
    requires
        from <= s@.len(),
    ensures
        r matches Some(v) ==> is_decimal(s@.skip(from as int)) && decimal_value(
            s@.skip(from as int),
        ) == v && v <= limit,
        r is None ==> !is_decimal(s@.skip(from as int)) || decimal_value(s@.skip(from as int))
            > limit,
{
    let ghost t = s@.skip(from as int);
    if from == s.len() {
        return None;
    }
    let mut i: usize = from;
    let mut over: bool = false;
    let mut v: u64 = 0;
    assert(t.take(0) =~= seq![]);
    while i < s.len()
        invariant
            from <= i <= s@.len(),
            t == s@.skip(from as int),
            forall|k: int| 0 <= k < i - from ==> is_digit(#[trigger] t[k]),
            !over ==> v == decimal_value(t.take(i - from)) && v <= limit,
            over ==> decimal_value(t.take(i - from)) > limit,
        decreases s@.len() - i,
    {
        let c = s[i];
        assert(t[i - from] == c);
        if !('0' <= c && c <= '9') {
            assert(!is_digit(t[i - from]));
            return None;
        }
        let d: u64 = (c as u64) - ('0' as u64);
        assert(t.take(i - from + 1).drop_last() =~= t.take(i - from));
        assert(decimal_value(t.take(i - from + 1)) == 10 * decimal_value(t.take(i - from)) + d);
        if !over {
            if v > (limit - (if d > limit { limit } else { d })) / 10 || d > limit {
                over = true;
            } else {
                v = 10 * v + d;
            }
        }
        i += 1;
    }
    assert(t.take(t.len() as int) =~= t);
    assert(t.len() == s@.len() - from);
    if over {
        None
    } else {
        Some(v)
    }
}

/// Reads a signed number of 64 bits.
pub fn parse_i64(s: &Vec<char>) -> (r: Option<i64>)
    ensures
        r == i64_of(s@),
{
    proof {
        assert(s@.skip(0) =~= s@);
    }
    if s.len() == 0 {
        return None;
    }
    assert(!is_digit('+') && !is_digit('-'));
    if s[0] == '-' {
        assert(!is_digit(s@[0]));
        match digits(s, 1, 0x8000_0000_0000_0000) {
            Some(v) => if v == 0x8000_0000_0000_0000 {
                Some(i64::MIN)
            } else {
                Some(-(v as i64))
            },
            None => None,
        }
    } else if s[0] == '+' {
        assert(!is_digit(s@[0]));
        match digits(s, 1, 0x7FFF_FFFF_FFFF_FFFF) {
            Some(v) => Some(v as i64),
            None => None,
        }
    } else {
        match digits(s, 0, 0x7FFF_FFFF_FFFF_FFFF) {
            Some(v) => Some(v as i64),
            None => None,
        }
    }
}

/// Reads a count.
pub fn parse_usize(s: &Vec<char>) -> (r: Option<usize>)
    ensures
        r == usize_of(s@),
{
    proof {
        assert(s@.skip(0) =~= s@);
    }
    if s.len() == 0 {
        return None;
    }
    assert(!is_digit('+') && !is_digit('-'));
    if s[0] == '+' {
        assert(!is_digit(s@[0]));
        match digits(s, 1, usize::MAX as u64) {
            Some(v) => Some(v as usize),
            None => None,
        }
    } else if s[0] == '-' {
        None
    } else {
        match digits(s, 0, usize::MAX as u64) {
            Some(v) => Some(v as usize),
            None => None,
        }
    }
}

/// The decimal digits of a number.
pub open spec fn decimal(v: nat) -> Seq<char>
    decreases v,
{
    if v < 10 {
        seq![(48 + v) as char]
    } else {
        decimal(v / 10).push((48 + v % 10) as char)
    }
}

/// The decimal spelling of an integer.
pub open spec fn spelling(v: int) -> Seq<char> {
    if v < 0 {
        seq!['-'] + decimal((-v) as nat)
    } else {
        decimal(v as nat)
    }
}

fn push_decimal(v: u64, r: &mut Vec<char>)
    ensures
        final(r)@ == old(r)@ + decimal(v as nat),
    decreases v,
{
    if v >= 10 {
        push_decimal(v / 10, r);
    }
    r.push((48 + (v % 10) as u8) as char);
    assert(r@ =~= old(r)@ + decimal(v as nat));
}

/// Spells an integer in decimal.
pub fn spell(v: i64) -> (r: Vec<char>)
    ensures
        r@ == spelling(v as int),
{
    let mut r: Vec<char> = Vec::new();
    if v < 0 {
        r.push('-');
        let w: u64 = if v == i64::MIN {
            0x8000_0000_0000_0000
        } else {
            (-v) as u64
        };
        push_decimal(w, &mut r);
        assert(r@ =~= spelling(v as int));
    } else {
        push_decimal(v as u64, &mut r);
        assert(r@ =~= spelling(v as int));
    }
    r
}

proof fn lemma_decimal_reads(v: nat)
    ensures
        is_decimal(decimal(v)),
        decimal_value(decimal(v)) == v,
    decreases v,
{
    reveal_with_fuel(decimal_value, 2);
    if v >= 10 {
        lemma_decimal_reads(v / 10);
        assert(decimal(v).drop_last() =~= decimal(v / 10));
        let last = (48 + v % 10) as char;
        assert(is_digit(last));
        assert forall|i: int| 0 <= i < decimal(v).len() implies is_digit(#[trigger] decimal(v)[i]) by {
            if i < decimal(v / 10).len() {
                assert(is_digit(decimal(v / 10)[i]));
            }
        }
    } else {
        assert(decimal(v).drop_last() =~= seq![]);
    }
}

/// Reading what was spelled gives the number back.
pub proof fn lemma_spelling_reads(v: i64)
    ensures
        i64_of(spelling(v as int)) == Some(v),
{
    if v < 0 {
        lemma_decimal_reads((-v) as nat);
        assert(spelling(v as int).skip(1) =~= decimal((-v) as nat));
        assert(!is_digit(spelling(v as int)[0]));
    } else {
        lemma_decimal_reads(v as nat);
    }
}

} // verus!
