//! Input files as pages of words. Each word comes with the number that it spells,
//! if it spells one.

use crate::text::{
    chars_of, lemma_lines_joined, lines, lines_of, spelled, split, words, words_of,
};
use vstd::prelude::*;

verus! {

/// A word and the number that it spells, if any.
pub struct Word<T> {
    pub text: Vec<char>,
    pub num: Option<T>,
}

/// The contents of a word.
pub struct Token<T> {
    pub text: Seq<char>,
    pub num: Option<T>,
}

impl<T> View for Word<T> {
    type V = Token<T>;

    open spec fn view(&self) -> Token<T> {
        Token { text: self.text@, num: self.num }
    }
}

/// The contents of a line.
pub open spec fn line_view<T>(line: Seq<Word<T>>) -> Seq<Token<T>> {
    Seq::new(line.len(), |i: int| line[i]@)
}

/// The contents of a page.
pub open spec fn page_view<T>(page: Seq<Vec<Word<T>>>) -> Seq<Seq<Token<T>>> {
    Seq::new(page.len(), |i: int| line_view(page[i]@))
}

/// `page` holds the words of `text`, each with a number that `read` gives for it.
pub open spec fn page_of<T, F: Fn(&Vec<char>) -> Option<T>>(
    text: Seq<char>,
    read: F,
    page: Seq<Vec<Word<T>>>,
) -> bool {
    &&& page.len() == split(text).len()
    &&& forall|i: int| 0 <= i < page.len() ==> (#[trigger] page[i])@.len() == split(text)[i].len()
    &&& forall|i: int, k: int|
        0 <= i < page.len() && 0 <= k < page[i]@.len() ==> (#[trigger] page[i]@[k]).text@ == split(
            text,
        )[i][k] && call_ensures(read, (&page[i]@[k].text,), page[i]@[k].num)
}

/// The words of a text, each with the number that `num` gives for it.
pub open spec fn tokens<T>(text: Seq<char>, num: spec_fn(Seq<char>) -> Option<T>) -> Seq<
    Seq<Token<T>>,
> {
    Seq::new(
        split(text).len(),
        |i: int|
            Seq::new(
                split(text)[i].len(),
                |k: int| Token { text: split(text)[i][k], num: num(split(text)[i][k]) },
            ),
    )
}

/// `read` gives for every word the number that `num` gives for it.
pub open spec fn reads<T, F: Fn(&Vec<char>) -> Option<T>>(
    read: F,
    num: spec_fn(Seq<char>) -> Option<T>,
) -> bool {
    forall|w: &Vec<char>, r: Option<T>| #[trigger] call_ensures(read, (w,), r) ==> r == num(w@)
}

/// Where each word has one number, a text has one page.
pub proof fn lemma_page_of<T, F: Fn(&Vec<char>) -> Option<T>>(
    text: Seq<char>,
    read: F,
    page: Seq<Vec<Word<T>>>,
    num: spec_fn(Seq<char>) -> Option<T>,
)
    requires
        page_of(text, read, page),
        reads(read, num),
    ensures
        page_view(page) == tokens(text, num),
{
    let (p, q) = (page_view(page), tokens(text, num));
    assert forall|i: int| 0 <= i < p.len() implies #[trigger] p[i] == q[i] by {
        assert(page[i]@.len() == split(text)[i].len());
        assert forall|k: int| 0 <= k < p[i].len() implies #[trigger] p[i][k] == q[i][k] by {
            assert(page[i]@[k].text@ == split(text)[i][k]);
        }
        assert(p[i] =~= q[i]);
    }
    assert(p =~= q);
}

/// A text cut at the end of a line: its page is made of the pages of both parts.
pub proof fn lemma_tokens_joined<T>(
    a: Seq<char>,
    b: Seq<char>,
    num: spec_fn(Seq<char>) -> Option<T>,
)
    requires
        a.len() == 0 || a.last() == '\n',
    ensures
        tokens(a + b, num) == tokens(a, num) + tokens(b, num),
{
    lemma_lines_joined(a, b);
    let (p, q) = (tokens(a + b, num), tokens(a, num) + tokens(b, num));
    let n = lines_of(a).len() as int;
    assert forall|i: int| 0 <= i < p.len() implies #[trigger] p[i] == q[i] by {
        if i < n {
            assert(split(a + b)[i] == split(a)[i]);
            assert(p[i] =~= tokens(a, num)[i]);
        } else {
            assert(split(a + b)[i] == split(b)[i - n]);
            assert(p[i] =~= tokens(b, num)[i - n]);
        }
    }
    assert(p =~= q);
}

/// Splits a text into lines and words, and reads the number of every word.
pub fn read_page<T, F: Fn(&Vec<char>) -> Option<T>>(text: &str, read: F) -> (page: Vec<
    Vec<Word<T>>,
>)
    requires
        forall|w: &Vec<char>| #[trigger] call_requires(read, (w,)),
    ensures
        page_of(text@, read, page@),
{
    let chars = chars_of(text);
    let all = lines(&chars);
    let mut page: Vec<Vec<Word<T>>> = Vec::new();
    let mut i: usize = 0;
    assert(spelled(all@).len() == all@.len());
    while i < all.len()
        invariant
            i <= all@.len(),
            forall|w: &Vec<char>| #[trigger] call_requires(read, (w,)),
            spelled(all@) == lines_of(text@),
            all@.len() == split(text@).len(),
            page@.len() == i,
            forall|l: int| 0 <= l < i ==> (#[trigger] page@[l])@.len() == split(text@)[l].len(),
            forall|l: int, k: int|
                0 <= l < i && 0 <= k < page@[l]@.len() ==> (#[trigger] page@[l]@[k]).text@ == split(
                    text@,
                )[l][k] && call_ensures(read, (&page@[l]@[k].text,), page@[l]@[k].num),
        decreases all@.len() - i,
    {
        let mut bare = words(&all[i]);
        let mut line: Vec<Word<T>> = Vec::new();
        assert(spelled(all@)[i as int] == all@[i as int]@);
        assert(split(text@)[i as int] == words_of(lines_of(text@)[i as int]));
        let ghost given = bare@;
        assert(spelled(given) == split(text@)[i as int]);
        let n: usize = bare.len();
        let mut k: usize = 0;
        while k < n
            invariant
                k <= n,
                n == given.len(),
                bare@.len() == n,
                forall|w: &Vec<char>| #[trigger] call_requires(read, (w,)),
                forall|m: int| k <= m < n ==> bare@[m] == given[m],
                line@.len() == k,
                forall|m: int|
                    0 <= m < k ==> (#[trigger] line@[m]).text@ == given[m]@ && call_ensures(
                        read,
                        (&line@[m].text,),
                        line@[m].num,
                    ),
            decreases n - k,
        {
            let mut text: Vec<char> = Vec::new();
            std::mem::swap(&mut text, &mut bare[k]);
            let num = read(&text);
            line.push(Word { text, num });
            k += 1;
        }
        assert forall|m: int| 0 <= m < n implies (#[trigger] line@[m]).text@ == split(
            text@,
        )[i as int][m] by {
            assert(spelled(given)[m] == given[m]@);
        }
        assert(spelled(given).len() == n);
        page.push(line);
        i += 1;
    }
    page
}

} // verus!
