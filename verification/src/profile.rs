//! The places of the entries of a sparse symmetric matrix in skyline storage.

use crate::groups::ModelError;
use crate::rcm::{cuthill_mckee, is_permutation, numbering, rcm};
use crate::skyline::valid_profile;
use vstd::prelude::*;

verus! {

/// Row and column of an entry after renumbering, in the upper triangle.
pub open spec fn spot(perm: Seq<usize>, key: (usize, usize)) -> (usize, usize) {
    let (i, j) = (perm[key.0 as int], perm[key.1 as int]);
    if i <= j {
        (i, j)
    } else {
        (j, i)
    }
}

/// The first row with an entry in column `j`, among the first `k` entries.
pub open spec fn first_row(perm: Seq<usize>, keys: Seq<(usize, usize)>, j: usize, k: nat) -> usize
    decreases k,
{
    if k == 0 {
        j
    } else {
        let r = first_row(perm, keys, j, (k - 1) as nat);
        let (i, c) = spot(perm, keys[k - 1]);
        if c == j && i < r {
            i
        } else {
            r
        }
    }
}

/// How many places the columns before `j` take.
pub open spec fn offset(frow: Seq<usize>, j: int) -> int
    decreases j,
{
    if j <= 0 {
        0
    } else {
        offset(frow, j - 1) + (j - 1 - frow[j - 1]) + 1
    }
}

/// The numbers of the keys as the ordering takes them.
pub open spec fn narrow(keys: Seq<(usize, usize)>) -> Seq<(u32, u32)> {
    Seq::new(keys.len(), |k: int| (keys[k].0 as u32, keys[k].1 as u32))
}

/// The places of the entries of a matrix.
pub struct Profile {
    /// The new number of each unknown.
    pub perm: Vec<usize>,
    /// The first row of each column.
    pub frow: Vec<usize>,
    /// Where each column starts.
    pub off: Vec<usize>,
    /// How many places there are.
    pub len: usize,
    /// The place of each entry.
    pub places: Vec<usize>,
}

impl Profile {
    /// The profile holds the entries at `keys` of a matrix with `n` unknowns.
    pub open spec fn holds(self, n: nat, keys: Seq<(usize, usize)>) -> bool {
        &&& is_permutation(n, self.perm@)
        &&& self.frow@ == Seq::new(
            n,
            |j: int| first_row(self.perm@, keys, j as usize, keys.len()),
        )
        &&& self.off@.len() == n
        &&& forall|j: int| 0 <= j < n ==> #[trigger] self.off@[j] == offset(self.frow@, j)
        &&& self.len == offset(self.frow@, n as int)
        &&& self.places@.len() == keys.len()
        &&& forall|k: int|
            0 <= k < keys.len() ==> #[trigger] self.places@[k] == self.off@[spot(
                self.perm@,
                keys[k],
            ).1 as int] + (spot(self.perm@, keys[k]).0 - self.frow@[spot(
                self.perm@,
                keys[k],
            ).1 as int])
    }
}

proof fn lemma_first_row(perm: Seq<usize>, keys: Seq<(usize, usize)>, j: usize, k: nat)
    requires
        k <= keys.len(),
    ensures
        first_row(perm, keys, j, k) <= j,
        forall|m: int|
            0 <= m < k && spot(perm, #[trigger] keys[m]).1 == j ==> first_row(perm, keys, j, k)
                <= spot(perm, keys[m]).0,
    decreases k,
{
    if k > 0 {
        lemma_first_row(perm, keys, j, (k - 1) as nat);
    }
}

proof fn lemma_first_row_taken(perm: Seq<usize>, keys: Seq<(usize, usize)>, j: usize, k: nat)
    requires
        k <= keys.len(),
    ensures
        first_row(perm, keys, j, k) == j || exists|m: int|
            0 <= m < k && spot(perm, #[trigger] keys[m]) == (first_row(perm, keys, j, k), j),
    decreases k,
{
    if k > 0 {
        lemma_first_row_taken(perm, keys, j, (k - 1) as nat);
        assert(spot(perm, keys[k - 1]) == spot(perm, keys[k - 1]));
    }
}

/// A profile wastes nothing: every column begins with an entry or with its diagonal, ends
/// with its diagonal, and the next begins right behind it.
pub proof fn lemma_profile_tight(p: Profile, n: nat, keys: Seq<(usize, usize)>, j: int)
    requires
        p.holds(n, keys),
        n <= usize::MAX,
        0 <= j < n,
    ensures
        p.frow@[j] == j || exists|m: int|
            0 <= m < keys.len() && spot(p.perm@, #[trigger] keys[m]) == (p.frow@[j], j as usize),
        (if j + 1 < n {
            p.off@[j + 1]
        } else {
            p.len
        }) == p.off@[j] + (j - p.frow@[j]) + 1,
        p.off@[0] == 0,
{
    lemma_first_row_taken(p.perm@, keys, j as usize, keys.len());
    assert(p.off@[j] == offset(p.frow@, j));
    if j + 1 < n {
        assert(p.off@[j + 1] == offset(p.frow@, j + 1));
    }
    assert(p.off@[0] == offset(p.frow@, 0));
}

proof fn lemma_offset(frow: Seq<usize>, i: int, j: int)
    requires
        0 <= i <= j <= frow.len(),
        forall|c: int| 0 <= c < frow.len() ==> #[trigger] frow[c] <= c,
    ensures
        offset(frow, i) + (j - i) <= offset(frow, j),
        i < j ==> offset(frow, i) + (i - frow[i]) + 1 <= offset(frow, j),
        0 <= offset(frow, i),
    decreases j,
{
    if i < j {
        assert(frow[j - 1] <= j - 1);
        lemma_offset(frow, i, j - 1);
    } else if i > 0 {
        assert(frow[i - 1] <= i - 1);
        lemma_offset(frow, i - 1, i - 1);
    }
}

/// The columns of a profile do not overlap, each entry lies within its column, and
/// no two entries share a place.
pub proof fn lemma_profile(p: Profile, n: nat, keys: Seq<(usize, usize)>)
    requires
        p.holds(n, keys),
        keys.no_duplicates(),
        forall|k: int| 0 <= k < keys.len() ==> (#[trigger] keys[k]).0 <= keys[k].1 < n,
    ensures
        valid_profile(p.frow@, p.off@, p.len as nat),
        forall|k: int| 0 <= k < keys.len() ==> #[trigger] p.places@[k] < p.len,
        forall|k: int|
            0 <= k < keys.len() ==> p.frow@[spot(p.perm@, #[trigger] keys[k]).1 as int] <= spot(
                p.perm@,
                keys[k],
            ).0,
        p.places@.no_duplicates(),
{
    assert forall|j: int| 0 <= j < n implies #[trigger] p.frow@[j] <= j by {
        lemma_first_row(p.perm@, keys, j as usize, keys.len());
    }
    assert forall|j: int| 0 <= j < n implies (#[trigger] p.off@[j]) + (j - p.frow@[j]) < p.len by {
        lemma_offset(p.frow@, j, n as int);
    }
    assert forall|i: int, j: int| 0 <= i < j < n implies (#[trigger] p.off@[i]) + (i - p.frow@[i])
        < #[trigger] p.off@[j] by {
        lemma_offset(p.frow@, i, j);
    }
    assert forall|k: int| 0 <= k < keys.len() implies p.frow@[spot(
        p.perm@,
        #[trigger] keys[k],
    ).1 as int] <= spot(p.perm@, keys[k]).0 && p.places@[k] < p.len by {
        let (i, j) = spot(p.perm@, keys[k]);
        assert(p.perm@[keys[k].0 as int] < n && p.perm@[keys[k].1 as int] < n);
        lemma_first_row(p.perm@, keys, j, keys.len());
        assert(p.off@[j as int] + (j - p.frow@[j as int]) < p.len);
    }
    assert forall|k: int, m: int|
        0 <= k < keys.len() && 0 <= m < keys.len() && k != m implies p.places@[k]
        != p.places@[m] by {
        assert(keys[k] != keys[m]);
        let (i, j) = spot(p.perm@, keys[k]);
        let (r, c) = spot(p.perm@, keys[m]);
        assert(p.perm@[keys[k].0 as int] < n && p.perm@[keys[k].1 as int] < n);
        assert(p.perm@[keys[m].0 as int] < n && p.perm@[keys[m].1 as int] < n);
        assert(p.frow@[j as int] <= i && p.frow@[c as int] <= r);
        if j == c {
            assert(i != r) by {
                if i == r {
                    let (a, b) = keys[k];
                    let (d, e) = keys[m];
                    if p.perm@[a as int] == p.perm@[d as int] {
                        assert(a == d);
                        assert(p.perm@[b as int] == p.perm@[e as int]);
                        assert(b == e);
                    } else {
                        assert(p.perm@[a as int] == p.perm@[e as int]);
                        assert(p.perm@[b as int] == p.perm@[d as int]);
                        assert(a == e && b == d);
                    }
                }
            }
        } else if j < c {
            assert(p.off@[j as int] + (j - p.frow@[j as int]) < p.off@[c as int]);
        } else {
            assert(p.off@[c as int] + (c - p.frow@[c as int]) < p.off@[j as int]);
        }
    }
}

fn narrowed(n: usize, keys: &Vec<(usize, usize)>) -> (r: Vec<(u32, u32)>)
    requires
        n <= u32::MAX,
        forall|k: int| 0 <= k < keys@.len() ==> (#[trigger] keys@[k]).0 <= keys@[k].1 < n,
    ensures
        r@ == narrow(keys@),
{
    let mut r: Vec<(u32, u32)> = Vec::new();
    let mut k: usize = 0;
    while k < keys.len()
        invariant
            n <= u32::MAX,
            forall|k: int| 0 <= k < keys@.len() ==> (#[trigger] keys@[k]).0 <= keys@[k].1 < n,
            k <= keys@.len(),
            r@.len() == k,
            forall|m: int|
                0 <= m < k ==> #[trigger] r@[m] == (keys@[m].0 as u32, keys@[m].1 as u32),
        decreases keys@.len() - k,
    {
        let (a, b) = keys[k];
        r.push((a as u32, b as u32));
        k += 1;
    }
    assert(r@ =~= narrow(keys@));
    r
}

fn locate(perm: &Vec<usize>, key: (usize, usize)) -> (r: (usize, usize))
    requires
        key.0 < perm@.len(),
        key.1 < perm@.len(),
    ensures
        r == spot(perm@, key),
{
    let (i, j) = (perm[key.0], perm[key.1]);
    if i <= j {
        (i, j)
    } else {
        (j, i)
    }
}

fn first_rows(perm: &Vec<usize>, keys: &Vec<(usize, usize)>) -> (r: Vec<usize>)
    requires
        is_permutation(perm@.len(), perm@),
        forall|k: int| 0 <= k < keys@.len() ==> (#[trigger] keys@[k]).0 <= keys@[k].1 < perm@.len(),
    ensures
        r@ == Seq::new(perm@.len(), |j: int| first_row(perm@, keys@, j as usize, keys@.len())),
{
    let n: usize = perm.len();
    let mut r: Vec<usize> = Vec::new();
    let mut j: usize = 0;
    while j < n
        invariant
            n == perm@.len(),
            j <= n,
            r@.len() == j,
            forall|c: int| 0 <= c < j ==> #[trigger] r@[c] == first_row(perm@, keys@, c as usize, 0),
        decreases n - j,
    {
        r.push(j);
        j += 1;
    }
    let mut k: usize = 0;
    while k < keys.len()
        invariant
            n == perm@.len(),
            is_permutation(perm@.len(), perm@),
            forall|k: int|
                0 <= k < keys@.len() ==> (#[trigger] keys@[k]).0 <= keys@[k].1 < perm@.len(),
            k <= keys@.len(),
            r@.len() == n,
            forall|c: int|
                0 <= c < n ==> #[trigger] r@[c] == first_row(perm@, keys@, c as usize, k as nat),
        decreases keys@.len() - k,
    {
        let key = keys[k];
        assert(keys@[k as int].0 <= keys@[k as int].1 < n);
        let (i, c) = locate(perm, key);
        assert(perm@[key.0 as int] < n && perm@[key.1 as int] < n);
        if i < r[c] {
            r.set(c, i);
        }
        k += 1;
    }
    assert(r@ =~= Seq::new(
        perm@.len(),
        |j: int| first_row(perm@, keys@, j as usize, keys@.len()),
    ));
    r
}

/// The new numbers of the unknowns of a matrix.
pub open spec fn new_numbers(n: nat, keys: Seq<(usize, usize)>) -> Seq<usize> {
    numbering(cuthill_mckee(n, narrow(keys)))
}

/// How many places a matrix takes.
pub open spec fn size_of(n: nat, keys: Seq<(usize, usize)>) -> int {
    let perm = new_numbers(n, keys);
    offset(Seq::new(n, |j: int| first_row(perm, keys, j as usize, keys.len())), n as int)
}

/// The matrix has more places than can be counted, or more unknowns or entries
/// than the ordering takes.
pub open spec fn too_large(n: nat, keys: Seq<(usize, usize)>) -> bool {
    n > u32::MAX || keys.len() >= usize::MAX || size_of(n, keys) > usize::MAX
}

/// Renumbers the unknowns of a matrix and finds a place for each of its entries.
pub fn lay_out(n: usize, keys: &Vec<(usize, usize)>) -> (r: Result<Profile, ModelError>)
    requires
        forall|k: int| 0 <= k < keys@.len() ==> (#[trigger] keys@[k]).0 <= keys@[k].1 < n,
        keys@.no_duplicates(),
    ensures
        match r {
            Ok(p) => !too_large(n as nat, keys@) && p.holds(n as nat, keys@) && p.perm@
                == new_numbers(n as nat, keys@),
            Err(e) => too_large(n as nat, keys@) && e == ModelError::TooLarge,
        },
{
    if n > u32::MAX as usize || keys.len() == usize::MAX {
        return Err(ModelError::TooLarge);
    }
    let narrow_keys = narrowed(n, keys);
    let perm = rcm(n, narrow_keys.as_slice());
    let frow = first_rows(&perm, keys);
    assert forall|j: int| 0 <= j < n implies #[trigger] frow@[j] <= j by {
        lemma_first_row(perm@, keys@, j as usize, keys@.len());
    }
    let mut off: Vec<usize> = Vec::new();
    let mut len: usize = 0;
    let mut j: usize = 0;
    while j < n
        invariant
            j <= n,
            frow@.len() == n,
            size_of(n as nat, keys@) == offset(frow@, n as int),
            forall|c: int| 0 <= c < n ==> #[trigger] frow@[c] <= c,
            off@.len() == j,
            len == offset(frow@, j as int),
            forall|c: int| 0 <= c < j ==> #[trigger] off@[c] == offset(frow@, c),
        decreases n - j,
    {
        off.push(len);
        let width: usize = j - frow[j];
        proof {
            lemma_offset(frow@, j + 1, n as int);
        }
        match len.checked_add(width) {
            None => {
                return Err(ModelError::TooLarge);
            },
            Some(sum) => match sum.checked_add(1) {
                None => {
                    return Err(ModelError::TooLarge);
                },
                Some(total) => {
                    len = total;
                },
            },
        }
        j += 1;
    }
    let mut places: Vec<usize> = Vec::new();
    let mut k: usize = 0;
    while k < keys.len()
        invariant
            k <= keys@.len(),
            forall|k: int| 0 <= k < keys@.len() ==> (#[trigger] keys@[k]).0 <= keys@[k].1 < n,
            is_permutation(n as nat, perm@),
            frow@ == Seq::new(
                n as nat,
                |j: int| first_row(perm@, keys@, j as usize, keys@.len()),
            ),
            off@.len() == n,
            forall|c: int| 0 <= c < n ==> #[trigger] frow@[c] <= c,
            forall|c: int| 0 <= c < n ==> #[trigger] off@[c] == offset(frow@, c),
            len == offset(frow@, n as int),
            places@.len() == k,
            forall|m: int|
                0 <= m < k ==> #[trigger] places@[m] == off@[spot(perm@, keys@[m]).1 as int] + (spot(
                    perm@,
                    keys@[m],
                ).0 - frow@[spot(perm@, keys@[m]).1 as int]),
        decreases keys@.len() - k,
    {
        let key = keys[k];
        assert(keys@[k as int].0 <= keys@[k as int].1 < n);
        let (i, c) = locate(&perm, key);
        proof {
            assert(perm@[key.0 as int] < n && perm@[key.1 as int] < n);
            lemma_first_row(perm@, keys@, c, keys@.len());
            assert(spot(perm@, keys@[k as int]).1 == c);
            lemma_offset(frow@, c as int, n as int);
        }
        places.push(off[c] + (i - frow[c]));
        k += 1;
    }
    Ok(Profile { perm, frow, off, len, places })
}

} // verus!
