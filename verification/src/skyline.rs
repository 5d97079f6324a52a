//! Symmetric matrices in skyline storage: their factorization into a unit upper
//! triangle and a diagonal, and the solution of linear systems with the factors.
//!
//! The upper triangle is stored by columns: column `j` holds the rows from
//! `frow[j]` to `j`, one after the other, from `off[j]` on. Rows above `frow[j]`
//! are zero.

use crate::scalar::{Algebra, Cx, Number, Scalar};
use vstd::prelude::*;

verus! {

/// A symmetric matrix, as the upper triangle that is stored of it.
pub struct Sky<A> {
    pub frow: Seq<usize>,
    pub off: Seq<usize>,
    pub data: Seq<A>,
}

/// The columns fit into `len` places and do not overlap.
pub open spec fn valid_profile(frow: Seq<usize>, off: Seq<usize>, len: nat) -> bool {
    &&& frow.len() == off.len()
    &&& forall|j: int| 0 <= j < frow.len() ==> #[trigger] frow[j] <= j
    &&& forall|j: int| 0 <= j < frow.len() ==> (#[trigger] off[j]) + (j - frow[j]) < len
    &&& forall|i: int, j: int|
        0 <= i < j < frow.len() ==> (#[trigger] off[i]) + (i - frow[i]) < #[trigger] off[j]
}

impl<A> Sky<A> {
    /// The columns fit into the storage and do not overlap.
    pub open spec fn wf(self) -> bool {
        valid_profile(self.frow, self.off, self.data.len())
    }

    /// How many rows and columns there are.
    pub open spec fn n(self) -> nat {
        self.frow.len()
    }

    /// Where the entry in row `i` of column `j` is stored.
    pub open spec fn place(self, i: int, j: int) -> int {
        self.off[j] + (i - self.frow[j])
    }

    /// The first `n` columns.
    pub open spec fn leading(self, n: nat) -> Sky<A> {
        Sky { frow: self.frow.take(n as int), off: self.off.take(n as int), data: self.data }
    }

    /// Place `x` belongs to a column.
    pub open spec fn in_column(self, x: int) -> bool {
        exists|j: int|
            0 <= j < self.n() && (#[trigger] self.off[j]) <= x <= self.off[j] + (j - self.frow[j])
    }

    /// The stored entry in row `i` of column `j`.
    pub open spec fn at(self, i: int, j: int) -> A {
        self.data[self.place(i, j)]
    }
}

/// The larger of two numbers.
pub open spec fn larger(a: usize, b: usize) -> int {
    if a >= b {
        a as int
    } else {
        b as int
    }
}

impl<A: Algebra> Sky<A> {
    /// The entry in row `i` and column `j` of the symmetric matrix.
    pub open spec fn entry(self, i: int, j: int) -> A {
        let (lo, hi) = if i <= j {
            (i, j)
        } else {
            (j, i)
        };
        if self.frow[hi] <= lo {
            self.at(lo, hi)
        } else {
            A::zero()
        }
    }

    /// The entry in row `i` of column `j` once the columns before have been
    /// eliminated from it.
    pub open spec fn reduced(self, i: int, j: int) -> A
        decreases j, 2 * i + 1,
    {
        if self.frow[j] < i < j {
            self.at(i, j) - self.shared(i, j, i)
        } else {
            self.at(i, j)
        }
    }

    /// What the columns before `k` take off the entry in row `i` of column `j`.
    pub open spec fn shared(self, i: int, j: int, k: int) -> A
        decreases j, 2 * k,
    {
        if larger(self.frow[i], self.frow[j]) < k <= i < j {
            self.shared(i, j, k - 1) + self.upper(k - 1, i) * self.reduced(k - 1, j)
        } else {
            A::zero()
        }
    }

    /// The entry in row `k` of column `j` of the unit upper triangle, `k` less than
    /// `j`.
    pub open spec fn upper(self, k: int, j: int) -> A
        decreases j, 2 * k + 2,
    {
        if 0 <= k < j {
            self.reduced(k, j).over(self.pivot(k))
        } else {
            A::zero()
        }
    }

    /// The diagonal entry of column `j` less what the rows before `k` take off it.
    pub open spec fn diagonal(self, j: int, k: int) -> A
        decreases j, 2 * k + 1,
    {
        if self.frow[j] < k <= j {
            self.diagonal(j, k - 1) - self.upper(k - 1, j) * self.reduced(k - 1, j)
        } else {
            self.at(j, j)
        }
    }

    /// The entry of the diagonal factor in column `j`.
    pub open spec fn pivot(self, j: int) -> A
        decreases j, 2 * j + 2,
    {
        if 0 <= j {
            self.diagonal(j, j)
        } else {
            A::zero()
        }
    }

    /// `self` holds the factors of `m`: the unit upper triangle above the diagonal
    /// and the diagonal factor on it.
    pub open spec fn holds_factors_of(self, m: Sky<A>) -> bool {
        &&& self.frow == m.frow
        &&& self.off == m.off
        &&& self.data.len() == m.data.len()
        &&& forall|j: int, k: int|
            0 <= j < m.n() && m.frow[j] <= k < j ==> #[trigger] self.at(k, j) == m.upper(k, j)
        &&& forall|j: int| 0 <= j < m.n() ==> #[trigger] self.at(j, j) == m.pivot(j)
    }
}

/// The solution of a linear system, for a matrix that is given by its factors.
impl<A: Algebra> Sky<A> {
    /// What the unknowns before `k` take off the right hand side of row `j`.
    pub open spec fn lowered_by(self, b: Seq<A>, j: int, k: int) -> A
        decreases j, 2 * k,
    {
        if self.frow[j] < k <= j {
            self.lowered_by(b, j, k - 1) + self.at(k - 1, j) * self.lowered(b, k - 1)
        } else {
            A::zero()
        }
    }

    /// The solution of the system with the transposed triangle.
    pub open spec fn lowered(self, b: Seq<A>, j: int) -> A
        decreases j, 2 * j + 1,
    {
        if 0 <= j {
            b[j] - self.lowered_by(b, j, j)
        } else {
            A::zero()
        }
    }

    /// The solution of the system with the transposed triangle and the diagonal.
    pub open spec fn centred(self, b: Seq<A>, j: int) -> A {
        self.lowered(b, j).over(self.at(j, j))
    }

    /// Unknown `k` before the unknowns from `j` on have been taken off it.
    pub open spec fn raised(self, b: Seq<A>, k: int, j: int) -> A
        decreases self.n() - k, self.n() - j,
    {
        if k < j < self.n() {
            let rest = self.raised(b, k, j + 1);
            if self.frow[j] <= k {
                rest - self.at(k, j) * self.solution(b, j)
            } else {
                rest
            }
        } else {
            self.centred(b, k)
        }
    }

    /// The solution of the whole system.
    pub open spec fn solution(self, b: Seq<A>, k: int) -> A
        decreases self.n() - k, self.n() - k,
    {
        if k < self.n() {
            self.raised(b, k, k + 1)
        } else {
            A::zero()
        }
    }
}

/// The matrix stored in `a`.
pub open spec fn sky<A>(frow: &Vec<usize>, off: &Vec<usize>, a: &Vec<A>) -> Sky<A> {
    Sky { frow: frow@, off: off@, data: a@ }
}

/// Some pivot of the matrix is too small to divide by.
#[derive(Clone, Copy)]
pub struct Singular;

/// Whether a number is too small for a pivot.
pub open spec fn vanishes<T: Number>(d: Cx<T>) -> bool {
    d.magnitude().less(T::constants().tiny)
}

spec fn column_done<A: Algebra>(now: Sky<A>, m: Sky<A>, j: int) -> bool {
    &&& forall|k: int| m.frow[j] <= k < j ==> #[trigger] now.at(k, j) == m.upper(k, j)
    &&& now.at(j, j) == m.pivot(j)
}

spec fn column_untouched<A: Algebra>(now: Sky<A>, m: Sky<A>, j: int) -> bool {
    forall|k: int| m.frow[j] <= k <= j ==> #[trigger] now.at(k, j) == m.at(k, j)
}

/// Writing into column `j` leaves the other columns alone.
proof fn lemma_places<A>(m: Sky<A>, i: int, j: int, k: int, c: int)
    requires
        m.wf(),
        0 <= j < m.n(),
        m.frow[j] <= i <= j,
        0 <= c < m.n(),
        m.frow[c] <= k <= c,
    ensures
        0 <= m.place(i, j) < m.data.len(),
        m.place(i, j) == m.place(k, c) <==> i == k && j == c,
{
    assert(m.off[j] + (j - m.frow[j]) < m.data.len());
    assert(m.off[c] + (c - m.frow[c]) < m.data.len());
    if j < c {
        assert(m.off[j] + (j - m.frow[j]) < m.off[c]);
    } else if c < j {
        assert(m.off[c] + (c - m.frow[c]) < m.off[j]);
    }
}

proof fn lemma_write<A: Algebra>(before: Sky<A>, after: Sky<A>, i: int, j: int, x: A)
    requires
        before.wf(),
        0 <= j < before.n(),
        before.frow[j] <= i <= j,
        after.frow == before.frow,
        after.off == before.off,
        after.data == before.data.update(before.place(i, j), x),
    ensures
        after.wf(),
        after.at(i, j) == x,
        forall|k: int, c: int|
            0 <= c < before.n() && before.frow[c] <= k <= c && !(k == i && c == j)
                ==> #[trigger] after.at(k, c) == before.at(k, c),
{
    lemma_places(before, i, j, i, j);
    assert forall|k: int, c: int|
        0 <= c < before.n() && before.frow[c] <= k <= c && !(k == i && c == j) implies #[trigger] after.at(
    k, c) == before.at(k, c) by {
        lemma_places(before, i, j, k, c);
        lemma_places(before, k, c, i, j);
    }
}

/// All columns are the whole matrix.
pub proof fn lemma_all_leading<A>(m: Sky<A>)
    requires
        m.frow.len() == m.off.len(),
    ensures
        m.leading(m.n()) == m,
{
    assert(m.frow.take(m.n() as int) =~= m.frow);
    assert(m.off.take(m.n() as int) =~= m.off);
}

/// `data` has the places outside of the columns of `m` as `m` has them.
spec fn keeps<A>(data: Seq<A>, m: Sky<A>) -> bool {
    &&& data.len() == m.data.len()
    &&& forall|x: int|
        0 <= x < m.data.len() && !m.in_column(x) ==> #[trigger] data[x] == m.data[x]
}

proof fn lemma_keeps<A>(data: Seq<A>, m: Sky<A>, i: int, j: int, v: A)
    requires
        m.wf(),
        keeps(data, m),
        0 <= j < m.n(),
        m.frow[j] <= i <= j,
    ensures
        keeps(data.update(m.place(i, j), v), m),
{
    lemma_places(m, i, j, i, j);
    assert(m.off[j] <= m.place(i, j) <= m.off[j] + (j - m.frow[j]));
    assert(m.in_column(m.place(i, j)));
}

/// Factors the first `n` columns of the matrix in `a` in place. It fails where a
/// pivot vanishes, and then the contents of these columns are spoilt. What lies
/// outside of them stays as it is.
pub fn factor<T: Scalar>(n: usize, frow: &Vec<usize>, off: &Vec<usize>, a: &mut Vec<Cx<T>>) -> (r:
    Result<(), Singular>)
    requires
        n <= frow@.len(),
        n <= off@.len(),
        sky(frow, off, old(a)).leading(n as nat).wf(),
    ensures
        final(a)@.len() == old(a)@.len(),
        r is Ok <==> forall|j: int|
            0 <= j < n ==> !vanishes(#[trigger] sky(frow, off, old(a)).leading(n as nat).pivot(j)),
        r is Ok ==> (Sky { frow: frow@, off: off@, data: final(a)@ }).leading(
            n as nat,
        ).holds_factors_of(sky(frow, off, old(a)).leading(n as nat)),
        forall|x: int|
            0 <= x < final(a)@.len() && !sky(frow, off, old(a)).leading(n as nat).in_column(x)
                ==> #[trigger] final(a)@[x] == old(a)@[x],
{
    let tiny = T::known().tiny;
    let ghost m = sky(frow, off, old(a)).leading(n as nat);
    let ghost (fr, of) = (m.frow, m.off);
    let len: usize = a.len();
    let mut j: usize = 0;
    while j < n
        invariant
            n <= frow@.len(),
            n <= off@.len(),
            m.wf(),
            m.frow == fr,
            fr == frow@.take(n as int),
            m.off == of,
            of == off@.take(n as int),
            keeps(a@, m),
            j <= n,
            m == sky(frow, off, old(a)).leading(n as nat),
            a@.len() == len == m.data.len(),
            tiny == T::constants().tiny,
            forall|c: int|
                0 <= c < j ==> column_done(Sky { frow: fr, off: of, data: a@ }, m, c),
            forall|c: int|
                j <= c < n ==> column_untouched(Sky { frow: fr, off: of, data: a@ }, m, c),
            forall|c: int| 0 <= c < j ==> !vanishes(#[trigger] m.pivot(c)),
        decreases n - j,
    {
        let fj: usize = frow[j];
        let oj: usize = off[j];
        reduce_column(n, frow, off, j, a, Ghost(m));
        let mut dg = a[oj + (j - fj)];
        let mut k: usize = fj;
        proof {
            lemma_places(m, j as int, j as int, j as int, j as int);
        }
        while k < j
            invariant
                n <= frow@.len(),
            n <= off@.len(),
                m.wf(),
                m.frow == fr,
            fr == frow@.take(n as int),
                m.off == of,
            of == off@.take(n as int),
            keeps(a@, m),
                j < n,
                fj == frow@[j as int],
                oj == off@[j as int],
                fj <= k <= j,
                a@.len() == len == m.data.len(),
                forall|c: int|
                    0 <= c < j ==> column_done(Sky { frow: fr, off: of, data: a@ }, m, c),
                forall|c: int|
                    j < c < n ==> column_untouched(Sky { frow: fr, off: of, data: a@ }, m, c),
                forall|r: int|
                    fj <= r < k ==> #[trigger] (Sky { frow: fr, off: of, data: a@ }).at(
                        r,
                        j as int,
                    ) == m.upper(r, j as int),
                forall|r: int|
                    k <= r < j ==> #[trigger] (Sky { frow: fr, off: of, data: a@ }).at(
                        r,
                        j as int,
                    ) == m.reduced(r, j as int),
                dg == m.diagonal(j as int, k as int),
            decreases j - k,
        {
            let ghost before = Sky { frow: fr, off: of, data: a@ };
            proof {
                lemma_places(m, k as int, j as int, k as int, j as int);
                lemma_places(m, k as int, k as int, k as int, k as int);
                assert(before.at(k as int, j as int) == m.reduced(k as int, j as int));
                assert(column_done(before, m, k as int));
                assert(before.at(k as int, k as int) == m.pivot(k as int));
            }
            let g = a[oj + (k - fj)];
            let u = g.div(a[off[k] + (k - frow[k])]);
            dg = dg.sub(u.mul(g));
            a.set(oj + (k - fj), u);
            assert(u == m.upper(k as int, j as int));
            assert(dg == m.diagonal(j as int, k + 1));
            let ghost after = Sky { frow: fr, off: of, data: a@ };
            proof {
                lemma_write(before, after, k as int, j as int, u);
                lemma_keeps(before.data, m, k as int, j as int, u);
                assert forall|c: int| 0 <= c < j implies column_done(after, m, c) by {
                    assert(column_done(before, m, c));
                }
                assert forall|c: int| j < c < n implies column_untouched(after, m, c) by {
                    assert(column_untouched(before, m, c));
                }
            }
            k += 1;
        }
        assert(dg == m.pivot(j as int));
        if dg.mag().lt(tiny) {
            assert(vanishes(m.pivot(j as int)));
            return Err(Singular);
        }
        let ghost before = Sky { frow: fr, off: of, data: a@ };
        a.set(oj + (j - fj), dg);
        let ghost after = Sky { frow: fr, off: of, data: a@ };
        proof {
            lemma_write(before, after, j as int, j as int, dg);
            lemma_keeps(before.data, m, j as int, j as int, dg);
            assert forall|c: int| 0 <= c < j + 1 implies column_done(after, m, c) by {
                if c < j {
                    assert(column_done(before, m, c));
                }
            }
            assert forall|c: int| j < c < n implies column_untouched(after, m, c) by {
                assert(column_untouched(before, m, c));
            }
        }
        j += 1;
    }
    proof {
        let after = Sky { frow: fr, off: of, data: a@ };
        assert forall|j: int, k: int| 0 <= j < n && m.frow[j] <= k < j implies #[trigger] after.at(
            k,
            j,
        ) == m.upper(k, j) by {
            assert(column_done(after, m, j));
        }
        assert forall|j: int| 0 <= j < n implies #[trigger] after.at(j, j) == m.pivot(j) by {
            assert(column_done(after, m, j));
        }
    }
    Ok(())
}

/// Eliminates the finished columns from the entries of column `j` above the
/// diagonal.
fn reduce_column<T: Scalar>(
    n: usize,
    frow: &Vec<usize>,
    off: &Vec<usize>,
    j: usize,
    a: &mut Vec<Cx<T>>,
    Ghost(m): Ghost<Sky<Cx<T>>>,
)
    requires
        n <= frow@.len(),
            n <= off@.len(),
        m.wf(),
        m.frow == frow@.take(n as int),
        m.off == off@.take(n as int),
        keeps(old(a)@, m),
        j < n,
        old(a)@.len() == m.data.len(),
        forall|c: int|
            0 <= c < j ==> column_done(Sky { frow: m.frow, off: m.off, data: old(a)@ }, m, c),
        forall|c: int|
            j <= c < n ==> column_untouched(Sky { frow: m.frow, off: m.off, data: old(a)@ }, m, c),
    ensures
        final(a)@.len() == m.data.len(),
        keeps(final(a)@, m),
        forall|c: int|
            0 <= c < j ==> column_done(Sky { frow: m.frow, off: m.off, data: final(a)@ }, m, c),
        forall|c: int|
            j < c < n ==> column_untouched(Sky { frow: m.frow, off: m.off, data: final(a)@ }, m, c),
        forall|r: int|
            frow@[j as int] <= r < j ==> #[trigger] (Sky {
                frow: m.frow,
                off: m.off,
                data: final(a)@,
            }).at(r, j as int) == m.reduced(r, j as int),
        (Sky { frow: m.frow, off: m.off, data: final(a)@ }).at(j as int, j as int) == m.at(
            j as int,
            j as int,
        ),
{
    let fj: usize = frow[j];
    let oj: usize = off[j];
    let len: usize = a.len();
    let ghost (fr, of) = (m.frow, m.off);
    proof {
        let before = Sky { frow: fr, off: of, data: a@ };
        assert(column_untouched(before, m, j as int));
        assert(before.at(fj as int, j as int) == m.at(fj as int, j as int));
        assert(before.at(j as int, j as int) == m.at(j as int, j as int));
        lemma_places(m, j as int, j as int, j as int, j as int);
        assert(m.frow[j as int] <= j);
    }
    if fj == j {
        return ;
    }
    let mut i: usize = fj + 1;
    while i < j
        invariant
            n <= frow@.len(),
            n <= off@.len(),
            m.wf(),
            m.frow == fr,
            fr == frow@.take(n as int),
            m.off == of,
            of == off@.take(n as int),
            keeps(a@, m),
            j < n,
            fj == frow@[j as int],
            oj == off@[j as int],
            fj < i <= j,
            a@.len() == len == m.data.len(),
            forall|c: int|
                0 <= c < j ==> column_done(Sky { frow: fr, off: of, data: a@ }, m, c),
            forall|c: int|
                j < c < n ==> column_untouched(Sky { frow: fr, off: of, data: a@ }, m, c),
            forall|r: int|
                fj <= r < i ==> #[trigger] (Sky { frow: fr, off: of, data: a@ }).at(
                    r,
                    j as int,
                ) == m.reduced(r, j as int),
            forall|r: int|
                i <= r <= j ==> #[trigger] (Sky { frow: fr, off: of, data: a@ }).at(
                    r,
                    j as int,
                ) == m.at(r, j as int),
        decreases j - i,
    {
        let fi: usize = frow[i];
        let oi: usize = off[i];
        let start: usize = if fi > fj {
            fi
        } else {
            fj
        };
        let ghost before = Sky { frow: fr, off: of, data: a@ };
        let mut s = Cx::<T>::nil();
        let mut k: usize = start;
        assert(m.frow[i as int] <= i);
        while k < i
            invariant
                n <= frow@.len(),
            n <= off@.len(),
                m.wf(),
                m.frow == fr,
            fr == frow@.take(n as int),
                m.off == of,
            of == off@.take(n as int),
            keeps(a@, m),
                before == (Sky { frow: fr, off: of, data: a@ }),
                j < n,
                fj == frow@[j as int],
                oj == off@[j as int],
                fi == frow@[i as int],
                oi == off@[i as int],
                start == larger(fi, fj),
                start <= k <= i < j,
                a@.len() == len == m.data.len(),
                column_done(before, m, i as int),
                forall|r: int|
                    fj <= r < i ==> #[trigger] before.at(r, j as int) == m.reduced(r, j as int),
                s == m.shared(i as int, j as int, k as int),
            decreases i - k,
        {
            proof {
                lemma_places(m, k as int, i as int, k as int, j as int);
                lemma_places(m, k as int, j as int, k as int, j as int);
                assert(before.at(k as int, i as int) == m.upper(k as int, i as int));
                assert(before.at(k as int, j as int) == m.reduced(k as int, j as int));
            }
            s = s.add(a[oi + (k - fi)].mul(a[oj + (k - fj)]));
            k += 1;
        }
        proof {
            lemma_places(m, i as int, j as int, i as int, j as int);
            assert(before.at(i as int, j as int) == m.at(i as int, j as int));
        }
        let x = a[oj + (i - fj)].sub(s);
        a.set(oj + (i - fj), x);
        let ghost after = Sky { frow: fr, off: of, data: a@ };
        proof {
            if start == i {
                assert(m.shared(i as int, j as int, i as int) == Cx::<T>::zero());
            }
            lemma_write(before, after, i as int, j as int, x);
            lemma_keeps(before.data, m, i as int, j as int, x);
            assert forall|c: int| 0 <= c < j implies column_done(after, m, c) by {
                assert(column_done(before, m, c));
            }
            assert forall|c: int| j < c < n implies column_untouched(after, m, c) by {
                assert(column_untouched(before, m, c));
            }
        }
        i += 1;
    }
}

/// Solves a linear system of `n` equations in place of its right hand side. The
/// first `n` columns of `a` hold the factors of the matrix. What the right hand side
/// has beyond `n` stays as it is.
pub fn solve<T: Scalar>(
    n: usize,
    frow: &Vec<usize>,
    off: &Vec<usize>,
    a: &Vec<Cx<T>>,
    b: &mut Vec<Cx<T>>,
)
    requires
        n <= frow@.len(),
        n <= off@.len(),
        sky(frow, off, a).leading(n as nat).wf(),
        old(b)@.len() >= n,
    ensures
        final(b)@.len() == old(b)@.len(),
        forall|k: int|
            0 <= k < n ==> #[trigger] final(b)@[k] == sky(frow, off, a).leading(
                n as nat,
            ).solution(old(b)@, k),
        forall|k: int| n <= k < final(b)@.len() ==> #[trigger] final(b)@[k] == old(b)@[k],
{
    let ghost f = sky(frow, off, a).leading(n as nat);
    let ghost b0 = b@;
    let len: usize = a.len();
    let mut j: usize = 0;
    while j < n
        invariant
            n <= frow@.len(),
            n <= off@.len(),
            f == sky(frow, off, a).leading(n as nat),
            f.wf(),
            len == a@.len(),
            j <= n,
            b@.len() == b0.len() >= n,
            forall|c: int| n <= c < b0.len() ==> #[trigger] b@[c] == b0[c],
            forall|c: int| 0 <= c < j ==> #[trigger] b@[c] == f.lowered(b0, c),
            forall|c: int| j <= c < n ==> #[trigger] b@[c] == b0[c],
        decreases n - j,
    {
        let fj: usize = frow[j];
        let oj: usize = off[j];
        let mut s = Cx::<T>::nil();
        let mut k: usize = fj;
        assert(f.frow[j as int] <= j);
        while k < j
            invariant
                n <= frow@.len(),
            n <= off@.len(),
                f == sky(frow, off, a).leading(n as nat),
                f.wf(),
                len == a@.len(),
                j < n,
                b@.len() == b0.len() >= n,
            forall|c: int| n <= c < b0.len() ==> #[trigger] b@[c] == b0[c],
                fj == frow@[j as int],
                oj == off@[j as int],
                fj <= k <= j,
                forall|c: int| 0 <= c < j ==> #[trigger] b@[c] == f.lowered(b0, c),
                s == f.lowered_by(b0, j as int, k as int),
            decreases j - k,
        {
            proof {
                lemma_places(f, k as int, j as int, k as int, j as int);
            }
            s = s.add(a[oj + (k - fj)].mul(b[k]));
            k += 1;
        }
        b.set(j, b[j].sub(s));
        j += 1;
    }
    j = 0;
    while j < n
        invariant
            n <= frow@.len(),
            n <= off@.len(),
            f == sky(frow, off, a).leading(n as nat),
            f.wf(),
            len == a@.len(),
            j <= n,
            b@.len() == b0.len() >= n,
            forall|c: int| n <= c < b0.len() ==> #[trigger] b@[c] == b0[c],
            forall|c: int| 0 <= c < j ==> #[trigger] b@[c] == f.centred(b0, c),
            forall|c: int| j <= c < n ==> #[trigger] b@[c] == f.lowered(b0, c),
        decreases n - j,
    {
        proof {
            lemma_places(f, j as int, j as int, j as int, j as int);
        }
        b.set(j, b[j].div(a[off[j] + (j - frow[j])]));
        j += 1;
    }
    proof {
        assert forall|c: int| 0 <= c < j implies #[trigger] b@[c] == f.raised(b0, c, n as int) by {
            assert(f.raised(b0, c, n as int) == f.centred(b0, c));
        }
    }
    while j > 0
        invariant
            n <= frow@.len(),
            n <= off@.len(),
            f == sky(frow, off, a).leading(n as nat),
            f.wf(),
            len == a@.len(),
            j <= n,
            b@.len() == b0.len() >= n,
            forall|c: int| n <= c < b0.len() ==> #[trigger] b@[c] == b0[c],
            forall|c: int| 0 <= c < j ==> #[trigger] b@[c] == f.raised(b0, c, j as int),
            forall|c: int| j <= c < n ==> #[trigger] b@[c] == f.solution(b0, c),
        decreases j,
    {
        j -= 1;
        let xj = b[j];
        let fj: usize = frow[j];
        let oj: usize = off[j];
        assert(f.frow[j as int] <= j);
        assert(xj == f.solution(b0, j as int));
        let mut k: usize = fj;
        while k < j
            invariant
                n <= frow@.len(),
            n <= off@.len(),
                f == sky(frow, off, a).leading(n as nat),
                f.wf(),
                len == a@.len(),
                j < n,
                b@.len() == b0.len() >= n,
            forall|c: int| n <= c < b0.len() ==> #[trigger] b@[c] == b0[c],
                fj == frow@[j as int],
                oj == off@[j as int],
                fj <= k <= j,
                xj == f.solution(b0, j as int),
                forall|c: int| fj <= c < k ==> #[trigger] b@[c] == f.raised(b0, c, j as int),
                forall|c: int|
                    0 <= c < fj || k <= c < j ==> #[trigger] b@[c] == f.raised(b0, c, j + 1),
                forall|c: int| j <= c < n ==> #[trigger] b@[c] == f.solution(b0, c),
            decreases j - k,
        {
            proof {
                lemma_places(f, k as int, j as int, k as int, j as int);
            }
            b.set(k, b[k].sub(a[oj + (k - fj)].mul(xj)));
            k += 1;
        }
        proof {
            assert forall|c: int| 0 <= c < j implies #[trigger] b@[c] == f.raised(
                b0,
                c,
                j as int,
            ) by {
                if c < fj {
                    assert(b@[c] == f.raised(b0, c, j + 1));
                }
            }
        }
    }
}

} // verus!
