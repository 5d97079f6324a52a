//! Linear systems solved with care: the matrix is balanced before it is factored,
//! and one step of refinement against the matrix itself follows every solution.

use crate::scalar::{cx, Algebra, Cx, Number, Scalar};
use crate::skyline::{factor, lemma_all_leading, sky, solve, vanishes, Singular, Sky};
use vstd::prelude::*;

verus! {

// ---------------------------------------------------------------- model

/// The last of the first `n` columns that starts at or before place `x`, or -1.
pub open spec fn column_at(off: Seq<usize>, x: int, n: int) -> int
    decreases n,
{
    if n <= 0 {
        -1
    } else if off[n - 1] <= x {
        n - 1
    } else {
        column_at(off, x, n - 1)
    }
}

impl<A> Sky<A> {
    /// The column that place `x` belongs to.
    pub open spec fn column(self, x: int) -> int {
        column_at(self.off, x, self.n() as int)
    }

    /// The row that place `x` belongs to.
    pub open spec fn row(self, x: int) -> int {
        x - self.off[self.column(x)] + self.frow[self.column(x)]
    }

    /// Place `x` belongs to an entry.
    pub open spec fn is_entry(self, x: int) -> bool {
        self.column(x) >= 0 && self.row(x) <= self.column(x)
    }
}

impl<A: Algebra> Sky<A> {
    /// The matrix with row and column `i` multiplied by `d[i]`, for every `i`.
    pub open spec fn balanced(self, d: Seq<A>) -> Sky<A> {
        Sky {
            frow: self.frow,
            off: self.off,
            data: Seq::new(
                self.data.len(),
                |x: int|
                    if self.is_entry(x) {
                        d[self.row(x)] * self.data[x] * d[self.column(x)]
                    } else {
                        self.data[x]
                    },
            ),
        }
    }

    /// The factors of the matrix, in place of its entries.
    pub open spec fn factors(self) -> Sky<A> {
        Sky {
            frow: self.frow,
            off: self.off,
            data: Seq::new(
                self.data.len(),
                |x: int|
                    if self.is_entry(x) && self.row(x) < self.column(x) {
                        self.upper(self.row(x), self.column(x))
                    } else if self.is_entry(x) {
                        self.pivot(self.column(x))
                    } else {
                        self.data[x]
                    },
            ),
        }
    }

    /// The entry in row `i` and column `j` is stored.
    pub open spec fn stored(self, i: int, j: int) -> bool {
        if i <= j {
            self.frow[j] <= i
        } else {
            self.frow[i] <= j
        }
    }

    /// Row `i` times the vector `x`, as far as the first `j` columns go.
    pub open spec fn row_product(self, x: Seq<A>, i: int, j: int) -> A
        decreases j,
    {
        if j <= 0 {
            A::zero()
        } else {
            let before = self.row_product(x, i, j - 1);
            if self.stored(i, j - 1) {
                before + self.entry(i, j - 1) * x[j - 1]
            } else {
                before
            }
        }
    }

    /// What the vector `x` leaves of the right hand side `b`.
    pub open spec fn residual(self, b: Seq<A>, x: Seq<A>) -> Seq<A> {
        Seq::new(self.n(), |i: int| b[i] - self.row_product(x, i, self.n() as int))
    }

    /// The solution of the system through the factors of the balanced matrix.
    pub open spec fn solved(self, d: Seq<A>, b: Seq<A>) -> Seq<A> {
        let f = self.balanced(d).factors();
        let c = Seq::new(self.n(), |i: int| d[i] * b[i]);
        Seq::new(self.n(), |i: int| d[i] * f.solution(c, i))
    }

    /// The solution of the system after one step of refinement.
    pub open spec fn refined(self, d: Seq<A>, b: Seq<A>) -> Seq<A> {
        let x = self.solved(d, b);
        let e = self.solved(d, self.residual(b, x));
        Seq::new(self.n(), |i: int| x[i] + e[i])
    }
}

/// The inverse square root of a diagonal entry; one where there is none.
pub open spec fn scale_of<T: Number>(x: Cx<T>) -> Cx<T> {
    if vanishes(x) {
        Cx::<T>::one()
    } else {
        Cx::<T>::one().over(x.principal_root())
    }
}

/// What the rows and columns of a matrix are multiplied by.
pub open spec fn scales<T: Number>(m: Sky<Cx<T>>) -> Seq<Cx<T>> {
    Seq::new(m.n(), |i: int| scale_of(m.at(i, i)))
}

/// No pivot of the balanced matrix vanishes.
pub open spec fn regular<T: Number>(m: Sky<Cx<T>>) -> bool {
    forall|j: int| 0 <= j < m.n() ==> !vanishes(#[trigger] m.balanced(scales(m)).pivot(j))
}

/// The Euclidean length of the first `n` numbers of a vector, squared.
pub open spec fn square<T: Number>(v: Seq<Cx<T>>, n: int) -> T
    decreases n,
{
    if n <= 0 {
        T::zero()
    } else {
        square(v, n - 1) + (v[n - 1].re * v[n - 1].re + v[n - 1].im * v[n - 1].im)
    }
}

/// The length of the residual of `x` over the length of the right hand side `b`.
pub open spec fn relative_residual<T: Number>(m: Sky<Cx<T>>, b: Seq<Cx<T>>, x: Seq<Cx<T>>) -> T {
    let n = m.n() as int;
    square(m.residual(b, x), n).root().over(square(b, n).root())
}

// ---------------------------------------------------------------- places

proof fn lemma_column_at(off: Seq<usize>, x: int, j: int, n: int)
    requires
        0 <= j < n <= off.len(),
        off[j] <= x,
        forall|c: int| j < c < n ==> x < #[trigger] off[c],
    ensures
        column_at(off, x, n) == j,
    decreases n,
{
    if n - 1 != j {
        assert(x < off[n - 1]);
        lemma_column_at(off, x, j, n - 1);
    }
}

/// The place of an entry belongs to its row and its column.
pub proof fn lemma_place<A>(m: Sky<A>, i: int, j: int)
    requires
        m.wf(),
        0 <= j < m.n(),
        m.frow[j] <= i <= j,
    ensures
        0 <= m.place(i, j) < m.data.len(),
        m.column(m.place(i, j)) == j,
        m.row(m.place(i, j)) == i,
        m.is_entry(m.place(i, j)),
{
    let x = m.place(i, j);
    assert(m.off[j] + (j - m.frow[j]) < m.data.len());
    assert forall|c: int| j < c < m.n() implies x < #[trigger] m.off[c] by {
        assert(m.off[j] + (j - m.frow[j]) < m.off[c]);
    }
    lemma_column_at(m.off, x, j, m.n() as int);
}

/// The factors of a matrix hold its unit triangle and its pivots.
pub proof fn lemma_factors<A: Algebra>(m: Sky<A>)
    requires
        m.wf(),
    ensures
        m.factors().holds_factors_of(m),
        m.factors().wf(),
{
    let f = m.factors();
    assert forall|j: int, k: int| 0 <= j < m.n() && m.frow[j] <= k < j implies #[trigger] f.at(k, j)
        == m.upper(k, j) by {
        lemma_place(m, k, j);
    }
    assert forall|j: int| 0 <= j < m.n() implies #[trigger] f.at(j, j) == m.pivot(j) by {
        assert(m.frow[j] <= j);
        lemma_place(m, j, j);
    }
}

/// Two matrices store the same entries.
pub open spec fn agree<A: Algebra>(f: Sky<A>, g: Sky<A>) -> bool {
    &&& f.wf()
    &&& f.frow == g.frow
    &&& f.off == g.off
    &&& forall|k: int, j: int|
        0 <= j < f.n() && f.frow[j] <= k <= j ==> #[trigger] f.at(k, j) == g.at(k, j)
}

proof fn lemma_same_lowered_by<A: Algebra>(f: Sky<A>, g: Sky<A>, b: Seq<A>, j: int, k: int)
    requires
        agree(f, g),
        0 <= j < f.n(),
    ensures
        f.lowered_by(b, j, k) == g.lowered_by(b, j, k),
    decreases j, 2 * k,
{
    if f.frow[j] < k <= j {
        lemma_same_lowered_by(f, g, b, j, k - 1);
        lemma_same_lowered(f, g, b, k - 1);
        assert(f.at(k - 1, j) == g.at(k - 1, j));
    }
}

proof fn lemma_same_lowered<A: Algebra>(f: Sky<A>, g: Sky<A>, b: Seq<A>, j: int)
    requires
        agree(f, g),
        0 <= j < f.n(),
    ensures
        f.lowered(b, j) == g.lowered(b, j),
    decreases j, 2 * j + 1,
{
    lemma_same_lowered_by(f, g, b, j, j);
}

proof fn lemma_same_raised<A: Algebra>(f: Sky<A>, g: Sky<A>, b: Seq<A>, k: int, j: int)
    requires
        agree(f, g),
        0 <= k < f.n(),
    ensures
        f.raised(b, k, j) == g.raised(b, k, j),
    decreases f.n() - k, f.n() - j,
{
    assert(f.frow[k] <= k);
    assert(f.at(k, k) == g.at(k, k));
    lemma_same_lowered(f, g, b, k);
    if k < j < f.n() {
        lemma_same_raised(f, g, b, k, j + 1);
        lemma_same_solution(f, g, b, j);
        if f.frow[j] <= k {
            assert(f.at(k, j) == g.at(k, j));
        }
    }
}

/// Factors that store the same entries give the same solution.
pub proof fn lemma_same_solution<A: Algebra>(f: Sky<A>, g: Sky<A>, b: Seq<A>, k: int)
    requires
        agree(f, g),
        0 <= k < f.n(),
    ensures
        f.solution(b, k) == g.solution(b, k),
    decreases f.n() - k, f.n() - k,
{
    lemma_same_raised(f, g, b, k, k + 1);
}

/// Whatever holds the factors of a matrix agrees with them.
pub proof fn lemma_agree<A: Algebra>(f: Sky<A>, m: Sky<A>)
    requires
        m.wf(),
        f.holds_factors_of(m),
    ensures
        agree(f, m.factors()),
{
    lemma_factors(m);
    let g = m.factors();
    assert forall|k: int, j: int| 0 <= j < f.n() && f.frow[j] <= k <= j implies #[trigger] f.at(k, j)
        == g.at(k, j) by {
        if k < j {
            assert(f.at(k, j) == m.upper(k, j));
            assert(g.at(k, j) == m.upper(k, j));
        } else {
            assert(f.at(j, j) == m.pivot(j));
            assert(g.at(j, j) == m.pivot(j));
        }
    }
}

// ---------------------------------------------------------------- solution

/// A balanced matrix, factored.
pub struct Factors<T> {
    /// What row and column `i` were multiplied by.
    pub scale: Vec<Cx<T>>,
    /// The factors.
    pub data: Vec<Cx<T>>,
}

impl<T: Number> Factors<T> {
    /// `self` holds the factors of the balanced `m`.
    pub open spec fn of_matrix(self, m: Sky<Cx<T>>) -> bool {
        &&& self.scale@ == scales(m)
        &&& (Sky { frow: m.frow, off: m.off, data: self.data@ }).holds_factors_of(
            m.balanced(scales(m)),
        )
    }
}

fn scale_for<T: Scalar>(x: Cx<T>) -> (r: Cx<T>)
    ensures
        r == scale_of(x),
{
    let one = cx(T::unit(), T::nil());
    if x.mag().lt(T::known().tiny) {
        one
    } else {
        one.div(x.sqrt())
    }
}

/// Balances a matrix.
pub fn balance<T: Scalar>(
    n: usize,
    frow: &Vec<usize>,
    off: &Vec<usize>,
    a: &Vec<Cx<T>>,
) -> (r: (Vec<Cx<T>>, Vec<Cx<T>>))
    requires
        n == frow@.len(),
        sky(frow, off, a).wf(),
    ensures
        r.0@ == scales(sky(frow, off, a)),
        r.1@ == sky(frow, off, a).balanced(r.0@).data,
{
    let ghost m = sky(frow, off, a);
    let len: usize = a.len();
    let mut d: Vec<Cx<T>> = Vec::new();
    let mut j: usize = 0;
    while j < n
        invariant
            n == frow@.len(),
            m == sky(frow, off, a),
            m.wf(),
            len == a@.len(),
            j <= n,
            d@.len() == j,
            forall|c: int| 0 <= c < j ==> #[trigger] d@[c] == scale_of(m.at(c, c)),
        decreases n - j,
    {
        assert(m.frow[j as int] <= j);
        assert(m.off[j as int] + (j - m.frow[j as int]) < len);
        d.push(scale_for(a[off[j] + (j - frow[j])]));
        j += 1;
    }
    assert(d@ =~= scales(m));
    let mut s: Vec<Cx<T>> = Vec::new();
    let mut x: usize = 0;
    while x < len
        invariant
            len == a@.len(),
            x <= len,
            s@.len() == x,
            forall|y: int| 0 <= y < x ==> #[trigger] s@[y] == a@[y],
        decreases len - x,
    {
        s.push(a[x]);
        x += 1;
    }
    let ghost goal = m.balanced(d@);
    j = 0;
    while j < n
        invariant
            n == frow@.len(),
            m == sky(frow, off, a),
            m.wf(),
            len == a@.len(),
            d@.len() == n,
            goal == m.balanced(d@),
            j <= n,
            s@.len() == len,
            forall|y: int|
                0 <= y < len ==> #[trigger] s@[y] == if m.is_entry(y) && m.column(y) < j {
                    goal.data[y]
                } else {
                    a@[y]
                },
        decreases n - j,
    {
        let fj: usize = frow[j];
        let oj: usize = off[j];
        assert(m.frow[j as int] <= j);
        assert(m.off[j as int] + (j - m.frow[j as int]) < len);
        let mut i: usize = fj;
        assert forall|y: int| 0 <= y < len && m.is_entry(y) && m.column(y) == j implies fj
            <= #[trigger] m.row(y) by {
            lemma_column_below(m.off, y, n as int);
        }
        while i <= j
            invariant
                n == frow@.len(),
                m == sky(frow, off, a),
                m.wf(),
                len == a@.len(),
                d@.len() == n,
                goal == m.balanced(d@),
                j < n,
                fj == frow@[j as int],
                oj == off@[j as int],
                fj <= i <= j + 1,
                oj + (j - fj) < len,
                s@.len() == len,
                forall|y: int|
                    0 <= y < len ==> #[trigger] s@[y] == if m.is_entry(y) && (m.column(y) < j || (
                    m.column(y) == j && m.row(y) < i)) {
                        goal.data[y]
                    } else {
                        a@[y]
                    },
            decreases j + 1 - i,
        {
            proof {
                lemma_place(m, i as int, j as int);
            }
            let x: usize = oj + (i - fj);
            s.set(x, d[i].mul(a[x]).mul(d[j]));
            i += 1;
        }
        j += 1;
    }
    proof {
        assert forall|y: int| 0 <= y < len implies #[trigger] s@[y] == goal.data[y] by {
            if m.is_entry(y) {
                lemma_column_below(m.off, y, n as int);
            }
        }
        assert(s@ =~= goal.data);
    }
    (d, s)
}

proof fn lemma_column_below(off: Seq<usize>, x: int, n: int)
    requires
        0 <= n,
    ensures
        column_at(off, x, n) < n,
        column_at(off, x, n) >= 0 ==> off[column_at(off, x, n)] <= x,
    decreases n,
{
    if n > 0 {
        lemma_column_below(off, x, n - 1);
    }
}

/// Balances and factors a matrix. It fails where a pivot of the balanced matrix
/// vanishes.
pub fn prepare<T: Scalar>(
    n: usize,
    frow: &Vec<usize>,
    off: &Vec<usize>,
    a: &Vec<Cx<T>>,
) -> (r: Result<Factors<T>, Singular>)
    requires
        n == frow@.len(),
        sky(frow, off, a).wf(),
    ensures
        r is Ok <==> regular(sky(frow, off, a)),
        r matches Ok(f) ==> f.of_matrix(sky(frow, off, a)),
{
    let ghost m = sky(frow, off, a);
    let (scale, mut data) = balance(n, frow, off, a);
    assert(sky(frow, off, &data) == m.balanced(scales(m)));
    proof {
        lemma_all_leading(m.balanced(scales(m)));
    }
    let done = factor(n, frow, off, &mut data);
    proof {
        lemma_all_leading(Sky { frow: frow@, off: off@, data: data@ });
    }
    match done {
        Err(e) => Err(e),
        Ok(_) => Ok(Factors { scale, data }),
    }
}

fn scaled_vector<T: Scalar>(d: &Vec<Cx<T>>, b: &Vec<Cx<T>>) -> (r: Vec<Cx<T>>)
    requires
        d@.len() == b@.len(),
    ensures
        r@ == Seq::new(d@.len(), |i: int| d@[i] * b@[i]),
{
    let mut r: Vec<Cx<T>> = Vec::new();
    let mut i: usize = 0;
    while i < d.len()
        invariant
            d@.len() == b@.len(),
            i <= d@.len(),
            r@.len() == i,
            forall|k: int| 0 <= k < i ==> #[trigger] r@[k] == d@[k] * b@[k],
        decreases d@.len() - i,
    {
        r.push(d[i].mul(b[i]));
        i += 1;
    }
    assert(r@ =~= Seq::new(d@.len(), |i: int| d@[i] * b@[i]));
    r
}

fn solve_once<T: Scalar>(
    n: usize,
    frow: &Vec<usize>,
    off: &Vec<usize>,
    f: &Factors<T>,
    b: &Vec<Cx<T>>,
    Ghost(m): Ghost<Sky<Cx<T>>>,
) -> (r: Vec<Cx<T>>)
    requires
        n == frow@.len(),
        m.wf(),
        m.frow == frow@,
        m.off == off@,
        f.of_matrix(m),
        b@.len() == n,
    ensures
        r@ == m.solved(scales(m), b@),
{
    let ghost bal = m.balanced(scales(m));
    let ghost g = Sky { frow: frow@, off: off@, data: f.data@ };
    assert(sky(frow, off, &f.data) == g);
    let mut y = scaled_vector(&f.scale, b);
    let ghost c = y@;
    proof {
        lemma_agree(g, bal);
        lemma_all_leading(g);
    }
    solve(n, frow, off, &f.data, &mut y);
    let r = scaled_vector(&f.scale, &y);
    proof {
        assert(c =~= Seq::new(m.n(), |i: int| scales(m)[i] * b@[i]));
        assert forall|i: int| 0 <= i < n implies #[trigger] r@[i] == m.solved(scales(m), b@)[i] by {
            assert(y@[i] == g.solution(c, i));
            lemma_same_solution(g, bal.factors(), c, i);
        }
        assert(r@ =~= m.solved(scales(m), b@));
    }
    r
}

/// What a vector leaves of a right hand side.
pub fn residual_of<T: Scalar>(
    n: usize,
    frow: &Vec<usize>,
    off: &Vec<usize>,
    a: &Vec<Cx<T>>,
    b: &Vec<Cx<T>>,
    x: &Vec<Cx<T>>,
) -> (r: Vec<Cx<T>>)
    requires
        n == frow@.len(),
        sky(frow, off, a).wf(),
        b@.len() == n,
        x@.len() == n,
    ensures
        r@ == sky(frow, off, a).residual(b@, x@),
{
    let ghost m = sky(frow, off, a);
    let len: usize = a.len();
    let zero: Cx<T> = Cx::nil();
    let mut y: Vec<Cx<T>> = Vec::new();
    while y.len() < n
        invariant
            zero == Cx::<T>::zero(),
            y@.len() <= n,
            forall|i: int| 0 <= i < y@.len() ==> #[trigger] y@[i] == Cx::<T>::zero(),
        decreases n - y@.len(),
    {
        y.push(zero);
    }
    let mut j: usize = 0;
    while j < n
        invariant
            n == frow@.len(),
            m == sky(frow, off, a),
            m.wf(),
            len == a@.len(),
            x@.len() == n,
            y@.len() == n,
            j <= n,
            forall|i: int| 0 <= i < j ==> #[trigger] y@[i] == m.row_product(x@, i, j as int),
            forall|i: int| j <= i < n ==> #[trigger] y@[i] == Cx::<T>::zero(),
        decreases n - j,
    {
        let fj: usize = frow[j];
        let oj: usize = off[j];
        assert(m.frow[j as int] <= j);
        assert(m.off[j as int] + (j - m.frow[j as int]) < len);
        let ghost before = y@;
        let mut k: usize = fj;
        proof {
            lemma_row_start(m, x@, j as int, fj as int);
        }
        while k < j
            invariant
                n == frow@.len(),
                m == sky(frow, off, a),
                m.wf(),
                len == a@.len(),
                x@.len() == n,
                y@.len() == n,
                before.len() == n,
                j < n,
                fj == frow@[j as int],
                oj == off@[j as int],
                fj <= k <= j,
                oj + (j - fj) < len,
                forall|i: int|
                    0 <= i < j ==> #[trigger] before[i] == m.row_product(x@, i, j as int),
                forall|i: int|
                    fj <= i < k ==> #[trigger] y@[i] == m.row_product(x@, i, j as int + 1),
                forall|i: int|
                    0 <= i < j && !(fj <= i < k) ==> #[trigger] y@[i] == before[i],
                y@[j as int] == m.row_product(x@, j as int, k as int),
                forall|i: int| j < i < n ==> #[trigger] y@[i] == Cx::<T>::zero(),
            decreases j - k,
        {
            let v = a[oj + (k - fj)];
            assert(v == m.at(k as int, j as int));
            assert(m.entry(k as int, j as int) == v);
            assert(m.entry(j as int, k as int) == v);
            let (yk, yj) = (y[k], y[j]);
            assert(yk == before[k as int]);
            y.set(k, yk.add(v.mul(x[j])));
            y.set(j, yj.add(v.mul(x[k])));
            k += 1;
        }
        let v = a[oj + (j - fj)];
        assert(m.entry(j as int, j as int) == v);
        let yj = y[j];
        y.set(j, yj.add(v.mul(x[j])));
        assert forall|i: int| 0 <= i < j + 1 implies #[trigger] y@[i] == m.row_product(
            x@,
            i,
            j as int + 1,
        ) by {
            if i < fj {
                assert(y@[i] == before[i]);
                assert(!m.stored(i, j as int));
            }
        }
        j += 1;
    }
    let mut r: Vec<Cx<T>> = Vec::new();
    let mut i: usize = 0;
    while i < n
        invariant
            b@.len() == n,
            y@.len() == n,
            i <= n,
            r@.len() == i,
            forall|k: int| 0 <= k < i ==> #[trigger] r@[k] == b@[k] - y@[k],
        decreases n - i,
    {
        r.push(b[i].sub(y[i]));
        i += 1;
    }
    assert(r@ =~= m.residual(b@, x@));
    r
}

proof fn lemma_row_start<A: Algebra>(m: Sky<A>, x: Seq<A>, i: int, j: int)
    requires
        m.wf(),
        0 <= j <= m.frow[i],
        0 <= i < m.n(),
    ensures
        m.row_product(x, i, j) == A::zero(),
    decreases j,
{
    if j > 0 {
        lemma_row_start(m, x, i, j - 1);
        assert(m.frow[i] <= i);
        assert(!m.stored(i, j - 1));
    }
}

/// Solves a linear system, with one step of refinement. `f` holds the factors of
/// the balanced matrix.
pub fn solve_refined<T: Scalar>(
    n: usize,
    frow: &Vec<usize>,
    off: &Vec<usize>,
    a: &Vec<Cx<T>>,
    f: &Factors<T>,
    b: &Vec<Cx<T>>,
) -> (r: Vec<Cx<T>>)
    requires
        n == frow@.len(),
        sky(frow, off, a).wf(),
        f.of_matrix(sky(frow, off, a)),
        b@.len() == n,
    ensures
        r@ == sky(frow, off, a).refined(scales(sky(frow, off, a)), b@),
{
    let ghost m = sky(frow, off, a);
    let mut x = solve_once(n, frow, off, f, b, Ghost(m));
    let rest = residual_of(n, frow, off, a, b, &x);
    let e = solve_once(n, frow, off, f, &rest, Ghost(m));
    let ghost first = x@;
    let mut i: usize = 0;
    while i < n
        invariant
            first.len() == n,
            x@.len() == n,
            e@.len() == n,
            i <= n,
            forall|k: int| 0 <= k < i ==> #[trigger] x@[k] == first[k] + e@[k],
            forall|k: int| i <= k < n ==> #[trigger] x@[k] == first[k],
        decreases n - i,
    {
        let v = x[i];
        x.set(i, v.add(e[i]));
        i += 1;
    }
    assert(x@ =~= m.refined(scales(m), b@));
    x
}

fn square_of<T: Scalar>(v: &Vec<Cx<T>>) -> (r: T)
    ensures
        r == square(v@, v@.len() as int),
{
    let mut s = T::nil();
    let mut i: usize = 0;
    while i < v.len()
        invariant
            i <= v@.len(),
            s == square(v@, i as int),
        decreases v@.len() - i,
    {
        let x = v[i];
        s = s.add(x.re.mul(x.re).add(x.im.mul(x.im)));
        i += 1;
    }
    s
}

/// Measures how well a vector solves a linear system.
pub fn measure<T: Scalar>(
    n: usize,
    frow: &Vec<usize>,
    off: &Vec<usize>,
    a: &Vec<Cx<T>>,
    b: &Vec<Cx<T>>,
    x: &Vec<Cx<T>>,
) -> (r: T)
    requires
        n == frow@.len(),
        sky(frow, off, a).wf(),
        b@.len() == n,
        x@.len() == n,
    ensures
        r == relative_residual(sky(frow, off, a), b@, x@),
{
    let rest = residual_of(n, frow, off, a, b, x);
    square_of(&rest).sqrt().div(square_of(b).sqrt())
}

/// The largest and the smallest magnitude among the first `n` pivots.
pub open spec fn pivot_bounds<T: Number>(m: Sky<Cx<T>>, n: int) -> (T, T)
    decreases n,
{
    if n <= 0 {
        (T::zero(), T::constants().largest)
    } else {
        let (hi, lo) = pivot_bounds(m, n - 1);
        let p = m.pivot(n - 1).magnitude();
        (
            if hi.less(p) {
                p
            } else {
                hi
            },
            if p.less(lo) {
                p
            } else {
                lo
            },
        )
    }
}

/// The largest pivot of a balanced matrix over the smallest.
pub open spec fn pivot_spread<T: Number>(m: Sky<Cx<T>>) -> T {
    let (hi, lo) = pivot_bounds(m.balanced(scales(m)), m.n() as int);
    hi.over(lo)
}

/// Measures the spread of the pivots.
pub fn spread_of<T: Scalar>(
    n: usize,
    frow: &Vec<usize>,
    off: &Vec<usize>,
    a: &Vec<Cx<T>>,
    f: &Factors<T>,
) -> (r: T)
    requires
        n == frow@.len(),
        sky(frow, off, a).wf(),
        f.of_matrix(sky(frow, off, a)),
    ensures
        r == pivot_spread(sky(frow, off, a)),
{
    let ghost m = sky(frow, off, a);
    let ghost bal = m.balanced(scales(m));
    let ghost g = Sky { frow: frow@, off: off@, data: f.data@ };
    let len: usize = f.data.len();
    let mut hi = T::nil();
    let mut lo = T::known().largest;
    let mut j: usize = 0;
    while j < n
        invariant
            n == frow@.len(),
            m.wf(),
            m.frow == frow@,
            m.off == off@,
            len == f.data@.len() == m.data.len(),
            g == (Sky { frow: frow@, off: off@, data: f.data@ }),
            g.holds_factors_of(bal),
            bal.frow == m.frow,
            bal.off == m.off,
            j <= n,
            (hi, lo) == pivot_bounds(bal, j as int),
        decreases n - j,
    {
        assert(m.frow[j as int] <= j);
        assert(m.off[j as int] + (j - m.frow[j as int]) < len);
        assert(g.at(j as int, j as int) == bal.pivot(j as int));
        let p = f.data[off[j] + (j - frow[j])].mag();
        if hi.lt(p) {
            hi = p;
        }
        if p.lt(lo) {
            lo = p;
        }
        j += 1;
    }
    hi.div(lo)
}

} // verus!
