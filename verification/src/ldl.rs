//! What the factorization and the solution mean in exact arithmetic: the factors
//! multiply to the matrix, and the solution solves the system.

use crate::complex::{lemma_complex_division, lemma_complex_ring, Real};
use crate::exact::{
    exact_division, law_add_assoc, law_add_comm, law_add_zero, law_exact_division, law_mul_assoc,
    law_mul_comm, law_mul_one, law_mul_zero, law_sub, lemma_sum_same, lemma_sum_scale,
    lemma_sum_split, lemma_sum_swap, lemma_sum_zero, ring, sum,
};
use crate::scalar::{Algebra, Cx};
use crate::skyline::{larger, Sky};
use vstd::prelude::*;

verus! {

impl<A: Algebra> Sky<A> {
    /// The unit upper triangle of a matrix that holds factors, with the ones on the
    /// diagonal and the zeros around.
    pub open spec fn triangle(self, k: int, j: int) -> A {
        if k == j {
            A::one()
        } else if self.frow[j] <= k < j {
            self.at(k, j)
        } else {
            A::zero()
        }
    }

    /// Row `i`, column `j` of the product of the transposed triangle, the diagonal
    /// and the triangle that `self` holds.
    pub open spec fn product(self, i: int, j: int) -> A {
        sum(
            |k: int| self.triangle(k, i) * (self.at(k, k) * self.triangle(k, j)),
            0,
            self.n() as int,
        )
    }

    /// No diagonal factor is zero.
    pub open spec fn invertible(self) -> bool {
        forall|k: int| 0 <= k < self.n() ==> #[trigger] self.at(k, k) != A::zero()
    }

    /// Row `i` of the matrix times the vector `x`.
    pub open spec fn row_times(self, x: spec_fn(int) -> A, i: int) -> A {
        sum(|j: int| self.entry(i, j) * x(j), 0, self.n() as int)
    }
}

/// The entry that elimination leaves is the triangle's entry times the pivot.
proof fn lemma_reduced<A: Algebra>(m: Sky<A>, f: Sky<A>, k: int, j: int)
    requires
        exact_division::<A>(),
        ring::<A>(),
        f.holds_factors_of(m),
        f.invertible(),
        0 <= j < m.n(),
        m.frow[j] <= k < j,
    ensures
        m.reduced(k, j) == f.at(k, k) * f.triangle(k, j),
{
    assert(f.at(k, j) == m.upper(k, j));
    assert(f.at(k, k) == m.pivot(k));
    law_exact_division(m.reduced(k, j), m.pivot(k));
    law_mul_comm(f.at(k, j), f.at(k, k));
}

spec fn term<A: Algebra>(f: Sky<A>, i: int, j: int) -> spec_fn(int) -> A {
    |k: int| f.triangle(k, i) * (f.at(k, k) * f.triangle(k, j))
}

proof fn lemma_shared<A: Algebra>(m: Sky<A>, f: Sky<A>, i: int, j: int, k: int)
    requires
        exact_division::<A>(),
        ring::<A>(),
        m.wf(),
        f.holds_factors_of(m),
        f.invertible(),
        0 <= i < j < m.n(),
        larger(m.frow[i], m.frow[j]) <= k <= i,
    ensures
        m.shared(i, j, k) == sum(term(f, i, j), larger(m.frow[i], m.frow[j]), k),
    decreases k,
{
    let start = larger(m.frow[i], m.frow[j]);
    if start < k {
        lemma_shared(m, f, i, j, k - 1);
        lemma_reduced(m, f, k - 1, j);
        assert(f.at(k - 1, i) == m.upper(k - 1, i));
        assert(f.triangle(k - 1, i) == m.upper(k - 1, i));
        assert(term(f, i, j)(k - 1) == m.upper(k - 1, i) * m.reduced(k - 1, j));
    }
}

proof fn lemma_diagonal<A: Algebra>(m: Sky<A>, f: Sky<A>, j: int, k: int)
    requires
        exact_division::<A>(),
        ring::<A>(),
        m.wf(),
        f.holds_factors_of(m),
        f.invertible(),
        0 <= j < m.n(),
        m.frow[j] <= k <= j,
    ensures
        m.diagonal(j, k) + sum(term(f, j, j), m.frow[j] as int, k) == m.at(j, j),
    decreases k,
{
    if m.frow[j] < k {
        lemma_diagonal(m, f, j, k - 1);
        lemma_reduced(m, f, k - 1, j);
        assert(f.at(k - 1, j) == m.upper(k - 1, j));
        let before = m.diagonal(j, k - 1);
        let x = m.upper(k - 1, j) * m.reduced(k - 1, j);
        let s = sum(term(f, j, j), m.frow[j] as int, k - 1);
        assert(term(f, j, j)(k - 1) == x);
        law_add_comm(s, x);
        law_add_assoc(before - x, x, s);
        law_sub(before, x);
    } else {
        law_add_zero(m.at(j, j));
    }
}

/// In exact arithmetic the factors multiply to the matrix, in the upper triangle.
proof fn lemma_factors_upper<A: Algebra>(m: Sky<A>, f: Sky<A>, i: int, j: int)
    requires
        exact_division::<A>(),
        ring::<A>(),
        m.wf(),
        f.holds_factors_of(m),
        f.invertible(),
        0 <= i <= j < m.n(),
    ensures
        f.product(i, j) == m.entry(i, j),
{
    let n = m.n() as int;
    let g = term(f, i, j);
    let start = larger(m.frow[i], m.frow[j]);
    assert(m.frow[i] <= i);
    assert(m.frow[j] <= j);
    assert forall|k: int| i < k < n implies #[trigger] g(k) == A::zero() by {
        law_mul_zero(f.at(k, k) * f.triangle(k, j));
    }
    lemma_sum_split(g, 0, i + 1, n);
    lemma_sum_zero(g, i + 1, n);
    law_add_zero(sum(g, 0, i + 1));
    assert(f.product(i, j) == sum(g, 0, n));
    if start <= i {
        assert forall|k: int| 0 <= k < start implies #[trigger] g(k) == A::zero() by {
            if k < m.frow[i] {
                law_mul_zero(f.at(k, k) * f.triangle(k, j));
            } else {
                law_mul_zero(f.at(k, k));
                law_mul_zero(f.triangle(k, i));
            }
        }
        lemma_sum_split(g, 0, start, i);
        lemma_sum_zero(g, 0, start);
        law_add_zero(sum(g, start, i));
        assert(sum(g, 0, i + 1) == sum(g, start, i) + g(i));
        law_mul_one(f.at(i, i) * f.triangle(i, j));
        assert(g(i) == f.at(i, i) * f.triangle(i, j));
        let s = sum(g, start, i);
        if i < j {
            lemma_reduced(m, f, i, j);
            lemma_shared(m, f, i, j, i);
            assert(g(i) == m.reduced(i, j));
            if m.frow[j] < i {
                law_sub(m.at(i, j), s);
            } else {
                assert(start == i);
                law_add_zero(m.at(i, j));
            }
        } else {
            law_mul_one(f.at(i, i));
            lemma_diagonal(m, f, j, j);
            assert(f.at(j, j) == m.pivot(j));
            law_add_comm(s, m.pivot(j));
        }
    } else {
        assert(i < m.frow[j]);
        assert forall|k: int| 0 <= k < i + 1 implies #[trigger] g(k) == A::zero() by {
            law_mul_zero(f.at(k, k));
            law_mul_zero(f.triangle(k, i));
        }
        lemma_sum_zero(g, 0, i + 1);
    }
}

/// In exact arithmetic the factors multiply to the matrix: the transposed triangle,
/// the diagonal and the triangle that `f` holds.
pub proof fn lemma_factors_multiply<A: Algebra>(m: Sky<A>, f: Sky<A>, i: int, j: int)
    requires
        exact_division::<A>(),
        ring::<A>(),
        m.wf(),
        f.holds_factors_of(m),
        f.invertible(),
        0 <= i < m.n(),
        0 <= j < m.n(),
    ensures
        f.product(i, j) == m.entry(i, j),
{
    if i <= j {
        lemma_factors_upper(m, f, i, j);
    } else {
        lemma_factors_upper(m, f, j, i);
        assert forall|k: int| 0 <= k < m.n() implies #[trigger] term(f, i, j)(k) == term(
            f,
            j,
            i,
        )(k) by {
            let (u, d, v) = (f.triangle(k, i), f.at(k, k), f.triangle(k, j));
            law_mul_comm(u, d * v);
            law_mul_comm(d, v);
            law_mul_assoc(v, d, u);
        }
        lemma_sum_same(term(f, i, j), term(f, j, i), 0, m.n() as int);
        assert(f.product(i, j) == sum(term(f, i, j), 0, m.n() as int));
        assert(f.product(j, i) == sum(term(f, j, i), 0, m.n() as int));
    }
}

// ---------------------------------------------------------------- solution

proof fn lemma_lowered_by<A: Algebra>(f: Sky<A>, b: Seq<A>, j: int, k: int)
    requires
        ring::<A>(),
        f.wf(),
        0 <= j < f.n(),
        f.frow[j] <= k <= j,
    ensures
        f.lowered_by(b, j, k) == sum(
            |i: int| f.triangle(i, j) * f.lowered(b, i),
            f.frow[j] as int,
            k,
        ),
    decreases k,
{
    if f.frow[j] < k {
        lemma_lowered_by(f, b, j, k - 1);
    }
}

/// The transposed triangle times the lowered right hand side is the right hand
/// side.
proof fn lemma_lowered<A: Algebra>(f: Sky<A>, b: Seq<A>, j: int)
    requires
        ring::<A>(),
        f.wf(),
        0 <= j < f.n(),
    ensures
        sum(|i: int| f.triangle(i, j) * f.lowered(b, i), 0, f.n() as int) == b[j],
{
    let n = f.n() as int;
    let g = |i: int| f.triangle(i, j) * f.lowered(b, i);
    let start = f.frow[j] as int;
    assert(f.frow[j] <= j);
    lemma_lowered_by(f, b, j, j);
    assert forall|i: int| j < i < n implies #[trigger] g(i) == A::zero() by {
        law_mul_zero(f.lowered(b, i));
    }
    assert forall|i: int| 0 <= i < start implies #[trigger] g(i) == A::zero() by {
        law_mul_zero(f.lowered(b, i));
    }
    lemma_sum_split(g, 0, start, n);
    lemma_sum_zero(g, 0, start);
    lemma_sum_split(g, start, j + 1, n);
    lemma_sum_zero(g, j + 1, n);
    law_add_zero(sum(g, start, n));
    law_add_zero(sum(g, start, j + 1));
    assert(sum(g, start, j + 1) == sum(g, start, j) + g(j));
    law_mul_one(f.lowered(b, j));
    law_sub(b[j], f.lowered_by(b, j, j));
}

proof fn lemma_raised<A: Algebra>(f: Sky<A>, b: Seq<A>, k: int, j: int)
    requires
        ring::<A>(),
        f.wf(),
        0 <= k < j <= f.n(),
    ensures
        f.raised(b, k, j) + sum(|i: int| f.triangle(k, i) * f.solution(b, i), j, f.n() as int)
            == f.centred(b, k),
    decreases f.n() - j,
{
    let n = f.n() as int;
    let g = |i: int| f.triangle(k, i) * f.solution(b, i);
    if j < n {
        lemma_raised(f, b, k, j + 1);
        let rest = f.raised(b, k, j + 1);
        lemma_sum_split(g, j, j + 1, n);
        assert(sum(g, j, j + 1) == sum(g, j, j) + g(j));
        law_add_zero(g(j));
        law_add_assoc(f.raised(b, k, j), g(j), sum(g, j + 1, n));
        if f.frow[j] <= k {
            law_sub(rest, g(j));
        } else {
            law_mul_zero(f.solution(b, j));
            law_add_zero(rest);
        }
    } else {
        law_add_zero(f.raised(b, k, j));
    }
}

/// The triangle times the solution is the centred right hand side.
proof fn lemma_solution<A: Algebra>(f: Sky<A>, b: Seq<A>, k: int)
    requires
        ring::<A>(),
        f.wf(),
        0 <= k < f.n(),
    ensures
        sum(|i: int| f.triangle(k, i) * f.solution(b, i), 0, f.n() as int) == f.centred(b, k),
{
    let n = f.n() as int;
    let g = |i: int| f.triangle(k, i) * f.solution(b, i);
    lemma_raised(f, b, k, k + 1);
    assert forall|i: int| 0 <= i < k implies #[trigger] g(i) == A::zero() by {
        assert(f.frow[i] <= i);
        law_mul_zero(f.solution(b, i));
    }
    lemma_sum_split(g, 0, k, n);
    lemma_sum_zero(g, 0, k);
    law_add_zero(sum(g, k, n));
    lemma_sum_split(g, k, k + 1, n);
    assert(sum(g, k, k + 1) == sum(g, k, k) + g(k));
    law_add_zero(g(k));
    law_mul_one(f.solution(b, k));
}

/// In exact arithmetic the solution solves the system: where `f` holds the factors
/// of `m` and no pivot is zero, `m` times the solution is the right hand side.
pub proof fn lemma_solution_solves<A: Algebra>(m: Sky<A>, f: Sky<A>, b: Seq<A>, i: int)
    requires
        exact_division::<A>(),
        ring::<A>(),
        m.wf(),
        f.holds_factors_of(m),
        f.invertible(),
        0 <= i < m.n(),
    ensures
        m.row_times(|k: int| f.solution(b, k), i) == b[i],
{
    let n = m.n() as int;
    let x = |k: int| f.solution(b, k);
    assert(f.wf());
    // The entries of the matrix, written out through the factors.
    let cell = |j: int, k: int| term(f, i, j)(k) * x(j);
    let by_entry = |j: int| m.entry(i, j) * x(j);
    let by_factor = |j: int| sum(|k: int| cell(j, k), 0, n);
    assert forall|j: int| 0 <= j < n implies #[trigger] by_entry(j) == by_factor(j) by {
        lemma_factors_multiply(m, f, i, j);
        let t = term(f, i, j);
        assert(f.product(i, j) == sum(t, 0, n));
        lemma_sum_scale(x(j), t, 0, n);
        law_mul_comm(m.entry(i, j), x(j));
        let scaled = |k: int| x(j) * t(k);
        let cells = |k: int| cell(j, k);
        assert forall|k: int| 0 <= k < n implies #[trigger] scaled(k) == cells(k) by {
            law_mul_comm(x(j), t(k));
        }
        lemma_sum_same(scaled, cells, 0, n);
    }
    lemma_sum_same(by_entry, by_factor, 0, n);
    lemma_sum_swap(cell, 0, n, 0, n);
    let column = |k: int| sum(|j: int| cell(j, k), 0, n);
    let lowered = |k: int| f.triangle(k, i) * f.lowered(b, k);
    assert forall|k: int| 0 <= k < n implies #[trigger] column(k) == lowered(k) by {
        let (u, d) = (f.triangle(k, i), f.at(k, k));
        let row = |j: int| f.triangle(k, j) * x(j);
        lemma_solution(f, b, k);
        assert(sum(row, 0, n) == f.centred(b, k)) by {
            lemma_sum_same(row, |j: int| f.triangle(k, j) * f.solution(b, j), 0, n);
        }
        lemma_sum_scale(u * d, row, 0, n);
        let cells = |j: int| cell(j, k);
        let scaled = |j: int| (u * d) * row(j);
        assert forall|j: int| 0 <= j < n implies #[trigger] cells(j) == scaled(j) by {
            let v = f.triangle(k, j);
            law_mul_assoc(u, d, v);
            law_mul_assoc(u * d, v, x(j));
        }
        lemma_sum_same(cells, scaled, 0, n);
        law_mul_assoc(u, d, f.centred(b, k));
        law_exact_division(f.lowered(b, k), d);
        law_mul_comm(d, f.centred(b, k));
    }
    lemma_sum_same(column, lowered, 0, n);
    lemma_lowered(f, b, i);
    lemma_sum_same(lowered, |k: int| f.triangle(k, i) * f.lowered(b, k), 0, n);
}

/// Over the complex numbers, without rounding, the solution solves the system.
pub proof fn lemma_complex_solution_solves(
    m: Sky<Cx<Real>>,
    f: Sky<Cx<Real>>,
    b: Seq<Cx<Real>>,
    i: int,
)
    requires
        m.wf(),
        f.holds_factors_of(m),
        f.invertible(),
        0 <= i < m.n(),
    ensures
        m.row_times(|k: int| f.solution(b, k), i) == b[i],
{
    lemma_complex_ring();
    lemma_complex_division();
    lemma_solution_solves(m, f, b, i);
}

// ---------------------------------------------------------------- leading columns

proof fn lemma_leading_reduced<A: Algebra>(m: Sky<A>, n: nat, i: int, j: int)
    requires
        n <= m.n(),
        m.wf(),
        0 <= j < n,
    ensures
        m.leading(n).reduced(i, j) == m.reduced(i, j),
    decreases j, 2 * i + 1,
{
    if m.frow[j] < i < j {
        lemma_leading_shared(m, n, i, j, i);
    }
}

proof fn lemma_leading_shared<A: Algebra>(m: Sky<A>, n: nat, i: int, j: int, k: int)
    requires
        n <= m.n(),
        m.wf(),
        0 <= i < j < n,
    ensures
        m.leading(n).shared(i, j, k) == m.shared(i, j, k),
    decreases j, 2 * k,
{
    if larger(m.frow[i], m.frow[j]) < k <= i < j {
        lemma_leading_shared(m, n, i, j, k - 1);
        lemma_leading_upper(m, n, k - 1, i);
        lemma_leading_reduced(m, n, k - 1, j);
    }
}

proof fn lemma_leading_upper<A: Algebra>(m: Sky<A>, n: nat, k: int, j: int)
    requires
        n <= m.n(),
        m.wf(),
        0 <= j < n,
    ensures
        m.leading(n).upper(k, j) == m.upper(k, j),
    decreases j, 2 * k + 2,
{
    if 0 <= k < j {
        lemma_leading_reduced(m, n, k, j);
        lemma_leading_pivot(m, n, k);
    }
}

proof fn lemma_leading_diagonal<A: Algebra>(m: Sky<A>, n: nat, j: int, k: int)
    requires
        n <= m.n(),
        m.wf(),
        0 <= j < n,
    ensures
        m.leading(n).diagonal(j, k) == m.diagonal(j, k),
    decreases j, 2 * k + 1,
{
    if m.frow[j] < k <= j {
        lemma_leading_diagonal(m, n, j, k - 1);
        lemma_leading_upper(m, n, k - 1, j);
        lemma_leading_reduced(m, n, k - 1, j);
    }
}

proof fn lemma_leading_pivot<A: Algebra>(m: Sky<A>, n: nat, j: int)
    requires
        n <= m.n(),
        m.wf(),
        0 <= j < n,
    ensures
        m.leading(n).pivot(j) == m.pivot(j),
    decreases j, 2 * j + 2,
{
    lemma_leading_diagonal(m, n, j, j);
}

/// The columns follow each other without a gap, from the first place on.
pub open spec fn contiguous<A>(m: Sky<A>) -> bool {
    &&& m.n() > 0 ==> m.off[0] == 0
    &&& forall|j: int|
        0 < j < m.n() ==> #[trigger] m.off[j] == m.off[j - 1] + (j - 1 - m.frow[j - 1]) + 1
}

proof fn lemma_find_column<A>(m: Sky<A>, n: int, x: int) -> (j: int)
    requires
        m.wf(),
        contiguous(m),
        0 < n < m.n(),
        0 <= x < m.off[n],
    ensures
        0 <= j < n,
        m.off[j] <= x <= m.off[j] + (j - m.frow[j]),
    decreases n,
{
    assert(m.off[n] == m.off[n - 1] + (n - 1 - m.frow[n - 1]) + 1);
    if m.off[n - 1] <= x {
        n - 1
    } else {
        assert(n - 1 > 0);
        lemma_find_column(m, n - 1, x)
    }
}

/// The factors of the first `n` columns do not depend on the columns behind them:
/// factoring them alone gives what factoring the whole matrix gives there, and leaves
/// the places from column `n` on as they were. `f` holds the factors of the whole
/// matrix, `g` is what factoring the first `n` columns makes of it.
pub proof fn lemma_leading_factors<A: Algebra>(m: Sky<A>, f: Sky<A>, g: Sky<A>, n: nat)
    requires
        m.wf(),
        contiguous(m),
        n < m.n(),
        f.holds_factors_of(m),
        g.holds_factors_of(m.leading(n)),
        forall|x: int|
            0 <= x < m.data.len() && !m.leading(n).in_column(x) ==> #[trigger] g.data[x]
                == m.data[x],
    ensures
        forall|j: int| 0 <= j < n ==> #[trigger] m.leading(n).pivot(j) == m.pivot(j),
        forall|x: int| 0 <= x < m.off[n as int] ==> #[trigger] g.data[x] == f.data[x],
        forall|x: int| m.off[n as int] <= x < m.data.len() ==> #[trigger] g.data[x] == m.data[x],
{
    let l = m.leading(n);
    assert forall|j: int| 0 <= j < n implies #[trigger] l.pivot(j) == m.pivot(j) by {
        lemma_leading_pivot(m, n, j);
    }
    assert forall|x: int| 0 <= x < m.off[n as int] implies #[trigger] g.data[x] == f.data[x] by {
        let j = lemma_find_column(m, n as int, x);
        let i = x - m.off[j] + m.frow[j];
        assert(x == f.place(i, j) && x == g.place(i, j));
        if i < j {
            lemma_leading_upper(m, n, i, j);
            assert(f.at(i, j) == m.upper(i, j));
            assert(g.at(i, j) == l.upper(i, j));
        } else {
            assert(f.at(j, j) == m.pivot(j));
            assert(g.at(j, j) == l.pivot(j));
        }
    }
    assert forall|x: int| m.off[n as int] <= x < m.data.len() implies #[trigger] g.data[x]
        == m.data[x] by {
        assert forall|j: int| 0 <= j < n implies !((#[trigger] l.off[j]) <= x <= l.off[j] + (j
            - l.frow[j])) by {
            assert(m.off[j] + (j - m.frow[j]) < m.off[n as int]);
        }
        assert(!l.in_column(x));
    }
}

} // verus!
