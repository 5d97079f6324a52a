//! Port quantities derived from scattering parameters: impedance and admittance
//! matrices, inductance and quality factor.

use crate::groups::ModelError;
use crate::ports::PortShape;
use crate::refine::{lemma_agree, lemma_same_solution};
use crate::scalar::{cx, Algebra, Cx, Number, Scalar};
use crate::skyline::{factor, lemma_all_leading, sky, solve, vanishes, Sky};
use crate::sweep::lists;
use vstd::prelude::*;

verus! {

// ---------------------------------------------------------------- model

/// An entry of the unit matrix.
pub open spec fn kronecker<T: Algebra>(own: bool) -> Cx<T> {
    if own {
        Cx::<T>::one()
    } else {
        Cx::<T>::zero()
    }
}

/// An entry of the unit matrix less or plus the scattering matrix.
pub open spec fn shifted<T: Algebra>(s: Cx<T>, own: bool, less: bool) -> Cx<T> {
    if less {
        kronecker::<T>(own) - s
    } else {
        kronecker::<T>(own) + s
    }
}

/// The upper triangle of the unit matrix less or plus the scattering matrix, as
/// far as its first `k` columns go.
pub open spec fn packed<T: Algebra>(columns: Seq<Seq<Cx<T>>>, less: bool, k: nat) -> Seq<Cx<T>>
    decreases k,
{
    if k == 0 {
        seq![]
    } else {
        packed(columns, less, (k - 1) as nat) + Seq::new(
            k,
            |i: int| shifted(columns[k - 1][i], i == k - 1, less),
        )
    }
}

/// The unit matrix less or plus the scattering matrix, which is symmetric.
pub open spec fn dense<T: Algebra>(columns: Seq<Seq<Cx<T>>>, less: bool) -> Sky<Cx<T>> {
    Sky {
        frow: Seq::new(columns.len(), |j: int| 0usize),
        off: Seq::new(columns.len(), |j: int| packed(columns, less, j as nat).len() as usize),
        data: packed(columns, less, columns.len()),
    }
}

pub open spec fn unit_vector<T: Algebra>(n: nat, p: int) -> Seq<Cx<T>> {
    Seq::new(n, |i: int| kronecker::<T>(i == p))
}

/// Row `q`, column `p` of the normalized matrix: twice the inverse less the unit
/// matrix.
pub open spec fn normalized<T: Algebra>(m: Sky<Cx<T>>, two: T, q: int, p: int) -> Cx<T> {
    m.factors().solution(unit_vector(m.n(), p), q).scaled(two) - kronecker::<T>(q == p)
}

/// The root of the product of two reference impedances.
pub open spec fn reference<T: Number>(ports: Seq<PortShape<T>>, q: int, p: int) -> T {
    (ports[q].z0 * ports[p].z0).root()
}

/// The impedance between the ports `q` and `p`.
pub open spec fn impedance_of<T: Number>(
    ports: Seq<PortShape<T>>,
    columns: Seq<Seq<Cx<T>>>,
    q: int,
    p: int,
) -> Cx<T> {
    normalized(dense(columns, true), T::number(2), q, p).scaled(reference(ports, q, p))
}

/// The admittance between the ports `q` and `p`.
pub open spec fn admittance_of<T: Number>(
    ports: Seq<PortShape<T>>,
    columns: Seq<Seq<Cx<T>>>,
    q: int,
    p: int,
) -> Cx<T> {
    normalized(dense(columns, false), T::number(2), q, p).scaled(
        T::one().over(reference(ports, q, p)),
    )
}

/// Some pivot of the matrix vanishes.
pub open spec fn no_inverse<T: Number>(m: Sky<Cx<T>>) -> bool {
    exists|j: int| 0 <= j < m.n() && vanishes(#[trigger] m.pivot(j))
}

proof fn lemma_packed<T: Algebra>(columns: Seq<Seq<Cx<T>>>, less: bool, i: nat, j: nat, k: nat)
    requires
        i <= j < k,
    ensures
        packed(columns, less, j).len() + i < packed(columns, less, k).len(),
        packed(columns, less, k)[(packed(columns, less, j).len() + i) as int] == shifted(
            columns[j as int][i as int],
            i == j,
            less,
        ),
    decreases k,
{
    if k - 1 > j {
        lemma_packed(columns, less, i, j, (k - 1) as nat);
    }
}

/// The packed triangle is a matrix in skyline storage with the entries of the unit
/// matrix less or plus the scattering matrix.
pub proof fn lemma_dense<T: Algebra>(columns: Seq<Seq<Cx<T>>>, less: bool)
    requires
        packed(columns, less, columns.len()).len() <= usize::MAX,
    ensures
        dense(columns, less).wf(),
        forall|i: int, j: int|
            0 <= i <= j < columns.len() ==> #[trigger] dense(columns, less).at(i, j) == shifted(
                columns[j][i],
                i == j,
                less,
            ),
{
    let n = columns.len();
    let m = dense(columns, less);
    assert forall|j: int| 0 <= j < n implies packed(columns, less, j as nat).len() + j < m.data.len()
        && #[trigger] m.off[j] == packed(columns, less, j as nat).len() by {
        lemma_packed(columns, less, j as nat, j as nat, n);
    }
    assert forall|i: int, j: int| 0 <= i < j < n implies (#[trigger] m.off[i]) + (i - m.frow[i])
        < #[trigger] m.off[j] by {
        lemma_packed(columns, less, i as nat, i as nat, j as nat);
    }
    assert forall|i: int, j: int| 0 <= i <= j < n implies #[trigger] m.at(i, j) == shifted(
        columns[j][i],
        i == j,
        less,
    ) by {
        lemma_packed(columns, less, i as nat, j as nat, n);
        assert(m.off[j] == packed(columns, less, j as nat).len());
    }
}

// ---------------------------------------------------------------- matrices

/// The triangle of the unit matrix less or plus the scattering matrix.
fn pack<T: Scalar>(columns: &Vec<Vec<Cx<T>>>, less: bool) -> (r: (
    Vec<usize>,
    Vec<usize>,
    Vec<Cx<T>>,
))
    requires
        forall|p: int|
            0 <= p < columns@.len() ==> (#[trigger] columns@[p])@.len() == columns@.len(),
    ensures
        sky(&r.0, &r.1, &r.2) == dense(lists(columns@), less),
        r.0@.len() == columns@.len(),
        r.2@.len() <= usize::MAX,
{
    let ghost all = lists(columns@);
    let np: usize = columns.len();
    let mut frow: Vec<usize> = Vec::new();
    let mut off: Vec<usize> = Vec::new();
    let mut data: Vec<Cx<T>> = Vec::new();
    let one = cx(T::unit(), T::nil());
    let zero: Cx<T> = Cx::nil();
    let mut j: usize = 0;
    assert(data@ =~= seq![]);
    while j < np
        invariant
            np == columns@.len(),
            all == lists(columns@),
            forall|p: int|
                0 <= p < columns@.len() ==> (#[trigger] columns@[p])@.len() == columns@.len(),
            one == Cx::<T>::one(),
            zero == Cx::<T>::zero(),
            j <= np,
            frow@.len() == j,
            forall|c: int| 0 <= c < j ==> #[trigger] frow@[c] == 0,
            off@.len() == j,
            forall|c: int|
                0 <= c < j ==> #[trigger] off@[c] == packed(all, less, c as nat).len() as usize,
            data@ == packed(all, less, j as nat),
        decreases np - j,
    {
        frow.push(0);
        off.push(data.len());
        let ghost start = data@;
        let column: &Vec<Cx<T>> = &columns[j];
        let mut i: usize = 0;
        let ghost whole = Seq::new(j as nat + 1, |i: int| shifted(all[j as int][i], i == j, less));
        assert(data@ =~= start + whole.take(0));
        while i <= j
            invariant
                np == columns@.len(),
                all == lists(columns@),
                one == Cx::<T>::one(),
                zero == Cx::<T>::zero(),
                j < np,
                column == columns@[j as int],
                column@.len() == np,
                i <= j + 1,
                whole == Seq::new(j as nat + 1, |i: int| shifted(all[j as int][i], i == j, less)),
                data@ == start + whole.take(i as int),
            decreases j + 1 - i,
        {
            let s = column[i];
            let unit = if i == j {
                one
            } else {
                zero
            };
            let v = if less {
                unit.sub(s)
            } else {
                unit.add(s)
            };
            assert(v == whole[i as int]);
            data.push(v);
            i += 1;
            assert(data@ =~= start + whole.take(i as int));
        }
        assert(whole.take(i as int) =~= whole);
        j += 1;
    }
    let len: usize = data.len();
    proof {
        assert(len <= usize::MAX);
        assert(frow@ =~= dense(all, less).frow);
        assert(off@ =~= dense(all, less).off);
    }
    (frow, off, data)
}

/// Twice the inverse of the unit matrix less or plus the scattering matrix, less
/// the unit matrix: column by column.
fn normalize<T: Scalar>(columns: &Vec<Vec<Cx<T>>>, less: bool) -> (r: Result<
    Vec<Vec<Cx<T>>>,
    ModelError,
>)
    requires
        forall|p: int|
            0 <= p < columns@.len() ==> (#[trigger] columns@[p])@.len() == columns@.len(),
    ensures
        match r {
            Ok(v) => !no_inverse(dense(lists(columns@), less)) && v@.len() == columns@.len()
                && forall|p: int|
                0 <= p < v@.len() ==> (#[trigger] v@[p])@ == Seq::new(
                    columns@.len(),
                    |q: int| normalized(dense(lists(columns@), less), T::number(2), q, p),
                ),
            Err(e) => no_inverse(dense(lists(columns@), less)) && e == ModelError::Singular,
        },
{
    let ghost m = dense(lists(columns@), less);
    let np: usize = columns.len();
    let (frow, off, mut data) = pack(columns, less);
    proof {
        lemma_dense(lists(columns@), less);
    }
    proof {
        lemma_all_leading(m);
    }
    let done = factor(np, &frow, &off, &mut data);
    proof {
        lemma_all_leading(Sky { frow: frow@, off: off@, data: data@ });
    }
    match done {
        Err(_) => {
            return Err(ModelError::Singular);
        },
        Ok(_) => {},
    }
    let ghost f = sky(&frow, &off, &data);
    proof {
        assert(f == (Sky { frow: frow@, off: off@, data: data@ }));
        lemma_agree(f, m);
    }
    let one = cx(T::unit(), T::nil());
    let zero: Cx<T> = Cx::nil();
    let two = T::of(2);
    let mut v: Vec<Vec<Cx<T>>> = Vec::new();
    let mut p: usize = 0;
    while p < np
        invariant
            np == columns@.len(),
            m == dense(lists(columns@), less),
            m.wf(),
            m.n() == np,
            frow@.len() == np,
            f == sky(&frow, &off, &data),
            f.wf(),
            f.holds_factors_of(m),
            one == Cx::<T>::one(),
            zero == Cx::<T>::zero(),
            two == T::number(2),
            p <= np,
            v@.len() == p,
            forall|c: int|
                0 <= c < p ==> (#[trigger] v@[c])@ == Seq::new(
                    np as nat,
                    |q: int| normalized(m, T::number(2), q, c),
                ),
        decreases np - p,
    {
        let mut b: Vec<Cx<T>> = Vec::new();
        let mut i: usize = 0;
        while i < np
            invariant
                one == Cx::<T>::one(),
                zero == Cx::<T>::zero(),
                i <= np,
                b@.len() == i,
                forall|k: int| 0 <= k < i ==> #[trigger] b@[k] == kronecker::<T>(k == p),
            decreases np - i,
        {
            b.push(
                if i == p {
                    one
                } else {
                    zero
                },
            );
            i += 1;
        }
        let ghost unit = b@;
        assert(unit =~= unit_vector(m.n(), p as int));
        proof {
            lemma_all_leading(f);
        }
        solve(np, &frow, &off, &data, &mut b);
        let mut column: Vec<Cx<T>> = Vec::new();
        let mut q: usize = 0;
        while q < np
            invariant
                np == m.n(),
                m.wf(),
                f.holds_factors_of(m),
                one == Cx::<T>::one(),
                zero == Cx::<T>::zero(),
                two == T::number(2),
                unit == unit_vector::<T>(m.n(), p as int),
                b@.len() == np,
                forall|k: int| 0 <= k < np ==> #[trigger] b@[k] == f.solution(unit, k),
                q <= np,
                column@.len() == q,
                forall|k: int|
                    0 <= k < q ==> #[trigger] column@[k] == normalized(
                        m,
                        T::number(2),
                        k,
                        p as int,
                    ),
            decreases np - q,
        {
            proof {
                lemma_agree(f, m);
                lemma_same_solution(f, m.factors(), unit, q as int);
            }
            let own = if q == p {
                one
            } else {
                zero
            };
            column.push(b[q].rs(two).sub(own));
            q += 1;
        }
        assert(column@ =~= Seq::new(np as nat, |q: int| normalized(m, T::number(2), q, p as int)));
        v.push(column);
        p += 1;
    }
    Ok(v)
}

/// The matrix `v`, column by column, with the entries that `entry` gives.
pub open spec fn has_entries<T>(
    v: Seq<Vec<Cx<T>>>,
    n: nat,
    entry: spec_fn(int, int) -> Cx<T>,
) -> bool {
    &&& v.len() == n
    &&& forall|p: int| 0 <= p < n ==> (#[trigger] v[p])@.len() == n
    &&& forall|p: int, q: int| 0 <= p < n && 0 <= q < n ==> #[trigger] v[p]@[q] == entry(q, p)
}

fn rescale<T: Scalar>(
    ports: &Vec<PortShape<T>>,
    v: &mut Vec<Vec<Cx<T>>>,
    up: bool,
    Ghost(entry): Ghost<spec_fn(int, int) -> Cx<T>>,
)
    requires
        old(v)@.len() == ports@.len(),
        forall|p: int|
            0 <= p < old(v)@.len() ==> (#[trigger] old(v)@[p])@ == Seq::new(
                ports@.len(),
                |q: int| entry(q, p),
            ),
    ensures
        has_entries(
            final(v)@,
            ports@.len(),
            |q: int, p: int|
                entry(q, p).scaled(
                    if up {
                        reference(ports@, q, p)
                    } else {
                        T::one().over(reference(ports@, q, p))
                    },
                ),
        ),
{
    let np: usize = ports.len();
    let ghost goal = |q: int, p: int|
        entry(q, p).scaled(
            if up {
                reference(ports@, q, p)
            } else {
                T::one().over(reference(ports@, q, p))
            },
        );
    let mut r: Vec<Vec<Cx<T>>> = Vec::new();
    let mut p: usize = 0;
    while p < np
        invariant
            np == ports@.len(),
            v@ == old(v)@,
            old(v)@.len() == ports@.len(),
            forall|p: int|
                0 <= p < old(v)@.len() ==> (#[trigger] old(v)@[p])@ == Seq::new(
                    ports@.len(),
                    |q: int| entry(q, p),
                ),
            goal == (|q: int, p: int|
                entry(q, p).scaled(
                    if up {
                        reference(ports@, q, p)
                    } else {
                        T::one().over(reference(ports@, q, p))
                    },
                )),
            p <= np,
            r@.len() == p,
            forall|c: int| 0 <= c < p ==> (#[trigger] r@[c])@.len() == np,
            forall|c: int, q: int| 0 <= c < p && 0 <= q < np ==> #[trigger] r@[c]@[q] == goal(q, c),
        decreases np - p,
    {
        let column: &Vec<Cx<T>> = &v[p];
        assert(column@ == Seq::new(ports@.len(), |q: int| entry(q, p as int)));
        let mut out: Vec<Cx<T>> = Vec::new();
        let mut q: usize = 0;
        while q < np
            invariant
                np == ports@.len(),
                p < np,
                column@ == Seq::new(ports@.len(), |q: int| entry(q, p as int)),
                goal == (|q: int, p: int|
                    entry(q, p).scaled(
                        if up {
                            reference(ports@, q, p)
                        } else {
                            T::one().over(reference(ports@, q, p))
                        },
                    )),
                q <= np,
                out@.len() == q,
                forall|k: int| 0 <= k < q ==> #[trigger] out@[k] == goal(k, p as int),
            decreases np - q,
        {
            let z = ports[q].z0.mul(ports[p].z0).sqrt();
            let s = if up {
                z
            } else {
                T::unit().div(z)
            };
            out.push(column[q].rs(s));
            q += 1;
        }
        r.push(out);
        p += 1;
    }
    *v = r;
}

/// Works out the impedance matrix, column by column.
pub fn impedances<T: Scalar>(ports: &Vec<PortShape<T>>, columns: &Vec<Vec<Cx<T>>>) -> (r: Result<
    Vec<Vec<Cx<T>>>,
    ModelError,
>)
    requires
        columns@.len() == ports@.len(),
        forall|p: int|
            0 <= p < columns@.len() ==> (#[trigger] columns@[p])@.len() == columns@.len(),
    ensures
        match r {
            Ok(v) => !no_inverse(dense(lists(columns@), true)) && has_entries(
                v@,
                ports@.len(),
                |q: int, p: int| impedance_of(ports@, lists(columns@), q, p),
            ),
            Err(e) => no_inverse(dense(lists(columns@), true)) && e == ModelError::Singular,
        },
{
    let ghost m = dense(lists(columns@), true);
    let ghost entry = |q: int, p: int| normalized(m, T::number(2), q, p);
    match normalize(columns, true) {
        Err(e) => Err(e),
        Ok(mut v) => {
            assert forall|p: int| 0 <= p < v@.len() implies (#[trigger] v@[p])@ == Seq::new(
                ports@.len(),
                |q: int| entry(q, p),
            ) by {
                assert(v@[p]@ =~= Seq::new(ports@.len(), |q: int| entry(q, p)));
            }
            rescale(ports, &mut v, true, Ghost(entry));
            Ok(v)
        },
    }
}

/// Works out the admittance matrix, column by column.
pub fn admittances<T: Scalar>(ports: &Vec<PortShape<T>>, columns: &Vec<Vec<Cx<T>>>) -> (r: Result<
    Vec<Vec<Cx<T>>>,
    ModelError,
>)
    requires
        columns@.len() == ports@.len(),
        forall|p: int|
            0 <= p < columns@.len() ==> (#[trigger] columns@[p])@.len() == columns@.len(),
    ensures
        match r {
            Ok(v) => !no_inverse(dense(lists(columns@), false)) && has_entries(
                v@,
                ports@.len(),
                |q: int, p: int| admittance_of(ports@, lists(columns@), q, p),
            ),
            Err(e) => no_inverse(dense(lists(columns@), false)) && e == ModelError::Singular,
        },
{
    let ghost m = dense(lists(columns@), false);
    let ghost entry = |q: int, p: int| normalized(m, T::number(2), q, p);
    match normalize(columns, false) {
        Err(e) => Err(e),
        Ok(mut v) => {
            assert forall|p: int| 0 <= p < v@.len() implies (#[trigger] v@[p])@ == Seq::new(
                ports@.len(),
                |q: int| entry(q, p),
            ) by {
                assert(v@[p]@ =~= Seq::new(ports@.len(), |q: int| entry(q, p)));
            }
            rescale(ports, &mut v, false, Ghost(entry));
            Ok(v)
        },
    }
}

// ---------------------------------------------------------------- coils

/// The inductance of a port with impedance `z` at frequency `f`.
pub open spec fn inductance_of<T: Number>(z: Cx<T>, f: T) -> T {
    z.im.over(T::constants().two_pi * f)
}

/// The quality factor of a port with impedance `z`.
pub open spec fn quality_of<T: Number>(z: Cx<T>) -> T {
    z.im.over(z.re)
}

/// Reads each port as a coil: its inductance and its quality factor. `z` is the
/// impedance matrix at frequency `f`.
pub fn coils<T: Scalar>(z: &Vec<Vec<Cx<T>>>, f: T) -> (r: Vec<(T, T)>)
    requires
        forall|p: int| 0 <= p < z@.len() ==> (#[trigger] z@[p])@.len() == z@.len(),
    ensures
        r@ == Seq::new(
            z@.len(),
            |p: int| (inductance_of(z@[p]@[p], f), quality_of(z@[p]@[p])),
        ),
{
    let omega = T::known().two_pi.mul(f);
    let mut r: Vec<(T, T)> = Vec::new();
    let mut p: usize = 0;
    while p < z.len()
        invariant
            forall|p: int| 0 <= p < z@.len() ==> (#[trigger] z@[p])@.len() == z@.len(),
            omega == T::constants().two_pi * f,
            p <= z@.len(),
            r@.len() == p,
            forall|c: int|
                0 <= c < p ==> #[trigger] r@[c] == (
                    inductance_of(z@[c]@[c], f),
                    quality_of(z@[c]@[c]),
                ),
        decreases z@.len() - p,
    {
        let column: &Vec<Cx<T>> = &z[p];
        let zpp = column[p];
        r.push((zpp.im.div(omega), zpp.im.div(zpp.re)));
        p += 1;
    }
    assert(r@ =~= Seq::new(
        z@.len(),
        |p: int| (inductance_of(z@[p]@[p], f), quality_of(z@[p]@[p])),
    ));
    r
}

} // verus!
