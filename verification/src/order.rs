//! In what order vertices are visited: which one starts a component, and which of two
//! that are reached comes first.

use crate::rcm::{
    below_degree, by_degree, cover, cuthill_mckee, degrees, extend_new, has_degree, is_expanded,
    is_reached, key_fits, lemma_below_degree_members, lemma_by_degree_members,
    lemma_by_degree_sorted, lemma_cover, lemma_cover_breadth_first, lemma_extend_new,
    lemma_neighbours_in_range, lemma_partial_order_len, lemma_spread, lemma_spread_reaches,
    neighbours, of_degree, partial_order, spread, vertices,
};
use vstd::prelude::*;

verus! {

/// The key joins `v` and `w`.
pub open spec fn joins(key: (u32, u32), v: int, w: int) -> bool {
    (key.0 == v && key.1 == w) || (key.0 == w && key.1 == v)
}

/// The neighbours of a vertex are the other vertices that a key joins it to, so that
/// being a neighbour is mutual.
pub proof fn lemma_neighbours(keys: Seq<(u32, u32)>, v: usize, w: usize)
    ensures
        neighbours(keys, v as int).contains(w) <==> v != w && exists|k: int|
            0 <= k < keys.len() && joins(#[trigger] keys[k], v as int, w as int),
        neighbours(keys, v as int).contains(w) <==> neighbours(keys, w as int).contains(v),
    decreases keys.len(),
{
    if keys.len() > 0 {
        lemma_neighbours(keys.drop_last(), v, w);
        lemma_step(keys, v, w);
        lemma_step(keys, w, v);
        let last = keys.len() - 1;
        let less = keys.drop_last();
        if joins(keys.last(), v as int, w as int) {
            assert(joins(keys[last], v as int, w as int));
        }
        if exists|k: int| 0 <= k < less.len() && joins(#[trigger] less[k], v as int, w as int) {
            let k = choose|k: int|
                0 <= k < less.len() && joins(#[trigger] less[k], v as int, w as int);
            assert(joins(keys[k], v as int, w as int));
        }
        if exists|k: int| 0 <= k < keys.len() && joins(#[trigger] keys[k], v as int, w as int) {
            let k = choose|k: int|
                0 <= k < keys.len() && joins(#[trigger] keys[k], v as int, w as int);
            if k < last {
                assert(joins(less[k], v as int, w as int));
            }
        }
    }
}

/// The last key adds the vertex at its other end.
proof fn lemma_step(keys: Seq<(u32, u32)>, v: usize, w: usize)
    requires
        keys.len() > 0,
    ensures
        neighbours(keys, v as int).contains(w) <==> neighbours(keys.drop_last(), v as int).contains(
            w,
        ) || (v != w && joins(keys.last(), v as int, w as int)),
{
    let before = neighbours(keys.drop_last(), v as int);
    let all = neighbours(keys, v as int);
    let (a, b) = keys.last();
    if before.contains(w) {
        let i = before.index_of(w);
        assert(all[i] == w);
    }
    if all.contains(w) && !before.contains(w) {
        let i = all.index_of(w);
        if i < before.len() {
            assert(before[i] == w);
        }
    }
    if v != w && joins(keys.last(), v as int, w as int) {
        assert(all[before.len() as int] == w);
    }
}

/// The first item that the item at place `k` is a neighbour of stands at place `p`,
/// before it.
pub open spec fn is_parent(keys: Seq<(u32, u32)>, list: Seq<usize>, p: int, k: int) -> bool {
    &&& 0 <= p < k
    &&& neighbours(keys, list[p] as int).contains(list[k])
    &&& forall|q: int| 0 <= q < p ==> !(#[trigger] neighbours(keys, list[q] as int)).contains(list[k])
}

/// Items come in the order of their parents, and those of one parent by degree.
pub open spec fn is_level(n: nat, keys: Seq<(u32, u32)>, list: Seq<usize>) -> bool {
    let deg = degrees(n, keys);
    forall|p: int, k: int, q: int, l: int|
        k < l < list.len() && #[trigger] is_parent(keys, list, p, k) && #[trigger] is_parent(
            keys,
            list,
            q,
            l,
        ) ==> p <= q && (p == q ==> deg[list[k] as int] <= deg[list[l] as int])
}

/// Every parent stands before place `i`.
spec fn is_parented(keys: Seq<(u32, u32)>, list: Seq<usize>, i: int) -> bool {
    forall|p: int, k: int| k < list.len() && #[trigger] is_parent(keys, list, p, k) ==> p < i
}

proof fn lemma_parent_of_prefix(
    keys: Seq<(u32, u32)>,
    list: Seq<usize>,
    more: Seq<usize>,
    p: int,
    k: int,
)
    requires
        list.is_prefix_of(more),
        k < list.len(),
    ensures
        is_parent(keys, list, p, k) <==> is_parent(keys, more, p, k),
{
    if 0 <= p < k {
        assert(forall|q: int| 0 <= q <= k ==> list[q] == more[q]);
    }
}

/// What a sorted list adds is sorted.
proof fn lemma_extend_sorted(deg: Seq<usize>, list: Seq<usize>, more: Seq<usize>)
    requires
        forall|i: int, j: int|
            0 <= i <= j < more.len() ==> deg[#[trigger] more[i] as int] <= deg[#[trigger] more[j] as int],
    ensures
        list.len() <= extend_new(list, more).len(),
        forall|k: int|
            list.len() <= k < extend_new(list, more).len() ==> more.contains(
                #[trigger] extend_new(list, more)[k],
            ),
        forall|k: int, l: int|
            list.len() <= k < l < extend_new(list, more).len() ==> deg[#[trigger] extend_new(
                list,
                more,
            )[k] as int] <= deg[#[trigger] extend_new(list, more)[l] as int],
    decreases more.len(),
{
    if more.len() > 0 {
        let less = more.drop_last();
        assert forall|i: int, j: int| 0 <= i <= j < less.len() implies deg[#[trigger] less[i] as int]
            <= deg[#[trigger] less[j] as int] by {
            assert(deg[more[i] as int] <= deg[more[j] as int]);
        }
        lemma_extend_sorted(deg, list, less);
        let before = extend_new(list, less);
        let after = extend_new(list, more);
        let last = more.len() - 1;
        assert(more[last] == more.last());
        assert forall|k: int| list.len() <= k < after.len() implies more.contains(
            #[trigger] after[k],
        ) by {
            if k < before.len() {
                assert(less.contains(before[k]));
                let i = less.index_of(before[k]);
                assert(more[i] == before[k]);
            }
        }
        assert forall|k: int, l: int| list.len() <= k < l < after.len() implies deg[#[trigger] after[k] as int]
            <= deg[#[trigger] after[l] as int] by {
            if l < before.len() {
                assert(deg[before[k] as int] <= deg[before[l] as int]);
            } else {
                assert(less.contains(before[k]));
                let i = less.index_of(before[k]);
                assert(deg[more[i] as int] <= deg[more[last] as int]);
            }
        }
    }
}

proof fn lemma_spread_level(n: nat, keys: Seq<(u32, u32)>, list: Seq<usize>, i: nat)
    requires
        partial_order(n, list),
        forall|k: int| 0 <= k < keys.len() ==> key_fits(n, #[trigger] keys[k]),
        i <= list.len(),
        is_expanded(keys, list, i as int),
        is_parented(keys, list, i as int),
        is_level(n, keys, list),
    ensures
        is_level(n, keys, spread(n, keys, list, i)),
    decreases n - i,
{
    lemma_partial_order_len(n, list);
    if i < list.len() && i < n {
        let deg = degrees(n, keys);
        let v = list[i as int] as int;
        let near = neighbours(keys, v);
        let more = by_degree(deg, near);
        lemma_neighbours_in_range(n, keys, v);
        lemma_by_degree_members(deg, near);
        assert forall|k: int| 0 <= k < more.len() implies #[trigger] more[k] < n by {
            assert(more.contains(more[k]));
        }
        assert forall|a: int, b: int| 0 <= a <= b < more.len() implies deg[#[trigger] more[a] as int]
            <= deg[#[trigger] more[b] as int] by {
            lemma_by_degree_sorted(deg, near, a, b);
        }
        let next = extend_new(list, more);
        lemma_extend_new(n, list, more);
        lemma_extend_sorted(deg, list, more);
        assert forall|j: int, x: usize|
            0 <= j < i + 1 && #[trigger] neighbours(keys, next[j] as int).contains(
                x,
            ) implies next.contains(x) by {
            assert(next[j] == list[j]);
            if j < i {
                assert(list.contains(x));
            } else {
                assert(more.contains(x));
            }
        }
        assert forall|p: int, k: int|
            list.len() <= k < next.len() && #[trigger] is_parent(keys, next, p, k) implies p == i by {
            assert(more.contains(next[k]));
            assert(next[i as int] == list[i as int]);
            assert(neighbours(keys, next[i as int] as int).contains(next[k]));
            if p < i {
                assert(next[p] == list[p]);
                assert(neighbours(keys, list[p] as int).contains(next[k]));
                assert(list.contains(next[k]));
                let j = list.index_of(next[k]);
                assert(next[j] == next[k]);
            }
        }
        assert forall|p: int, k: int| k < next.len() && #[trigger] is_parent(keys, next, p, k) implies p
            < i + 1 by {
            if k < list.len() {
                lemma_parent_of_prefix(keys, list, next, p, k);
            }
        }
        assert forall|p: int, k: int, q: int, l: int|
            k < l < next.len() && #[trigger] is_parent(keys, next, p, k) && #[trigger] is_parent(
                keys,
                next,
                q,
                l,
            ) implies p <= q && (p == q ==> deg[next[k] as int] <= deg[next[l] as int]) by {
            if k < list.len() {
                lemma_parent_of_prefix(keys, list, next, p, k);
                assert(next[k] == list[k]);
            }
            if l < list.len() {
                lemma_parent_of_prefix(keys, list, next, q, l);
                assert(next[l] == list[l]);
            }
        }
        lemma_spread_level(n, keys, next, i + 1);
    }
}

/// `v` comes before `w` by degree, and by number where the degrees agree.
pub open spec fn precedes(deg: Seq<usize>, v: usize, w: usize) -> bool {
    deg[v as int] < deg[w as int] || (deg[v as int] == deg[w as int] && v <= w)
}

/// An item that no earlier one leads to precedes all that are not listed before it.
pub open spec fn is_seeded(n: nat, keys: Seq<(u32, u32)>, list: Seq<usize>) -> bool {
    forall|k: int, w: usize|
        0 <= k < list.len() && !#[trigger] is_reached(keys, list, k) && w < n
            && !#[trigger] list.take(k).contains(w) ==> precedes(degrees(n, keys), list[k], w)
}

proof fn lemma_cover_order(n: nat, keys: Seq<(u32, u32)>, seeds: Seq<usize>, m: nat)
    requires
        forall|k: int| 0 <= k < keys.len() ==> key_fits(n, #[trigger] keys[k]),
        forall|k: int| 0 <= k < seeds.len() ==> #[trigger] seeds[k] < n,
        forall|v: usize| v < n ==> #[trigger] seeds.contains(v),
        forall|a: int, b: int|
            0 <= a <= b < seeds.len() ==> precedes(
                degrees(n, keys),
                #[trigger] seeds[a],
                #[trigger] seeds[b],
            ),
        m <= seeds.len(),
    ensures
        is_level(n, keys, cover(n, keys, seeds.take(m as int))),
        is_seeded(n, keys, cover(n, keys, seeds.take(m as int))),
    decreases m,
{
    let some = seeds.take(m as int);
    if m > 0 {
        let before = seeds.take(m - 1);
        assert(some.drop_last() =~= before);
        lemma_cover_order(n, keys, seeds, (m - 1) as nat);
        assert forall|k: int| 0 <= k < before.len() implies #[trigger] before[k] < n by {
            assert(seeds[k] < n);
        }
        lemma_cover(n, keys, before);
        lemma_cover_breadth_first(n, keys, before);
        let list = cover(n, keys, before);
        let seed = seeds[m - 1];
        if !list.contains(seed) {
            lemma_seed(n, keys, seeds, m, list);
        }
    }
}

/// One more seed that has not been reached.
proof fn lemma_seed(
    n: nat,
    keys: Seq<(u32, u32)>,
    seeds: Seq<usize>,
    m: nat,
    list: Seq<usize>,
)
    requires
        forall|k: int| 0 <= k < keys.len() ==> key_fits(n, #[trigger] keys[k]),
        forall|k: int| 0 <= k < seeds.len() ==> #[trigger] seeds[k] < n,
        forall|v: usize| v < n ==> #[trigger] seeds.contains(v),
        forall|a: int, b: int|
            0 <= a <= b < seeds.len() ==> precedes(
                degrees(n, keys),
                #[trigger] seeds[a],
                #[trigger] seeds[b],
            ),
        0 < m <= seeds.len(),
        list == cover(n, keys, seeds.take(m - 1)),
        !list.contains(seeds[m - 1]),
        partial_order(n, list),
        forall|k: int|
            0 <= k < m - 1 ==> list.contains(#[trigger] seeds.take(m - 1)[k]),
        is_expanded(keys, list, list.len() as int),
        is_level(n, keys, list),
        is_seeded(n, keys, list),
    ensures
        is_level(n, keys, spread(n, keys, list.push(seeds[m - 1]), list.len())),
        is_seeded(n, keys, spread(n, keys, list.push(seeds[m - 1]), list.len())),
{
    let seed = seeds[m - 1];
    let start = list.push(seed);
    let deg = degrees(n, keys);
    let at = list.len() as int;
    assert(list.is_prefix_of(start));
    assert forall|j: int, x: usize|
        0 <= j < at && #[trigger] neighbours(keys, start[j] as int).contains(
            x,
        ) implies start.contains(x) by {
        assert(start[j] == list[j]);
        assert(list.contains(x));
        let k = list.index_of(x);
        assert(start[k] == x);
    }
    assert forall|p: int| !#[trigger] is_parent(keys, start, p, at) by {
        if is_parent(keys, start, p, at) {
            assert(start[p] == list[p] && start[at] == seed);
            assert(neighbours(keys, list[p] as int).contains(seed));
        }
    }
    assert forall|p: int, k: int| k < start.len() && #[trigger] is_parent(keys, start, p, k) implies p
        < at by {}
    assert forall|p: int, k: int, q: int, l: int|
        k < l < start.len() && #[trigger] is_parent(keys, start, p, k) && #[trigger] is_parent(
            keys,
            start,
            q,
            l,
        ) implies p <= q && (p == q ==> deg[start[k] as int] <= deg[start[l] as int]) by {
        assert(l < at);
        lemma_parent_of_prefix(keys, list, start, p, k);
        lemma_parent_of_prefix(keys, list, start, q, l);
        assert(start[k] == list[k] && start[l] == list[l]);
    }
    lemma_spread_level(n, keys, start, list.len());
    lemma_spread_reaches(n, keys, start, list.len());
    lemma_spread(n, keys, start, list.len());
    let r = spread(n, keys, start, list.len());
    assert forall|k: int, w: usize|
        0 <= k < r.len() && !#[trigger] is_reached(keys, r, k) && w < n
            && !#[trigger] r.take(k).contains(w) implies precedes(deg, r[k], w) by {
        assert(k <= at);
        assert(forall|j: int| 0 <= j <= k ==> #[trigger] r[j] == start[j]);
        assert(r.take(k) =~= list.take(k));
        if k < at {
            if is_reached(keys, list, k) {
                let j = choose|j: int|
                    0 <= j < k && #[trigger] neighbours(keys, list[j] as int).contains(list[k]);
                assert(neighbours(keys, r[j] as int).contains(r[k]));
            }
            assert(!list.take(k).contains(w));
        } else {
            assert(list.take(at) =~= list);
            assert(seeds.contains(w));
            let t = seeds.index_of(w);
            if t < m - 1 {
                assert(seeds.take(m - 1)[t] == w);
            }
            assert(precedes(deg, seeds[m - 1], seeds[t]));
        }
    }
}

/// Choosing from an ascending list leaves it ascending.
proof fn lemma_filter_ascends(s: Seq<usize>, f: spec_fn(usize) -> bool)
    requires
        forall|i: int, j: int| 0 <= i < j < s.len() ==> #[trigger] s[i] < #[trigger] s[j],
    ensures
        forall|i: int, j: int|
            0 <= i < j < s.filter(f).len() ==> #[trigger] s.filter(f)[i] < #[trigger] s.filter(f)[j],
    decreases s.len(),
{
    reveal(Seq::filter);
    if s.len() > 0 {
        let less = s.drop_last();
        assert forall|i: int, j: int| 0 <= i < j < less.len() implies #[trigger] less[i]
            < #[trigger] less[j] by {
            assert(s[i] < s[j]);
        }
        lemma_filter_ascends(less, f);
        assert forall|i: int, j: int| 0 <= i < j < s.filter(f).len() implies #[trigger] s.filter(
            f,
        )[i] < #[trigger] s.filter(f)[j] by {
            let part = less.filter(f);
            if j < part.len() {
                assert(part[i] < part[j]);
            } else {
                assert(part.contains(part[i]));
                less.lemma_filter_contains_rev(f, part[i]);
                let k = less.index_of(part[i]);
                assert(s[k] < s[s.len() - 1]);
            }
        }
    }
}

proof fn lemma_below_degree_precedes(deg: Seq<usize>, n: nat, d: nat)
    requires
        n <= usize::MAX,
    ensures
        forall|i: int, j: int|
            0 <= i <= j < below_degree(deg, vertices(n), d).len() ==> precedes(
                deg,
                #[trigger] below_degree(deg, vertices(n), d)[i],
                #[trigger] below_degree(deg, vertices(n), d)[j],
            ),
    decreases d,
{
    if d > 0 {
        let s = vertices(n);
        let l = (d - 1) as nat;
        lemma_below_degree_precedes(deg, n, l);
        lemma_below_degree_members(deg, s, l);
        lemma_filter_ascends(s, has_degree(deg, d - 1));
        let low = below_degree(deg, s, l);
        let top = of_degree(deg, s, d - 1);
        let all = below_degree(deg, s, d);
        assert forall|i: int, j: int| 0 <= i <= j < all.len() implies precedes(
            deg,
            #[trigger] all[i],
            #[trigger] all[j],
        ) by {
            if j >= low.len() {
                s.lemma_filter_pred(has_degree(deg, d - 1), j - low.len());
                assert(all[j] == top[j - low.len()]);
                if i >= low.len() {
                    s.lemma_filter_pred(has_degree(deg, d - 1), i - low.len());
                    assert(all[i] == top[i - low.len()]);
                } else {
                    assert(all[i] == low[i]);
                    assert(low.contains(low[i]));
                }
            } else {
                assert(all[i] == low[i] && all[j] == low[j]);
            }
        }
    }
}

/// The Cuthill-McKee order: a vertex that no earlier one leads to is, among those not
/// visited yet, of least degree, and of these the one with the least number. The others
/// come in the order in which the vertices that lead to them were visited, and those
/// that one vertex leads to by degree.
pub proof fn lemma_visits(n: nat, keys: Seq<(u32, u32)>)
    requires
        n <= usize::MAX,
        forall|k: int| 0 <= k < keys.len() ==> key_fits(n, #[trigger] keys[k]),
    ensures
        is_seeded(n, keys, cuthill_mckee(n, keys)),
        is_level(n, keys, cuthill_mckee(n, keys)),
{
    let deg = degrees(n, keys);
    let seeds = by_degree(deg, vertices(n));
    lemma_by_degree_members(deg, vertices(n));
    assert forall|k: int| 0 <= k < seeds.len() implies #[trigger] seeds[k] < n by {
        assert(seeds.contains(seeds[k]));
        let i = choose|i: int| 0 <= i < n && vertices(n)[i] == seeds[k];
    }
    assert forall|v: usize| v < n implies #[trigger] seeds.contains(v) by {
        assert(vertices(n)[v as int] == v);
    }
    lemma_below_degree_precedes(deg, n, usize::MAX as nat + 1);
    lemma_cover_order(n, keys, seeds, seeds.len());
    assert(seeds.take(seeds.len() as int) =~= seeds);
}

} // verus!
