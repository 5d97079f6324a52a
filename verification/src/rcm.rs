//! Reverse Cuthill-McKee ordering of the matrix graph.
//!
//! The graph is given by its edges. Vertices are numbered breadth first from
//! seeds of small degree, neighbours in order of increasing degree, and the
//! numbering is reversed at the end.

use vstd::prelude::*;

verus! {

/// The neighbours of `v`, in the order in which `keys` names them. A key that
/// joins a vertex to itself names no neighbour.
pub open spec fn neighbours(keys: Seq<(u32, u32)>, v: int) -> Seq<usize>
    decreases keys.len(),
{
    if keys.len() == 0 {
        seq![]
    } else {
        let before = neighbours(keys.drop_last(), v);
        let (a, b) = keys.last();
        if a == b {
            before
        } else if a == v {
            before.push(b as usize)
        } else if b == v {
            before.push(a as usize)
        } else {
            before
        }
    }
}

/// The key joins two of the first `n` vertices, or a vertex to itself.
pub open spec fn key_fits(n: nat, key: (u32, u32)) -> bool {
    key.0 == key.1 || (key.0 < n && key.1 < n)
}

/// How many neighbours each of the `n` vertices has.
pub open spec fn degrees(n: nat, keys: Seq<(u32, u32)>) -> Seq<usize> {
    Seq::new(n, |v: int| neighbours(keys, v).len() as usize)
}

/// Whether a vertex has degree `d`.
pub open spec fn has_degree(deg: Seq<usize>, d: int) -> spec_fn(usize) -> bool {
    |v: usize| deg[v as int] == d
}

/// The items of `s` with the given degree, in the order of `s`.
pub open spec fn of_degree(deg: Seq<usize>, s: Seq<usize>, d: int) -> Seq<usize> {
    s.filter(has_degree(deg, d))
}

/// The items of `s` whose degree is less than `d`, by increasing degree; items of
/// one degree keep their order.
pub open spec fn below_degree(deg: Seq<usize>, s: Seq<usize>, d: nat) -> Seq<usize>
    decreases d,
{
    if d == 0 {
        seq![]
    } else {
        below_degree(deg, s, (d - 1) as nat) + of_degree(deg, s, d - 1)
    }
}

/// `s`, stably sorted by degree.
pub open spec fn by_degree(deg: Seq<usize>, s: Seq<usize>) -> Seq<usize> {
    below_degree(deg, s, usize::MAX as nat + 1)
}

/// `list`, followed by those items of `more` that it does not hold yet.
pub open spec fn extend_new(list: Seq<usize>, more: Seq<usize>) -> Seq<usize>
    decreases more.len(),
{
    if more.len() == 0 {
        list
    } else {
        let before = extend_new(list, more.drop_last());
        if before.contains(more.last()) {
            before
        } else {
            before.push(more.last())
        }
    }
}

/// Breadth first search: appends to `list` the new neighbours of its items, by
/// degree, from the item at `i` on, until every item has been visited.
pub open spec fn spread(n: nat, keys: Seq<(u32, u32)>, list: Seq<usize>, i: nat) -> Seq<usize>
    decreases n - i,
{
    if i < list.len() && i < n {
        let more = by_degree(degrees(n, keys), neighbours(keys, list[i as int] as int));
        spread(n, keys, extend_new(list, more), i + 1)
    } else {
        list
    }
}

/// Searches from each seed in turn that no earlier search has reached.
pub open spec fn cover(n: nat, keys: Seq<(u32, u32)>, seeds: Seq<usize>) -> Seq<usize>
    decreases seeds.len(),
{
    if seeds.len() == 0 {
        seq![]
    } else {
        let list = cover(n, keys, seeds.drop_last());
        if list.contains(seeds.last()) {
            list
        } else {
            spread(n, keys, list.push(seeds.last()), list.len())
        }
    }
}

/// All `n` vertices in ascending order.
pub open spec fn vertices(n: nat) -> Seq<usize> {
    Seq::new(n, |v: int| v as usize)
}

/// The Cuthill-McKee order of the graph: the vertex visited first comes first.
pub open spec fn cuthill_mckee(n: nat, keys: Seq<(u32, u32)>) -> Seq<usize> {
    cover(n, keys, by_degree(degrees(n, keys), vertices(n)))
}

/// Every number below `n` occurs in `s`, once.
pub open spec fn is_permutation(n: nat, s: Seq<usize>) -> bool {
    &&& s.len() == n
    &&& forall|i: int| 0 <= i < s.len() ==> #[trigger] s[i] < n
    &&& s.no_duplicates()
    &&& forall|v: usize| v < n ==> #[trigger] s.contains(v)
}

/// No item twice and none beyond the last vertex.
pub open spec fn partial_order(n: nat, s: Seq<usize>) -> bool {
    &&& forall|i: int| 0 <= i < s.len() ==> #[trigger] s[i] < n
    &&& s.no_duplicates()
}

pub proof fn lemma_partial_order_len(n: nat, s: Seq<usize>)
    requires
        partial_order(n, s),
    ensures
        s.len() <= n,
        (forall|v: usize| v < n ==> #[trigger] s.contains(v)) && n <= usize::MAX ==> s.len() == n,
{
    let ints = s.map_values(|v: usize| v as int);
    assert(ints.no_duplicates());
    ints.unique_seq_to_set();
    let range = vstd::set_lib::set_int_range(0, n as int);
    vstd::set_lib::lemma_int_range(0, n as int);
    assert(ints.to_set().subset_of(range)) by {
        assert forall|x: int| ints.to_set().contains(x) implies range.contains(x) by {
            let i = choose|i: int| 0 <= i < ints.len() && ints[i] == x;
            assert(s[i] < n);
        }
    }
    vstd::set_lib::lemma_len_subset(ints.to_set(), range);
    if (forall|v: usize| v < n ==> #[trigger] s.contains(v)) && n <= usize::MAX {
        assert(range.subset_of(ints.to_set())) by {
            assert forall|x: int| range.contains(x) implies ints.to_set().contains(x) by {
                assert(s.contains(x as usize));
                let i = choose|i: int| 0 <= i < s.len() && s[i] == x as usize;
                assert(ints[i] == x);
            }
        }
        vstd::set_lib::lemma_len_subset(range, ints.to_set());
    }
}

pub proof fn lemma_neighbours_in_range(n: nat, keys: Seq<(u32, u32)>, v: int)
    requires
        forall|i: int| 0 <= i < keys.len() ==> key_fits(n, #[trigger] keys[i]),
    ensures
        forall|i: int| 0 <= i < neighbours(keys, v).len() ==> #[trigger] neighbours(keys, v)[i] < n,
    decreases keys.len(),
{
    if keys.len() > 0 {
        let before = neighbours(keys.drop_last(), v);
        lemma_neighbours_in_range(n, keys.drop_last(), v);
        assert(keys.last() == keys[keys.len() - 1]);
        assert forall|i: int| 0 <= i < neighbours(keys, v).len() implies #[trigger] neighbours(
            keys,
            v,
        )[i] < n by {
            if i < before.len() {
                assert(before[i] < n);
            }
        }
    }
}

pub proof fn lemma_below_degree_members(deg: Seq<usize>, s: Seq<usize>, d: nat)
    ensures
        forall|x: usize| #[trigger]
            below_degree(deg, s, d).contains(x) <==> s.contains(x) && deg[x as int] < d,
    decreases d,
{
    broadcast use vstd::seq_lib::group_filter_ensures;
    if d > 0 {
        lemma_below_degree_members(deg, s, (d - 1) as nat);
        let low = below_degree(deg, s, (d - 1) as nat);
        let top = of_degree(deg, s, d - 1);
        assert forall|x: usize| #[trigger] below_degree(deg, s, d).contains(x) <==> s.contains(x)
            && deg[x as int] < d by {
            if (low + top).contains(x) {
                let i = choose|i: int| 0 <= i < (low + top).len() && (low + top)[i] == x;
                if i < low.len() {
                    assert(low.contains(x));
                } else {
                    assert(top[i - low.len()] == x);
                    assert(top.contains(x));
                    s.lemma_filter_contains_rev(has_degree(deg, d - 1), x);
                    s.lemma_filter_pred(has_degree(deg, d - 1), i - low.len());
                }
            }
            if s.contains(x) && deg[x as int] < d {
                if deg[x as int] < d - 1 {
                    assert(low.contains(x));
                    let i = choose|i: int| 0 <= i < low.len() && low[i] == x;
                    assert((low + top)[i] == x);
                } else {
                    let k = choose|k: int| 0 <= k < s.len() && s[k] == x;
                    s.lemma_filter_contains(has_degree(deg, d - 1), k);
                    assert(top.contains(x));
                    let i = choose|i: int| 0 <= i < top.len() && top[i] == x;
                    assert((low + top)[low.len() + i] == x);
                }
            }
        }
    }
}

/// Sorting by degree keeps the items.
pub proof fn lemma_by_degree_members(deg: Seq<usize>, s: Seq<usize>)
    ensures
        forall|x: usize| #[trigger] by_degree(deg, s).contains(x) <==> s.contains(x),
{
    lemma_below_degree_members(deg, s, usize::MAX as nat + 1);
}

proof fn lemma_below_degree_sorted(deg: Seq<usize>, s: Seq<usize>, d: nat)
    ensures
        forall|i: int, j: int|
            0 <= i <= j < below_degree(deg, s, d).len() ==> deg[#[trigger] below_degree(
                deg,
                s,
                d,
            )[i] as int] <= deg[#[trigger] below_degree(deg, s, d)[j] as int],
    decreases d,
{
    if d > 0 {
        let l = (d - 1) as nat;
        lemma_below_degree_sorted(deg, s, l);
        lemma_below_degree_members(deg, s, l);
        let low = below_degree(deg, s, l);
        let top = of_degree(deg, s, d - 1);
        let all = below_degree(deg, s, d);
        assert forall|i: int, j: int| 0 <= i <= j < all.len() implies deg[#[trigger] all[i] as int]
            <= deg[#[trigger] all[j] as int] by {
            if j >= low.len() {
                s.lemma_filter_pred(has_degree(deg, d - 1), j - low.len());
                assert(all[j] == top[j - low.len()]);
                if i >= low.len() {
                    s.lemma_filter_pred(has_degree(deg, d - 1), i - low.len());
                    assert(all[i] == top[i - low.len()]);
                } else {
                    assert(all[i] == low[i]);
                    assert(low.contains(low[i]));
                }
            } else {
                assert(all[i] == low[i] && all[j] == low[j]);
            }
        }
    }
}

/// Sorting by degree puts items of lesser degree first.
pub proof fn lemma_by_degree_sorted(deg: Seq<usize>, s: Seq<usize>, i: int, j: int)
    requires
        0 <= i <= j < by_degree(deg, s).len(),
    ensures
        deg[by_degree(deg, s)[i] as int] <= deg[by_degree(deg, s)[j] as int],
{
    lemma_below_degree_sorted(deg, s, usize::MAX as nat + 1);
}

proof fn lemma_below_degree_stops(deg: Seq<usize>, s: Seq<usize>, m: nat, d: nat)
    requires
        m <= d,
        forall|i: int| 0 <= i < s.len() ==> deg[#[trigger] s[i] as int] < m,
    ensures
        below_degree(deg, s, d) == below_degree(deg, s, m),
    decreases d,
{
    if m < d {
        lemma_below_degree_stops(deg, s, m, (d - 1) as nat);
        s.lemma_all_neg_filter_empty(has_degree(deg, d - 1));
        assert(of_degree(deg, s, d - 1) =~= seq![]);
    }
}

/// Sorts `s` by the degree of its items; ties keep their order.
pub fn sort_by_degree(deg: &Vec<usize>, s: &Vec<usize>) -> (r: Vec<usize>)
    requires
        forall|i: int| 0 <= i < s@.len() ==> #[trigger] s@[i] < deg@.len(),
        forall|i: int| 0 <= i < deg@.len() ==> #[trigger] deg@[i] < usize::MAX,
    ensures
        r@ == by_degree(deg@, s@),
{
    let mut top: usize = 0;
    let mut i: usize = 0;
    while i < s.len()
        invariant
            i <= s@.len(),
            forall|k: int| 0 <= k < s@.len() ==> #[trigger] s@[k] < deg@.len(),
            forall|k: int| 0 <= k < deg@.len() ==> #[trigger] deg@[k] < usize::MAX,
            forall|k: int| 0 <= k < i ==> deg@[#[trigger] s@[k] as int] < top,
        decreases s@.len() - i,
    {
        let d: usize = deg[s[i]];
        if d >= top {
            top = d + 1;
        }
        i += 1;
    }
    let mut buckets: Vec<Vec<usize>> = Vec::new();
    let mut d: usize = 0;
    while d < top
        invariant
            d <= top,
            buckets@.len() == d,
            forall|k: int| 0 <= k < d ==> (#[trigger] buckets@[k])@ == Seq::<usize>::empty(),
        decreases top - d,
    {
        buckets.push(Vec::new());
        d += 1;
    }
    i = 0;
    proof {
        assert forall|k: int| 0 <= k < top implies (#[trigger] buckets@[k])@ == of_degree(
            deg@,
            s@.take(0),
            k,
        ) by {
            reveal(Seq::filter);
        }
    }
    while i < s.len()
        invariant
            i <= s@.len(),
            forall|k: int| 0 <= k < s@.len() ==> #[trigger] s@[k] < deg@.len(),
            forall|k: int| 0 <= k < s@.len() ==> deg@[#[trigger] s@[k] as int] < top,
            buckets@.len() == top,
            forall|k: int|
                0 <= k < top ==> (#[trigger] buckets@[k])@ == of_degree(deg@, s@.take(i as int), k),
        decreases s@.len() - i,
    {
        let ghost before = buckets@;
        let d: usize = deg[s[i]];
        buckets[d].push(s[i]);
        proof {
            let pre = s@.take(i as int);
            assert(s@.take(i + 1) =~= pre.push(s@[i as int]));
            assert forall|k: int| 0 <= k < top implies (#[trigger] buckets@[k])@ == of_degree(
                deg@,
                s@.take(i + 1),
                k,
            ) by {
                pre.lemma_filter_push(s@[i as int], has_degree(deg@, k));
                if k != d {
                    assert(buckets@[k] == before[k]);
                }
                assert(before[k]@ == of_degree(deg@, pre, k));
            }
        }
        i += 1;
    }
    assert(s@.take(s@.len() as int) =~= s@);
    let mut r: Vec<usize> = Vec::new();
    d = 0;
    while d < top
        invariant
            d <= top,
            buckets@.len() == top,
            forall|k: int| 0 <= k < top ==> (#[trigger] buckets@[k])@ == of_degree(deg@, s@, k),
            r@ == below_degree(deg@, s@, d as nat),
        decreases top - d,
    {
        let mut j: usize = 0;
        let bucket: &Vec<usize> = &buckets[d];
        while j < bucket.len()
            invariant
                j <= bucket@.len(),
                r@ == below_degree(deg@, s@, d as nat) + bucket@.take(j as int),
            decreases bucket@.len() - j,
        {
            r.push(bucket[j]);
            assert(bucket@.take(j + 1) =~= bucket@.take(j as int).push(bucket@[j as int]));
            j += 1;
        }
        assert(bucket@.take(j as int) =~= bucket@);
        d += 1;
    }
    proof {
        lemma_below_degree_stops(deg@, s@, top as nat, usize::MAX as nat + 1);
    }
    r
}

pub proof fn lemma_extend_new(n: nat, list: Seq<usize>, more: Seq<usize>)
    requires
        partial_order(n, list),
        forall|i: int| 0 <= i < more.len() ==> #[trigger] more[i] < n,
    ensures
        partial_order(n, extend_new(list, more)),
        list.is_prefix_of(extend_new(list, more)),
        forall|x: usize| #[trigger]
            extend_new(list, more).contains(x) <==> list.contains(x) || more.contains(x),
    decreases more.len(),
{
    if more.len() > 0 {
        let before = extend_new(list, more.drop_last());
        let w = more.last();
        lemma_extend_new(n, list, more.drop_last());
        assert(more =~= more.drop_last().push(w));
        assert(more[more.len() - 1] == w);
        let after = extend_new(list, more);
        assert forall|x: usize| #[trigger] after.contains(x) <==> list.contains(x)
            || more.contains(x) by {
            if after.contains(x) {
                let i = choose|i: int| 0 <= i < after.len() && after[i] == x;
                if i < before.len() {
                    assert(before[i] == x);
                    assert(before.contains(x));
                    if more.drop_last().contains(x) {
                        let k = choose|k: int| 0 <= k < more.len() - 1 && more.drop_last()[k] == x;
                        assert(more[k] == x);
                    }
                }
            }
            if before.contains(x) {
                let i = choose|i: int| 0 <= i < before.len() && before[i] == x;
                assert(after[i] == x);
            }
            if more.contains(x) && x != w {
                let k = choose|k: int| 0 <= k < more.len() && more[k] == x;
                assert(more.drop_last()[k] == x);
                assert(before.contains(x));
            }
            if x == w && !before.contains(w) {
                assert(after[after.len() - 1] == w);
            }
        }
    }
}

pub proof fn lemma_spread(n: nat, keys: Seq<(u32, u32)>, list: Seq<usize>, i: nat)
    requires
        partial_order(n, list),
        forall|k: int| 0 <= k < keys.len() ==> key_fits(n, #[trigger] keys[k]),
    ensures
        partial_order(n, spread(n, keys, list, i)),
        list.is_prefix_of(spread(n, keys, list, i)),
    decreases n - i,
{
    if i < list.len() && i < n {
        let v = list[i as int] as int;
        let more = by_degree(degrees(n, keys), neighbours(keys, v));
        lemma_neighbours_in_range(n, keys, v);
        lemma_by_degree_members(degrees(n, keys), neighbours(keys, v));
        assert forall|k: int| 0 <= k < more.len() implies #[trigger] more[k] < n by {
            assert(more.contains(more[k]));
        }
        lemma_extend_new(n, list, more);
        lemma_spread(n, keys, extend_new(list, more), i + 1);
    }
}

pub proof fn lemma_cover(n: nat, keys: Seq<(u32, u32)>, seeds: Seq<usize>)
    requires
        forall|k: int| 0 <= k < keys.len() ==> key_fits(n, #[trigger] keys[k]),
        forall|k: int| 0 <= k < seeds.len() ==> #[trigger] seeds[k] < n,
    ensures
        partial_order(n, cover(n, keys, seeds)),
        forall|k: int| 0 <= k < seeds.len() ==> cover(n, keys, seeds).contains(#[trigger] seeds[k]),
    decreases seeds.len(),
{
    if seeds.len() > 0 {
        let list = cover(n, keys, seeds.drop_last());
        let seed = seeds.last();
        assert(seed == seeds[seeds.len() - 1]);
        lemma_cover(n, keys, seeds.drop_last());
        let after = cover(n, keys, seeds);
        if !list.contains(seed) {
            lemma_spread(n, keys, list.push(seed), list.len());
            assert(after[list.len() as int] == list.push(seed)[list.len() as int]);
        }
        assert forall|k: int| 0 <= k < seeds.len() implies after.contains(#[trigger] seeds[k]) by {
            if k < seeds.len() - 1 {
                assert(seeds.drop_last()[k] == seeds[k]);
                assert(list.contains(seeds[k]));
                let j = choose|j: int| 0 <= j < list.len() && list[j] == seeds[k];
                if !list.contains(seed) {
                    assert(after[j] == list.push(seed)[j]);
                }
                assert(after[j] == seeds[k]);
            }
        }
    }
}

/// The Cuthill-McKee order visits every vertex exactly once.
pub proof fn lemma_cuthill_mckee_is_permutation(n: nat, keys: Seq<(u32, u32)>)
    requires
        n <= usize::MAX,
        forall|k: int| 0 <= k < keys.len() ==> key_fits(n, #[trigger] keys[k]),
    ensures
        is_permutation(n, cuthill_mckee(n, keys)),
{
    let seeds = by_degree(degrees(n, keys), vertices(n));
    lemma_by_degree_members(degrees(n, keys), vertices(n));
    assert forall|k: int| 0 <= k < seeds.len() implies #[trigger] seeds[k] < n by {
        assert(seeds.contains(seeds[k]));
        let i = choose|i: int| 0 <= i < n && vertices(n)[i] == seeds[k];
    }
    lemma_cover(n, keys, seeds);
    let order = cuthill_mckee(n, keys);
    assert forall|v: usize| v < n implies #[trigger] order.contains(v) by {
        assert(vertices(n)[v as int] == v);
        assert(seeds.contains(v));
        let k = choose|k: int| 0 <= k < seeds.len() && seeds[k] == v;
        assert(order.contains(seeds[k]));
    }
    lemma_partial_order_len(n, order);
}

/// The item at place `k` is a neighbour of an earlier item.
pub open spec fn is_reached(keys: Seq<(u32, u32)>, list: Seq<usize>, k: int) -> bool {
    exists|j: int|
        0 <= j < k && #[trigger] neighbours(keys, list[j] as int).contains(list[k])
}

/// The first `k` items have no neighbours but each other.
pub open spec fn is_closed(keys: Seq<(u32, u32)>, list: Seq<usize>, k: int) -> bool {
    forall|j: int, x: usize|
        0 <= j < k && #[trigger] neighbours(keys, list[j] as int).contains(x) ==> list.take(
            k,
        ).contains(x)
}

/// Every item is a neighbour of an earlier one, unless all that is connected to the
/// earlier ones has been listed.
pub open spec fn is_breadth_first(keys: Seq<(u32, u32)>, list: Seq<usize>) -> bool {
    forall|k: int|
        0 <= k < list.len() ==> #[trigger] is_reached(keys, list, k) || is_closed(keys, list, k)
}

/// The neighbours of the first `i` items are in the list.
pub open spec fn is_expanded(keys: Seq<(u32, u32)>, list: Seq<usize>, i: int) -> bool {
    forall|j: int, x: usize|
        0 <= j < i && #[trigger] neighbours(keys, list[j] as int).contains(x) ==> list.contains(x)
}

pub proof fn lemma_spread_reaches(n: nat, keys: Seq<(u32, u32)>, list: Seq<usize>, i: nat)
    requires
        partial_order(n, list),
        forall|k: int| 0 <= k < keys.len() ==> key_fits(n, #[trigger] keys[k]),
        i <= list.len(),
        is_expanded(keys, list, i as int),
    ensures
        forall|k: int|
            list.len() <= k < spread(n, keys, list, i).len() ==> #[trigger] is_reached(
                keys,
                spread(n, keys, list, i),
                k,
            ),
        is_expanded(
            keys,
            spread(n, keys, list, i),
            spread(n, keys, list, i).len() as int,
        ),
    decreases n - i,
{
    lemma_partial_order_len(n, list);
    if i < list.len() && i < n {
        let v = list[i as int] as int;
        let near = neighbours(keys, v);
        let more = by_degree(degrees(n, keys), near);
        lemma_neighbours_in_range(n, keys, v);
        lemma_by_degree_members(degrees(n, keys), near);
        assert forall|k: int| 0 <= k < more.len() implies #[trigger] more[k] < n by {
            assert(more.contains(more[k]));
        }
        let next = extend_new(list, more);
        lemma_extend_new(n, list, more);
        assert forall|j: int, x: usize|
            0 <= j < i + 1 && #[trigger] neighbours(keys, next[j] as int).contains(
                x,
            ) implies next.contains(x) by {
            assert(next[j] == list[j]);
            if j < i {
                assert(list.contains(x));
            } else {
                assert(more.contains(x));
            }
        }
        lemma_spread_reaches(n, keys, next, i + 1);
        lemma_spread(n, keys, next, i + 1);
        let r = spread(n, keys, list, i);
        assert forall|k: int| list.len() <= k < r.len() implies #[trigger] is_reached(keys, r, k) by {
            if k < next.len() {
                assert(r[k] == next[k]);
                assert(next.contains(next[k]));
                assert(!list.contains(next[k])) by {
                    if list.contains(next[k]) {
                        let j = list.index_of(next[k]);
                        assert(next[j] == next[k]);
                    }
                }
                assert(more.contains(next[k]));
                assert(r[i as int] == list[i as int]);
                assert(neighbours(keys, r[i as int] as int).contains(r[k]));
            }
        }
    }
}

pub proof fn lemma_cover_breadth_first(n: nat, keys: Seq<(u32, u32)>, seeds: Seq<usize>)
    requires
        forall|k: int| 0 <= k < keys.len() ==> key_fits(n, #[trigger] keys[k]),
        forall|k: int| 0 <= k < seeds.len() ==> #[trigger] seeds[k] < n,
    ensures
        is_breadth_first(keys, cover(n, keys, seeds)),
        is_expanded(keys, cover(n, keys, seeds), cover(n, keys, seeds).len() as int),
    decreases seeds.len(),
{
    if seeds.len() > 0 {
        let before = seeds.drop_last();
        assert forall|k: int| 0 <= k < before.len() implies #[trigger] before[k] < n by {
            assert(seeds[k] < n);
        }
        lemma_cover_breadth_first(n, keys, before);
        lemma_cover(n, keys, before);
        let list = cover(n, keys, before);
        let seed = seeds.last();
        if !list.contains(seed) {
            let p = list.len() as int;
            let start = list.push(seed);
            assert(seeds[seeds.len() - 1] < n);
            assert forall|j: int, x: usize|
                0 <= j < p && #[trigger] neighbours(keys, start[j] as int).contains(
                    x,
                ) implies start.contains(x) by {
                assert(start[j] == list[j]);
                assert(list.contains(x));
                let k = list.index_of(x);
                assert(start[k] == x);
            }
            lemma_spread_reaches(n, keys, start, list.len());
            lemma_spread(n, keys, start, list.len());
            let r = cover(n, keys, seeds);
            assert forall|k: int| 0 <= k < r.len() implies #[trigger] is_reached(keys, r, k)
                || is_closed(keys, r, k) by {
                if k < p {
                    assert(forall|j: int| 0 <= j <= k ==> #[trigger] r[j] == start[j]);
                    assert(r.take(k) =~= list.take(k));
                    if is_reached(keys, list, k) {
                        let j = choose|j: int|
                            0 <= j < k && #[trigger] neighbours(keys, list[j] as int).contains(
                                list[k],
                            );
                        assert(neighbours(keys, r[j] as int).contains(r[k]));
                    } else {
                        assert(is_closed(keys, list, k));
                        assert forall|j: int, x: usize|
                            0 <= j < k && #[trigger] neighbours(keys, r[j] as int).contains(
                                x,
                            ) implies r.take(k).contains(x) by {
                            assert(neighbours(keys, list[j] as int).contains(x));
                        }
                    }
                } else if k == p {
                    assert(forall|j: int| 0 <= j < p ==> #[trigger] r[j] == start[j]);
                    assert(r.take(p) =~= list);
                    assert forall|j: int, x: usize|
                        0 <= j < k && #[trigger] neighbours(keys, r[j] as int).contains(
                            x,
                        ) implies r.take(k).contains(x) by {
                        assert(neighbours(keys, list[j] as int).contains(x));
                    }
                }
            }
        }
    }
}

/// The Cuthill-McKee order is breadth first: a vertex follows a neighbour of it,
/// unless everything connected to the vertices before it has been visited.
pub proof fn lemma_cuthill_mckee_is_breadth_first(n: nat, keys: Seq<(u32, u32)>)
    requires
        n <= usize::MAX,
        forall|k: int| 0 <= k < keys.len() ==> key_fits(n, #[trigger] keys[k]),
    ensures
        is_breadth_first(keys, cuthill_mckee(n, keys)),
{
    let seeds = by_degree(degrees(n, keys), vertices(n));
    lemma_by_degree_members(degrees(n, keys), vertices(n));
    assert forall|k: int| 0 <= k < seeds.len() implies #[trigger] seeds[k] < n by {
        assert(seeds.contains(seeds[k]));
        let i = choose|i: int| 0 <= i < n && vertices(n)[i] == seeds[k];
    }
    lemma_cover_breadth_first(n, keys, seeds);
}

/// The item at place `k` of `order` has the number `k` in `perm`, counted from
/// the end.
pub open spec fn reverses(perm: Seq<usize>, order: Seq<usize>) -> bool {
    &&& perm.len() == order.len()
    &&& forall|k: int|
        0 <= k < order.len() ==> perm[#[trigger] order[k] as int] == order.len() - 1 - k
}

/// The numbers of the vertices, counted from the end of an order.
pub open spec fn numbering(order: Seq<usize>) -> Seq<usize> {
    Seq::new(order.len(), |v: int| (order.len() - 1 - order.index_of(v as usize)) as usize)
}

/// Numbering the vertices from the end of an order that visits each of them once
/// gives every vertex a number of its own.
pub proof fn lemma_reverse_is_permutation(n: nat, order: Seq<usize>, perm: Seq<usize>)
    requires
        n <= usize::MAX,
        is_permutation(n, order),
        reverses(perm, order),
    ensures
        is_permutation(n, perm),
        perm == numbering(order),
{
    assert forall|v: int| 0 <= v < n implies #[trigger] perm[v] < n && perm[v] == numbering(
        order,
    )[v] by {
        assert(order.contains(v as usize));
        let k = choose|k: int| 0 <= k < order.len() && order[k] == v as usize;
        assert(perm[order[k] as int] == n - 1 - k);
    }
    assert forall|u: int, v: int| 0 <= u < n && 0 <= v < n && u != v implies perm[u] != perm[v] by {
        assert(order.contains(u as usize) && order.contains(v as usize));
        let i = choose|k: int| 0 <= k < order.len() && order[k] == u as usize;
        let j = choose|k: int| 0 <= k < order.len() && order[k] == v as usize;
        assert(perm[order[i] as int] == n - 1 - i);
        assert(perm[order[j] as int] == n - 1 - j);
    }
    assert forall|x: usize| x < n implies #[trigger] perm.contains(x) by {
        let k = n - 1 - x;
        assert(perm[order[k] as int] == x);
    }
    assert(perm =~= numbering(order));
}

/// Renumbers the vertices of a graph so that its matrix has a small profile:
/// vertex `v` becomes `perm[v]`, which counts from the end of the Cuthill-McKee
/// order.
pub fn rcm(n: usize, keys: &[(u32, u32)]) -> (perm: Vec<usize>)
    requires
        forall|k: int| 0 <= k < keys@.len() ==> key_fits(n as nat, #[trigger] keys@[k]),
        keys@.len() < usize::MAX,
    ensures
        is_permutation(n as nat, cuthill_mckee(n as nat, keys@)),
        reverses(perm@, cuthill_mckee(n as nat, keys@)),
        perm@ == numbering(cuthill_mckee(n as nat, keys@)),
        is_permutation(n as nat, perm@),
{
    let adj = adjacency(n, keys);
    let deg = degrees_of(n, keys, &adj);
    let mut rest: Vec<usize> = Vec::new();
    let mut v: usize = 0;
    while v < n
        invariant
            v <= n,
            rest@ == vertices(v as nat),
        decreases n - v,
    {
        rest.push(v);
        v += 1;
        assert(rest@ =~= vertices(v as nat));
    }
    let seeds = sort_by_degree(&deg, &rest);
    let mut order: Vec<usize> = Vec::new();
    let mut seen: Vec<bool> = Vec::new();
    v = 0;
    while v < n
        invariant
            v <= n,
            seen@.len() == v,
            forall|x: int| 0 <= x < v ==> !#[trigger] seen@[x],
        decreases n - v,
    {
        seen.push(false);
        v += 1;
    }
    proof {
        lemma_by_degree_members(deg@, rest@);
        assert forall|k: int| 0 <= k < seeds@.len() implies #[trigger] seeds@[k] < n by {
            assert(seeds@.contains(seeds@[k]));
            let i = choose|i: int| 0 <= i < n && vertices(n as nat)[i] == seeds@[k];
        }
        assert(seeds@.take(0) =~= seq![]);
    }
    let mut s: usize = 0;
    while s < seeds.len()
        invariant
            s <= seeds@.len(),
            graph(n as nat, keys@, adj@, deg@),
            forall|k: int| 0 <= k < seeds@.len() ==> #[trigger] seeds@[k] < n,
            order@ == cover(n as nat, keys@, seeds@.take(s as int)),
            partial_order(n as nat, order@),
            marks(seen@, order@),
            seen@.len() == n,
        decreases seeds@.len() - s,
    {
        let seed: usize = seeds[s];
        let ghost list = order@;
        assert(seeds@.take(s + 1).drop_last() =~= seeds@.take(s as int));
        if !seen[seed] {
            let start: usize = order.len();
            order.push(seed);
            seen.set(seed, true);
            proof {
                lemma_marks_push(seen@, list, seed);
            }
            visit(n, keys, &adj, &deg, start, &mut order, &mut seen);
        }
        s += 1;
    }
    assert(seeds@.take(s as int) =~= seeds@);
    let mut perm: Vec<usize> = Vec::new();
    v = 0;
    while v < n
        invariant
            v <= n,
            perm@.len() == v,
        decreases n - v,
    {
        perm.push(0);
        v += 1;
    }
    proof {
        lemma_cuthill_mckee_is_permutation(n as nat, keys@);
    }
    let mut k: usize = 0;
    while k < n
        invariant
            k <= n,
            order@ == cuthill_mckee(n as nat, keys@),
            is_permutation(n as nat, order@),
            perm@.len() == n,
            forall|j: int| 0 <= j < k ==> perm@[#[trigger] order@[j] as int] == n - 1 - j,
        decreases n - k,
    {
        perm.set(order[k], n - 1 - k);
        k += 1;
    }
    proof {
        lemma_reverse_is_permutation(n as nat, order@, perm@);
    }
    perm
}

/// `adj` and `deg` hold the neighbours and the degrees that `keys` gives.
spec fn graph(n: nat, keys: Seq<(u32, u32)>, adj: Seq<Vec<usize>>, deg: Seq<usize>) -> bool {
    &&& forall|k: int| 0 <= k < keys.len() ==> key_fits(n, #[trigger] keys[k])
    &&& adj.len() == n
    &&& forall|v: int| 0 <= v < n ==> (#[trigger] adj[v])@ == neighbours(keys, v)
    &&& deg == degrees(n, keys)
    &&& forall|v: int| 0 <= v < n ==> #[trigger] deg[v] < usize::MAX
}

/// `seen` marks exactly the items of `list`.
spec fn marks(seen: Seq<bool>, list: Seq<usize>) -> bool {
    forall|v: usize| v < seen.len() ==> (#[trigger] seen[v as int] <==> list.contains(v))
}

proof fn lemma_marks_push(seen: Seq<bool>, list: Seq<usize>, w: usize)
    requires
        w < seen.len(),
        seen[w as int],
        forall|v: usize|
            v < seen.len() && v != w ==> (#[trigger] seen[v as int] <==> list.contains(v)),
    ensures
        marks(seen, list.push(w)),
{
    assert forall|v: usize| v < seen.len() implies (#[trigger] seen[v as int] <==> list.push(
        w,
    ).contains(v)) by {
        if list.contains(v) {
            let i = choose|i: int| 0 <= i < list.len() && list[i] == v;
            assert(list.push(w)[i] == v);
        }
        if list.push(w).contains(v) && v != w {
            let i = choose|i: int| 0 <= i < list.len() + 1 && list.push(w)[i] == v;
            assert(list[i] == v);
        }
        assert(list.push(w)[list.len() as int] == w);
    }
}

/// The neighbours of every vertex.
fn adjacency(n: usize, keys: &[(u32, u32)]) -> (adj: Vec<Vec<usize>>)
    requires
        forall|k: int| 0 <= k < keys@.len() ==> key_fits(n as nat, #[trigger] keys@[k]),
    ensures
        adj@.len() == n,
        forall|v: int| 0 <= v < n ==> (#[trigger] adj@[v])@ == neighbours(keys@, v),
{
    let mut adj: Vec<Vec<usize>> = Vec::new();
    let mut v: usize = 0;
    while v < n
        invariant
            v <= n,
            adj@.len() == v,
            forall|x: int| 0 <= x < v ==> (#[trigger] adj@[x])@ == Seq::<usize>::empty(),
        decreases n - v,
    {
        adj.push(Vec::new());
        v += 1;
    }
    let mut i: usize = 0;
    assert(keys@.take(0) =~= seq![]);
    while i < keys.len()
        invariant
            i <= keys@.len(),
            forall|k: int| 0 <= k < keys@.len() ==> key_fits(n as nat, #[trigger] keys@[k]),
            adj@.len() == n,
            forall|x: int|
                0 <= x < n ==> (#[trigger] adj@[x])@ == neighbours(keys@.take(i as int), x),
        decreases keys@.len() - i,
    {
        let (a, b) = keys[i];
        let ghost before = adj@;
        if a != b {
            adj[a as usize].push(b as usize);
            adj[b as usize].push(a as usize);
        }
        proof {
            assert(keys@.take(i + 1).drop_last() =~= keys@.take(i as int));
            assert forall|x: int| 0 <= x < n implies (#[trigger] adj@[x])@ == neighbours(
                keys@.take(i + 1),
                x,
            ) by {
                assert(before[x]@ == neighbours(keys@.take(i as int), x));
            }
        }
        i += 1;
    }
    assert(keys@.take(i as int) =~= keys@);
    adj
}

pub proof fn lemma_neighbours_len(keys: Seq<(u32, u32)>, v: int)
    ensures
        neighbours(keys, v).len() <= keys.len(),
    decreases keys.len(),
{
    if keys.len() > 0 {
        lemma_neighbours_len(keys.drop_last(), v);
    }
}

/// The degree of every vertex.
fn degrees_of(n: usize, keys: &[(u32, u32)], adj: &Vec<Vec<usize>>) -> (deg: Vec<usize>)
    requires
        forall|k: int| 0 <= k < keys@.len() ==> key_fits(n as nat, #[trigger] keys@[k]),
        adj@.len() == n,
        forall|v: int| 0 <= v < n ==> (#[trigger] adj@[v])@ == neighbours(keys@, v),
        keys@.len() < usize::MAX,
    ensures
        graph(n as nat, keys@, adj@, deg@),
{
    let mut deg: Vec<usize> = Vec::new();
    let mut v: usize = 0;
    while v < n
        invariant
            v <= n,
            adj@.len() == n,
            forall|x: int| 0 <= x < n ==> (#[trigger] adj@[x])@ == neighbours(keys@, x),
            deg@ == degrees(v as nat, keys@),
            keys@.len() < usize::MAX,
            forall|x: int| 0 <= x < v ==> #[trigger] deg@[x] < usize::MAX,
        decreases n - v,
    {
        proof {
            lemma_neighbours_len(keys@, v as int);
        }
        deg.push(adj[v].len());
        v += 1;
        assert(deg@ =~= degrees(v as nat, keys@));
    }
    deg
}

/// Visits the items of `order` from `start` on, and appends their new neighbours.
fn visit(
    n: usize,
    keys: &[(u32, u32)],
    adj: &Vec<Vec<usize>>,
    deg: &Vec<usize>,
    start: usize,
    order: &mut Vec<usize>,
    seen: &mut Vec<bool>,
)
    requires
        graph(n as nat, keys@, adj@, deg@),
        start < old(order)@.len(),
        partial_order(n as nat, old(order)@),
        old(seen)@.len() == n,
        marks(old(seen)@, old(order)@),
    ensures
        final(order)@ == spread(n as nat, keys@, old(order)@, start as nat),
        partial_order(n as nat, final(order)@),
        final(seen)@.len() == n,
        marks(final(seen)@, final(order)@),
{
    let mut i: usize = start;
    while i < order.len()
        invariant
            graph(n as nat, keys@, adj@, deg@),
            i <= order@.len(),
            partial_order(n as nat, order@),
            seen@.len() == n,
            marks(seen@, order@),
            spread(n as nat, keys@, order@, i as nat) == spread(
                n as nat,
                keys@,
                old(order)@,
                start as nat,
            ),
        decreases n - i,
    {
        proof {
            lemma_partial_order_len(n as nat, order@);
        }
        let v: usize = order[i];
        let ghost list = order@;
        proof {
            lemma_neighbours_in_range(n as nat, keys@, v as int);
            lemma_by_degree_members(deg@, neighbours(keys@, v as int));
            assert(adj@[v as int]@ == neighbours(keys@, v as int));
        }
        let nb = sort_by_degree(deg, &adj[v]);
        proof {
            assert forall|k: int| 0 <= k < nb@.len() implies #[trigger] nb@[k] < n by {
                assert(nb@.contains(nb@[k]));
            }
            assert(nb@.take(0) =~= seq![]);
        }
        let mut j: usize = 0;
        while j < nb.len()
            invariant
                j <= nb@.len(),
                forall|k: int| 0 <= k < nb@.len() ==> #[trigger] nb@[k] < n,
                order@ == extend_new(list, nb@.take(j as int)),
                partial_order(n as nat, list),
                partial_order(n as nat, order@),
                seen@.len() == n,
                marks(seen@, order@),
            decreases nb@.len() - j,
        {
            let w: usize = nb[j];
            let ghost before = order@;
            assert(nb@.take(j + 1).drop_last() =~= nb@.take(j as int));
            if !seen[w] {
                seen.set(w, true);
                order.push(w);
                proof {
                    lemma_marks_push(seen@, before, w);
                }
            }
            proof {
                lemma_extend_new(n as nat, list, nb@.take(j + 1));
            }
            j += 1;
        }
        assert(nb@.take(j as int) =~= nb@);
        proof {
            lemma_extend_new(n as nat, list, nb@);
            lemma_partial_order_len(n as nat, list);
        }
        i += 1;
    }
}

} // verus!
