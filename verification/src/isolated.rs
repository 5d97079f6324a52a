//! What one more isolated vertex does to the ordering of a graph.

use crate::rcm::{
    below_degree, by_degree, cover, cuthill_mckee, degrees, extend_new, has_degree, key_fits,
    lemma_below_degree_members, lemma_by_degree_members, lemma_cover,
    lemma_cuthill_mckee_is_permutation, lemma_extend_new, lemma_neighbours_in_range,
    lemma_neighbours_len, lemma_spread, neighbours, numbering, of_degree, partial_order, spread,
    vertices,
};
use vstd::prelude::*;

verus! {

/// No key joins the vertex to another one.
pub open spec fn is_isolated(keys: Seq<(u32, u32)>, v: int) -> bool {
    forall|i: int|
        0 <= i < keys.len() ==> (#[trigger] keys[i]).0 == keys[i].1 || (keys[i].0 != v && keys[i].1
            != v)
}

/// The isolated vertices among the first `n`, in ascending order.
pub open spec fn isolated(n: nat, keys: Seq<(u32, u32)>) -> Seq<usize> {
    vertices(n).filter(|v: usize| is_isolated(keys, v as int))
}

proof fn lemma_isolated(keys: Seq<(u32, u32)>, v: int)
    ensures
        is_isolated(keys, v) <==> neighbours(keys, v).len() == 0,
    decreases keys.len(),
{
    if keys.len() > 0 {
        let before = keys.drop_last();
        lemma_isolated(before, v);
        if is_isolated(keys, v) {
            assert forall|i: int| 0 <= i < before.len() implies (#[trigger] before[i]).0
                == before[i].1 || (before[i].0 != v && before[i].1 != v) by {
                assert(before[i] == keys[i]);
            }
            assert(keys[keys.len() - 1] == keys.last());
        }
        if neighbours(keys, v).len() == 0 {
            assert forall|i: int| 0 <= i < keys.len() implies (#[trigger] keys[i]).0 == keys[i].1
                || (keys[i].0 != v && keys[i].1 != v) by {
                if i < keys.len() - 1 {
                    assert(before[i] == keys[i]);
                }
            }
        }
    }
}

/// Filters that agree on the items of a list keep the same items.
proof fn lemma_filter_agree(s: Seq<usize>, p: spec_fn(usize) -> bool, q: spec_fn(usize) -> bool)
    requires
        forall|i: int| 0 <= i < s.len() ==> p(#[trigger] s[i]) == q(s[i]),
    ensures
        s.filter(p) == s.filter(q),
    decreases s.len(),
{
    reveal(Seq::filter);
    if s.len() > 0 {
        let rest = s.drop_last();
        assert forall|i: int| 0 <= i < rest.len() implies p(#[trigger] rest[i]) == q(rest[i]) by {
            assert(rest[i] == s[i]);
        }
        lemma_filter_agree(rest, p, q);
        assert(p(s[s.len() - 1]) == q(s[s.len() - 1]));
    }
}

/// The degrees are the same for the first `n` vertices, and the next one has none.
proof fn lemma_degrees(n: nat, keys: Seq<(u32, u32)>)
    requires
        forall|k: int| 0 <= k < keys.len() ==> key_fits(n, #[trigger] keys[k]),
    ensures
        forall|v: int| 0 <= v < n ==> #[trigger] degrees(n + 1, keys)[v] == degrees(n, keys)[v],
        degrees(n + 1, keys)[n as int] == 0,
{
    assert(is_isolated(keys, n as int));
    lemma_isolated(keys, n as int);
}

/// The degree of the list `s` matters only for its own items.
proof fn lemma_below_agree(n: nat, keys: Seq<(u32, u32)>, s: Seq<usize>, d: nat)
    requires
        forall|k: int| 0 <= k < keys.len() ==> key_fits(n, #[trigger] keys[k]),
        forall|i: int| 0 <= i < s.len() ==> #[trigger] s[i] < n,
    ensures
        below_degree(degrees(n + 1, keys), s, d) == below_degree(degrees(n, keys), s, d),
    decreases d,
{
    if d > 0 {
        lemma_below_agree(n, keys, s, (d - 1) as nat);
        lemma_degrees(n, keys);
        lemma_filter_agree(
            s,
            has_degree(degrees(n + 1, keys), d - 1),
            has_degree(degrees(n, keys), d - 1),
        );
    }
}

/// The items of `s` whose degree is at least one and less than `d`, by degree.
spec fn joined(deg: Seq<usize>, s: Seq<usize>, d: nat) -> Seq<usize>
    decreases d,
{
    if d <= 1 {
        seq![]
    } else {
        joined(deg, s, (d - 1) as nat) + of_degree(deg, s, d - 1)
    }
}

proof fn lemma_joined(deg: Seq<usize>, s: Seq<usize>, d: nat)
    requires
        d >= 1,
    ensures
        below_degree(deg, s, d) == of_degree(deg, s, 0) + joined(deg, s, d),
    decreases d,
{
    if d > 1 {
        lemma_joined(deg, s, (d - 1) as nat);
        assert(below_degree(deg, s, d) =~= of_degree(deg, s, 0) + joined(deg, s, d));
    } else {
        assert(below_degree(deg, s, 0) =~= seq![]);
        assert(below_degree(deg, s, 1) =~= of_degree(deg, s, 0) + joined(deg, s, 1));
    }
}

proof fn lemma_joined_agree(n: nat, keys: Seq<(u32, u32)>, d: nat)
    requires
        n < usize::MAX,
        forall|k: int| 0 <= k < keys.len() ==> key_fits(n, #[trigger] keys[k]),
    ensures
        joined(degrees(n + 1, keys), vertices(n + 1), d) == joined(
            degrees(n, keys),
            vertices(n),
            d,
        ),
    decreases d,
{
    if d > 1 {
        lemma_joined_agree(n, keys, (d - 1) as nat);
        lemma_degrees(n, keys);
        let (deg, wide) = (degrees(n, keys), degrees(n + 1, keys));
        assert(vertices(n + 1) =~= vertices(n).push(n as usize));
        vertices(n).lemma_filter_push(n as usize, has_degree(wide, d - 1));
        lemma_filter_agree(vertices(n), has_degree(wide, d - 1), has_degree(deg, d - 1));
    }
}

/// The vertices of degree zero are the isolated ones; the next vertex is one more.
proof fn lemma_lone(n: nat, keys: Seq<(u32, u32)>)
    requires
        n < usize::MAX,
        keys.len() < usize::MAX,
        forall|k: int| 0 <= k < keys.len() ==> key_fits(n, #[trigger] keys[k]),
    ensures
        of_degree(degrees(n, keys), vertices(n), 0) == isolated(n, keys),
        of_degree(degrees(n + 1, keys), vertices(n + 1), 0) == isolated(n, keys).push(n as usize),
{
    let (deg, wide) = (degrees(n, keys), degrees(n + 1, keys));
    let alone = |v: usize| is_isolated(keys, v as int);
    assert forall|i: int| 0 <= i < n implies has_degree(deg, 0)(#[trigger] vertices(n)[i]) == alone(
        vertices(n)[i],
    ) by {
        lemma_isolated(keys, i);
        lemma_neighbours_len(keys, i);
    }
    lemma_filter_agree(vertices(n), has_degree(deg, 0), alone);
    lemma_degrees(n, keys);
    assert(vertices(n + 1) =~= vertices(n).push(n as usize));
    vertices(n).lemma_filter_push(n as usize, has_degree(wide, 0));
    lemma_filter_agree(vertices(n), has_degree(wide, 0), has_degree(deg, 0));
}

/// Isolated seeds are visited in their order, and nothing else with them.
proof fn lemma_cover_lone(n: nat, keys: Seq<(u32, u32)>, seeds: Seq<usize>)
    requires
        seeds.no_duplicates(),
        forall|i: int| 0 <= i < seeds.len() ==> is_isolated(keys, #[trigger] seeds[i] as int),
    ensures
        cover(n, keys, seeds) == seeds,
    decreases seeds.len(),
{
    if seeds.len() > 0 {
        let before = seeds.drop_last();
        let seed = seeds.last();
        assert forall|i: int| 0 <= i < before.len() implies is_isolated(
            keys,
            #[trigger] before[i] as int,
        ) by {
            assert(before[i] == seeds[i]);
        }
        lemma_cover_lone(n, keys, before);
        assert(seeds[seeds.len() - 1] == seed);
        assert(!before.contains(seed)) by {
            if before.contains(seed) {
                let k = choose|k: int| 0 <= k < before.len() && before[k] == seed;
                assert(seeds[k] == seeds[seeds.len() - 1]);
            }
        }
        lemma_isolated(keys, seed as int);
        let deg = degrees(n, keys);
        let list = before.push(seed);
        assert(list =~= seeds);
        assert(neighbours(keys, seed as int) =~= seq![]);
        lemma_by_degree_members(deg, seq![]);
        let more = by_degree(deg, seq![]);
        assert(more.len() == 0) by {
            if more.len() > 0 {
                assert(more.contains(more[0]));
                assert(Seq::<usize>::empty().contains(more[0]));
            }
        }
        assert(list[before.len() as int] == seed);
        assert(extend_new(list, more) == list);
        assert(spread(n, keys, list, before.len() + 1) == list);
        assert(spread(n, keys, list, before.len()) == list);
    } else {
        assert(cover(n, keys, seeds) =~= seeds);
    }
}

/// `list` with the vertex `n` put in at place `c`.
spec fn widened(list: Seq<usize>, c: int, n: nat) -> Seq<usize> {
    list.insert(c, n as usize)
}

proof fn lemma_widened(list: Seq<usize>, c: int, n: nat, x: usize)
    requires
        0 <= c <= list.len(),
        n <= usize::MAX,
        x < n,
    ensures
        widened(list, c, n).contains(x) == list.contains(x),
        widened(list.push(x), c, n) == widened(list, c, n).push(x),
{
    let wide = widened(list, c, n);
    if list.contains(x) {
        let k = choose|k: int| 0 <= k < list.len() && list[k] == x;
        if k < c {
            assert(wide[k] == x);
        } else {
            assert(wide[k + 1] == x);
        }
    }
    if wide.contains(x) {
        let k = choose|k: int| 0 <= k < wide.len() && wide[k] == x;
        if k < c {
            assert(list[k] == x);
        } else {
            assert(list[k - 1] == x);
        }
    }
    assert(widened(list.push(x), c, n) =~= wide.push(x));
}

proof fn lemma_extend_widened(list: Seq<usize>, c: int, n: nat, more: Seq<usize>)
    requires
        0 <= c <= list.len(),
        n <= usize::MAX,
        partial_order(n, list),
        forall|i: int| 0 <= i < more.len() ==> #[trigger] more[i] < n,
    ensures
        extend_new(widened(list, c, n), more) == widened(extend_new(list, more), c, n),
        list.len() <= extend_new(list, more).len(),
    decreases more.len(),
{
    if more.len() > 0 {
        let rest = more.drop_last();
        assert(forall|i: int| 0 <= i < rest.len() ==> rest[i] == #[trigger] more[i]);
        lemma_extend_widened(list, c, n, rest);
        lemma_widened(extend_new(list, rest), c, n, more.last());
    }
}

proof fn lemma_spread_widened(n: nat, keys: Seq<(u32, u32)>, list: Seq<usize>, c: int, i: nat)
    requires
        n < usize::MAX,
        forall|k: int| 0 <= k < keys.len() ==> key_fits(n, #[trigger] keys[k]),
        partial_order(n, list),
        0 <= c <= i,
        c <= list.len(),
    ensures
        spread(n + 1, keys, widened(list, c, n), i + 1) == widened(
            spread(n, keys, list, i),
            c,
            n,
        ),
    decreases n - i,
{
    if i < list.len() && i < n {
        let v = list[i as int] as int;
        let near = neighbours(keys, v);
        let more = by_degree(degrees(n, keys), near);
        lemma_neighbours_in_range(n, keys, v);
        lemma_by_degree_members(degrees(n, keys), near);
        assert forall|k: int| 0 <= k < more.len() implies #[trigger] more[k] < n by {
            assert(more.contains(more[k]));
        }
        lemma_below_agree(n, keys, near, usize::MAX as nat + 1);
        lemma_extend_widened(list, c, n, more);
        lemma_extend_new(n, list, more);
        lemma_spread_widened(n, keys, extend_new(list, more), c, i + 1);
        assert(widened(list, c, n)[i as int + 1] == list[i as int]);
    }
}

proof fn lemma_cover_widened(
    n: nat,
    keys: Seq<(u32, u32)>,
    lone: Seq<usize>,
    rest: Seq<usize>,
)
    requires
        n < usize::MAX,
        forall|k: int| 0 <= k < keys.len() ==> key_fits(n, #[trigger] keys[k]),
        lone.no_duplicates(),
        forall|i: int| 0 <= i < lone.len() ==> #[trigger] lone[i] < n,
        forall|i: int| 0 <= i < lone.len() ==> is_isolated(keys, #[trigger] lone[i] as int),
        forall|i: int| 0 <= i < rest.len() ==> #[trigger] rest[i] < n,
    ensures
        lone.len() <= cover(n, keys, lone + rest).len(),
        lone.is_prefix_of(cover(n, keys, lone + rest)),
        cover(n + 1, keys, lone.push(n as usize) + rest) == widened(
            cover(n, keys, lone + rest),
            lone.len() as int,
            n,
        ),
    decreases rest.len(),
{
    let last = n as usize;
    let c = lone.len() as int;
    if rest.len() == 0 {
        let wide = lone.push(last);
        assert(lone + rest =~= lone);
        assert(wide + rest =~= wide);
        lemma_cover_lone(n, keys, lone);
        assert(is_isolated(keys, last as int));
        assert forall|i: int| 0 <= i < wide.len() implies is_isolated(
            keys,
            #[trigger] wide[i] as int,
        ) by {
            if i < lone.len() {
                assert(wide[i] == lone[i]);
            }
        }
        assert(wide.no_duplicates()) by {
            assert forall|i: int, j: int| 0 <= i < wide.len() && 0 <= j < wide.len() && i
                != j implies wide[i] != wide[j] by {
                if i < lone.len() {
                    assert(lone[i] < n);
                }
                if j < lone.len() {
                    assert(lone[j] < n);
                }
            }
        }
        lemma_cover_lone(n + 1, keys, wide);
        assert(wide =~= widened(lone, c, n));
    } else {
        let before = rest.drop_last();
        let seed = rest.last();
        assert(rest[rest.len() - 1] == seed);
        assert(forall|i: int| 0 <= i < before.len() ==> before[i] == #[trigger] rest[i]);
        lemma_cover_widened(n, keys, lone, before);
        assert((lone + rest).drop_last() =~= lone + before);
        assert((lone.push(last) + rest).drop_last() =~= lone.push(last) + before);
        let list = cover(n, keys, lone + before);
        assert forall|k: int| 0 <= k < (lone + before).len() implies #[trigger] (lone + before)[k]
            < n by {
            if k < lone.len() {
                assert(lone[k] < n);
            } else {
                assert(before[k - lone.len()] < n);
            }
        }
        lemma_cover(n, keys, lone + before);
        lemma_widened(list, c, n, seed);
        if !list.contains(seed) {
            assert(partial_order(n, list.push(seed)));
            lemma_spread_widened(n, keys, list.push(seed), c, list.len());
            lemma_spread(n, keys, list.push(seed), list.len());
            let after = cover(n, keys, lone + rest);
            assert forall|k: int| 0 <= k < lone.len() implies #[trigger] lone[k] == after[k] by {
                assert(lone[k] == list[k]);
                assert(list.push(seed)[k] == list[k]);
                assert(after[k] == list.push(seed)[k]);
            }
        }
    }
}

/// One more isolated vertex comes behind the isolated vertices in the Cuthill-McKee
/// order, and before all others; nothing else moves.
pub proof fn lemma_order_with_isolated(n: nat, keys: Seq<(u32, u32)>)
    requires
        n < usize::MAX,
        keys.len() < usize::MAX,
        forall|k: int| 0 <= k < keys.len() ==> key_fits(n, #[trigger] keys[k]),
    ensures
        isolated(n, keys).is_prefix_of(cuthill_mckee(n, keys)),
        cuthill_mckee(n + 1, keys) == cuthill_mckee(n, keys).insert(
            isolated(n, keys).len() as int,
            n as usize,
        ),
{
    let (deg, wide) = (degrees(n, keys), degrees(n + 1, keys));
    let all = usize::MAX as nat + 1;
    let lone = isolated(n, keys);
    let rest = joined(deg, vertices(n), all);
    lemma_lone(n, keys);
    lemma_joined(deg, vertices(n), all);
    lemma_joined(wide, vertices(n + 1), all);
    lemma_joined_agree(n, keys, all);
    lemma_below_degree_members(deg, vertices(n), all);
    let seeds = by_degree(deg, vertices(n));
    assert forall|k: int| 0 <= k < seeds.len() implies #[trigger] seeds[k] < n by {
        assert(seeds.contains(seeds[k]));
        let i = choose|i: int| 0 <= i < n && vertices(n)[i] == seeds[k];
    }
    assert forall|i: int| 0 <= i < rest.len() implies #[trigger] rest[i] < n by {
        assert(seeds[lone.len() + i] == rest[i]);
    }
    assert forall|i: int| 0 <= i < lone.len() implies #[trigger] lone[i] < n && is_isolated(
        keys,
        lone[i] as int,
    ) by {
        assert(seeds[i] == lone[i]);
        vertices(n).lemma_filter_pred(|v: usize| is_isolated(keys, v as int), i);
    }
    assert(vertices(n).no_duplicates());
    lemma_filter_distinct(vertices(n), |v: usize| is_isolated(keys, v as int));
    lemma_cover_widened(n, keys, lone, rest);
}

/// A filter keeps items apart.
proof fn lemma_filter_distinct(s: Seq<usize>, p: spec_fn(usize) -> bool)
    requires
        s.no_duplicates(),
    ensures
        s.filter(p).no_duplicates(),
    decreases s.len(),
{
    reveal(Seq::filter);
    if s.len() > 0 {
        let rest = s.drop_last();
        assert(rest.no_duplicates());
        lemma_filter_distinct(rest, p);
        let kept = rest.filter(p);
        if kept.contains(s.last()) {
            rest.lemma_filter_contains_rev(p, s.last());
            let k = choose|k: int| 0 <= k < rest.len() && rest[k] == s.last();
            assert(s[k] == s[s.len() - 1]);
        }
        assert forall|i: int, j: int|
            0 <= i < s.filter(p).len() && 0 <= j < s.filter(p).len() && i != j implies s.filter(
            p,
        )[i] != s.filter(p)[j] by {
            if p(s.last()) {
                assert(s.filter(p) =~= kept.push(s.last()));
                if i < kept.len() {
                    assert(kept.contains(kept[i]));
                }
                if j < kept.len() {
                    assert(kept.contains(kept[j]));
                }
            }
        }
    }
}

/// One more isolated vertex takes the number `n` less the count of the isolated
/// vertices. Each of those moves up by one, and no other vertex moves.
pub proof fn lemma_one_more_isolated(n: nat, keys: Seq<(u32, u32)>)
    requires
        n < usize::MAX,
        keys.len() < usize::MAX,
        forall|k: int| 0 <= k < keys.len() ==> key_fits(n, #[trigger] keys[k]),
    ensures
        numbering(cuthill_mckee(n + 1, keys))[n as int] == n - isolated(n, keys).len(),
        forall|v: int|
            0 <= v < n && is_isolated(keys, v) ==> #[trigger] numbering(
                cuthill_mckee(n + 1, keys),
            )[v] == numbering(cuthill_mckee(n, keys))[v] + 1,
        forall|v: int|
            0 <= v < n && !is_isolated(keys, v) ==> #[trigger] numbering(
                cuthill_mckee(n + 1, keys),
            )[v] == numbering(cuthill_mckee(n, keys))[v],
{
    let lone = isolated(n, keys);
    let c = lone.len() as int;
    let (order, wide) = (cuthill_mckee(n, keys), cuthill_mckee(n + 1, keys));
    lemma_order_with_isolated(n, keys);
    lemma_cuthill_mckee_is_permutation(n, keys);
    assert forall|k: int| 0 <= k < keys.len() implies key_fits(n + 1, #[trigger] keys[k]) by {
        assert(key_fits(n, keys[k]));
    }
    lemma_cuthill_mckee_is_permutation(n + 1, keys);
    lemma_place(wide, c);
    assert(wide[c] == n as usize);
    assert forall|v: int| 0 <= v < n implies #[trigger] numbering(wide)[v] == numbering(order)[v]
        + if is_isolated(keys, v) {
        1int
    } else {
        0int
    } by {
        let x = v as usize;
        assert(order.contains(x));
        let k = choose|k: int| 0 <= k < order.len() && order[k] == x;
        lemma_place(order, k);
        if k < c {
            assert(order[k] == lone[k]);
            vertices(n).lemma_filter_pred(|v: usize| is_isolated(keys, v as int), k);
            assert(wide[k] == x);
            lemma_place(wide, k);
        } else {
            if is_isolated(keys, v) {
                assert(vertices(n)[v] == x);
                vertices(n).lemma_filter_contains(|v: usize| is_isolated(keys, v as int), v);
                let j = choose|j: int| 0 <= j < lone.len() && lone[j] == x;
                assert(order[j] == order[k]);
                assert(false);
            }
            assert(wide[k + 1] == x);
            lemma_place(wide, k + 1);
        }
    }
}

proof fn lemma_place(order: Seq<usize>, k: int)
    requires
        order.no_duplicates(),
        order.len() <= usize::MAX,
        0 <= k < order.len(),
        order[k] < order.len(),
    ensures
        numbering(order)[order[k] as int] == order.len() - 1 - k,
{
    assert(order.index_of(order[k]) == k);
}

} // verus!
