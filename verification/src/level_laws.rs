//! Which nodes make up a level of a tree, in terms of the ways down from the root.

use vstd::prelude::*;

use crate::lod_level::{found, next_nodes, nodes_at, round_sound, runs_out, Levels};
use crate::round_laws::{lemma_picked_in_order, lemma_places_of_picked};
use crate::scale::{scale_le, Scale};
use crate::splat::LodSplat;

verus! {

/// Node `c` is in the run of children of node `p`.
pub open spec fn is_child(splats: Seq<LodSplat>, p: u32, c: u32) -> bool {
    splats[p as int].child_start <= c < splats[p as int].child_start + splats[p as int].child_count
}

/// `path` leads from node 0 down, from node to child, and none of its nodes but maybe the last is
/// small enough.
pub open spec fn descent(
    splats: Seq<LodSplat>,
    small: spec_fn(u32) -> bool,
    path: Seq<u32>,
) -> bool {
    &&& path.len() > 0
    &&& path[0] == 0
    &&& forall|i: int| 0 < i < path.len() ==> is_child(splats, path[i - 1], #[trigger] path[i])
    &&& forall|i: int| 0 <= i < path.len() - 1 ==> !small(#[trigger] path[i])
}

/// Some descent leads to `n`, which is small enough.
pub open spec fn first_small(splats: Seq<LodSplat>, small: spec_fn(u32) -> bool, n: u32) -> bool {
    small(n) && exists|path: Seq<u32>| #[trigger] descent(splats, small, path) && path.last() == n
}

proof fn lemma_next_nodes(
    splats: Seq<LodSplat>,
    small: spec_fn(u32) -> bool,
    nodes: Seq<u32>,
    c: u32,
)
    requires
        round_sound(splats, small, nodes),
    ensures
        next_nodes(splats, small, nodes).contains(c) <==> exists|i: int|
            0 <= i < nodes.len() && !small(#[trigger] nodes[i]) && is_child(splats, nodes[i], c),
    decreases nodes.len(),
{
    if nodes.len() > 0 {
        let rest = nodes.drop_last();
        let n = nodes[nodes.len() - 1];
        let s = splats[n as int];
        assert forall|i: int| 0 <= i < rest.len() implies (#[trigger] rest[i]) < splats.len() && (
        !small(rest[i]) ==> splats[rest[i] as int].child_start + splats[rest[i] as int].child_count
            <= u32::MAX) by {
            assert(rest[i] == nodes[i]);
        }
        lemma_next_nodes(splats, small, rest, c);
        let before = next_nodes(splats, small, rest);
        let all = next_nodes(splats, small, nodes);
        if before.contains(c) {
            let i = choose|i: int| 0 <= i < before.len() && before[i] == c;
            assert(all[i] == c);
            let k = choose|k: int|
                0 <= k < rest.len() && !small(#[trigger] rest[k]) && is_child(splats, rest[k], c);
            assert(nodes[k] == rest[k]);
        }
        if !small(n) && is_child(splats, n, c) {
            assert(all[before.len() + (c - s.child_start)] == c);
            assert(!small(nodes[nodes.len() - 1]));
        }
        if all.contains(c) && !before.contains(c) {
            let i = choose|i: int| 0 <= i < all.len() && all[i] == c;
            assert(i >= before.len()) by {
                if i < before.len() {
                    assert(before[i] == c);
                }
            }
            assert(!small(nodes[nodes.len() - 1]) && is_child(splats, n, c));
        }
        if exists|i: int|
            0 <= i < nodes.len() && !small(#[trigger] nodes[i]) && is_child(splats, nodes[i], c) {
            let i = choose|i: int|
                0 <= i < nodes.len() && !small(#[trigger] nodes[i]) && is_child(
                    splats,
                    nodes[i],
                    c,
                );
            if i < rest.len() {
                assert(rest[i] == nodes[i]);
                assert(before.contains(c));
            }
        }
    }
}

/// What is looked at in round `j` are the ends of the descents of `j` steps.
proof fn lemma_round_is_the_descents(
    splats: Seq<LodSplat>,
    small: spec_fn(u32) -> bool,
    j: int,
    n: u32,
)
    requires
        0 <= j,
        forall|i: int|
            0 <= i < j ==> round_sound(splats, small, #[trigger] nodes_at(splats, small, i)),
    ensures
        nodes_at(splats, small, j).contains(n) <==> exists|path: Seq<u32>| #[trigger]
            descent(splats, small, path) && path.len() == j + 1 && path.last() == n,
    decreases j,
{
    let now = nodes_at(splats, small, j);
    if j == 0 {
        assert(now[0] == 0);
        if n == 0 {
            let path = seq![0u32];
            assert(descent(splats, small, path));
            assert(path.last() == n);
        }
        if now.contains(n) {
            assert(n == 0);
        }
    } else {
        let before = nodes_at(splats, small, j - 1);
        assert(round_sound(splats, small, before));
        lemma_next_nodes(splats, small, before, n);
        if now.contains(n) {
            let i = choose|i: int|
                0 <= i < before.len() && !small(#[trigger] before[i]) && is_child(
                    splats,
                    before[i],
                    n,
                );
            let p = before[i];
            lemma_round_is_the_descents(splats, small, j - 1, p);
            assert(before.contains(p));
            let way = choose|path: Seq<u32>| #[trigger]
                descent(splats, small, path) && path.len() == j && path.last() == p;
            let path = way.push(n);
            assert forall|i: int| 0 < i < path.len() implies is_child(
                splats,
                path[i - 1],
                #[trigger] path[i],
            ) by {
                assert(path[i - 1] == way[i - 1]);
                if i < way.len() {
                    assert(path[i] == way[i]);
                }
            }
            assert forall|i: int| 0 <= i < path.len() - 1 implies !small(#[trigger] path[i]) by {
                assert(path[i] == way[i]);
            }
            assert(descent(splats, small, path));
            assert(path.last() == n);
        }
        if exists|path: Seq<u32>| #[trigger]
            descent(splats, small, path) && path.len() == j + 1 && path.last() == n {
            let path = choose|path: Seq<u32>| #[trigger]
                descent(splats, small, path) && path.len() == j + 1 && path.last() == n;
            let way = path.drop_last();
            let p = path[j - 1];
            lemma_shorter_descent(splats, small, path);
            lemma_round_is_the_descents(splats, small, j - 1, p);
            assert(before.contains(p));
            let i = choose|i: int| 0 <= i < before.len() && before[i] == p;
            assert(!small(path[j - 1]));
            assert(is_child(splats, path[j - 1], path[j]));
            assert(!small(before[i]) && is_child(splats, before[i], n));
        }
    }
}

proof fn lemma_shorter_descent(
    splats: Seq<LodSplat>,
    small: spec_fn(u32) -> bool,
    path: Seq<u32>,
)
    requires
        descent(splats, small, path),
        path.len() > 1,
    ensures
        descent(splats, small, path.drop_last()),
        path.drop_last().last() == path[path.len() - 2],
{
    let way = path.drop_last();
    assert forall|i: int| 0 < i < way.len() implies is_child(
        splats,
        way[i - 1],
        #[trigger] way[i],
    ) by {
        assert(way[i] == path[i] && way[i - 1] == path[i - 1]);
    }
    assert forall|i: int| 0 <= i < way.len() - 1 implies !small(#[trigger] way[i]) by {
        assert(way[i] == path[i]);
    }
}

/// No descent goes further than the rounds do.
proof fn lemma_descents_end(
    splats: Seq<LodSplat>,
    small: spec_fn(u32) -> bool,
    k: nat,
    path: Seq<u32>,
)
    requires
        runs_out(splats, small, k),
        descent(splats, small, path),
    ensures
        path.len() <= k,
    decreases path.len(),
{
    if path.len() == k + 1 {
        lemma_round_is_the_descents(splats, small, k as int, path.last());
        assert(path.len() == k as int + 1);
        assert(nodes_at(splats, small, k as int).contains(path.last()));
    } else if path.len() > k + 1 {
        lemma_shorter_descent(splats, small, path);
        lemma_descents_end(splats, small, k, path.drop_last());
    }
}

/// What is found in the first `k` rounds, and how far down it lies.
proof fn lemma_found(
    splats: Seq<LodSplat>,
    small: spec_fn(u32) -> bool,
    k: int,
    n: u32,
)
    requires
        0 <= k,
        forall|i: int|
            0 <= i < k ==> round_sound(splats, small, #[trigger] nodes_at(splats, small, i)),
    ensures
        found(splats, small, k).contains(n) <==> small(n) && exists|path: Seq<u32>| #[trigger]
            descent(splats, small, path) && path.len() <= k && path.last() == n,
    decreases k,
{
    if k == 0 {
        assert(found(splats, small, 0).len() == 0);
        assert forall|path: Seq<u32>| #[trigger] descent(splats, small, path) implies path.len()
            > 0 by {}
    } else {
        lemma_found(splats, small, k - 1, n);
        lemma_round_is_the_descents(splats, small, k - 1, n);
        let before = found(splats, small, k - 1);
        let now = nodes_at(splats, small, k - 1);
        let more = now.filter(small);
        let all = found(splats, small, k);
        if before.contains(n) {
            let i = choose|i: int| 0 <= i < before.len() && before[i] == n;
            assert(all[i] == n);
        }
        if small(n) && now.contains(n) {
            let i = choose|i: int| 0 <= i < now.len() && now[i] == n;
            now.lemma_filter_contains(small, i);
            let m = choose|m: int| 0 <= m < more.len() && more[m] == n;
            assert(all[before.len() + m] == n);
        }
        if all.contains(n) {
            let i = choose|i: int| 0 <= i < all.len() && all[i] == n;
            if i < before.len() {
                assert(before[i] == n);
                assert(before.contains(n));
            } else {
                let m = i - before.len();
                assert(more[m] == n);
                now.lemma_filter_pred(small, m);
                now.lemma_filter_contains_rev(small, n);
            }
        }
        if small(n) && exists|path: Seq<u32>| #[trigger]
            descent(splats, small, path) && path.len() <= k && path.last() == n {
            let path = choose|path: Seq<u32>| #[trigger]
                descent(splats, small, path) && path.len() <= k && path.last() == n;
            if path.len() == k {
                assert(path.len() == (k - 1) + 1);
                assert(now.contains(n));
            } else {
                assert(before.contains(n));
            }
        }
    }
}

/// The level is complete, and holds nothing else: a node is in it if and only if some way leads
/// down to it from node 0, from node to child, on which it is the first that is small enough.
pub proof fn law_level_is_the_first_small_nodes(
    splats: Seq<LodSplat>,
    small: spec_fn(u32) -> bool,
    k: nat,
    n: u32,
)
    requires
        runs_out(splats, small, k),
    ensures
        found(splats, small, k as int).contains(n) <==> first_small(splats, small, n),
{
    lemma_found(splats, small, k as int, n);
    if first_small(splats, small, n) {
        let path = choose|path: Seq<u32>| #[trigger]
            descent(splats, small, path) && path.last() == n;
        lemma_descents_end(splats, small, k, path);
    }
}

/// The same of the level that is asked for: small enough is what is no larger than the size of
/// that level, which the size of node 0 gives.
pub proof fn law_level_goes_by_the_size_of_the_root<
    W: Fn(u16) -> Scale,
    S: Fn(Scale, u32) -> Scale,
>(levels: Levels<W, S>, splats: Seq<LodSplat>, level: u32, k: nat, n: u32)
    requires
        runs_out(splats, levels.small(splats, level), k),
    ensures
        ({
            let size = levels.shrunk(levels.widened(splats[0].size), level);
            let fits = |x: u32| scale_le(levels.widened(splats[x as int].size), size);
            found(splats, levels.small(splats, level), k as int).contains(n) <==> first_small(
                splats,
                fits,
                n,
            )
        }),
{
    let size = levels.shrunk(levels.widened(splats[0].size), level);
    let fits = |x: u32| scale_le(levels.widened(splats[x as int].size), size);
    assert(fits =~= levels.small(splats, level));
    law_level_is_the_first_small_nodes(splats, levels.small(splats, level), k, n);
}

/// A level lists what lies further up first.
pub proof fn law_level_lists_what_is_further_up_first(
    splats: Seq<LodSplat>,
    small: spec_fn(u32) -> bool,
    k: nat,
    a: int,
    b: int,
)
    requires
        forall|i: int|
            0 <= i < k ==> round_sound(splats, small, #[trigger] nodes_at(splats, small, i)),
        0 <= a < b < found(splats, small, k as int).len(),
    ensures
        exists|p: Seq<u32>, q: Seq<u32>|
            {
                &&& #[trigger] descent(splats, small, p)
                &&& #[trigger] descent(splats, small, q)
                &&& p.last() == found(splats, small, k as int)[a]
                &&& q.last() == found(splats, small, k as int)[b]
                &&& p.len() <= q.len()
            },
    decreases k,
{
    if k > 0 {
        let before = found(splats, small, k - 1);
        let now = nodes_at(splats, small, k - 1);
        let more = now.filter(small);
        let all = found(splats, small, k as int);
        if b < before.len() {
            law_level_lists_what_is_further_up_first(splats, small, (k - 1) as nat, a, b);
            assert(all[a] == before[a] && all[b] == before[b]);
            let (p, q) = choose|p: Seq<u32>, q: Seq<u32>|
                {
                    &&& #[trigger] descent(splats, small, p)
                    &&& #[trigger] descent(splats, small, q)
                    &&& p.last() == found(splats, small, (k - 1) as nat as int)[a]
                    &&& q.last() == found(splats, small, (k - 1) as nat as int)[b]
                    &&& p.len() <= q.len()
                };
            assert(descent(splats, small, p) && descent(splats, small, q));
        } else {
            let x = all[a];
            let y = all[b];
            assert(y == more[b - before.len()]);
            now.lemma_filter_contains_rev(small, y);
            lemma_round_is_the_descents(splats, small, k - 1, y);
            let q = choose|path: Seq<u32>| #[trigger]
                descent(splats, small, path) && path.len() == (k - 1) + 1 && path.last() == y;
            lemma_found(splats, small, k as int, x);
            assert(all.contains(x));
            let p = choose|path: Seq<u32>| #[trigger]
                descent(splats, small, path) && path.len() <= k && path.last() == x;
            assert(descent(splats, small, p) && descent(splats, small, q));
        }
    }
}

/// Of two ways of the same length the first branches off to a smaller number.
pub open spec fn branches_before(p: Seq<u32>, q: Seq<u32>) -> bool {
    &&& p.len() == q.len()
    &&& exists|d: int|
        {
            &&& 0 <= d < p.len()
            &&& (#[trigger] p[d]) < q[d]
            &&& forall|e: int| 0 <= e < d ==> #[trigger] p[e] == q[e]
        }
}

/// A shorter way comes first, and of two ways of the same length the one that branches off to a
/// smaller number.
pub open spec fn comes_first(p: Seq<u32>, q: Seq<u32>) -> bool {
    p.len() < q.len() || branches_before(p, q)
}

/// `ways` are descents of `len` nodes to these nodes, in order.
spec fn ordered_ways(
    splats: Seq<LodSplat>,
    small: spec_fn(u32) -> bool,
    nodes: Seq<u32>,
    ways: Seq<Seq<u32>>,
    len: int,
) -> bool {
    &&& ways.len() == nodes.len()
    &&& forall|i: int|
        0 <= i < ways.len() ==> {
            &&& descent(splats, small, #[trigger] ways[i])
            &&& ways[i].len() == len
            &&& ways[i].last() == nodes[i]
        }
    &&& forall|i: int, j: int|
        0 <= i < j < ways.len() ==> branches_before(#[trigger] ways[i], #[trigger] ways[j])
}

proof fn lemma_branches_before_pushed(p: Seq<u32>, q: Seq<u32>, c: u32, d: u32)
    requires
        branches_before(p, q),
    ensures
        branches_before(p.push(c), q.push(d)),
{
    let x = choose|x: int|
        {
            &&& 0 <= x < p.len()
            &&& (#[trigger] p[x]) < q[x]
            &&& forall|e: int| 0 <= e < x ==> #[trigger] p[e] == q[e]
        };
    let r = p.push(c);
    let s = q.push(d);
    assert(r[x] < s[x]);
    assert forall|e: int| 0 <= e < x implies #[trigger] r[e] == s[e] by {
        assert(p[e] == q[e]);
    }
}

proof fn lemma_next_ways(
    splats: Seq<LodSplat>,
    small: spec_fn(u32) -> bool,
    nodes: Seq<u32>,
    ways: Seq<Seq<u32>>,
    len: int,
) -> (next: Seq<Seq<u32>>)
    requires
        round_sound(splats, small, nodes),
        ordered_ways(splats, small, nodes, ways, len),
        0 < len,
    ensures
        ordered_ways(splats, small, next_nodes(splats, small, nodes), next, len + 1),
        forall|x: int|
            0 <= x < next.len() ==> exists|i: int|
                0 <= i < ways.len() && (#[trigger] next[x]).drop_last() == #[trigger] ways[i],
    decreases nodes.len(),
{
    if nodes.len() == 0 {
        Seq::empty()
    } else {
        let last = nodes.len() - 1;
        let rest = nodes.drop_last();
        let rest_ways = ways.drop_last();
        let n = nodes[last];
        let s = splats[n as int];
        let way = ways[last];
        assert forall|i: int| 0 <= i < rest.len() implies (#[trigger] rest[i]) < splats.len() && (
        !small(rest[i]) ==> splats[rest[i] as int].child_start + splats[rest[i] as int].child_count
            <= u32::MAX) by {
            assert(rest[i] == nodes[i]);
        }
        assert(ordered_ways(splats, small, rest, rest_ways, len)) by {
            assert forall|i: int| 0 <= i < rest_ways.len() implies {
                &&& descent(splats, small, #[trigger] rest_ways[i])
                &&& rest_ways[i].len() == len
                &&& rest_ways[i].last() == rest[i]
            } by {
                assert(rest_ways[i] == ways[i]);
            }
            assert forall|i: int, j: int| 0 <= i < j < rest_ways.len() implies branches_before(
                #[trigger] rest_ways[i],
                #[trigger] rest_ways[j],
            ) by {
                assert(branches_before(ways[i], ways[j]));
            }
        }
        let less = lemma_next_ways(splats, small, rest, rest_ways, len);
        assert forall|x: int| 0 <= x < less.len() implies exists|i: int|
            0 <= i < last && (#[trigger] less[x]).drop_last() == #[trigger] ways[i] by {
            let i = choose|i: int|
                0 <= i < rest_ways.len() && less[x].drop_last() == #[trigger] rest_ways[i];
            assert(ways[i] == rest_ways[i]);
        }
        if small(n) {
            less
        } else {
            let own = Seq::new(
                s.child_count as nat,
                |g: int| way.push((s.child_start + g) as u32),
            );
            let next = less + own;
            let before = next_nodes(splats, small, rest);
            let all = next_nodes(splats, small, nodes);
            assert(descent(splats, small, way));
            assert(way.last() == n);
            assert(nodes[last] == n && !small(nodes[last]));
            assert forall|x: int| 0 <= x < next.len() implies {
                &&& descent(splats, small, #[trigger] next[x])
                &&& next[x].len() == len + 1
                &&& next[x].last() == all[x]
            } by {
                if x < less.len() {
                    assert(next[x] == less[x]);
                    assert(all[x] == before[x]);
                } else {
                    let g = x - less.len();
                    let c = (s.child_start + g) as u32;
                    let w = way.push(c);
                    assert(next[x] == w);
                    assert(all[x] == c);
                    assert(descent(splats, small, w)) by {
                        assert forall|i: int| 0 < i < w.len() implies is_child(
                            splats,
                            w[i - 1],
                            #[trigger] w[i],
                        ) by {
                            if i < way.len() {
                                assert(w[i] == way[i] && w[i - 1] == way[i - 1]);
                            } else {
                                assert(w[i - 1] == n);
                            }
                        }
                        assert forall|i: int| 0 <= i < w.len() - 1 implies !small(
                            #[trigger] w[i],
                        ) by {
                            assert(w[i] == way[i]);
                            if i == way.len() - 1 {
                                assert(way[i] == n);
                            }
                        }
                    }
                }
            }
            assert forall|x: int, y: int| 0 <= x < y < next.len() implies branches_before(
                #[trigger] next[x],
                #[trigger] next[y],
            ) by {
                if y < less.len() {
                    assert(next[x] == less[x] && next[y] == less[y]);
                } else if x < less.len() {
                    assert(next[x] == less[x]);
                    let i = choose|i: int|
                        0 <= i < last && less[x].drop_last() == #[trigger] ways[i];
                    assert(branches_before(ways[i], ways[last]));
                    let d = (s.child_start + (y - less.len())) as u32;
                    assert(next[y] == way.push(d));
                    assert(descent(splats, small, less[x]));
                    assert(less[x] =~= ways[i].push(less[x].last()));
                    lemma_branches_before_pushed(ways[i], way, less[x].last(), d);
                } else {
                    let c = (s.child_start + (x - less.len())) as u32;
                    let d = (s.child_start + (y - less.len())) as u32;
                    let r = way.push(c);
                    let t = way.push(d);
                    assert(next[x] == r && next[y] == t);
                    let at = way.len() as int;
                    assert(r[at] < t[at]);
                    assert forall|e: int| 0 <= e < at implies #[trigger] r[e] == t[e] by {}
                }
            }
            assert forall|x: int| 0 <= x < next.len() implies exists|i: int|
                0 <= i < ways.len() && (#[trigger] next[x]).drop_last() == #[trigger] ways[i] by {
                if x < less.len() {
                    assert(next[x] == less[x]);
                    let i = choose|i: int|
                        0 <= i < last && less[x].drop_last() == #[trigger] ways[i];
                    assert(next[x].drop_last() == ways[i]);
                } else {
                    assert(next[x].drop_last() =~= ways[last]);
                }
            }
            next
        }
    }
}

proof fn lemma_ways_at(splats: Seq<LodSplat>, small: spec_fn(u32) -> bool, j: int) -> (ways: Seq<
    Seq<u32>,
>)
    requires
        0 <= j,
        forall|i: int|
            0 <= i < j ==> round_sound(splats, small, #[trigger] nodes_at(splats, small, i)),
    ensures
        ordered_ways(splats, small, nodes_at(splats, small, j), ways, j + 1),
    decreases j,
{
    if j == 0 {
        let way = seq![0u32];
        let ways = seq![way];
        assert(descent(splats, small, way));
        assert(way.last() == nodes_at(splats, small, 0)[0]);
        ways
    } else {
        let less = lemma_ways_at(splats, small, j - 1);
        assert(round_sound(splats, small, nodes_at(splats, small, j - 1)));
        lemma_next_ways(splats, small, nodes_at(splats, small, j - 1), less, j)
    }
}

/// A level is listed in the order of the ways down to its nodes: nodes further up first, and on
/// the same depth in the order of the children at the place where the ways part.
pub proof fn law_level_is_listed_in_the_order_of_the_ways(
    splats: Seq<LodSplat>,
    small: spec_fn(u32) -> bool,
    k: nat,
) -> (ways: Seq<Seq<u32>>)
    requires
        forall|i: int|
            0 <= i < k ==> round_sound(splats, small, #[trigger] nodes_at(splats, small, i)),
    ensures
        ways.len() == found(splats, small, k as int).len(),
        forall|i: int|
            0 <= i < ways.len() ==> {
                &&& descent(splats, small, #[trigger] ways[i])
                &&& ways[i].len() <= k
                &&& ways[i].last() == found(splats, small, k as int)[i]
                &&& small(ways[i].last())
            },
        forall|i: int, j: int|
            0 <= i < j < ways.len() ==> comes_first(#[trigger] ways[i], #[trigger] ways[j]),
    decreases k,
{
    if k == 0 {
        Seq::empty()
    } else {
        let less = law_level_is_listed_in_the_order_of_the_ways(splats, small, (k - 1) as nat);
        let now = nodes_at(splats, small, k - 1);
        let at = lemma_ways_at(splats, small, k - 1);
        let idx = lemma_places_of_picked(now, small);
        let more = Seq::new(idx.len(), |j: int| at[idx[j]]);
        let ways = less + more;
        let before = found(splats, small, k - 1);
        let all = found(splats, small, k as int);
        assert(all == before + now.filter(small));
        assert forall|i: int| 0 <= i < ways.len() implies {
            &&& descent(splats, small, #[trigger] ways[i])
            &&& ways[i].len() <= k
            &&& ways[i].last() == all[i]
            &&& small(ways[i].last())
        } by {
            if i < less.len() {
                assert(ways[i] == less[i]);
                assert(all[i] == before[i]);
            } else {
                let j = i - less.len();
                assert(ways[i] == at[idx[j]]);
                assert(idx.contains(idx[j]));
                assert(all[i] == now.filter(small)[j]);
            }
        }
        assert forall|i: int, j: int| 0 <= i < j < ways.len() implies comes_first(
            #[trigger] ways[i],
            #[trigger] ways[j],
        ) by {
            if j < less.len() {
                assert(ways[i] == less[i] && ways[j] == less[j]);
            } else {
                let y = j - less.len();
                assert(ways[j] == at[idx[y]]);
                if i < less.len() {
                    assert(ways[i] == less[i]);
                } else {
                    let x = i - less.len();
                    assert(ways[i] == at[idx[x]]);
                    assert(idx[x] < idx[y]);
                }
            }
        }
        ways
    }
}

/// No node is the child of two nodes, and node 0 is the child of none.
pub open spec fn one_parent_each(splats: Seq<LodSplat>) -> bool {
    &&& forall|p: u32, q: u32, c: u32|
        p < splats.len() && q < splats.len() && #[trigger] is_child(splats, p, c)
            && #[trigger] is_child(splats, q, c) ==> p == q
    &&& forall|p: u32| p < splats.len() ==> !(#[trigger] is_child(splats, p, 0))
}

proof fn lemma_descent_starts(
    splats: Seq<LodSplat>,
    small: spec_fn(u32) -> bool,
    path: Seq<u32>,
    k: int,
)
    requires
        descent(splats, small, path),
        path.len() <= k + 1,
        forall|i: int|
            0 <= i < k ==> round_sound(splats, small, #[trigger] nodes_at(splats, small, i)),
    ensures
        forall|i: int| 0 <= i < path.len() - 1 ==> (#[trigger] path[i]) < splats.len(),
    decreases path.len(),
{
    if path.len() > 1 {
        let way = path.drop_last();
        lemma_shorter_descent(splats, small, path);
        lemma_descent_starts(splats, small, way, k);
        let n = way.last();
        let j = way.len() - 1;
        lemma_round_is_the_descents(splats, small, j, n);
        assert(way.len() == j + 1);
        let now = nodes_at(splats, small, j);
        assert(now.contains(n));
        assert(round_sound(splats, small, now));
        let m = choose|m: int| 0 <= m < now.len() && now[m] == n;
        assert(now[m] < splats.len());
        assert forall|i: int| 0 <= i < path.len() - 1 implies (#[trigger] path[i])
            < splats.len() by {
            assert(path[i] == way[i]);
        }
    }
}

/// Where each node has one parent, two descents to one node are equally long.
proof fn lemma_one_depth(
    splats: Seq<LodSplat>,
    small: spec_fn(u32) -> bool,
    p: Seq<u32>,
    q: Seq<u32>,
    k: int,
)
    requires
        one_parent_each(splats),
        descent(splats, small, p),
        descent(splats, small, q),
        p.last() == q.last(),
        p.len() <= k + 1,
        q.len() <= k + 1,
        forall|i: int|
            0 <= i < k ==> round_sound(splats, small, #[trigger] nodes_at(splats, small, i)),
    ensures
        p.len() == q.len(),
    decreases p.len(),
{
    lemma_descent_starts(splats, small, p, k);
    lemma_descent_starts(splats, small, q, k);
    if p.len() > 1 {
        assert(is_child(splats, p[p.len() - 2], p[p.len() - 1]));
    }
    if q.len() > 1 {
        assert(is_child(splats, q[q.len() - 2], q[q.len() - 1]));
    }
    if p.len() > 1 && q.len() > 1 {
        assert(p[p.len() - 2] < splats.len() && q[q.len() - 2] < splats.len());
        lemma_shorter_descent(splats, small, p);
        lemma_shorter_descent(splats, small, q);
        lemma_one_depth(splats, small, p.drop_last(), q.drop_last(), k);
    }
}

proof fn lemma_next_nodes_differ(
    splats: Seq<LodSplat>,
    small: spec_fn(u32) -> bool,
    nodes: Seq<u32>,
)
    requires
        one_parent_each(splats),
        round_sound(splats, small, nodes),
        nodes.no_duplicates(),
    ensures
        next_nodes(splats, small, nodes).no_duplicates(),
    decreases nodes.len(),
{
    if nodes.len() > 0 {
        let rest = nodes.drop_last();
        let n = nodes[nodes.len() - 1];
        let s = splats[n as int];
        assert(n < splats.len());
        assert forall|i: int| 0 <= i < rest.len() implies (#[trigger] rest[i]) < splats.len() && (
        !small(rest[i]) ==> splats[rest[i] as int].child_start + splats[rest[i] as int].child_count
            <= u32::MAX) by {
            assert(rest[i] == nodes[i]);
        }
        lemma_next_nodes_differ(splats, small, rest);
        let before = next_nodes(splats, small, rest);
        let all = next_nodes(splats, small, nodes);
        if !small(n) {
            assert forall|a: int, b: int| 0 <= a < b < all.len() implies all[a] != all[b] by {
                if b < before.len() {
                    assert(all[a] == before[a] && all[b] == before[b]);
                } else {
                    assert(all[b] == s.child_start + (b - before.len()));
                    assert(is_child(splats, n, all[b]));
                    if a < before.len() {
                        let c = before[a];
                        assert(all[a] == c);
                        lemma_next_nodes(splats, small, rest, c);
                        assert(before.contains(c));
                        let i = choose|i: int|
                            0 <= i < rest.len() && !small(#[trigger] rest[i]) && is_child(
                                splats,
                                rest[i],
                                c,
                            );
                        assert(rest[i] == nodes[i] && nodes[i] != nodes[nodes.len() - 1]);
                        if c == all[b] {
                            assert(is_child(splats, rest[i], c) && is_child(splats, n, c));
                        }
                    } else {
                        assert(all[a] == s.child_start + (a - before.len()));
                    }
                }
            }
        }
    }
}

/// Where each node has one parent, a level lists no node twice.
pub proof fn law_level_lists_no_node_twice(
    splats: Seq<LodSplat>,
    small: spec_fn(u32) -> bool,
    k: nat,
)
    requires
        one_parent_each(splats),
        forall|i: int|
            0 <= i < k ==> round_sound(splats, small, #[trigger] nodes_at(splats, small, i)),
    ensures
        nodes_at(splats, small, k as int).no_duplicates(),
        found(splats, small, k as int).no_duplicates(),
    decreases k,
{
    if k > 0 {
        law_level_lists_no_node_twice(splats, small, (k - 1) as nat);
        let before = found(splats, small, k - 1);
        let now = nodes_at(splats, small, k - 1);
        assert(round_sound(splats, small, now));
        lemma_next_nodes_differ(splats, small, now);
        let more = now.filter(small);
        let all = found(splats, small, k as int);
        assert forall|a: int, b: int| 0 <= a < b < all.len() implies all[a] != all[b] by {
            if b < before.len() {
                assert(all[a] == before[a] && all[b] == before[b]);
            } else {
                let m = b - before.len();
                assert(all[b] == more[m]);
                if a < before.len() {
                    let x = before[a];
                    let y = more[m];
                    assert(all[a] == x);
                    assert(before.contains(x));
                    lemma_found(splats, small, k - 1, x);
                    let p = choose|path: Seq<u32>| #[trigger]
                        descent(splats, small, path) && path.len() <= k - 1 && path.last() == x;
                    now.lemma_filter_contains_rev(small, y);
                    lemma_round_is_the_descents(splats, small, k - 1, y);
                    let q = choose|path: Seq<u32>| #[trigger]
                        descent(splats, small, path) && path.len() == (k - 1) + 1 && path.last()
                            == y;
                    if x == y {
                        lemma_one_depth(splats, small, p, q, k as int);
                    }
                } else {
                    let l = a - before.len();
                    assert(all[a] == more[l]);
                    lemma_picked_in_order(now, small, l, m);
                    let (i, j) = choose|i: int, j: int|
                        0 <= i < j < now.len() && #[trigger] now[i] == more[l] && #[trigger] now[j]
                            == more[m];
                    assert(now[i] != now[j]);
                }
            }
        }
    }
}

} // verus!
