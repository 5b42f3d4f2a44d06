//! How a synthetic tree grows, how it is laid out, and what counts as a valid cut of it.

use vstd::prelude::*;

use crate::entry::Entry;
use crate::scale::Scale;
use crate::screen_laws::{has_root, law_every_tree_is_seeded, page_start};
use crate::splat::LodSplat;
use crate::synth::{
    ascending, branched, child_shape, covered, covers_leaves, drawn, fingerprint, fraction_of,
    laid_out, leaf_of, listed, lone, lone_job, lone_start, mirrored, parents_first, sprout, stirred,
    with_leaves, Growth, Shapes,
};
use crate::tree_view::{measured, InstanceParams, TreeView};

verus! {

/// The state of the generator after `k` draws.
pub open spec fn draws(x: u64, k: int) -> u64
    decreases k,
{
    if k <= 0 {
        x
    } else {
        stirred(draws(x, k - 1))
    }
}

/// The 24 bits of draw `k`: the upper ones of the state, multiplied.
pub open spec fn bits_of_draw(x: u64, k: int) -> u32 {
    ((((draws(x, k) as int * 0x2545_F491_4F6C_DD1D) % 0x1_0000_0000_0000_0000) as u64) >> 40) as u32
}

/// A draw mixes the state with itself three times: moved down by 12 bits, up by 25, and down by
/// 27; what goes over the edge is lost.
pub proof fn law_draw_mixes_the_state_with_itself(x: u64)
    ensures
        ({
            let a = x ^ (x / 0x1000);
            let b = a ^ ((a % 0x80_0000_0000) * 0x200_0000) as u64;
            stirred(x) == b ^ (b / 0x800_0000)
        }),
{
    let a = x ^ (x >> 12);
    let b = a ^ (a << 25);
    assert(x >> 12 == x / 0x1000) by (bit_vector);
    assert((a << 25) == ((a % 0x80_0000_0000) * 0x200_0000) as u64) by (bit_vector);
    assert(b >> 27 == b / 0x800_0000) by (bit_vector);
}

/// Each new leaf takes the next three draws, and gets its shape from them and from that of the
/// node above it; what was there before stays.
pub proof fn law_each_leaf_takes_three_draws<
    G,
    K: Fn(G, u32, u32, u32) -> G,
    E: Fn(G) -> ([u16; 3], u16),
>(shapes: Shapes<K, E>, t: Growth<G>, head: int, j: int, l: int)
    requires
        0 <= head < t.nodes.len(),
        t.parent.len() == t.nodes.len(),
        t.shapes.len() == t.nodes.len(),
        0 <= j,
    ensures
        ({
            let u = with_leaves(shapes, t, head, j);
            let n = t.nodes.len();
            let shape = child_shape(
                shapes.child,
                t.shapes[head],
                bits_of_draw(t.rng, 3 * l + 1),
                bits_of_draw(t.rng, 3 * l + 2),
                bits_of_draw(t.rng, 3 * l + 3),
            );
            &&& u.rng == draws(t.rng, 3 * j)
            &&& u.nodes.len() == n + j
            &&& u.parent.len() == n + j
            &&& u.shapes.len() == n + j
            &&& 0 <= l < n ==> {
                &&& u.nodes[l] == t.nodes[l]
                &&& u.parent[l] == t.parent[l]
                &&& u.shapes[l] == t.shapes[l]
            }
            &&& 0 <= l < j ==> {
                &&& u.shapes[n + l] == shape
                &&& u.parent[n + l] == head as u32
                &&& u.nodes[n + l] == leaf_of(shapes.encode, shape)
                &&& u.nodes[n + l].child_count == 0
                &&& u.nodes[n + l].child_start == 0
            }
        }),
    decreases j,
{
    if j > 0 {
        law_each_leaf_takes_three_draws(shapes, t, head, j - 1, l);
        let before = with_leaves(shapes, t, head, j - 1);
        assert(3 * j == 3 * (j - 1) + 3);
        assert(draws(t.rng, 3 * (j - 1) + 1) == stirred(before.rng));
        assert(draws(t.rng, 3 * (j - 1) + 2) == stirred(stirred(before.rng)));
        assert(draws(t.rng, 3 * (j - 1) + 3) == stirred(stirred(stirred(before.rng))));
        assert(fraction_of(draws(t.rng, 3 * (j - 1) + 1)) == bits_of_draw(
            t.rng,
            3 * (j - 1) + 1,
        ));
    }
}

/// A node gets four to eight children, as a draw says, unless the tree is large enough or would
/// become too large. They are put behind all nodes, and the node says where they are; it keeps
/// its center and size, and all other nodes stay as they are.
pub proof fn law_node_gets_its_children_behind_all_others<
    G,
    K: Fn(G, u32, u32, u32) -> G,
    E: Fn(G) -> ([u16; 3], u16),
>(shapes: Shapes<K, E>, max_nodes: int, t: Growth<G>, head: int, i: int)
    requires
        0 <= head,
        t.parent.len() == t.nodes.len(),
        t.shapes.len() == t.nodes.len(),
        t.nodes.len() <= u32::MAX,
    ensures
        ({
            let n = t.nodes.len();
            let first = draws(t.rng, 1);
            let count = 4 + (first as int * 0x2545_F491_4F6C_DD1D) % 0x1_0000_0000_0000_0000 % 5;
            &&& 4 <= count <= 8
            &&& branched(shapes, max_nodes, t, head) is None <==> head >= n || n >= max_nodes || n
                + count > max_nodes
            &&& branched(shapes, max_nodes, t, head) matches Some(u) ==> {
                &&& u.rng == draws(t.rng, 1 + 3 * count)
                &&& u.nodes.len() == n + count
                &&& u.nodes[head].child_start == n
                &&& u.nodes[head].child_count == count
                &&& u.nodes[head].center == leaf_of(shapes.encode, t.shapes[head]).center
                &&& u.nodes[head].size == leaf_of(shapes.encode, t.shapes[head]).size
                &&& 0 <= i < n && i != head ==> u.nodes[i] == t.nodes[i]
                &&& 0 <= i < n ==> u.parent[i] == t.parent[i] && u.shapes[i] == t.shapes[i]
                &&& n <= i < n + count ==> {
                    &&& u.parent[i] == head
                    &&& u.nodes[i].child_count == 0
                    &&& u.nodes[i].child_start == 0
                    &&& u.shapes[i] == child_shape(
                        shapes.child,
                        t.shapes[head],
                        bits_of_draw(first, 3 * (i - n) + 1),
                        bits_of_draw(first, 3 * (i - n) + 2),
                        bits_of_draw(first, 3 * (i - n) + 3),
                    )
                }
            }
        }),
{
    let n = t.nodes.len();
    let first = draws(t.rng, 1);
    reveal_with_fuel(draws, 2);
    assert(first == stirred(t.rng));
    let count = 4 + drawn(first) as int % 5;
    let after = Growth { rng: first, ..t };
    if head < n {
        law_each_leaf_takes_three_draws(shapes, after, head, count, i);
        law_each_leaf_takes_three_draws(shapes, after, head, count, i - n);
        lemma_draws_add_up(t.rng, 1, 3 * count);
    }
}

proof fn lemma_draws_add_up(x: u64, a: int, b: int)
    requires
        0 <= a,
        0 <= b,
    ensures
        draws(draws(x, a), b) == draws(x, a + b),
    decreases b,
{
    if b > 0 {
        lemma_draws_add_up(x, a, b - 1);
    }
}

/// A tree starts as its root alone, which has no parent and no children.
pub proof fn law_tree_starts_with_the_root_alone<G, E: Fn(G) -> ([u16; 3], u16)>(
    encode: E,
    seed: u64,
    root: G,
)
    ensures
        sprout(encode, seed, root).nodes.len() == 1,
        sprout(encode, seed, root).nodes[0] == leaf_of(encode, root),
        sprout(encode, seed, root).nodes[0].child_count == 0,
        sprout(encode, seed, root).parent.len() == 1,
        sprout(encode, seed, root).parent[0] == 0xffff_ffff,
        sprout(encode, seed, root).shapes.len() == 1,
        sprout(encode, seed, root).shapes[0] == root,
        sprout(encode, seed, root).rng % 2 == 1,
        seed % 2 == 1 ==> sprout(encode, seed, root).rng == seed,
        seed % 2 == 0 ==> sprout(encode, seed, root).rng == seed + 1,
{
    assert((seed | 1) % 2 == 1) by (bit_vector);
    assert(seed % 2 == 1 ==> (seed | 1) == seed) by (bit_vector);
    assert(seed % 2 == 0 ==> (seed | 1) == seed + 1) by (bit_vector);
}

/// The fingerprint of a list goes on from that of the list without its last number: that number
/// is mixed in, and the whole multiplied.
pub proof fn law_fingerprint_goes_on(s: Seq<u32>, x: u32)
    ensures
        fingerprint(s, 0) == 0xcbf2_9ce4_8422_2325,
        ({
            let mixed = fingerprint(s, s.len() as int) ^ (x as u64);
            fingerprint(s.push(x), s.len() as int + 1) == ((mixed as int * 0x100_0000_01b3)
                % 0x1_0000_0000_0000_0000) as u64
        }),
{
    lemma_fingerprint_of_prefix(s, x, s.len() as int);
}

proof fn lemma_fingerprint_of_prefix(s: Seq<u32>, x: u32, n: int)
    requires
        n <= s.len(),
    ensures
        fingerprint(s.push(x), n) == fingerprint(s, n),
    decreases n,
{
    if n > 0 {
        lemma_fingerprint_of_prefix(s, x, n - 1);
    }
}

/// Chunks are laid out back to front: the first in the last page, the last in the first, and
/// every later one in an earlier page. A node keeps its place within its chunk.
pub proof fn law_chunks_are_laid_out_back_to_front(pages: int, c: int, d: int, i: int)
    requires
        0 <= c < d < pages,
        0 <= i < pages * 65536,
    ensures
        0 <= mirrored(pages, d) < mirrored(pages, c) < pages,
        mirrored(pages, 0) == pages - 1,
        mirrored(pages, pages - 1) == 0,
        laid_out(pages, i) % 65536 == i % 65536,
        laid_out(pages, i) / 65536 + i / 65536 == pages - 1,
{
}

/// Node `k` of the path is a child of the one before it.
pub open spec fn follows(parent: Seq<u32>, path: Seq<int>, k: int) -> bool {
    parent[path[k]] == path[k - 1]
}

/// `path` goes from a node without a parent down to a node, from parent to child.
pub open spec fn goes_down(parent: Seq<u32>, path: Seq<int>) -> bool {
    &&& path.len() > 0
    &&& forall|k: int| 0 <= k < path.len() ==> 0 <= #[trigger] path[k] < parent.len()
    &&& parent[path[0]] == 0xffff_ffff
    &&& forall|k: int| 0 < k < path.len() ==> #[trigger] follows(parent, path, k)
}

/// The slot of node `n`, by the page of its chunk, is in the list.
pub open spec fn has_slot(chunk_to_page: Seq<u32>, cut: Seq<u32>, n: int) -> bool {
    cut.contains((chunk_to_page[n / 65536] as int % 65536 * 65536 + n % 65536) as u32)
}

/// Exactly one node on the path is in the list.
#[verifier::opaque]
pub open spec fn met_once(chunk_to_page: Seq<u32>, cut: Seq<u32>, path: Seq<int>) -> bool {
    exists|k: int|
        {
            &&& 0 <= k < path.len()
            &&& has_slot(chunk_to_page, cut, #[trigger] path[k])
            &&& forall|j: int|
                0 <= j < path.len() && j != k ==> !has_slot(
                    chunk_to_page,
                    cut,
                    #[trigger] path[j],
                )
        }
}

/// No node on the path is in the list.
#[verifier::opaque]
spec fn never_met(chunk_to_page: Seq<u32>, cut: Seq<u32>, path: Seq<int>) -> bool {
    forall|j: int|
        0 <= j < path.len() ==> !has_slot(chunk_to_page, cut, #[trigger] path[j])
}

/// One node more on a path.
proof fn lemma_met_further_down(
    chunk_to_page: Seq<u32>,
    cut: Seq<u32>,
    rest: Seq<int>,
    n: int,
)
    ensures
        never_met(chunk_to_page, cut, rest.push(n)) <==> never_met(chunk_to_page, cut, rest)
            && !has_slot(chunk_to_page, cut, n),
        met_once(chunk_to_page, cut, rest.push(n)) <==> {
            ||| met_once(chunk_to_page, cut, rest) && !has_slot(chunk_to_page, cut, n)
            ||| never_met(chunk_to_page, cut, rest) && has_slot(chunk_to_page, cut, n)
        },
{
    reveal(met_once);
    reveal(never_met);
    let path = rest.push(n);
    let last = rest.len() as int;
    assert(path[last] == n);
    assert forall|j: int| 0 <= j < rest.len() implies #[trigger] path[j] == rest[j] by {}
    if never_met(chunk_to_page, cut, path) {
        assert forall|j: int| 0 <= j < rest.len() implies !has_slot(
            chunk_to_page,
            cut,
            #[trigger] rest[j],
        ) by {
            assert(!has_slot(chunk_to_page, cut, path[j]));
        }
    }
    if met_once(chunk_to_page, cut, path) {
        let k = choose|k: int|
            {
                &&& 0 <= k < path.len()
                &&& has_slot(chunk_to_page, cut, #[trigger] path[k])
                &&& forall|j: int|
                    0 <= j < path.len() && j != k ==> !has_slot(
                        chunk_to_page,
                        cut,
                        #[trigger] path[j],
                    )
            };
        assert forall|j: int| 0 <= j < rest.len() && j != k implies !has_slot(
            chunk_to_page,
            cut,
            #[trigger] rest[j],
        ) by {
            assert(!has_slot(chunk_to_page, cut, path[j]));
        }
        if k < last {
            assert(has_slot(chunk_to_page, cut, rest[k]));
            assert(!has_slot(chunk_to_page, cut, path[last]));
        }
    }
    if met_once(chunk_to_page, cut, rest) && !has_slot(chunk_to_page, cut, n) {
        let k = choose|k: int|
            {
                &&& 0 <= k < rest.len()
                &&& has_slot(chunk_to_page, cut, #[trigger] rest[k])
                &&& forall|j: int|
                    0 <= j < rest.len() && j != k ==> !has_slot(
                        chunk_to_page,
                        cut,
                        #[trigger] rest[j],
                    )
            };
        assert(has_slot(chunk_to_page, cut, path[k]));
    }
    if never_met(chunk_to_page, cut, rest) && has_slot(chunk_to_page, cut, n) {
        assert(has_slot(chunk_to_page, cut, path[last]));
    }
}

proof fn lemma_listed(chunk_to_page: Seq<u32>, cut: Seq<u32>, n: int)
    ensures
        listed(chunk_to_page, cut)(n) == has_slot(chunk_to_page, cut, n),
{
}

proof fn lemma_covered_on_path(
    parent: Seq<u32>,
    chunk_to_page: Seq<u32>,
    cut: Seq<u32>,
    path: Seq<int>,
)
    requires
        parents_first(parent),
        parent.len() <= u32::MAX,
        goes_down(parent, path),
    ensures
        covered(parent, listed(chunk_to_page, cut), path.last()) == 0 <==> never_met(
            chunk_to_page,
            cut,
            path,
        ),
        covered(parent, listed(chunk_to_page, cut), path.last()) == 1 <==> met_once(
            chunk_to_page,
            cut,
            path,
        ),
    decreases path.len(),
{
    let f = listed(chunk_to_page, cut);
    let n = path.last();
    let last = path.len() - 1;
    let rest = path.drop_last();
    assert(path[last] == n);
    assert(path =~= rest.push(n));
    lemma_listed(chunk_to_page, cut, n);
    lemma_met_further_down(chunk_to_page, cut, rest, n);
    if path.len() == 1 {
        assert(rest.len() == 0);
        assert(never_met(chunk_to_page, cut, rest)) by {
            reveal(never_met);
        }
        assert(!met_once(chunk_to_page, cut, rest)) by {
            reveal(met_once);
        }
    } else {
        assert(rest.last() == path[last - 1]);
        assert(follows(parent, path, last));
        assert(parent[n] < n);
        assert(goes_down(parent, rest)) by {
            assert forall|k: int| 0 < k < rest.len() implies #[trigger] follows(
                parent,
                rest,
                k,
            ) by {
                assert(follows(parent, path, k));
            }
            assert forall|k: int| 0 <= k < rest.len() implies 0 <= #[trigger] rest[k]
                < parent.len() by {
                assert(rest[k] == path[k]);
            }
        }
        lemma_covered_on_path(parent, chunk_to_page, cut, rest);
    }
}

/// Every node has a path down to it.
proof fn lemma_path_to(parent: Seq<u32>, n: int) -> (path: Seq<int>)
    requires
        parents_first(parent),
        parent.len() <= u32::MAX,
        0 <= n < parent.len(),
    ensures
        goes_down(parent, path),
        path.last() == n,
    decreases n,
{
    if parent[n] == 0xffff_ffff {
        seq![n]
    } else {
        assert(parent[n] < n);
        let above = lemma_path_to(parent, parent[n] as int);
        let path = above.push(n);
        assert forall|k: int| 0 < k < path.len() implies #[trigger] follows(parent, path, k) by {
            if k < above.len() {
                assert(follows(parent, above, k));
            }
        }
        assert forall|k: int| 0 <= k < path.len() implies 0 <= #[trigger] path[k]
            < parent.len() by {
            if k < above.len() {
                assert(0 <= above[k] < parent.len());
            }
        }
        path
    }
}

/// A list of slots is a valid cut exactly if it holds nothing twice and every path from the root
/// down to a leaf meets it exactly once.
pub proof fn law_valid_cut_is_met_once_on_every_path(
    nodes: Seq<LodSplat>,
    parent: Seq<u32>,
    chunk_to_page: Seq<u32>,
    cut: Seq<u32>,
)
    requires
        parents_first(parent),
        parent.len() == nodes.len(),
        nodes.len() <= u32::MAX,
    ensures
        covers_leaves(nodes, parent, chunk_to_page, cut) <==> {
            &&& forall|a: int, b: int|
                0 <= a < b < cut.len() ==> (#[trigger] cut[a]) != (#[trigger] cut[b])
            &&& forall|path: Seq<int>| #[trigger]
                goes_down(parent, path) && nodes[path.last()].child_count == 0 ==> met_once(
                    chunk_to_page,
                    cut,
                    path,
                )
        },
{
    if covers_leaves(nodes, parent, chunk_to_page, cut) {
        assert forall|path: Seq<int>| #[trigger]
            goes_down(parent, path) && nodes[path.last()].child_count == 0 implies met_once(
            chunk_to_page,
            cut,
            path,
        ) by {
            assert(0 <= path[path.len() - 1] < parent.len());
            lemma_covered_on_path(parent, chunk_to_page, cut, path);
        }
    }
    if (forall|a: int, b: int|
        0 <= a < b < cut.len() ==> (#[trigger] cut[a]) != (#[trigger] cut[b])) && (forall|
        path: Seq<int>,
    | #[trigger]
        goes_down(parent, path) && nodes[path.last()].child_count == 0 ==> met_once(
            chunk_to_page,
            cut,
            path,
        )) {
        assert(cut.no_duplicates());
        assert forall|i: int| 0 <= i < nodes.len() && (
        #[trigger] nodes[i]).child_count == 0 implies covered(
            parent,
            listed(chunk_to_page, cut),
            i,
        ) == 1 by {
            let path = lemma_path_to(parent, i);
            lemma_covered_on_path(parent, chunk_to_page, cut, path);
            assert(met_once(chunk_to_page, cut, path));
        }
    }
}

/// Sorted numbers ascend: none is smaller than one before it.
pub proof fn law_sorted_numbers_ascend(s: Seq<u32>)
    ensures
        ascending(s) <==> forall|i: int, j: int|
            0 <= i < j < s.len() ==> (#[trigger] s[i]) <= (#[trigger] s[j]),
{
    if forall|i: int, j: int| 0 <= i < j < s.len() ==> (#[trigger] s[i]) <= (#[trigger] s[j]) {
        assert forall|i: int, j: int| 0 <= i <= j < s.len() implies (#[trigger] s[i]) <= (
        #[trigger] s[j]) by {
            if i < j {
                assert(s[i] <= s[j]);
            }
        }
    }
}

/// The traversal of a laid-out tree is that of one instance, with the tree's own nodes, pages and
/// pose, down to the limit of the measurements and within the budget.
pub proof fn law_lone_traversal_is_of_the_tree_itself<'a, F: Fn(
    &LodSplat,
    &InstanceParams,
) -> Scale>(
    splats: &'a [LodSplat],
    chunk_to_page: &'a [u32],
    p: InstanceParams,
    scale: F,
    max_splats: usize,
)
    ensures
        ({
            let j = lone_job(splats, chunk_to_page, p, scale, max_splats);
            &&& j.trees.len() == 1
            &&& j.trees[0].lod_id == 1
            &&& j.trees[0].splats == splats
            &&& j.trees[0].chunk_to_page == chunk_to_page
            &&& j.trees[0].params == p
            &&& j.max_splats == max_splats
            &&& j.limit.bits == 0x3a7f_da40
            &&& j.measure == measured(scale)
        }),
{
}

/// It starts from the root, in the first slot of its page.
pub proof fn law_lone_traversal_starts_from_the_root<'a, F: Fn(&LodSplat, &InstanceParams) -> Scale>(
    splats: &'a [LodSplat],
    chunk_to_page: &'a [u32],
    root_page: u32,
    p: InstanceParams,
    scale: F,
)
    requires
        splats@.len() <= 0x200_0000,
        page_start(root_page) < splats@.len(),
    ensures
        ({
            let c = lone_start(splats, chunk_to_page, root_page, p, scale);
            &&& c.frontier.len() == 1
            &&& c.num_splats == 1
            &&& c.output.len() == 0
            &&& exists|e: Entry| #[trigger]
                c.frontier.count(e) > 0 && e.instance() == 0 && e.slot() == page_start(root_page)
        }),
{
    let trees = seq![TreeView { lod_id: 1, splats, chunk_to_page, params: p }];
    let pages = seq![root_page];
    law_every_tree_is_seeded(trees, pages, measured(scale), 1);
    assert(lone(splats, chunk_to_page, p) =~= trees);
    assert(has_root(lone_start(splats, chunk_to_page, root_page, p, scale).frontier, pages, 0));
}

} // verus!
