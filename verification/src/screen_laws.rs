//! What a traversal does to the nodes of its trees, in terms of what stands in the trees, in
//! their page tables and in the poses.

use vstd::multiset::Multiset;
use vstd::prelude::*;
use vstd::seq_lib::group_to_multiset_ensures;

use crate::entry::{law_entries_order_like_tuples, CutNode, Entry};
use crate::heap::is_top;
use crate::scale::{clamped, law_clamped, rank, scale_le, Scale};
use crate::splat::LodSplat;
use crate::traverse::{
    entry_of, root_slot, rooted, seeded, unseeded, with_chunk, Job, Progress, Step,
};
use crate::traverse_laws::lemma_entry_of;
use crate::tree_view::{fits, kid_nodes, InstanceParams, TreeView};

verus! {

/// The chunk has a page.
pub open spec fn paged_in(tree: TreeView, chunk: int) -> bool {
    0 <= chunk < tree.chunk_to_page@.len() && tree.chunk_to_page@[chunk] != 0xffff_ffff
}

/// First and last chunk of the children of the node in a slot.
pub open spec fn low_chunk(tree: TreeView, slot: int) -> int {
    tree.splats@[slot].child_start as int / 0x1_0000
}

pub open spec fn high_chunk(tree: TreeView, slot: int) -> int {
    (tree.splats@[slot].child_start + tree.splats@[slot].child_count - 1) / 0x1_0000
}

/// The slot of child `g` of the node in a slot: the page of its chunk, and its place there.
pub open spec fn child_slot(tree: TreeView, slot: int, g: int) -> int {
    let index = tree.splats@[slot].child_start + g;
    tree.chunk_to_page@[index / 0x1_0000] as int % 0x1_0000 * 0x1_0000 + index % 0x1_0000
}

/// Child `g` of the node in a slot, as a node of the traversal.
pub open spec fn child_node(trees: Seq<TreeView>, n: CutNode, g: int) -> CutNode {
    (n.0, child_slot(trees[n.0 as int], n.1 as int, g) as u32)
}

/// The pixel scale that a node measures under the pose of its own instance.
pub open spec fn on_screen(
    trees: Seq<TreeView>,
    measure: spec_fn(LodSplat, InstanceParams) -> Scale,
    n: CutNode,
) -> Scale {
    measure(trees[n.0 as int].splats@[n.1 as int], trees[n.0 as int].params)
}

/// Both chunks of a node's children are resident.
pub open spec fn children_in(tree: TreeView, slot: int) -> bool {
    paged_in(tree, low_chunk(tree, slot)) && paged_in(tree, high_chunk(tree, slot))
}

/// A node has all of its children, each in the slot that the page table gives for it; or none, if
/// it is a leaf or while a chunk of them has no page.
pub proof fn law_children_are_where_the_pages_say(tree: TreeView, slot: u32)
    requires
        tree.sound_at(slot),
    ensures
        tree.splats@[slot as int].child_count > 0 && children_in(tree, slot as int) ==> {
            &&& tree.kids(slot).len() == tree.splats@[slot as int].child_count
            &&& forall|g: int|
                0 <= g < tree.splats@[slot as int].child_count ==> #[trigger] tree.kids(slot)[g]
                    == child_slot(tree, slot as int, g)
        },
        tree.splats@[slot as int].child_count == 0 || !children_in(tree, slot as int) ==> tree.kids(
            slot,
        ).len() == 0,
{
    if tree.splats@[slot as int].child_count > 0 && children_in(tree, slot as int) {
        assert forall|g: int| 0 <= g < tree.splats@[slot as int].child_count implies
            #[trigger] tree.kids(slot)[g] == child_slot(tree, slot as int, g) by {
            let at = child_slot(tree, slot as int, g);
            assert(0 <= at <= u32::MAX);
        }
    }
}

/// Every entry stands for a node of one of the trees, and carries the pixel scale of that node
/// under the pose of its own instance.
pub open spec fn measured_right(
    trees: Seq<TreeView>,
    measure: spec_fn(LodSplat, InstanceParams) -> Scale,
    frontier: Multiset<Entry>,
) -> bool {
    forall|e: Entry| #[trigger]
        frontier.count(e) > 0 ==> {
            &&& e.instance() < trees.len()
            &&& e.slot() < trees[e.instance() as int].splats@.len()
            &&& e.scale() == clamped(
                measure(
                    trees[e.instance() as int].splats@[e.slot() as int],
                    trees[e.instance() as int].params,
                ),
            )
        }
}

/// Why a node went to the output: it is small enough; or it has no children; or they are not
/// resident, and then both of their chunks are noted.
pub open spec fn rightly_out(
    trees: Seq<TreeView>,
    measure: spec_fn(LodSplat, InstanceParams) -> Scale,
    limit: Scale,
    touched: Seq<(u32, u32)>,
    x: CutNode,
) -> bool {
    let tree = trees[x.0 as int];
    &&& x.0 < trees.len()
    &&& x.1 < tree.splats@.len()
    &&& {
        ||| scale_le(measure(tree.splats@[x.1 as int], tree.params), limit)
        ||| tree.splats@[x.1 as int].child_count == 0
        ||| {
            &&& !children_in(tree, x.1 as int)
            &&& touched.contains((tree.lod_id, low_chunk(tree, x.1 as int) as u32))
            &&& touched.contains((tree.lod_id, high_chunk(tree, x.1 as int) as u32))
        }
    }
}

/// All of the output went there for a reason.
pub open spec fn all_rightly_out(
    trees: Seq<TreeView>,
    measure: spec_fn(LodSplat, InstanceParams) -> Scale,
    limit: Scale,
    c: Progress,
) -> bool {
    forall|k: int|
        0 <= k < c.output.len() ==> rightly_out(
            trees,
            measure,
            limit,
            c.touched,
            #[trigger] c.output[k],
        )
}

/// A chunk that is noted is chunk 0 of a tree, or holds the first or last child of a node of one.
pub open spec fn rightly_touched(trees: Seq<TreeView>, key: (u32, u32)) -> bool {
    exists|inst: int, slot: int|
        {
            &&& 0 <= inst < trees.len()
            &&& key.0 == trees[inst].lod_id
            &&& 0 <= slot < trees[inst].splats@.len()
            &&& {
                ||| key.1 == 0
                ||| key.1 == #[trigger] low_chunk(trees[inst], slot)
                ||| key.1 == high_chunk(trees[inst], slot)
            }
        }
}

pub open spec fn all_rightly_touched(trees: Seq<TreeView>, c: Progress) -> bool {
    &&& forall|k: int|
        0 <= k < c.touched.len() ==> rightly_touched(trees, #[trigger] c.touched[k])
    &&& forall|i: int|
        0 <= i < trees.len() ==> c.touched.contains(((#[trigger] trees[i]).lod_id, 0u32))
}

proof fn lemma_with_chunk_has(touched: Seq<(u32, u32)>, key: (u32, u32))
    ensures
        with_chunk(touched, key).contains(key),
        forall|k: (u32, u32)| #[trigger]
            touched.contains(k) ==> with_chunk(touched, key).contains(k),
        forall|k: int|
            0 <= k < with_chunk(touched, key).len() ==> (#[trigger] with_chunk(touched, key)[k])
                == key || touched.contains(with_chunk(touched, key)[k]),
{
    assert(touched.push(key).last() == key);
    assert forall|k: (u32, u32)| #[trigger] touched.contains(k) implies with_chunk(
        touched,
        key,
    ).contains(k) by {
        let i = choose|i: int| 0 <= i < touched.len() && touched[i] == k;
        assert(touched.push(key)[i] == k);
    }
    assert forall|k: int| 0 <= k < with_chunk(touched, key).len() implies (#[trigger] with_chunk(
        touched,
        key,
    )[k]) == key || touched.contains(with_chunk(touched, key)[k]) by {
        if k < touched.len() {
            assert(with_chunk(touched, key)[k] == touched[k]);
        }
    }
}

proof fn lemma_top_is_the_top(m: Multiset<Entry>, e: Entry)
    requires
        is_top(m, e),
    ensures
        (choose|f: Entry| is_top(m, f)) == e,
{
    let f = choose|f: Entry| is_top(m, f);
    assert(m.count(f) > 0);
    assert(m.count(e) > 0);
}

impl<'a> Job<'a> {
    /// What the children of a node are sorted into.
    proof fn lemma_children_sorted(self, n: CutNode)
        requires
            fits(self.trees),
            n.0 < self.trees.len(),
            self.trees[n.0 as int].sound_at(n.1),
        ensures
            measured_right(
                self.trees,
                self.measure,
                self.pending(kid_nodes(self.trees, n)).to_multiset(),
            ),
            forall|k: int|
                0 <= k < self.settled(kid_nodes(self.trees, n)).len() ==> {
                    let x = #[trigger] self.settled(kid_nodes(self.trees, n))[k];
                    &&& x.0 == n.0
                    &&& x.1 < self.trees[n.0 as int].splats@.len()
                    &&& scale_le(on_screen(self.trees, self.measure, x), self.limit)
                },
    {
        broadcast use group_to_multiset_ensures;

        let tree = self.trees[n.0 as int];
        let kids = kid_nodes(self.trees, n);
        let list = self.pending(kids);
        assert forall|i: int| 0 <= i < kids.len() implies (#[trigger] kids[i]).0 == n.0
            && kids[i].1 < tree.splats@.len() by {
            assert(kids[i].1 == tree.kids(n.1)[i]);
        }
        let big = |n: CutNode| !self.small(n);
        let few = |n: CutNode| self.small(n);
        assert forall|e: Entry| #[trigger] list.to_multiset().count(e) > 0 implies {
            &&& e.instance() < self.trees.len()
            &&& e.slot() < self.trees[e.instance() as int].splats@.len()
            &&& e.scale() == clamped(
                (self.measure)(
                    self.trees[e.instance() as int].splats@[e.slot() as int],
                    self.trees[e.instance() as int].params,
                ),
            )
        } by {
            assert(list.contains(e));
            let i = choose|i: int| 0 <= i < list.len() && list[i] == e;
            let x = kids.filter(big)[i];
            kids.lemma_filter_contains_rev(big, x);
            assert(kids.contains(x));
            let g = choose|g: int| 0 <= g < kids.len() && kids[g] == x;
            assert(kids[g].0 == n.0);
            assert(e == entry_of(self.scale_at(x), x));
            lemma_entry_of(self.scale_at(x), x);
        }
        assert forall|k: int| 0 <= k < self.settled(kids).len() implies {
            let x = #[trigger] self.settled(kids)[k];
            &&& x.0 == n.0
            &&& x.1 < tree.splats@.len()
            &&& scale_le(on_screen(self.trees, self.measure, x), self.limit)
        } by {
            let x = self.settled(kids)[k];
            assert(kids.filter(few)[k] == x);
            kids.lemma_filter_contains_rev(few, x);
            kids.lemma_filter_pred(few, k);
            let g = choose|g: int| 0 <= g < kids.len() && kids[g] == x;
            assert(kids[g].0 == n.0);
        }
    }
}

/// The state is right in all of these ways.
pub open spec fn in_order(
    trees: Seq<TreeView>,
    measure: spec_fn(LodSplat, InstanceParams) -> Scale,
    limit: Scale,
    c: Progress,
) -> bool {
    &&& measured_right(trees, measure, c.frontier)
    &&& all_rightly_out(trees, measure, limit, c)
    &&& all_rightly_touched(trees, c)
}

/// The first slot of a page; of page 0 if the page is not known.
pub open spec fn page_start(page: u32) -> int {
    if page == 0xffff_ffff {
        0
    } else {
        page as int % 0x1_0000 * 0x1_0000
    }
}

/// Some entry stands for the root of tree `i`.
pub open spec fn has_root(frontier: Multiset<Entry>, root_pages: Seq<u32>, i: int) -> bool {
    exists|e: Entry| #[trigger]
        frontier.count(e) > 0 && e.instance() == i && e.slot() == page_start(root_pages[i])
}

/// A traversal that was just seeded has one entry for each tree: the root, in the first slot of
/// its page (of page 0 if the page is not known), at the scale that it measures under the pose of
/// its own instance.
pub proof fn law_every_tree_is_seeded(
    trees: Seq<TreeView>,
    root_pages: Seq<u32>,
    measure: spec_fn(LodSplat, InstanceParams) -> Scale,
    n: nat,
)
    requires
        fits(trees),
        rooted(trees, root_pages),
        n <= trees.len(),
    ensures
        ({
            let c = seeded(trees, root_pages, measure, unseeded(), n);
            &&& measured_right(trees, measure, c.frontier)
            &&& c.frontier.len() == n
            &&& c.num_splats == n
            &&& c.output.len() == 0
            &&& c.leaf_count == 0
            &&& c.min_pixel_scale.bits == 0x7f80_0000
            &&& forall|i: int| 0 <= i < n ==> #[trigger] has_root(c.frontier, root_pages, i)
        }),
    decreases n,
{
    if n > 0 {
        law_every_tree_is_seeded(trees, root_pages, measure, (n - 1) as nat);
        let b = seeded(trees, root_pages, measure, unseeded(), (n - 1) as nat);
        let c = seeded(trees, root_pages, measure, unseeded(), n);
        let tree = trees[n - 1];
        let at = page_start(root_pages[n - 1]);
        let key = measure(tree.splats@[at], tree.params);
        let e = entry_of(key, ((n - 1) as u32, at as u32));
        assert(root_slot(root_pages[n - 1]) == at);
        assert(at < tree.splats@.len());
        lemma_entry_of(key, ((n - 1) as u32, at as u32));
        assert(c.frontier == b.frontier.insert(e));
        assert forall|f: Entry| #[trigger] c.frontier.count(f) > 0 implies f == e
            || b.frontier.count(f) > 0 by {}
        assert forall|i: int| 0 <= i < n implies #[trigger] has_root(
            c.frontier,
            root_pages,
            i,
        ) by {
            if i == n - 1 {
                assert(c.frontier.count(e) > 0);
            } else {
                assert(has_root(b.frontier, root_pages, i));
                let f = choose|f: Entry| #[trigger]
                    b.frontier.count(f) > 0 && f.instance() == i && f.slot() == page_start(
                        root_pages[i],
                    );
                assert(c.frontier.count(f) > 0);
            }
        }
    } else {
        assert(unseeded().frontier.len() == 0);
    }
}

/// A traversal that was just seeded has chunk 0 of each tree noted, and nothing else.
proof fn lemma_seeds_touch(
    trees: Seq<TreeView>,
    root_pages: Seq<u32>,
    measure: spec_fn(LodSplat, InstanceParams) -> Scale,
    n: nat,
)
    requires
        rooted(trees, root_pages),
        n <= trees.len(),
    ensures
        ({
            let c = seeded(trees, root_pages, measure, unseeded(), n);
            &&& forall|i: int|
                0 <= i < n ==> c.touched.contains(((#[trigger] trees[i]).lod_id, 0u32))
            &&& forall|k: int|
                0 <= k < c.touched.len() ==> rightly_touched(trees, #[trigger] c.touched[k])
        }),
    decreases n,
{
    if n > 0 {
        lemma_seeds_touch(trees, root_pages, measure, (n - 1) as nat);
        let b = seeded(trees, root_pages, measure, unseeded(), (n - 1) as nat);
        let c = seeded(trees, root_pages, measure, unseeded(), n);
        let key = (trees[n - 1].lod_id, 0u32);
        lemma_with_chunk_has(b.touched, key);
        assert(rightly_touched(trees, key)) by {
            assert(root_slot(root_pages[n - 1]) < trees[n - 1].splats@.len());
            assert(low_chunk(trees[n - 1], 0) >= 0);
        }
        assert forall|k: int| 0 <= k < c.touched.len() implies rightly_touched(
            trees,
            #[trigger] c.touched[k],
        ) by {
            if c.touched[k] != key {
                let j = choose|j: int| 0 <= j < b.touched.len() && b.touched[j] == c.touched[k];
                assert(rightly_touched(trees, b.touched[j]));
            }
        }
    }
}

/// A seeded traversal is in order.
pub proof fn law_seeds_are_in_order(
    trees: Seq<TreeView>,
    root_pages: Seq<u32>,
    measure: spec_fn(LodSplat, InstanceParams) -> Scale,
    limit: Scale,
)
    requires
        fits(trees),
        rooted(trees, root_pages),
    ensures
        in_order(
            trees,
            measure,
            limit,
            seeded(trees, root_pages, measure, unseeded(), trees.len()),
        ),
{
    law_every_tree_is_seeded(trees, root_pages, measure, trees.len());
    lemma_seeds_touch(trees, root_pages, measure, trees.len());
}

impl<'a> Job<'a> {
    /// The chunks that a round notes.
    proof fn lemma_round_touches(self, c: Progress, d: Progress)
        requires
            c.frontier.len() > 0,
            self.step(c) == Step::More(d),
            all_rightly_touched(self.trees, c),
            c.top().instance() < self.trees.len(),
            c.top().slot() < self.trees[c.top().instance() as int].splats@.len(),
            self.trees[c.top().instance() as int].splats@[c.top().slot() as int].child_count > 0
                ==> self.trees[c.top().instance() as int].sound_at(c.top().slot()),
        ensures
            all_rightly_touched(self.trees, d),
            forall|k: (u32, u32)| #[trigger] c.touched.contains(k) ==> d.touched.contains(k),
            ({
                let tree = self.trees[c.top().instance() as int];
                let slot = c.top().slot() as int;
                tree.splats@[slot].child_count > 0 ==> {
                    &&& d.touched.contains((tree.lod_id, low_chunk(tree, slot) as u32))
                    &&& d.touched.contains((tree.lod_id, high_chunk(tree, slot) as u32))
                }
            }),
    {
        let inst = c.top().instance() as int;
        let tree = self.trees[inst];
        let slot = c.top().slot() as int;
        if tree.splats@[slot].child_count > 0 {
            let low = (tree.lod_id, low_chunk(tree, slot) as u32);
            let high = (tree.lod_id, high_chunk(tree, slot) as u32);
            let one = with_chunk(c.touched, low);
            lemma_with_chunk_has(c.touched, low);
            lemma_with_chunk_has(one, high);
            assert(d.touched == with_chunk(one, high));
            assert(rightly_touched(self.trees, low)) by {
                assert(low.1 == low_chunk(self.trees[inst], slot));
            }
            assert(rightly_touched(self.trees, high)) by {
                assert(high.1 == high_chunk(self.trees[inst], slot));
                assert(low_chunk(self.trees[inst], slot) == low_chunk(tree, slot));
            }
            assert forall|k: int| 0 <= k < d.touched.len() implies rightly_touched(
                self.trees,
                #[trigger] d.touched[k],
            ) by {
                let t = d.touched[k];
                if t != high && t != low {
                    assert(one.contains(t));
                    let j = choose|j: int| 0 <= j < one.len() && one[j] == t;
                    assert(one[j] == low || c.touched.contains(one[j]));
                    let l = choose|l: int| 0 <= l < c.touched.len() && c.touched[l] == t;
                    assert(rightly_touched(self.trees, c.touched[l]));
                }
            }
        } else {
            assert(d.touched == c.touched);
        }
    }

    /// A round keeps the state in order.
    proof fn lemma_round_keeps_order(self, c: Progress)
        requires
            fits(self.trees),
            self.step_sound(c),
            in_order(self.trees, self.measure, self.limit, c),
        ensures
            match self.step(c) {
                Step::Done(d) => in_order(self.trees, self.measure, self.limit, d),
                Step::More(d) => in_order(self.trees, self.measure, self.limit, d),
            },
    {
        broadcast use group_to_multiset_ensures;

        if self.step(c) is More {
            let d = self.step(c)->More_0;
            let e = c.top();
            let n = e.node();
            crate::traverse_laws::lemma_top_exists(c.frontier);
            assert(is_top(c.frontier, e));
            assert(c.frontier.count(e) > 0);
            let tree = self.trees[n.0 as int];
            let slot = n.1 as int;
            self.lemma_round_touches(c, d);
            let rest = c.frontier.remove(e);
            let kids = kid_nodes(self.trees, n);
            assert forall|k: int| 0 <= k < c.output.len() implies rightly_out(
                self.trees,
                self.measure,
                self.limit,
                d.touched,
                #[trigger] c.output[k],
            ) by {
                assert(rightly_out(
                    self.trees,
                    self.measure,
                    self.limit,
                    c.touched,
                    c.output[k],
                ));
            }
            if tree.splats@[slot].child_count > 0 {
                law_children_are_where_the_pages_say(tree, n.1);
            }
            if tree.splats@[slot].child_count == 0 || kids.len() == 0 {
                assert(d.output == c.output.push(n));
                assert(d.frontier == rest);
                assert(rightly_out(self.trees, self.measure, self.limit, d.touched, n));
                assert forall|f: Entry| #[trigger] d.frontier.count(f) > 0 implies c.frontier.count(
                    f,
                ) > 0 by {}
            } else {
                self.lemma_children_sorted(n);
                let more = self.pending(kids).to_multiset();
                assert(d.frontier == rest.add(more));
                assert forall|f: Entry| #[trigger] d.frontier.count(f) > 0 implies c.frontier.count(
                    f,
                ) > 0 || more.count(f) > 0 by {}
                assert forall|k: int| 0 <= k < d.output.len() implies rightly_out(
                    self.trees,
                    self.measure,
                    self.limit,
                    d.touched,
                    #[trigger] d.output[k],
                ) by {
                    if k < c.output.len() {
                        assert(d.output[k] == c.output[k]);
                    } else {
                        assert(d.output[k] == self.settled(kids)[k - c.output.len()]);
                    }
                }
            }
        }
    }

    proof fn lemma_rounds_keep_order(self, c: Progress, k: nat)
        requires
            fits(self.trees),
            self.after(c, k) is Some,
            forall|j: nat| j < k ==> self.step_sound((#[trigger] self.after(c, j))->0),
            in_order(self.trees, self.measure, self.limit, c),
        ensures
            in_order(self.trees, self.measure, self.limit, self.after(c, k)->0),
        decreases k,
    {
        if k > 0 {
            self.lemma_rounds_keep_order(c, (k - 1) as nat);
            assert(self.step_sound(self.after(c, (k - 1) as nat)->0));
            self.lemma_round_keeps_order(self.after(c, (k - 1) as nat)->0);
        }
    }

    /// Wherever a run pauses, and where it ends, if it started in order: every frontier entry
    /// carries the pixel scale of its own node under the pose of its own instance; every node in
    /// the output is small enough there, or has no children, or its children are not resident and
    /// their chunks are noted; and nothing is noted but chunks of children, and chunk 0 of every
    /// tree.
    pub proof fn law_run_stays_in_order(self, c: Progress, d: Progress)
        requires
            fits(self.trees),
            self.completes(c),
            self.comes_back(c, d),
            in_order(self.trees, self.measure, self.limit, c),
        ensures
            in_order(self.trees, self.measure, self.limit, d),
    {
        let last = choose|k: nat| self.halts_after(c, k);
        if self.passes(c, d) {
            let k = choose|k: nat| #[trigger] self.after(c, k) == Some(d);
            self.lemma_no_round_past_the_last(c, last, k);
            self.lemma_rounds_keep_order(c, k);
        } else {
            let k = choose|k: nat|
                (#[trigger] self.after(c, k)) matches Some(m) && self.step(m) == Step::Done(d);
            self.lemma_no_round_past_the_last(c, last, k);
            self.lemma_rounds_keep_order(c, k);
            assert(self.step_sound(self.after(c, k)->0));
            self.lemma_round_keeps_order(self.after(c, k)->0);
        }
    }
}

/// The entry that is worked on next stands for a node that no node of the frontier exceeds in the
/// pixel scale that each measures under the pose of its own instance.
pub proof fn law_next_node_is_largest_on_screen(
    trees: Seq<TreeView>,
    measure: spec_fn(LodSplat, InstanceParams) -> Scale,
    frontier: Multiset<Entry>,
    top: Entry,
    e: Entry,
)
    requires
        measured_right(trees, measure, frontier),
        is_top(frontier, top),
        frontier.count(e) > 0,
    ensures
        ({
            let own = |f: Entry|
                clamped(
                    measure(
                        trees[f.instance() as int].splats@[f.slot() as int],
                        trees[f.instance() as int].params,
                    ),
                );
            rank(own(e)) <= rank(own(top))
        }),
{
    assert(frontier.count(top) > 0);
    law_clamped(
        measure(
            trees[e.instance() as int].splats@[e.slot() as int],
            trees[e.instance() as int].params,
        ),
    );
    law_clamped(
        measure(
            trees[top.instance() as int].splats@[top.slot() as int],
            trees[top.instance() as int].params,
        ),
    );
    law_entries_order_like_tuples(top, e);
}

} // verus!
