//! What one step does to an incremental cut, in terms of what stands in the trees and in their
//! page tables.

use vstd::prelude::*;
use vstd::seq_lib::group_to_multiset_ensures;

use crate::cut::{kid_splats, runs, splat_of, with_want, ExpandOutcome, IncrementalCut};
use crate::cut_model::{node_ok, run, IndexNode, Node};
use crate::geometry::Geometry;
use crate::hash::wants;
use crate::scale::Scale;
use crate::scale_laws::{height, is_number};
use crate::screen_laws::paged_in;
use crate::splat::LodSplat;
use crate::tree_view::TreeView;

verus! {

/// Where node `index` of a tree lies: in the page of its chunk, at its place there.
pub open spec fn slot_of(tree: TreeView, index: int) -> int {
    tree.chunk_to_page@[index / 65536] as int % 65536 * 65536 + index % 65536
}

/// Node `index` of a tree.
pub open spec fn stands_at(tree: TreeView, index: int) -> LodSplat {
    tree.splats@[slot_of(tree, index)]
}

/// The chunks of the first and of the last child of node `index`.
pub open spec fn chunk_of_first(tree: TreeView, index: int) -> int {
    stands_at(tree, index).child_start as int / 65536
}

pub open spec fn chunk_of_last(tree: TreeView, index: int) -> int {
    (stands_at(tree, index).child_start + stands_at(tree, index).child_count - 1) / 65536
}

/// A table after one entry was noted again: for a scale that is one of the two and no smaller
/// than either, in this pass; all other entries are as they were.
pub open spec fn noted(
    before: Map<(u8, u32), (u32, u32)>,
    after: Map<(u8, u32), (u32, u32)>,
    key: (u8, u32),
    bits: u32,
    pass: u32,
) -> bool {
    &&& after.contains_key(key)
    &&& after[key].1 == pass
    &&& !before.contains_key(key) ==> after[key].0 == bits
    &&& before.contains_key(key) ==> {
        &&& after[key].0 == bits || after[key].0 == before[key].0
        &&& is_number(bits) ==> is_number(after[key].0) && height(after[key].0) >= height(bits)
        &&& is_number(before[key].0) ==> is_number(after[key].0) && height(after[key].0) >= height(
            before[key].0,
        )
    }
    &&& forall|k: (u8, u32)|
        k != key ==> (#[trigger] after.contains_key(k) == before.contains_key(k)) && (
        before.contains_key(k) ==> after[k] == before[k])
}

/// Wanting a chunk again keeps the larger scale, notes the pass, and leaves all other chunks as
/// they are.
pub proof fn law_wanting_again_keeps_the_larger_scale(
    m: Map<(u8, u32), (u32, u32)>,
    pass: u32,
    inst: u8,
    chunk: u32,
    ps: Scale,
)
    ensures
        noted(m, with_want(m, pass, inst, chunk, ps), (inst, chunk), ps.bits, pass),
{
}

proof fn lemma_splat_of(tree: TreeView, index: int)
    requires
        0 <= index,
    ensures
        splat_of(tree, index) == stands_at(tree, index),
{
    let at = slot_of(tree, index);
    assert(0 <= at <= u32::MAX);
}

/// A run holds each of its nodes once, and nothing else.
pub proof fn law_run_holds_each_node_once(inst: u8, start: u32, count: int, y: IndexNode)
    requires
        0 <= count,
        start + count <= u32::MAX,
    ensures
        run(inst, start, count).to_multiset().count(y) == (if y.0 == inst && start <= y.1 < start
            + count {
            1nat
        } else {
            0nat
        }),
    decreases count,
{
    broadcast use group_to_multiset_ensures;

    let all = run(inst, start, count);
    if count == 0 {
        assert(all.to_multiset().len() == 0);
    } else {
        let less = run(inst, start, count - 1);
        let x = (inst, (start + count - 1) as u32);
        law_run_holds_each_node_once(inst, start, count - 1, y);
        assert(all =~= less.push(x));
        vstd::seq_lib::to_multiset_build(less, x);
    }
}

impl<
    D: Fn([u16; 3], [u16; 3]) -> Scale,
    W: Fn(u16) -> Scale,
    B: Fn(Scale, Scale) -> (u16, u16),
> Geometry<D, W, B> {
    /// The distance that counts for a list of nodes is no smaller than that of any of them, and
    /// is zero or that of one of them.
    pub proof fn law_no_node_is_further_away(
        self,
        center: [u16; 3],
        kids: Seq<LodSplat>,
        k: int,
        g: int,
    )
        requires
            0 <= g < k <= kids.len(),
            is_number(self.distance_of(kids[g].center, center).bits),
        ensures
            is_number(self.reach(center, kids, k).bits),
            height(self.distance_of(kids[g].center, center).bits) <= height(
                self.reach(center, kids, k).bits,
            ),
        decreases k,
    {
        self.law_distance_is_of_a_node(center, kids, k - 1);
        if g < k - 1 {
            self.law_no_node_is_further_away(center, kids, k - 1, g);
        }
    }

    /// The distance that counts for a list of nodes is zero or that of one of them.
    pub proof fn law_distance_is_of_a_node(self, center: [u16; 3], kids: Seq<LodSplat>, k: int)
        requires
            k <= kids.len(),
        ensures
            ({
                ||| self.reach(center, kids, k).bits == 0
                ||| exists|g: int|
                    0 <= g < k && self.reach(center, kids, k) == self.distance_of(
                        (#[trigger] kids[g]).center,
                        center,
                    )
            }),
            is_number(self.reach(center, kids, k).bits),
            height(self.reach(center, kids, k).bits) >= 0,
        decreases k,
    {
        if k > 0 {
            self.law_distance_is_of_a_node(center, kids, k - 1);
            assert(kids[k - 1] == kids[k - 1]);
            let less = self.reach(center, kids, k - 1);
            let all = self.reach(center, kids, k);
            if all != less {
                assert(all == self.distance_of(kids[k - 1].center, center));
            } else if less.bits != 0 {
                let g = choose|g: int|
                    0 <= g < k - 1 && less == self.distance_of(
                        (#[trigger] kids[g]).center,
                        center,
                    );
                assert(all == self.distance_of(kids[g].center, center));
            }
        }
    }

    /// The size that counts for a list of nodes is no smaller than that of any of them.
    pub proof fn law_no_node_is_larger(self, kids: Seq<LodSplat>, k: int, g: int)
        requires
            0 <= g < k <= kids.len(),
            is_number(self.widened(kids[g].size).bits),
        ensures
            is_number(self.largest(kids, k).bits),
            height(self.widened(kids[g].size).bits) <= height(self.largest(kids, k).bits),
        decreases k,
    {
        self.law_size_is_of_a_node(kids, k - 1);
        if g < k - 1 {
            self.law_no_node_is_larger(kids, k - 1, g);
        }
    }

    /// The size that counts for a list of nodes is zero or that of one of them.
    pub proof fn law_size_is_of_a_node(self, kids: Seq<LodSplat>, k: int)
        requires
            k <= kids.len(),
        ensures
            ({
                ||| self.largest(kids, k).bits == 0
                ||| exists|g: int|
                    0 <= g < k && self.largest(kids, k) == self.widened(
                        (#[trigger] kids[g]).size,
                    )
            }),
            is_number(self.largest(kids, k).bits),
            height(self.largest(kids, k).bits) >= 0,
        decreases k,
    {
        if k > 0 {
            self.law_size_is_of_a_node(kids, k - 1);
            let less = self.largest(kids, k - 1);
            let all = self.largest(kids, k);
            if all != less {
                assert(all == self.widened(kids[k - 1].size));
            } else if less.bits != 0 {
                let g = choose|g: int|
                    0 <= g < k - 1 && less == self.widened((#[trigger] kids[g]).size);
                assert(all == self.widened(kids[g].size));
            }
        }
    }
}

/// What becomes of an attempt to expand a node: it needs its own chunk; a leaf of the tree is
/// told; then the children have to fit the budget; then their chunks have to be there.
pub proof fn law_outcome_goes_by_what_is_there<
    D: Fn([u16; 3], [u16; 3]) -> Scale,
    W: Fn(u16) -> Scale,
    B: Fn(Scale, Scale) -> (u16, u16),
>(
    before: IncrementalCut,
    after: IncrementalCut,
    trees: Seq<TreeView>,
    geometry: Geometry<D, W, B>,
    slot: u32,
    i: u16,
    ps: Scale,
    max_splats: usize,
    r: ExpandOutcome,
)
    requires
        before.wf(),
        before.can_expand(trees, slot, i, max_splats),
        before.expands_to(after, trees, geometry, slot, i, ps, max_splats, r),
    ensures
        ({
            let node = before.nodes@[slot as int];
            let tree = trees[node.inst as int];
            let index = node.child_start + i;
            let count = stands_at(tree, index).child_count;
            let here = paged_in(tree, index / 65536);
            let fits = before.cut_size + count <= max_splats + 1;
            let kids_here = paged_in(tree, chunk_of_first(tree, index)) && paged_in(
                tree,
                chunk_of_last(tree, index),
            );
            &&& r is NotResident <==> !here || count > 0 && fits && !kids_here
            &&& r is Terminal <==> here && count == 0
            &&& r is Misfit <==> here && count > 0 && !fits
            &&& r matches ExpandOutcome::Misfit(n) ==> n == count
            &&& r is Expanded <==> here && count > 0 && fits && kids_here
        }),
{
    let node = before.nodes@[slot as int];
    lemma_splat_of(trees[node.inst as int], node.child_start + i);
}

/// An expansion that is refused for want of a chunk changes nothing but what is wanted: the one
/// chunk that is missing, at the pixel scale of the node.
pub proof fn law_refused_expansion_wants_the_missing_chunk<
    D: Fn([u16; 3], [u16; 3]) -> Scale,
    W: Fn(u16) -> Scale,
    B: Fn(Scale, Scale) -> (u16, u16),
>(
    before: IncrementalCut,
    after: IncrementalCut,
    trees: Seq<TreeView>,
    geometry: Geometry<D, W, B>,
    slot: u32,
    i: u16,
    ps: Scale,
    max_splats: usize,
)
    requires
        before.wf(),
        before.can_expand(trees, slot, i, max_splats),
        before.expands_to(
            after,
            trees,
            geometry,
            slot,
            i,
            ps,
            max_splats,
            ExpandOutcome::NotResident,
        ),
    ensures
        ({
            let node = before.nodes@[slot as int];
            let tree = trees[node.inst as int];
            let index = node.child_start + i;
            let first = chunk_of_first(tree, index);
            let lacking = if !paged_in(tree, index / 65536) {
                index / 65536
            } else if !paged_in(tree, first) {
                first
            } else {
                chunk_of_last(tree, index)
            };
            &&& !paged_in(tree, lacking)
            &&& 0 <= lacking < 65536
            &&& noted(
                wants(before.wanted),
                wants(after.wanted),
                (node.inst, lacking as u32),
                ps.bits,
                before.passes,
            )
            &&& after == (IncrementalCut { wanted: after.wanted, ..before })
        }),
{
    let node = before.nodes@[slot as int];
    let tree = trees[node.inst as int];
    let index = node.child_start + i;
    lemma_splat_of(tree, index);
    assert(node_ok(before.nodes@, before.arena@, before.lod_ids@.len() as int, slot as int));
    if tree.has_chunk(index / 65536) {
        assert(tree.sound_at(tree.place(index)));
        assert(tree.splats@[tree.place(index) as int] == splat_of(tree, index));
    }
}

/// A node that turns out to be a leaf of the tree is marked so in its cell; one that does not fit
/// leaves everything as it is.
pub proof fn law_leaf_is_marked_and_misfit_changes_nothing<
    D: Fn([u16; 3], [u16; 3]) -> Scale,
    W: Fn(u16) -> Scale,
    B: Fn(Scale, Scale) -> (u16, u16),
>(
    before: IncrementalCut,
    after: IncrementalCut,
    trees: Seq<TreeView>,
    geometry: Geometry<D, W, B>,
    slot: u32,
    i: u16,
    ps: Scale,
    max_splats: usize,
    r: ExpandOutcome,
    x: int,
)
    requires
        before.wf(),
        before.can_expand(trees, slot, i, max_splats),
        before.expands_to(after, trees, geometry, slot, i, ps, max_splats, r),
        0 <= x < before.arena@.len(),
    ensures
        r is Misfit ==> after == before,
        r is Terminal ==> {
            let own = before.nodes@[slot as int].children_base + i;
            &&& after == (IncrementalCut { arena: after.arena, ..before })
            &&& after.arena@.len() == before.arena@.len()
            &&& after.arena@[own].slot == 0xffff_fffd
            &&& after.arena@[own].center == before.arena@[own].center
            &&& after.arena@[own].size == before.arena@[own].size
            &&& x != own ==> after.arena@[x] == before.arena@[x]
        },
{
    assert(node_ok(before.nodes@, before.arena@, before.lod_ids@.len() as int, slot as int));
}

/// An expansion takes the node out of the cut and puts its children in, each of them once, and
/// leaves every other node in the cut as often as it is there.
pub proof fn law_children_replace_their_parent_in_the_cut<
    D: Fn([u16; 3], [u16; 3]) -> Scale,
    W: Fn(u16) -> Scale,
    B: Fn(Scale, Scale) -> (u16, u16),
>(
    before: IncrementalCut,
    after: IncrementalCut,
    trees: Seq<TreeView>,
    geometry: Geometry<D, W, B>,
    slot: u32,
    i: u16,
    ps: Scale,
    max_splats: usize,
    new: u32,
    y: IndexNode,
)
    requires
        before.wf(),
        before.can_expand(trees, slot, i, max_splats),
        before.expands_to(
            after,
            trees,
            geometry,
            slot,
            i,
            ps,
            max_splats,
            ExpandOutcome::Expanded(new),
        ),
    ensures
        ({
            let node = before.nodes@[slot as int];
            let s = stands_at(trees[node.inst as int], node.child_start + i);
            let gone = if y.0 == node.inst && y.1 == node.child_start + i {
                1int
            } else {
                0
            };
            let come = if y.0 == node.inst && s.child_start <= y.1 < s.child_start + s.child_count {
                1int
            } else {
                0
            };
            &&& after.cut().count(y) == before.cut().count(y) - gone + come
            &&& after.cut_size == before.cut_size - 1 + s.child_count
            &&& after.cut_size <= max_splats
            &&& after.generation == before.generation + 1
        }),
{
    let node = before.nodes@[slot as int];
    let tree = trees[node.inst as int];
    let index = node.child_start + i;
    assert(node_ok(before.nodes@, before.arena@, before.lod_ids@.len() as int, slot as int));
    lemma_splat_of(tree, index);
    assert(tree.sound_at(tree.place(index)));
    assert(tree.splats@[tree.place(index) as int] == splat_of(tree, index));
    let s = stands_at(tree, index);
    law_run_holds_each_node_once(node.inst, s.child_start, s.child_count as int, y);
}

/// An expanded node is recorded as it stands in the tree, under its parent and with its pixel
/// scale; the parent counts one more expanded child, and no other record changes.
pub proof fn law_expanded_node_is_recorded_as_it_stands<
    D: Fn([u16; 3], [u16; 3]) -> Scale,
    W: Fn(u16) -> Scale,
    B: Fn(Scale, Scale) -> (u16, u16),
>(
    before: IncrementalCut,
    after: IncrementalCut,
    trees: Seq<TreeView>,
    geometry: Geometry<D, W, B>,
    slot: u32,
    i: u16,
    ps: Scale,
    max_splats: usize,
    new: u32,
    t: int,
)
    requires
        before.wf(),
        before.can_expand(trees, slot, i, max_splats),
        before.expands_to(
            after,
            trees,
            geometry,
            slot,
            i,
            ps,
            max_splats,
            ExpandOutcome::Expanded(new),
        ),
        before.nodes@.len() < u32::MAX,
    ensures
        ({
            let node = before.nodes@[slot as int];
            let tree = trees[node.inst as int];
            let index = node.child_start + i;
            let s = stands_at(tree, index);
            let made = after.nodes@[new as int];
            let kids = Seq::new(
                s.child_count as nat,
                |g: int| stands_at(tree, s.child_start + g),
            );
            let bounds = geometry.bounds(
                geometry.reach(s.center, kids, s.child_count as int),
                geometry.largest(kids, s.child_count as int),
            );
            let parent = after.nodes@[slot as int];
            &&& new != slot
            &&& made.inst == node.inst
            &&& made.index == index
            &&& made.parent == slot
            &&& made.child_start == s.child_start
            &&& made.child_count == s.child_count
            &&& made.expanded == 0
            &&& made.ps == ps
            &&& made.center == s.center
            &&& made.size == s.size
            &&& made.radius == bounds.0
            &&& made.child_size_max == bounds.1
            &&& !made.forced
            &&& made.alive
            &&& parent == (Node { expanded: parent.expanded, ..node })
            &&& parent.expanded == node.expanded + 1
            &&& 0 <= t < before.nodes@.len() && t != slot && t != new ==> after.nodes@[t]
                == before.nodes@[t]
            &&& before.node_free@.len() == 0 ==> new == before.nodes@.len() && after.nodes@.len()
                == new + 1 && after.node_free@.len() == 0
            &&& before.node_free@.len() > 0 ==> {
                let last = before.node_free@.len() - 1;
                &&& new == before.node_free@[last]
                &&& after.nodes@.len() == before.nodes@.len()
                &&& after.node_free@ =~= before.node_free@.take(last)
            }
        }),
{
    let node = before.nodes@[slot as int];
    let tree = trees[node.inst as int];
    let index = node.child_start + i;
    assert(node_ok(before.nodes@, before.arena@, before.lod_ids@.len() as int, slot as int));
    lemma_splat_of(tree, index);
    assert(tree.sound_at(tree.place(index)));
    assert(tree.splats@[tree.place(index) as int] == splat_of(tree, index));
    let s = stands_at(tree, index);
    let kids = Seq::new(s.child_count as nat, |g: int| stands_at(tree, s.child_start + g));
    assert(kid_splats(tree, index) =~= kids) by {
        assert forall|g: int| 0 <= g < s.child_count implies kid_splats(tree, index)[g]
            == kids[g] by {
            lemma_splat_of(tree, s.child_start + g);
        }
    }
    crate::cut_model::lemma_group_has(
        node,
        before.arena@,
        node.child_count as int,
        i as int,
    );
    crate::cut_model::lemma_group_len(node, before.arena@, node.child_count as int);
    if before.node_free@.len() > 0 {
        assert(before.node_free@.last() == before.node_free@[before.node_free@.len() - 1]);
    }
}

/// Each child of an expanded node gets a cell with its center and size, which says whether it is
/// a leaf of the tree. The cell of the node itself names its record, and no other cell changes.
/// The cells come from a free run of that length, the one that became free last, or from the end
/// of the arena; runs of 33 cells and more are not used again.
pub proof fn law_children_get_cells_as_they_stand<
    D: Fn([u16; 3], [u16; 3]) -> Scale,
    W: Fn(u16) -> Scale,
    B: Fn(Scale, Scale) -> (u16, u16),
>(
    before: IncrementalCut,
    after: IncrementalCut,
    trees: Seq<TreeView>,
    geometry: Geometry<D, W, B>,
    slot: u32,
    i: u16,
    ps: Scale,
    max_splats: usize,
    new: u32,
    g: int,
    x: int,
)
    requires
        before.wf(),
        before.can_expand(trees, slot, i, max_splats),
        before.expands_to(
            after,
            trees,
            geometry,
            slot,
            i,
            ps,
            max_splats,
            ExpandOutcome::Expanded(new),
        ),
    ensures
        ({
            let node = before.nodes@[slot as int];
            let tree = trees[node.inst as int];
            let s = stands_at(tree, node.child_start + i);
            let kid = stands_at(tree, s.child_start + g);
            let base = after.nodes@[new as int].children_base as int;
            let own = node.children_base + i;
            let reused = s.child_count < 33 && before.arena_free@[s.child_count as int]@.len() > 0;
            let bin = before.arena_free@[s.child_count as int]@;
            &&& 0 <= g < s.child_count ==> {
                &&& after.arena@[base + g].center == kid.center
                &&& after.arena@[base + g].size == kid.size
                &&& after.arena@[base + g].slot == (if kid.child_count == 0 {
                    0xffff_fffdu32
                } else {
                    0xffff_fffeu32
                })
            }
            &&& after.arena@[own].slot == new
            &&& after.arena@[own].center == before.arena@[own].center
            &&& after.arena@[own].size == before.arena@[own].size
            &&& 0 <= x < before.arena@.len() && x != own && !(base <= x < base + s.child_count)
                ==> after.arena@[x] == before.arena@[x]
            &&& !reused ==> base == before.arena@.len() && after.arena@.len() == base
                + s.child_count && runs(after.arena_free@) =~= runs(before.arena_free@)
            &&& reused ==> {
                &&& base == bin[bin.len() - 1]
                &&& after.arena@.len() == before.arena@.len()
                &&& after.arena_free@[s.child_count as int]@ =~= bin.take(bin.len() - 1)
            }
            &&& reused && 0 <= x < 33 && x != s.child_count ==> after.arena_free@[x]@
                =~= before.arena_free@[x]@
        }),
{
    let node = before.nodes@[slot as int];
    let tree = trees[node.inst as int];
    let index = node.child_start + i;
    assert(node_ok(before.nodes@, before.arena@, before.lod_ids@.len() as int, slot as int));
    lemma_splat_of(tree, index);
    assert(tree.sound_at(tree.place(index)));
    assert(tree.splats@[tree.place(index) as int] == splat_of(tree, index));
    let s = stands_at(tree, index);
    let count = s.child_count as int;
    if 0 <= g < s.child_count {
        lemma_splat_of(tree, s.child_start + g);
        assert(kid_splats(tree, index)[g] == stands_at(tree, s.child_start + g));
        let base = after.nodes@[new as int].children_base as int;
        assert(after.arena@[base + g].center == kid_splats(tree, index)[g].center);
    }
    let free = runs(before.arena_free@);
    if count < 33 {
        assert(free[count] == before.arena_free@[count]@);
    }
    if count < 33 && before.arena_free@[count]@.len() > 0 {
        assert(runs(after.arena_free@).len() == free.len());
        assert(runs(after.arena_free@).len() == after.arena_free@.len());
        assert(runs(after.arena_free@)[count] == after.arena_free@[count]@);
        if 0 <= x < 33 && x != count {
            assert(runs(after.arena_free@)[x] == after.arena_free@[x]@);
            assert(free[x] == before.arena_free@[x]@);
        }
    }
}

/// After an expansion the chunks that it needed are wanted no longer: that of the node and those
/// of its children. What else was wanted still is.
pub proof fn law_expansion_ends_its_own_wants_alone<
    D: Fn([u16; 3], [u16; 3]) -> Scale,
    W: Fn(u16) -> Scale,
    B: Fn(Scale, Scale) -> (u16, u16),
>(
    before: IncrementalCut,
    after: IncrementalCut,
    trees: Seq<TreeView>,
    geometry: Geometry<D, W, B>,
    slot: u32,
    i: u16,
    ps: Scale,
    max_splats: usize,
    new: u32,
    k: (u8, u32),
)
    requires
        before.wf(),
        before.can_expand(trees, slot, i, max_splats),
        before.expands_to(
            after,
            trees,
            geometry,
            slot,
            i,
            ps,
            max_splats,
            ExpandOutcome::Expanded(new),
        ),
    ensures
        ({
            let node = before.nodes@[slot as int];
            let tree = trees[node.inst as int];
            let index = node.child_start + i;
            let s = stands_at(tree, index);
            let ended = k.0 == node.inst && (k.1 == index / 65536 || k.1 == s.child_start as int
                / 65536 || k.1 == (s.child_start + s.child_count - 1) / 65536);
            &&& wants(after.wanted).contains_key(k) <==> wants(before.wanted).contains_key(k)
                && !ended
            &&& wants(after.wanted).contains_key(k) ==> wants(after.wanted)[k] == wants(
                before.wanted,
            )[k]
        }),
{
    let node = before.nodes@[slot as int];
    let tree = trees[node.inst as int];
    let index = node.child_start + i;
    assert(node_ok(before.nodes@, before.arena@, before.lod_ids@.len() as int, slot as int));
    lemma_splat_of(tree, index);
    assert(tree.sound_at(tree.place(index)));
    assert(tree.splats@[tree.place(index) as int] == splat_of(tree, index));
}

/// What an expansion has no business with stays: instances, poses, limits, marks and counters.
pub proof fn law_expansion_leaves_the_rest<
    D: Fn([u16; 3], [u16; 3]) -> Scale,
    W: Fn(u16) -> Scale,
    B: Fn(Scale, Scale) -> (u16, u16),
>(
    before: IncrementalCut,
    after: IncrementalCut,
    trees: Seq<TreeView>,
    geometry: Geometry<D, W, B>,
    slot: u32,
    i: u16,
    ps: Scale,
    max_splats: usize,
    r: ExpandOutcome,
)
    requires
        before.expands_to(after, trees, geometry, slot, i, ps, max_splats, r),
    ensures
        r is Expanded || after.generation == before.generation,
        after.roots == before.roots,
        after.lod_ids == before.lod_ids,
        after.params == before.params,
        after.max_splats == before.max_splats,
        after.limit == before.limit,
        after.t == before.t,
        after.packed_generation == before.packed_generation,
        after.cursor == before.cursor,
        after.visited_since_change == before.visited_since_change,
        after.pass_start_generation == before.pass_start_generation,
        after.clean_pass == before.clean_pass,
        after.passes == before.passes,
        after.forced == before.forced,
        after.arena_leaked == before.arena_leaked,
{
}

} // verus!
