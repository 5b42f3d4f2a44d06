//! Expanding a node of the cut: its children take its place.

use ahash::AHashMap;
use vstd::multiset::Multiset;
use vstd::prelude::*;

use crate::cut::{
    cells_after, first_kid_chunk, fresh_cell, kid_splats, last_kid_chunk, next_run, next_slot,
    opened_node, refs_all_match, refs_at, refs_match, runs, runs_left, slots_left, splat_of,
    with_want, ExpandOutcome, IncrementalCut,
};
use crate::cut_model::{
    cell, handed, in_chunk, lemma_cut_has_share, lemma_group_has, lemma_handed_elsewhere,
    lemma_in_chunk_insert, lemma_in_chunk_le_len, lemma_lost_frame, lemma_marked, lemma_opened,
    node_ok, opened, overlap, owned, owners_ok, run, unexpanded, Child, IndexNode, Node, Owner,
    CUT_LEAF, CUT_TERMINAL,
};
use crate::geometry::Geometry;
use crate::hash::{wants, wants_remove, words};
use crate::scale::Scale;
use crate::tree_view::{chunk_of, to_paged, TreeView};

verus! {

impl IncrementalCut {
    /// Fills the cells of a node's children, and returns the bounds on them.
    fn fill_cells<
        D: Fn([u16; 3], [u16; 3]) -> Scale,
        W: Fn(u16) -> Scale,
        B: Fn(Scale, Scale) -> (u16, u16),
    >(
        arena: &mut Vec<Child>,
        tree: &TreeView,
        geometry: &Geometry<D, W, B>,
        index: u32,
        base: u32,
    ) -> (r: (u16, u16))
        requires
            geometry.lawful(),
            tree.has_chunk(chunk_of(index as int)),
            tree.sound_at(tree.place(index as int)),
            splat_of(*tree, index as int).child_count > 0,
            tree.has_chunk(first_kid_chunk(*tree, index as int)),
            tree.has_chunk(last_kid_chunk(*tree, index as int)),
            base + splat_of(*tree, index as int).child_count <= old(arena)@.len(),
            old(arena)@.len() <= u32::MAX,
        ensures
            final(arena)@.len() == old(arena)@.len(),
            forall|x: int|
                0 <= x < old(arena)@.len() && !(base <= x < base + splat_of(
                    *tree,
                    index as int,
                ).child_count) ==> #[trigger] final(arena)@[x] == old(arena)@[x],
            forall|g: int|
                0 <= g < splat_of(*tree, index as int).child_count
                    ==> #[trigger] final(arena)@[base + g] == fresh_cell(
                    kid_splats(*tree, index as int)[g],
                ),
            r == geometry.extent(
                splat_of(*tree, index as int).center,
                kid_splats(*tree, index as int),
            ),
    {
        let ghost paged = tree.place(index as int);
        let page: u32 = tree.chunk_to_page[(index / 0x1_0000) as usize];
        let child = tree.splats[to_paged(page, index) as usize];
        let ghost kids = kid_splats(*tree, index as int);
        let count: u32 = child.child_count as u32;
        let mut radius = Scale::zero();
        let mut size = Scale::zero();
        let mut g: u32 = 0;
        while g < count
            invariant
                g <= count,
                geometry.lawful(),
                tree.has_chunk(chunk_of(index as int)),
                paged == tree.place(index as int),
                tree.sound_at(paged),
                child == splat_of(*tree, index as int),
                count == child.child_count,
                count > 0,
                tree.has_chunk(first_kid_chunk(*tree, index as int)),
                tree.has_chunk(last_kid_chunk(*tree, index as int)),
                base + count <= arena@.len(),
                arena@.len() == old(arena)@.len(),
                arena@.len() <= u32::MAX,
                kids == kid_splats(*tree, index as int),
                radius == geometry.reach(child.center, kids, g as int),
                size == geometry.largest(kids, g as int),
                forall|x: int|
                    0 <= x < arena@.len() && !(base <= x < base + count) ==> #[trigger] arena@[x]
                        == old(arena)@[x],
                forall|h: int|
                    0 <= h < g ==> #[trigger] arena@[base + h] == fresh_cell(kids[h]),
            decreases count - g,
        {
            let kid: u32 = child.child_start + g;
            assert(tree.place(kid as int) == tree.kids(paged)[g as int]);
            let kid_page: u32 = tree.chunk_to_page[(kid / 0x1_0000) as usize];
            let s = tree.splats[to_paged(kid_page, kid) as usize];
            assert(s == kids[g as int]);
            radius = radius.max((geometry.distance)(s.center, child.center));
            size = size.max((geometry.widen)(s.size));
            arena.set(
                (base + g) as usize,
                Child {
                    slot: if s.child_count == 0 {
                        CUT_TERMINAL
                    } else {
                        CUT_LEAF
                    },
                    center: s.center,
                    size: s.size,
                },
            );
            g += 1;
        }
        (geometry.bound)(radius, size)
    }

    /// The node at `index`, its children, and the chunks of all of them are there to expand it.
    spec fn opens(&self, tree: TreeView, index: int) -> bool {
        let count = splat_of(tree, index).child_count;
        &&& tree.has_chunk(chunk_of(index))
        &&& tree.sound_at(tree.place(index))
        &&& count > 0
        &&& tree.has_chunk(first_kid_chunk(tree, index))
        &&& tree.has_chunk(last_kid_chunk(tree, index))
        &&& self.arena@.len() + count <= u32::MAX
    }

    /// Gives child `i` of the node in `slot` a node of its own.
    fn link<
        D: Fn([u16; 3], [u16; 3]) -> Scale,
        W: Fn(u16) -> Scale,
        B: Fn(Scale, Scale) -> (u16, u16),
    >(
        &mut self,
        tree: &TreeView,
        geometry: &Geometry<D, W, B>,
        slot: u32,
        i: u16,
        ps: Scale,
    ) -> (new: u32)
        requires
            old(self).table_ok(),
            geometry.lawful(),
            slot < old(self).nodes@.len(),
            old(self).nodes@[slot as int].alive,
            i < old(self).nodes@[slot as int].child_count,
            unexpanded(cell(old(self).nodes@[slot as int], old(self).arena@, i as int)),
            old(self).nodes@.len() < CUT_TERMINAL,
            old(self).opens(*tree, old(self).nodes@[slot as int].child_start + i),
        ensures
            final(self).table_ok(),
            *final(self) == (IncrementalCut {
                nodes: final(self).nodes,
                node_free: final(self).node_free,
                arena: final(self).arena,
                arena_free: final(self).arena_free,
                owner: final(self).owner,
                ..*old(self)
            }),
            ({
                let node = old(self).nodes@[slot as int];
                let index = node.child_start + i;
                let child = splat_of(*tree, index);
                let x = (node.inst, index as u32);
                &&& opened(
                    old(self).nodes@,
                    old(self).arena@,
                    final(self).nodes@,
                    final(self).arena@,
                    slot as int,
                    i as int,
                    new as int,
                )
                &&& final(self).nodes@[new as int] == opened_node(
                    *tree,
                    *geometry,
                    node.inst,
                    index as u32,
                    slot,
                    ps,
                    final(self).nodes@[new as int].children_base,
                )
                &&& forall|g: int|
                    0 <= g < child.child_count ==> #[trigger] final(self).arena@[final(
                        self).nodes@[new as int].children_base + g] == fresh_cell(
                        kid_splats(*tree, index)[g],
                    )
                &&& new == next_slot(old(self).nodes@, old(self).node_free@)
                &&& final(self).node_free@ == slots_left(old(self).node_free@)
                &&& final(self).nodes@[new as int].children_base == next_run(
                    old(self).arena@.len() as int,
                    runs(old(self).arena_free@),
                    child.child_count,
                )
                &&& runs(final(self).arena_free@) == runs_left(
                    runs(old(self).arena_free@),
                    child.child_count,
                )
                &&& final(self).arena@.len() == cells_after(
                    old(self).arena@.len() as int,
                    runs(old(self).arena_free@),
                    child.child_count,
                )
                &&& final(self).arena@[node.children_base + i] == (Child {
                    slot: new,
                    ..old(self).arena@[node.children_base + i]
                })
                &&& forall|x: int|
                    0 <= x < old(self).arena@.len() && x != node.children_base + i && !(final(
                        self).nodes@[new as int].children_base <= x < final(
                        self).nodes@[new as int].children_base + child.child_count)
                        ==> #[trigger] final(self).arena@[x] == old(self).arena@[x]
                &&& old(self).cut().count(x) > 0
                &&& final(self).cut().insert(x) == old(self).cut().add(
                    run(node.inst, child.child_start, child.child_count as int).to_multiset(),
                )
            }),
    {
        let node = self.nodes[slot as usize];
        proof {
            assert(node_ok(
                self.nodes@,
                self.arena@,
                self.lod_ids@.len() as int,
                slot as int,
            ));
        }
        let inst: u8 = node.inst;
        let index: u32 = node.child_start + i as u32;
        let cell_at: usize = (node.children_base + i as u32) as usize;
        let page: u32 = tree.chunk_to_page[(index / 0x1_0000) as usize];
        let child = tree.splats[to_paged(page, index) as usize];
        let count: u16 = child.child_count;
        let ghost nodes0 = self.nodes@;
        let ghost arena0 = self.arena@;
        let base: u32 = Self::alloc_arena(
            &mut self.arena,
            &mut self.arena_free,
            &mut self.owner,
            Ghost(nodes0),
            count,
        );
        let (radius, child_size_max) = Self::fill_cells(
            &mut self.arena,
            tree,
            geometry,
            index,
            base,
        );
        let ghost owner1 = self.owner@;
        let ghost arena1 = self.arena@;
        let new: u32 = Self::alloc_node(
            &mut self.nodes,
            &mut self.node_free,
            Node {
                inst,
                index,
                parent: slot,
                child_start: child.child_start,
                child_count: count,
                expanded: 0,
                ps,
                children_base: base,
                center: child.center,
                size: child.size,
                radius,
                child_size_max,
                forced: false,
                alive: true,
            },
        );
        let mut mine = self.arena[cell_at];
        mine.slot = new;
        self.arena.set(cell_at, mine);
        proof {
            lemma_group_has(node, arena0, node.child_count as int, i as int);
        }
        let mut parent = self.nodes[slot as usize];
        parent.expanded = parent.expanded + 1;
        self.nodes.set(slot as usize, parent);
        self.owner = Ghost(handed(self.owner@, base as int, count as int, Owner::Slot(new as int)));
        proof {
            assert(owned(
                owner1,
                node.children_base as int,
                node.child_count as int,
                Owner::Slot(slot as int),
            ));
            assert(owner1[cell_at as int] == Owner::Slot(slot as int));
            assert forall|g: int| 0 <= g < count implies #[trigger] self.arena@[base + g]
                == fresh_cell(kid_splats(*tree, index as int)[g]) by {
                assert(owner1[base + g] == Owner::Fresh);
                assert(arena1[base + g] == fresh_cell(kid_splats(*tree, index as int)[g]));
            }
            Self::lemma_open_is_opened(
                nodes0,
                arena0,
                self.nodes@,
                self.arena@,
                owner1,
                self.arena_free@,
                slot as int,
                i as int,
                new as int,
            );
            lemma_opened(
                nodes0,
                arena0,
                self.nodes@,
                self.arena@,
                self.lod_ids@.len() as int,
                slot as int,
                i as int,
                new as int,
            );
            lemma_lost_frame(owner1, self.owner@, owner1.len() as int);
        }
        new
    }

    /// Expands child `i` of the node in `slot`, and books it.
    fn open<
        D: Fn([u16; 3], [u16; 3]) -> Scale,
        W: Fn(u16) -> Scale,
        B: Fn(Scale, Scale) -> (u16, u16),
    >(
        &mut self,
        tree: &TreeView,
        geometry: &Geometry<D, W, B>,
        slot: u32,
        i: u16,
        ps: Scale,
    ) -> (new: u32)
        requires
            old(self).wf(),
            geometry.lawful(),
            slot < old(self).nodes@.len(),
            old(self).nodes@[slot as int].alive,
            i < old(self).nodes@[slot as int].child_count,
            unexpanded(cell(old(self).nodes@[slot as int], old(self).arena@, i as int)),
            old(self).generation < u64::MAX,
            old(self).nodes@.len() < CUT_TERMINAL,
            old(self).opens(*tree, old(self).nodes@[slot as int].child_start + i),
            old(self).cut_size - 1 + splat_of(
                *tree,
                old(self).nodes@[slot as int].child_start + i,
            ).child_count <= u32::MAX,
        ensures
            final(self).wf(),
            *final(self) == (IncrementalCut {
                nodes: final(self).nodes,
                node_free: final(self).node_free,
                arena: final(self).arena,
                arena_free: final(self).arena_free,
                owner: final(self).owner,
                cut_size: final(self).cut_size,
                chunk_refs: final(self).chunk_refs,
                wanted: final(self).wanted,
                generation: final(self).generation,
                ..*old(self)
            }),
            ({
                let node = old(self).nodes@[slot as int];
                let index = node.child_start + i;
                let child = splat_of(*tree, index);
                let x = (node.inst, index as u32);
                &&& opened(
                    old(self).nodes@,
                    old(self).arena@,
                    final(self).nodes@,
                    final(self).arena@,
                    slot as int,
                    i as int,
                    new as int,
                )
                &&& final(self).nodes@[new as int] == opened_node(
                    *tree,
                    *geometry,
                    node.inst,
                    index as u32,
                    slot,
                    ps,
                    final(self).nodes@[new as int].children_base,
                )
                &&& forall|g: int|
                    0 <= g < child.child_count ==> #[trigger] final(self).arena@[final(
                        self).nodes@[new as int].children_base + g] == fresh_cell(
                        kid_splats(*tree, index)[g],
                    )
                &&& new == next_slot(old(self).nodes@, old(self).node_free@)
                &&& final(self).node_free@ == slots_left(old(self).node_free@)
                &&& final(self).nodes@[new as int].children_base == next_run(
                    old(self).arena@.len() as int,
                    runs(old(self).arena_free@),
                    child.child_count,
                )
                &&& runs(final(self).arena_free@) == runs_left(
                    runs(old(self).arena_free@),
                    child.child_count,
                )
                &&& final(self).arena@.len() == cells_after(
                    old(self).arena@.len() as int,
                    runs(old(self).arena_free@),
                    child.child_count,
                )
                &&& final(self).arena@[node.children_base + i] == (Child {
                    slot: new,
                    ..old(self).arena@[node.children_base + i]
                })
                &&& forall|x: int|
                    0 <= x < old(self).arena@.len() && x != node.children_base + i && !(final(
                        self).nodes@[new as int].children_base <= x < final(
                        self).nodes@[new as int].children_base + child.child_count)
                        ==> #[trigger] final(self).arena@[x] == old(self).arena@[x]
                &&& old(self).cut().count(x) > 0
                &&& final(self).cut() == old(self).cut().remove(x).add(
                    run(node.inst, child.child_start, child.child_count as int).to_multiset(),
                )
                &&& final(self).cut_size == old(self).cut_size - 1 + child.child_count
                &&& wants(final(self).wanted) == wants(old(self).wanted).remove(
                    (node.inst, chunk_of(index) as u32),
                ).remove((node.inst, first_kid_chunk(*tree, index) as u32)).remove(
                    (node.inst, last_kid_chunk(*tree, index) as u32),
                )
                &&& final(self).generation == old(self).generation + 1
            }),
    {
        let node = self.nodes[slot as usize];
        proof {
            assert(node_ok(
                self.nodes@,
                self.arena@,
                self.lod_ids@.len() as int,
                slot as int,
            ));
        }
        let inst: u8 = node.inst;
        let index: u32 = node.child_start + i as u32;
        let page: u32 = tree.chunk_to_page[(index / 0x1_0000) as usize];
        let child = tree.splats[to_paged(page, index) as usize];
        let count: u16 = child.child_count;
        let new: u32 = self.link(tree, geometry, slot, i, ps);
        let ghost x = (inst, index);
        let ghost cut0 = old(self).cut();
        let ghost cut2 = self.cut();
        proof {
            Self::lemma_cut_opened(
                cut0,
                cut2,
                x,
                run(inst, child.child_start, count as int),
            );
            vstd::seq_lib::to_multiset_len(old(self).list());
            vstd::seq_lib::to_multiset_len(self.list());
        }
        Self::book_opened(
            &mut self.chunk_refs,
            Ghost(cut0),
            Ghost(cut2),
            inst,
            index,
            child.child_start,
            count,
        );
        wants_remove(&mut self.wanted, (inst, index / 0x1_0000));
        wants_remove(&mut self.wanted, (inst, child.child_start / 0x1_0000));
        wants_remove(
            &mut self.wanted,
            (inst, (child.child_start + count as u32 - 1) / 0x1_0000),
        );
        self.cut_size = self.cut_size - 1 + count as usize;
        self.generation = self.generation + 1;
        new
    }

    proof fn lemma_cut_opened(
        cut: Multiset<IndexNode>,
        cut2: Multiset<IndexNode>,
        x: IndexNode,
        kids: Seq<IndexNode>,
    )
        requires
            cut2.insert(x) == cut.add(kids.to_multiset()),
            cut.count(x) > 0,
        ensures
            cut2 == cut.remove(x).add(kids.to_multiset()),
            cut2.len() == cut.len() - 1 + kids.len(),
    {
        vstd::seq_lib::to_multiset_len(kids);
        assert(cut2.insert(x).remove(x) =~= cut2);
        assert(cut2 =~= cut.remove(x).add(kids.to_multiset()));
    }

    /// Brings the counts by chunk from the cut before an expansion to the cut after it.
    fn book_opened(
        refs: &mut Vec<AHashMap<u32, u32>>,
        Ghost(cut): Ghost<Multiset<IndexNode>>,
        Ghost(cut2): Ghost<Multiset<IndexNode>>,
        inst: u8,
        index: u32,
        start: u32,
        count: u16,
    )
        requires
            inst < old(refs)@.len() <= 256,
            refs_all_match(old(refs)@, cut),
            cut2.insert((inst, index)) == cut.add(run(inst, start, count as int).to_multiset()),
            cut.count((inst, index)) > 0,
            count > 0,
            start + count <= u32::MAX,
            cut.len() <= u32::MAX,
            cut2.len() <= u32::MAX,
        ensures
            final(refs)@.len() == old(refs)@.len(),
            refs_all_match(final(refs)@, cut2),
    {
        let ghost x = (inst, index);
        proof {
            assert(refs_match(words(refs@[inst as int]), cut, inst));
            Self::lemma_refs_before_opening(
                words(refs@[inst as int]),
                cut,
                cut2,
                x,
                start,
                count as int,
            );
        }
        Self::refs_add(refs, inst, index / 0x1_0000, -1);
        Self::refs_span(refs, inst, start, count, false);
        proof {
            assert forall|k: int| 0 <= k < refs@.len() implies refs_match(
                words(#[trigger] refs@[k]),
                cut2,
                k as u8,
            ) by {
                assert(refs_match(words(old(refs)@[k]), cut, k as u8));
                assert forall|c: u32| #[trigger]
                    refs_at(words(refs@[k]), c) == in_chunk(cut2, k as u8, c as int) by {
                    assert(refs_at(words(old(refs)@[k]), c) == in_chunk(cut, k as u8, c as int));
                    Self::lemma_refs_opened(
                        cut,
                        cut2,
                        x,
                        start,
                        count as int,
                        k as u8,
                        c as int,
                    );
                }
            }
        }
    }

    /// The counts can be brought from one cut to the next.
    proof fn lemma_refs_before_opening(
        m: Map<u32, u32>,
        cut: Multiset<IndexNode>,
        cut2: Multiset<IndexNode>,
        x: IndexNode,
        start: u32,
        count: int,
    )
        requires
            refs_match(m, cut, x.0),
            cut2.insert(x) == cut.add(run(x.0, start, count).to_multiset()),
            cut.count(x) > 0,
            0 <= count,
            start + count <= u32::MAX,
            cut2.len() <= u32::MAX,
            cut.len() <= u32::MAX,
        ensures
            1 <= refs_at(m, chunk_of(x.1 as int) as u32),
            forall|c: u32| #[trigger]
                refs_at(m, c) + overlap(start as int, start + count, c as int) - (if c == chunk_of(
                    x.1 as int,
                ) {
                    1int
                } else {
                    0
                }) <= u32::MAX,
    {
        let own = chunk_of(x.1 as int) as u32;
        lemma_in_chunk_insert(cut.remove(x), x, x.0, own as int);
        assert(cut.remove(x).insert(x) =~= cut);
        assert(refs_at(m, own) == in_chunk(cut, x.0, own as int));
        assert forall|c: u32| #[trigger]
            refs_at(m, c) + overlap(start as int, start + count, c as int) - (if c == chunk_of(
                x.1 as int,
            ) {
                1int
            } else {
                0
            }) <= u32::MAX by {
            assert(refs_at(m, c) == in_chunk(cut, x.0, c as int));
            Self::lemma_refs_opened(cut, cut2, x, start, count, x.0, c as int);
            lemma_in_chunk_le_len(cut2, x.0, c as int);
        }
    }

    /// Handing a fresh run to a new node opens a child.
    proof fn lemma_open_is_opened(
        nodes: Seq<Node>,
        arena: Seq<Child>,
        nodes2: Seq<Node>,
        arena2: Seq<Child>,
        owner: Seq<Owner>,
        free: Seq<Vec<u32>>,
        s: int,
        i: int,
        new: int,
    )
        requires
            0 <= s < nodes.len(),
            nodes[s].alive,
            node_ok(nodes, arena, 256, s),
            0 <= i < nodes[s].child_count,
            unexpanded(cell(nodes[s], arena, i)),
            0 <= new <= nodes.len(),
            new < nodes.len() ==> !nodes[new].alive,
            new < u32::MAX,
            owners_ok(nodes, free, owner),
            nodes2.len() == (if new < nodes.len() {
                nodes.len()
            } else {
                nodes.len() + 1
            }),
            forall|t: int|
                0 <= t < nodes.len() && t != s && t != new ==> #[trigger] nodes2[t] == nodes[t],
            nodes2[s] == (Node { expanded: (nodes[s].expanded + 1) as u16, ..nodes[s] }),
            nodes2[new].alive,
            nodes2[new].inst == nodes[s].inst,
            nodes2[new].parent == s,
            nodes2[new].index == nodes[s].child_start + i,
            nodes2[new].child_count > 0,
            nodes2[new].child_start + nodes2[new].child_count <= u32::MAX,
            nodes2[new].expanded == 0,
            owned(
                owner,
                nodes2[new].children_base as int,
                nodes2[new].child_count as int,
                Owner::Fresh,
            ),
            owner.len() == arena2.len(),
            arena.len() <= arena2.len(),
            forall|y: int|
                0 <= y < arena.len() && !(nodes2[new].children_base <= y
                    < nodes2[new].children_base + nodes2[new].child_count) && y
                    != nodes[s].children_base + i ==> #[trigger] arena2[y] == arena[y],
            arena2[nodes[s].children_base + i].slot == new,
            forall|g: int|
                0 <= g < nodes2[new].child_count ==> unexpanded(
                    (#[trigger] arena2[nodes2[new].children_base + g]).slot,
                ),
            forall|t: int|
                0 <= t < nodes.len() && (#[trigger] nodes[t]).alive ==> nodes[t].children_base
                    + nodes[t].child_count <= arena.len(),
        ensures
            opened(nodes, arena, nodes2, arena2, s, i, new),
            owners_ok(
                nodes2,
                free,
                handed(
                    owner,
                    nodes2[new].children_base as int,
                    nodes2[new].child_count as int,
                    Owner::Slot(new),
                ),
            ),
    {
        let n = nodes2[new];
        assert forall|t: int, j: int|
            0 <= t < nodes.len() && nodes[t].alive && 0 <= j < nodes[t].child_count && (t != s || j
                != i) implies #[trigger] cell(nodes[t], arena2, j) == cell(nodes[t], arena, j) by {
            let y = nodes[t].children_base + j;
            assert(owned(
                owner,
                nodes[t].children_base as int,
                nodes[t].child_count as int,
                Owner::Slot(t),
            ));
            assert(owner[y] == Owner::Slot(t));
            if n.children_base <= y < n.children_base + n.child_count {
                assert(owner[y] == Owner::Fresh);
            }
            if y == nodes[s].children_base + i {
                assert(owned(
                    owner,
                    nodes[s].children_base as int,
                    nodes[s].child_count as int,
                    Owner::Slot(s),
                ));
                assert(owner[y] == Owner::Slot(s));
            }
            assert(arena2[y] == arena[y]);
        }
        assert forall|j: int| 0 <= j < n.child_count implies unexpanded(
            #[trigger] cell(n, arena2, j),
        ) by {
            assert(unexpanded(arena2[n.children_base + j].slot));
        }
        let after = handed(
            owner,
            n.children_base as int,
            n.child_count as int,
            Owner::Slot(new),
        );
        assert forall|t: int| 0 <= t < nodes2.len() && (#[trigger] nodes2[t]).alive implies owned(
            after,
            nodes2[t].children_base as int,
            nodes2[t].child_count as int,
            Owner::Slot(t),
        ) by {
            if t != new {
                assert(nodes[t].alive);
                lemma_handed_elsewhere(
                    owner,
                    n.children_base as int,
                    n.child_count as int,
                    Owner::Fresh,
                    Owner::Slot(new),
                    nodes[t].children_base as int,
                    nodes[t].child_count as int,
                    Owner::Slot(t),
                );
            }
        }
        assert forall|d: int, l: int|
            0 <= d < free.len() && 0 <= l < free[d]@.len() implies owned(
            after,
            (#[trigger] free[d]@[l]) as int,
            d,
            Owner::Free(d, l),
        ) by {
            lemma_handed_elsewhere(
                owner,
                n.children_base as int,
                n.child_count as int,
                Owner::Fresh,
                Owner::Slot(new),
                free[d]@[l] as int,
                d,
                Owner::Free(d, l),
            );
        }
    }

    /// Child `i` of the node in `slot` is a node of the cut, and what has to be read to expand
    /// it lies within its tree.
    pub open spec fn can_expand(
        &self,
        trees: Seq<TreeView>,
        slot: u32,
        i: u16,
        max_splats: usize,
    ) -> bool {
        let node = self.nodes@[slot as int];
        let tree = trees[node.inst as int];
        let index = node.child_start + i;
        let count = splat_of(tree, index).child_count;
        &&& slot < self.nodes@.len()
        &&& node.alive
        &&& i < node.child_count
        &&& unexpanded(cell(node, self.arena@, i as int))
        &&& node.inst < trees.len()
        &&& tree.has_chunk(chunk_of(index)) ==> {
            &&& tree.place(index) < tree.splats@.len()
            &&& count > 0 && self.cut_size - 1 + count <= max_splats ==> {
                &&& tree.sound_at(tree.place(index))
                &&& self.arena@.len() + count <= u32::MAX
            }
        }
    }

    /// Trying to expand child `i` of the node in `slot` turns the cut into `after`, with outcome
    /// `r`.
    pub open spec fn expands_to<
        D: Fn([u16; 3], [u16; 3]) -> Scale,
        W: Fn(u16) -> Scale,
        B: Fn(Scale, Scale) -> (u16, u16),
    >(
        &self,
        after: IncrementalCut,
        trees: Seq<TreeView>,
        geometry: Geometry<D, W, B>,
        slot: u32,
        i: u16,
        ps: Scale,
        max_splats: usize,
        r: ExpandOutcome,
    ) -> bool {
        let node = self.nodes@[slot as int];
        let tree = trees[node.inst as int];
        let index = node.child_start + i;
        let child = splat_of(tree, index);
        let x = (node.inst, index as u32);
        let first = first_kid_chunk(tree, index);
        let last = last_kid_chunk(tree, index);
        let wanted = wants(self.wanted);
        if !tree.has_chunk(chunk_of(index)) {
            // The node itself is not there: its chunk is wanted.
            &&& r == ExpandOutcome::NotResident
            &&& after == (IncrementalCut { wanted: after.wanted, ..*self })
            &&& wants(after.wanted) == with_want(
                wanted,
                self.passes,
                node.inst,
                chunk_of(index) as u32,
                ps,
            )
        } else if child.child_count == 0 {
            &&& r == ExpandOutcome::Terminal
            &&& after == (IncrementalCut { arena: after.arena, ..*self })
            &&& after.arena@ == self.arena@.update(
                node.children_base + i,
                Child { slot: CUT_TERMINAL, ..self.arena@[node.children_base + i] },
            )
            &&& after.list() == self.list()
        } else if self.cut_size - 1 + child.child_count > max_splats {
            &&& r == ExpandOutcome::Misfit(child.child_count)
            &&& after == *self
        } else if !tree.has_chunk(first) || !tree.has_chunk(last) {
            // Children are missing: the first chunk that is not there is wanted.
            &&& r == ExpandOutcome::NotResident
            &&& after == (IncrementalCut { wanted: after.wanted, ..*self })
            &&& wants(after.wanted) == with_want(
                wanted,
                self.passes,
                node.inst,
                (if !tree.has_chunk(first) {
                    first
                } else {
                    last
                }) as u32,
                ps,
            )
        } else {
            let new = r->Expanded_0;
            let base = after.nodes@[new as int].children_base;
            let free = runs(self.arena_free@);
            let cells = self.arena@.len() as int;
            &&& r is Expanded
            &&& self.cut().count(x) > 0
            &&& after.cut() == self.cut().remove(x).add(
                run(node.inst, child.child_start, child.child_count as int).to_multiset(),
            )
            &&& after.cut_size == self.cut_size - 1 + child.child_count
            &&& after.generation == self.generation + 1
            &&& wants(after.wanted) == wanted.remove((node.inst, chunk_of(index) as u32)).remove(
                (node.inst, first as u32),
            ).remove((node.inst, last as u32))
            &&& opened(
                self.nodes@,
                self.arena@,
                after.nodes@,
                after.arena@,
                slot as int,
                i as int,
                new as int,
            )
            &&& after.nodes@[new as int] == opened_node(
                tree,
                geometry,
                node.inst,
                index as u32,
                slot,
                ps,
                base,
            )
            &&& forall|g: int|
                0 <= g < child.child_count ==> #[trigger] after.arena@[base + g] == fresh_cell(
                    kid_splats(tree, index)[g],
                )
            &&& new == next_slot(self.nodes@, self.node_free@)
            &&& after.node_free@ == slots_left(self.node_free@)
            &&& base == next_run(cells, free, child.child_count)
            &&& runs(after.arena_free@) == runs_left(free, child.child_count)
            &&& after.arena@.len() == cells_after(cells, free, child.child_count)
            &&& after.arena@[node.children_base + i] == (Child {
                slot: new,
                ..self.arena@[node.children_base + i]
            })
            &&& forall|x: int|
                0 <= x < cells && x != node.children_base + i && !(base <= x < base
                    + child.child_count) ==> #[trigger] after.arena@[x] == self.arena@[x]
            &&& after == (IncrementalCut {
                nodes: after.nodes,
                node_free: after.node_free,
                arena: after.arena,
                arena_free: after.arena_free,
                owner: after.owner,
                cut_size: after.cut_size,
                chunk_refs: after.chunk_refs,
                wanted: after.wanted,
                generation: after.generation,
                ..*self
            })
        }
    }

    /// Expands child `i` of the node in `slot`, which is a node of the cut: its own children take
    /// its place in the cut. `ps` is its pixel scale.
    pub fn expand<
        D: Fn([u16; 3], [u16; 3]) -> Scale,
        W: Fn(u16) -> Scale,
        B: Fn(Scale, Scale) -> (u16, u16),
    >(
        &mut self,
        trees: &[TreeView],
        geometry: &Geometry<D, W, B>,
        slot: u32,
        i: u16,
        ps: Scale,
        max_splats: usize,
    ) -> (r: ExpandOutcome)
        requires
            old(self).wf(),
            geometry.lawful(),
            old(self).can_expand(trees@, slot, i, max_splats),
            max_splats <= u32::MAX,
            old(self).generation < u64::MAX,
            old(self).nodes@.len() < CUT_TERMINAL,
        ensures
            final(self).wf(),
            r is Expanded ==> final(self).cut_size <= max_splats,
            old(self).expands_to(
                *final(self),
                trees@,
                *geometry,
                slot,
                i,
                ps,
                max_splats,
                r,
            ),
    {
        let node = self.nodes[slot as usize];
        proof {
            assert(node_ok(
                self.nodes@,
                self.arena@,
                self.lod_ids@.len() as int,
                slot as int,
            ));
            vstd::seq_lib::to_multiset_len(self.list());
        }
        let inst: u8 = node.inst;
        let tree = &trees[inst as usize];
        let index: u32 = node.child_start + i as u32;
        let cell_at: usize = (node.children_base + i as u32) as usize;
        let child = match Self::splat_at(tree, index) {
            Some(child) => child,
            None => {
                Self::want(&mut self.wanted, self.passes, inst, index / 0x1_0000, ps);
                return ExpandOutcome::NotResident;
            },
        };
        let count: u16 = child.child_count;
        if count == 0 {
            let ghost arena0 = self.arena@;
            let mut mine = self.arena[cell_at];
            mine.slot = CUT_TERMINAL;
            self.arena.set(cell_at, mine);
            proof {
                lemma_marked(self.nodes@, arena0, self.arena@, self.lod_ids@.len() as int);
            }
            return ExpandOutcome::Terminal;
        }
        proof {
            lemma_group_has(node, self.arena@, node.child_count as int, i as int);
            lemma_cut_has_share(self.nodes@, self.arena@, self.nodes@.len() as int, slot as int);
        }
        let others: usize = self.cut_size - 1;
        if others > max_splats || count as usize > max_splats - others {
            return ExpandOutcome::Misfit(count);
        }
        let spans = Self::chunk_spans(child.child_start, count);
        let first = spans[0];
        let second = spans[1];
        if !Self::resident(tree, first.0) {
            Self::want(&mut self.wanted, self.passes, inst, first.0, ps);
            return ExpandOutcome::NotResident;
        }
        if second.1 > 0 && !Self::resident(tree, second.0) {
            Self::want(&mut self.wanted, self.passes, inst, second.0, ps);
            return ExpandOutcome::NotResident;
        }
        let new: u32 = self.open(tree, geometry, slot, i, ps);
        ExpandOutcome::Expanded(new)
    }
}

} // verus!
