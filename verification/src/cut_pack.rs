//! Packing an incremental cut: its paged indices, and the chunks it asks for.

use vstd::prelude::*;

use crate::cut::{
    refs_at, refs_match, IncrementalCut, Packed,
};
use crate::cut_model::{
    cell, cell_ok, cut_list, group, in_chunk, lemma_cut_frame, lemma_group_frame, links_ok,
    node_ok, owned, owners_ok, share, Child, IndexNode, Node, Owner, CUT_LEAF, CUT_TERMINAL, NONE,
};
use crate::hash::{words, words_get};
use crate::tree_view::{chunk_of, to_paged, TreeView};

verus! {

/// The node's chunk is not resident.
pub open spec fn missing(trees: Seq<TreeView>) -> spec_fn(IndexNode) -> bool {
    |x: IndexNode| !trees[x.0 as int].has_chunk(chunk_of(x.1 as int))
}

/// The node is one of instance `inst`, and its chunk is resident.
pub open spec fn present(trees: Seq<TreeView>, inst: int) -> spec_fn(IndexNode) -> bool {
    |x: IndexNode| x.0 == inst && trees[inst].has_chunk(chunk_of(x.1 as int))
}

/// Paged indices of those nodes of a list that belong to instance `inst` and are resident.
pub open spec fn placed(trees: Seq<TreeView>, inst: int, list: Seq<IndexNode>) -> Seq<u32> {
    list.filter(present(trees, inst)).map_values(|x: IndexNode| trees[inst].place(x.1 as int))
}

/// A node of the cut below this node is not resident.
pub open spec fn lacks(trees: Seq<TreeView>, node: Node, arena: Seq<Child>) -> bool {
    share(node, arena).filter(missing(trees)).len() > 0
}

/// Of the first `n` slots, those that were not forced and lack a page, in order.
pub open spec fn newly_forced(
    trees: Seq<TreeView>,
    nodes: Seq<Node>,
    arena: Seq<Child>,
    n: int,
) -> Seq<u32>
    decreases n,
{
    if n <= 0 {
        Seq::empty()
    } else if !nodes[n - 1].forced && lacks(trees, nodes[n - 1], arena) {
        newly_forced(trees, nodes, arena, n - 1).push((n - 1) as u32)
    } else {
        newly_forced(trees, nodes, arena, n - 1)
    }
}

/// The table with the nodes marked that lack a page.
pub open spec fn marked(trees: Seq<TreeView>, nodes: Seq<Node>, arena: Seq<Child>) -> Seq<Node> {
    nodes.map_values(
        |n: Node| Node { forced: n.forced || lacks(trees, n, arena), ..n },
    )
}

proof fn lemma_filter_push<A>(s: Seq<A>, p: spec_fn(A) -> bool, x: A)
    ensures
        s.push(x).filter(p) == (if p(x) {
            s.filter(p).push(x)
        } else {
            s.filter(p)
        }),
{
    reveal(Seq::filter);
    assert(s.push(x).drop_last() =~= s);
}

/// One more node of a list is placed, or is missing.
proof fn lemma_placed_push(trees: Seq<TreeView>, inst: int, list: Seq<IndexNode>, x: IndexNode)
    ensures
        placed(trees, inst, list.push(x)) == (if present(trees, inst)(x) {
            placed(trees, inst, list).push(trees[inst].place(x.1 as int))
        } else {
            placed(trees, inst, list)
        }),
{
    let f = |x: IndexNode| trees[inst].place(x.1 as int);
    lemma_filter_push(list, present(trees, inst), x);
    assert(list.filter(present(trees, inst)).push(x).map_values(f) =~= list.filter(
        present(trees, inst),
    ).map_values(f).push(f(x)));
    assert(placed(trees, inst, list.push(x)) =~= list.push(x).filter(
        present(trees, inst),
    ).map_values(f));
    assert(placed(trees, inst, list) =~= list.filter(present(trees, inst)).map_values(f));
}

proof fn lemma_group_grows(node: Node, arena: Seq<Child>, k: int, l: int)
    requires
        0 <= k <= l,
    ensures
        group(node, arena, k).len() <= group(node, arena, l).len(),
    decreases l,
{
    if k < l {
        lemma_group_grows(node, arena, k, l - 1);
    }
}

proof fn lemma_cut_grows(nodes: Seq<Node>, arena: Seq<Child>, m: int, n: int)
    requires
        0 <= m <= n,
    ensures
        cut_list(nodes, arena, m).len() <= cut_list(nodes, arena, n).len(),
    decreases n,
{
    if m < n {
        lemma_cut_grows(nodes, arena, m, n - 1);
    }
}

/// Marks of nodes matter neither to the links nor to the cut.
proof fn lemma_marks_do_not_matter(
    nodes: Seq<Node>,
    nodes2: Seq<Node>,
    arena: Seq<Child>,
    insts: int,
)
    requires
        nodes2.len() == nodes.len(),
        forall|s: int|
            0 <= s < nodes.len() ==> #[trigger] nodes2[s] == (Node {
                forced: nodes2[s].forced,
                ..nodes[s]
            }),
    ensures
        links_ok(nodes, arena, insts) ==> links_ok(nodes2, arena, insts),
        cut_list(nodes2, arena, nodes.len() as int) == cut_list(nodes, arena, nodes.len() as int),
{
    assert forall|s: int| 0 <= s < nodes.len() implies share(#[trigger] nodes[s], arena) == share(
        nodes2[s],
        arena,
    ) by {
        lemma_group_frame(nodes[s], nodes2[s], arena, arena, nodes[s].child_count as int);
    }
    lemma_cut_frame(nodes, arena, nodes2, arena, nodes.len() as int);
    if links_ok(nodes, arena, insts) {
        assert forall|s: int| 0 <= s < nodes2.len() && (#[trigger] nodes2[s]).alive implies node_ok(
            nodes2,
            arena,
            insts,
            s,
        ) by {
            assert(node_ok(nodes, arena, insts, s));
            assert(share(nodes[s], arena) == share(nodes2[s], arena));
            let m = nodes[s];
            assert forall|j: int| 0 <= j < m.child_count implies cell_ok(
                nodes2,
                s,
                j,
                #[trigger] cell(nodes2[s], arena, j),
            ) by {
                assert(cell(nodes2[s], arena, j) == cell(nodes[s], arena, j));
                assert(cell_ok(nodes, s, j, cell(nodes[s], arena, j)));
            }
            if m.parent != NONE {
                assert(cell(
                    nodes2[m.parent as int],
                    arena,
                    m.index - nodes[m.parent as int].child_start,
                ) == cell(
                    nodes[m.parent as int],
                    arena,
                    m.index - nodes[m.parent as int].child_start,
                ));
            }
        }
    }
}

impl IncrementalCut {
    /// The cut has changed since it was packed.
    pub fn needs_pack(&self) -> (r: bool)
        ensures
            r == (self.packed_generation != self.generation),
    {
        self.packed_generation != self.generation
    }

    /// Some node of the cut lies in this chunk of a tree that has this id.
    pub open spec fn refers_to(&self, lod_id: u32, chunk: u32) -> bool {
        exists|inst: int|
            0 <= inst < self.lod_ids@.len() && (#[trigger] self.lod_ids@[inst]) == lod_id
                && in_chunk(self.cut(), inst as u8, chunk as int) > 0
    }

    /// The cut refers to one of these chunks.
    pub open spec fn loses(&self, released: Seq<(u32, u32)>) -> bool {
        exists|k: int|
            0 <= k < released.len() && self.refers_to((#[trigger] released[k]).0, released[k].1)
    }

    /// Noting that a chunk has lost its page turns the cut into `after`: it counts as never packed
    /// if it refers to the chunk, and stays as it is if not.
    pub open spec fn notes_release(&self, after: IncrementalCut, lod_id: u32, chunk: u32) -> bool {
        after == (IncrementalCut {
            packed_generation: if self.refers_to(lod_id, chunk) {
                u64::MAX
            } else {
                self.packed_generation
            },
            ..*self
        })
    }

    /// Noting that these chunks have lost their pages turns the cut into `after`.
    pub open spec fn notes_releases(
        &self,
        after: IncrementalCut,
        released: Seq<(u32, u32)>,
    ) -> bool {
        after == (IncrementalCut {
            packed_generation: if self.loses(released) {
                u64::MAX
            } else {
                self.packed_generation
            },
            ..*self
        })
    }

    /// Takes notice that a chunk has lost its page: if the cut refers to it, the cut has to be
    /// packed again.
    pub fn note_chunk_released(&mut self, lod_id: u32, chunk: u32)
        requires
            old(self).wf(),
            old(self).generation < u64::MAX,
        ensures
            final(self).wf(),
            old(self).notes_release(*final(self), lod_id, chunk),
    {
        let mut inst: usize = 0;
        while inst < self.lod_ids.len()
            invariant
                inst <= self.lod_ids@.len(),
                self.wf(),
                *self == *old(self),
                forall|k: int|
                    0 <= k < inst && (#[trigger] self.lod_ids@[k]) == lod_id ==> in_chunk(
                        self.cut(),
                        k as u8,
                        chunk as int,
                    ) == 0,
            decreases self.lod_ids@.len() - inst,
        {
            if self.lod_ids[inst] == lod_id {
                proof {
                    let m = words(self.chunk_refs@[inst as int]);
                    assert(refs_match(m, self.cut(), inst as u8));
                    assert(refs_at(m, chunk) == in_chunk(self.cut(), inst as u8, chunk as int));
                }
                match words_get(&self.chunk_refs[inst], chunk) {
                    Some(_) => {
                        self.packed_generation = u64::MAX;
                        return;
                    },
                    None => {},
                }
            }
            inst += 1;
        }
    }

    /// The nodes of the cut.
    pub fn cut_set_for_test(&self) -> (r: Vec<(u8, u32)>)
        requires
            self.wf(),
        ensures
            r@ == self.list(),
    {
        let mut out: Vec<(u8, u32)> = Vec::new();
        let mut slot: usize = 0;
        while slot < self.nodes.len()
            invariant
                self.wf(),
                slot <= self.nodes@.len(),
                out@ == cut_list(self.nodes@, self.arena@, slot as int),
            decreases self.nodes@.len() - slot,
        {
            let node = self.nodes[slot];
            if node.alive {
                proof {
                    assert(node_ok(
                        self.nodes@,
                        self.arena@,
                        self.lod_ids@.len() as int,
                        slot as int,
                    ));
                }
                let ghost before = out@;
                let mut i: u16 = 0;
                proof {
                    assert(before + group(node, self.arena@, 0) =~= before);
                }
                while i < node.child_count
                    invariant
                        self.wf(),
                        i <= node.child_count,
                        node.child_start + node.child_count <= u32::MAX,
                        node.children_base + node.child_count <= self.arena@.len(),
                        out@ == before + group(node, self.arena@, i as int),
                    decreases node.child_count - i,
                {
                    let c = self.arena[(node.children_base + i as u32) as usize];
                    assert(c.slot == cell(node, self.arena@, i as int));
                    if c.slot == CUT_LEAF || c.slot
                        == CUT_TERMINAL {
                        out.push((node.inst, node.child_start + i as u32));
                    }
                    proof {
                        assert(out@ =~= before + group(node, self.arena@, i + 1));
                    }
                    i += 1;
                }
            }
            proof {
                assert(out@ =~= cut_list(self.nodes@, self.arena@, slot + 1));
            }
            slot += 1;
        }
        out
    }

    /// Places one node, or counts it as evicted.
    fn pack_child(
        trees: &[TreeView],
        inst: u8,
        index: u32,
        indices: &mut Vec<Vec<u32>>,
        evicted: &mut u32,
        Ghost(list): Ghost<Seq<IndexNode>>,
    ) -> (gone: bool)
        requires
            inst < trees@.len(),
            old(indices)@.len() == trees@.len(),
            forall|k: int|
                0 <= k < trees@.len() ==> (#[trigger] old(indices)@[k])@ == placed(
                    trees@,
                    k,
                    list,
                ),
            *old(evicted) == list.filter(missing(trees@)).len(),
            list.len() < u32::MAX,
        ensures
            final(indices)@.len() == trees@.len(),
            forall|k: int|
                0 <= k < trees@.len() ==> (#[trigger] final(indices)@[k])@ == placed(
                    trees@,
                    k,
                    list.push((inst, index)),
                ),
            *final(evicted) == list.push((inst, index)).filter(missing(trees@)).len(),
            gone == missing(trees@)((inst, index)),
    {
        let ghost x = (inst, index);
        let ghost before = indices@;
        let tree = &trees[inst as usize];
        let chunk: u32 = index / 0x1_0000;
        proof {
            lemma_filter_push(list, missing(trees@), x);
            list.lemma_filter_len(missing(trees@));
        }
        if !IncrementalCut::resident(tree, chunk) {
            *evicted = *evicted + 1;
            proof {
                assert forall|k: int| 0 <= k < trees@.len() implies (#[trigger] indices@[k])@
                    == placed(trees@, k, list.push(x)) by {
                    lemma_placed_push(trees@, k, list, x);
                }
            }
            return true;
        }
        let page: u32 = tree.chunk_to_page[chunk as usize];
        let paged: u32 = to_paged(page, index);
        indices[inst as usize].push(paged);
        proof {
            assert forall|k: int| 0 <= k < trees@.len() implies (#[trigger] indices@[k])@ == placed(
                trees@,
                k,
                list.push(x),
            ) by {
                assert(before[k]@ == placed(trees@, k, list));
                lemma_placed_push(trees@, k, list, x);
            }
        }
        false
    }

    /// Packs the children of the node in `slot`; true if one of them is not resident.
    fn pack_node(
        &self,
        trees: &[TreeView],
        slot: usize,
        indices: &mut Vec<Vec<u32>>,
        evicted: &mut u32,
    ) -> (gone: bool)
        requires
            self.wf(),
            self.lod_ids@.len() <= trees@.len(),
            slot < self.nodes@.len(),
            old(indices)@.len() == trees@.len(),
            forall|k: int|
                0 <= k < trees@.len() ==> (#[trigger] old(indices)@[k])@ == placed(
                    trees@,
                    k,
                    cut_list(self.nodes@, self.arena@, slot as int),
                ),
            *old(evicted) == cut_list(self.nodes@, self.arena@, slot as int).filter(
                missing(trees@),
            ).len(),
        ensures
            final(indices)@.len() == trees@.len(),
            forall|k: int|
                0 <= k < trees@.len() ==> (#[trigger] final(indices)@[k])@ == placed(
                    trees@,
                    k,
                    cut_list(self.nodes@, self.arena@, slot + 1),
                ),
            *final(evicted) == cut_list(self.nodes@, self.arena@, slot + 1).filter(
                missing(trees@),
            ).len(),
            gone == lacks(trees@, self.nodes@[slot as int], self.arena@),
    {
        let node = self.nodes[slot];
        let ghost before = cut_list(self.nodes@, self.arena@, slot as int);
        let ghost after = cut_list(self.nodes@, self.arena@, slot + 1);
        if !node.alive {
            proof {
                reveal(Seq::filter);
                assert(after =~= before);
            }
            return false;
        }
        proof {
            assert(node_ok(
                self.nodes@,
                self.arena@,
                self.lod_ids@.len() as int,
                slot as int,
            ));
            assert(before + group(node, self.arena@, 0) =~= before);
            lemma_cut_grows(self.nodes@, self.arena@, slot + 1, self.nodes@.len() as int);
            reveal(Seq::filter);
        }
        let mut gone = false;
        let mut i: u16 = 0;
        while i < node.child_count
            invariant
                self.wf(),
                i <= node.child_count,
                node.inst < trees@.len(),
                node.child_start + node.child_count <= u32::MAX,
                node.children_base + node.child_count <= self.arena@.len(),
                before.len() + group(node, self.arena@, node.child_count as int).len()
                    <= u32::MAX,
                indices@.len() == trees@.len(),
                forall|k: int|
                    0 <= k < trees@.len() ==> (#[trigger] indices@[k])@ == placed(
                        trees@,
                        k,
                        before + group(node, self.arena@, i as int),
                    ),
                *evicted == (before + group(node, self.arena@, i as int)).filter(
                    missing(trees@),
                ).len(),
                gone == (group(node, self.arena@, i as int).filter(missing(trees@)).len() > 0),
            decreases node.child_count - i,
        {
            let c = self.arena[(node.children_base + i as u32) as usize];
            assert(c.slot == cell(node, self.arena@, i as int));
            let ghost sofar = group(node, self.arena@, i as int);
            if c.slot == CUT_LEAF || c.slot == CUT_TERMINAL {
                let index: u32 = node.child_start + i as u32;
                proof {
                    lemma_group_grows(node, self.arena@, i + 1, node.child_count as int);
                    lemma_filter_push(sofar, missing(trees@), (node.inst, index));
                    assert((before + sofar).push((node.inst, index)) =~= before + sofar.push(
                        (node.inst, index),
                    ));
                }
                let missed = Self::pack_child(
                    trees,
                    node.inst,
                    index,
                    indices,
                    evicted,
                    Ghost(before + sofar),
                );
                gone = gone || missed;
            }
            i += 1;
        }
        proof {
            assert(after =~= before + group(node, self.arena@, node.child_count as int));
        }
        gone
    }

    /// Packing turns the cut into `after`: the nodes that lack a page are marked, and the cut
    /// counts as packed.
    pub open spec fn packs_to(&self, after: IncrementalCut, trees: Seq<TreeView>) -> bool {
        &&& after == (IncrementalCut {
            nodes: after.nodes,
            forced: after.forced,
            packed_generation: self.generation,
            ..*self
        })
        &&& after.nodes@ == marked(trees, self.nodes@, self.arena@)
        &&& after.forced@ == self.forced@ + newly_forced(
            trees,
            self.nodes@,
            self.arena@,
            self.nodes@.len() as int,
        )
        &&& after.list() == self.list()
    }

    /// The paged indices of the cut, under the page tables of `trees`. A node whose chunk is not
    /// resident is left out and counted, and the node above it is marked and listed as forced.
    pub fn pack(&mut self, trees: &[TreeView]) -> (r: Packed)
        requires
            old(self).wf(),
            old(self).lod_ids@.len() <= trees@.len(),
        ensures
            final(self).wf(),
            old(self).packs_to(*final(self), trees@),
            r.indices@.len() == trees@.len(),
            forall|k: int|
                0 <= k < trees@.len() ==> (#[trigger] r.indices@[k])@ == placed(
                    trees@,
                    k,
                    old(self).list(),
                ),
            r.evicted == old(self).list().filter(missing(trees@)).len(),
    {
        let mut indices: Vec<Vec<u32>> = Vec::new();
        let mut evicted: u32 = 0;
        while indices.len() < trees.len()
            invariant
                indices@.len() <= trees@.len(),
                forall|k: int|
                    0 <= k < indices@.len() ==> (#[trigger] indices@[k])@ == placed(
                        trees@,
                        k,
                        Seq::empty(),
                    ),
            decreases trees@.len() - indices@.len(),
        {
            indices.push(Vec::new());
            proof {
                reveal(Seq::filter);
                assert forall|k: int| 0 <= k < indices@.len() implies (#[trigger] indices@[k])@
                    == placed(trees@, k, Seq::empty()) by {
                    assert(placed(trees@, k, Seq::empty()) =~= Seq::<u32>::empty());
                }
            }
        }
        let ghost nodes0 = self.nodes@;
        let ghost arena0 = self.arena@;
        let ghost start = *self;
        let mut forced_now: Vec<u32> = Vec::new();
        let mut slot: usize = 0;
        proof {
            reveal(Seq::filter);
        }
        while slot < self.nodes.len()
            invariant
                self.wf(),
                *self == start,
                nodes0 == self.nodes@,
                arena0 == self.arena@,
                self.lod_ids@.len() <= trees@.len(),
                slot <= nodes0.len(),
                indices@.len() == trees@.len(),
                forall|k: int|
                    0 <= k < trees@.len() ==> (#[trigger] indices@[k])@ == placed(
                        trees@,
                        k,
                        cut_list(nodes0, arena0, slot as int),
                    ),
                evicted == cut_list(nodes0, arena0, slot as int).filter(missing(trees@)).len(),
                forced_now@ == newly_forced(trees@, nodes0, arena0, slot as int),
            decreases nodes0.len() - slot,
        {
            let gone = self.pack_node(trees, slot, &mut indices, &mut evicted);
            if gone && !self.nodes[slot].forced {
                forced_now.push(slot as u32);
            }
            slot += 1;
        }
        self.mark_forced(Ghost(trees@), forced_now);
        self.packed_generation = self.generation;
        Packed { indices, evicted }
    }

    /// Marks and lists the nodes that lack a page.
    fn mark_forced(&mut self, Ghost(trees): Ghost<Seq<TreeView>>, forced_now: Vec<u32>)
        requires
            old(self).wf(),
            forced_now@ == newly_forced(
                trees,
                old(self).nodes@,
                old(self).arena@,
                old(self).nodes@.len() as int,
            ),
        ensures
            final(self).wf(),
            *final(self) == (IncrementalCut {
                nodes: final(self).nodes,
                forced: final(self).forced,
                ..*old(self)
            }),
            final(self).nodes@ == marked(trees, old(self).nodes@, old(self).arena@),
            final(self).forced@ == old(self).forced@ + forced_now@,
            final(self).list() == old(self).list(),
    {
        let ghost nodes0 = self.nodes@;
        let ghost arena0 = self.arena@;
        let ghost forced0 = self.forced@;
        let ghost start = *self;
        let mut k: usize = 0;
        proof {
            assert(forced0 + forced_now@.take(0) =~= forced0);
            lemma_newly_forced(trees, nodes0, arena0, nodes0.len() as int);
        }
        while k < forced_now.len()
            invariant
                k <= forced_now@.len(),
                self.nodes@.len() == nodes0.len(),
                nodes0.len() <= u32::MAX,
                forall|j: int|
                    0 <= j < forced_now@.len() ==> (#[trigger] forced_now@[j]) < nodes0.len(),
                self.forced@ == forced0 + forced_now@.take(k as int),
                *self == (IncrementalCut { nodes: self.nodes, forced: self.forced, ..start }),
                forall|s: int|
                    0 <= s < nodes0.len() ==> #[trigger] self.nodes@[s] == (Node {
                        forced: nodes0[s].forced || forced_now@.take(k as int).contains(s as u32),
                        ..nodes0[s]
                    }),
            decreases forced_now@.len() - k,
        {
            let slot: u32 = forced_now[k];
            let mut node = self.nodes[slot as usize];
            node.forced = true;
            self.nodes.set(slot as usize, node);
            self.forced.push(slot);
            proof {
                let less = forced_now@.take(k as int);
                let more = forced_now@.take(k + 1);
                assert(more =~= less.push(slot));
                assert(self.forced@ =~= forced0 + more);
                assert forall|s: int| 0 <= s < nodes0.len() implies #[trigger] self.nodes@[s] == (
                Node { forced: nodes0[s].forced || more.contains(s as u32), ..nodes0[s] }) by {
                    if less.contains(s as u32) {
                        let j = choose|j: int| 0 <= j < less.len() && less[j] == s as u32;
                        assert(more[j] == s as u32);
                    }
                    if s == slot {
                        assert(more[k as int] == slot);
                    } else if more.contains(s as u32) {
                        let j = choose|j: int| 0 <= j < more.len() && more[j] == s as u32;
                        assert(less[j] == s as u32);
                    }
                }
            }
            k += 1;
        }
        proof {
            assert(forced_now@.take(k as int) =~= forced_now@);
            assert(self.nodes@ =~= marked(trees, nodes0, arena0)) by {
                assert forall|s: int| 0 <= s < nodes0.len() implies self.nodes@[s] == marked(
                    trees,
                    nodes0,
                    arena0,
                )[s] by {
                    assert(self.nodes@[s] == (Node {
                        forced: nodes0[s].forced || forced_now@.contains(s as u32),
                        ..nodes0[s]
                    }));
                }
            }
            lemma_marks_do_not_matter(nodes0, self.nodes@, arena0, self.lod_ids@.len() as int);
            assert(owners_ok(self.nodes@, self.arena_free@, self.owner@)) by {
                assert forall|s: int|
                    0 <= s < self.nodes@.len() && (#[trigger] self.nodes@[s]).alive implies owned(
                    self.owner@,
                    self.nodes@[s].children_base as int,
                    self.nodes@[s].child_count as int,
                    Owner::Slot(s),
                ) by {
                    assert(nodes0[s].alive);
                }
            }
        }
    }
}

/// A slot is newly forced if and only if its node was not forced and lacks a page.
proof fn lemma_newly_forced(trees: Seq<TreeView>, nodes: Seq<Node>, arena: Seq<Child>, n: int)
    requires
        0 <= n <= nodes.len(),
        nodes.len() <= u32::MAX,
    ensures
        forall|s: int|
            0 <= s < nodes.len() ==> (#[trigger] newly_forced(trees, nodes, arena, n).contains(
                s as u32,
            ) <==> s < n && !nodes[s].forced && lacks(trees, nodes[s], arena)),
        forall|j: int|
            0 <= j < newly_forced(trees, nodes, arena, n).len() ==> (#[trigger] newly_forced(
                trees,
                nodes,
                arena,
                n,
            )[j]) < nodes.len(),
    decreases n,
{
    if n > 0 {
        lemma_newly_forced(trees, nodes, arena, n - 1);
        let less = newly_forced(trees, nodes, arena, n - 1);
        let all = newly_forced(trees, nodes, arena, n);
        assert forall|s: int| 0 <= s < nodes.len() implies (#[trigger] all.contains(s as u32)
            <==> s < n && !nodes[s].forced && lacks(trees, nodes[s], arena)) by {
            assert(less.contains(s as u32) <==> s < n - 1 && !nodes[s].forced && lacks(
                trees,
                nodes[s],
                arena,
            ));
            if less.contains(s as u32) {
                let j = choose|j: int| 0 <= j < less.len() && less[j] == s as u32;
                assert(all[j] == s as u32);
            }
            if all.len() > less.len() {
                assert(all[all.len() - 1] == (n - 1) as u32);
                if all.contains(s as u32) && s != n - 1 {
                    let j = choose|j: int| 0 <= j < all.len() && all[j] == s as u32;
                    assert(less[j] == s as u32);
                }
            }
        }
    }
}

} // verus!
