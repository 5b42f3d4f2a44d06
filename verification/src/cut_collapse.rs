//! Taking an expanded node back: it takes the place of its children.

use ahash::AHashMap;
use vstd::multiset::Multiset;
use vstd::prelude::*;

use crate::cut::{
    refs_all_match, refs_at, refs_match, runs, runs_with, with_want, IncrementalCut, ARENA_BUCKETS,
};
use crate::cut_model::{
    cell, closed_up, in_chunk, lemma_closed_up, lemma_group_misses, lemma_in_chunk_insert,
    lemma_in_chunk_le_len, lemma_nothing_below, node_ok, overlap, owned, run, Child, IndexNode, Node,
    Owner, CUT_LEAF, NONE,
};
use crate::hash::{wants, wants_remove, words};
use crate::tree_view::{chunk_of, TreeView};

verus! {

impl IncrementalCut {
    /// Takes the node in `slot`, none of whose children is expanded, out of the table.
    fn unlink(&mut self, slot: u32)
        requires
            old(self).table_ok(),
            slot < old(self).nodes@.len(),
            old(self).nodes@[slot as int].alive,
            old(self).nodes@[slot as int].parent != NONE,
            old(self).nodes@[slot as int].expanded == 0,
        ensures
            final(self).table_ok(),
            *final(self) == (IncrementalCut {
                nodes: final(self).nodes,
                node_free: final(self).node_free,
                arena: final(self).arena,
                arena_free: final(self).arena_free,
                arena_leaked: final(self).arena_leaked,
                owner: final(self).owner,
                ..*old(self)
            }),
            closed_up(
                old(self).nodes@,
                old(self).arena@,
                final(self).nodes@,
                final(self).arena@,
                slot as int,
            ),
            ({
                let node = old(self).nodes@[slot as int];
                let parent = old(self).nodes@[node.parent as int];
                let at = parent.children_base + (node.index - parent.child_start);
                &&& final(self).nodes@[slot as int] == (Node {
                    alive: false,
                    child_count: 0,
                    expanded: 0,
                    parent: NONE,
                    ..node
                })
                &&& final(self).node_free@ == old(self).node_free@.push(slot)
                &&& final(self).arena@ == old(self).arena@.update(
                    at,
                    Child { slot: CUT_LEAF, ..old(self).arena@[at] },
                )
                &&& runs(final(self).arena_free@) == runs_with(
                    runs(old(self).arena_free@),
                    node.children_base,
                    node.child_count,
                )
                &&& final(self).arena_leaked == old(self).arena_leaked + (if node.child_count
                    < ARENA_BUCKETS {
                    0
                } else {
                    node.child_count as int
                })
            }),
            ({
                let node = old(self).nodes@[slot as int];
                let x = (node.inst, node.index);
                &&& final(self).cut().count(x) > 0
                &&& final(self).cut().add(
                    run(node.inst, node.child_start, node.child_count as int).to_multiset(),
                ) == old(self).cut().insert(x)
            }),
    {
        let node = self.nodes[slot as usize];
        let ghost nodes0 = self.nodes@;
        let ghost arena0 = self.arena@;
        let ghost insts = self.lod_ids@.len() as int;
        proof {
            assert(node_ok(nodes0, arena0, insts, slot as int));
            assert(node_ok(nodes0, arena0, insts, node.parent as int));
            lemma_nothing_below(nodes0, arena0, insts, slot as int, slot as int);
        }
        let mut parent = self.nodes[node.parent as usize];
        let my_i: u32 = node.index - parent.child_start;
        let cell_at: usize = (parent.children_base + my_i) as usize;
        let mut mine = self.arena[cell_at];
        mine.slot = CUT_LEAF;
        self.arena.set(cell_at, mine);
        proof {
            lemma_group_misses(
                parent,
                arena0,
                parent.child_count as int,
                my_i as int,
            );
        }
        parent.expanded = parent.expanded - 1;
        self.nodes.set(node.parent as usize, parent);
        Self::free_node(&mut self.nodes, &mut self.node_free, slot);
        proof {
            assert forall|t: int, j: int|
                0 <= t < nodes0.len() && nodes0[t].alive && 0 <= j < nodes0[t].child_count && (t
                    != node.parent || j != my_i) implies #[trigger] cell(
                nodes0[t],
                self.arena@,
                j,
            ) == cell(nodes0[t], arena0, j) by {
                let y = nodes0[t].children_base + j;
                assert(node_ok(nodes0, arena0, insts, t));
                assert(owned(
                    self.owner@,
                    nodes0[t].children_base as int,
                    nodes0[t].child_count as int,
                    Owner::Slot(t),
                ));
                assert(self.owner@[y] == Owner::Slot(t));
                if y == cell_at {
                    assert(owned(
                        self.owner@,
                        parent.children_base as int,
                        parent.child_count as int,
                        Owner::Slot(node.parent as int),
                    ));
                    assert(self.owner@[y] == Owner::Slot(node.parent as int));
                }
            }
            assert(closed_up(nodes0, arena0, self.nodes@, self.arena@, slot as int));
            lemma_closed_up(nodes0, arena0, self.nodes@, self.arena@, insts, slot as int);
        }
        Self::free_arena(
            &mut self.arena_free,
            &mut self.arena_leaked,
            &mut self.owner,
            Ghost(nodes0),
            Ghost(self.nodes@),
            slot,
            node.children_base,
            node.child_count,
        );
    }

    /// Brings the counts by chunk from the cut before a collapse to the cut after it.
    fn book_closed(
        refs: &mut Vec<AHashMap<u32, u32>>,
        Ghost(cut): Ghost<Multiset<IndexNode>>,
        Ghost(cut2): Ghost<Multiset<IndexNode>>,
        inst: u8,
        index: u32,
        start: u32,
        count: u16,
    )
        requires
            inst < old(refs)@.len() <= 256,
            refs_all_match(old(refs)@, cut),
            cut2.add(run(inst, start, count as int).to_multiset()) == cut.insert((inst, index)),
            cut2.count((inst, index)) > 0,
            count > 0,
            start + count <= u32::MAX,
            cut.len() <= u32::MAX,
            cut2.len() <= u32::MAX,
        ensures
            final(refs)@.len() == old(refs)@.len(),
            refs_all_match(final(refs)@, cut2),
    {
        let ghost x = (inst, index);
        let own: u32 = index / 0x1_0000;
        proof {
            let m = words(refs@[inst as int]);
            assert(refs_match(m, cut, inst));
            assert forall|c: u32| #[trigger]
                refs_at(m, c) - overlap(start as int, start + count, c as int) >= 0 by {
                assert(refs_at(m, c) == in_chunk(cut, inst, c as int));
                Self::lemma_refs_opened(cut2, cut, x, start, count as int, inst, c as int);
                lemma_in_chunk_insert(cut2.remove(x), x, inst, c as int);
                assert(cut2.remove(x).insert(x) =~= cut2);
            }
            assert forall|c: u32| #[trigger]
                refs_at(m, c) - overlap(start as int, start + count, c as int) <= u32::MAX by {
                assert(refs_at(m, c) == in_chunk(cut, inst, c as int));
                lemma_in_chunk_le_len(cut, inst, c as int);
            }
        }
        Self::refs_span(refs, inst, start, count, true);
        proof {
            assert(refs_at(words(old(refs)@[inst as int]), own) == in_chunk(
                cut,
                inst,
                own as int,
            ));
            assert(refs_at(words(refs@[inst as int]), own) >= 0);
            Self::lemma_refs_opened(cut2, cut, x, start, count as int, inst, own as int);
            lemma_in_chunk_le_len(cut2, inst, own as int);
        }
        Self::refs_add(refs, inst, own, 1);
        proof {
            assert forall|k: int| 0 <= k < refs@.len() implies refs_match(
                words(#[trigger] refs@[k]),
                cut2,
                k as u8,
            ) by {
                assert(refs_match(words(old(refs)@[k]), cut, k as u8));
                assert forall|c: u32| #[trigger]
                    refs_at(words(refs@[k]), c) == in_chunk(cut2, k as u8, c as int) by {
                    assert(refs_at(words(old(refs)@[k]), c) == in_chunk(cut, k as u8, c as int));
                    Self::lemma_refs_opened(
                        cut2,
                        cut,
                        x,
                        start,
                        count as int,
                        k as u8,
                        c as int,
                    );
                }
            }
        }
    }

    /// The node in `slot` can be taken back: it is live, no virtual node, and none of its
    /// children is expanded.
    pub open spec fn can_collapse(&self, slot: u32) -> bool {
        let node = self.nodes@[slot as int];
        node.alive && node.parent != NONE && node.expanded == 0
    }

    /// Trying to take the node in `slot` back turns the cut into `after`, and says whether that
    /// was done.
    pub open spec fn collapses_to(
        &self,
        after: IncrementalCut,
        trees: Seq<TreeView>,
        slot: u32,
        r: bool,
    ) -> bool {
        let node = self.nodes@[slot as int];
        let tree = trees[node.inst as int];
        let x = (node.inst, node.index);
        let kids = run(node.inst, node.child_start, node.child_count as int);
        let parent = self.nodes@[node.parent as int];
        let at = parent.children_base + (node.index - parent.child_start);
        if !self.can_collapse(slot) {
            !r && after == *self
        } else if !tree.has_chunk(chunk_of(node.index as int)) {
            &&& !r
            &&& after == (IncrementalCut { wanted: after.wanted, ..*self })
            &&& wants(after.wanted) == with_want(
                wants(self.wanted),
                self.passes,
                node.inst,
                chunk_of(node.index as int) as u32,
                node.ps,
            )
        } else {
            &&& r
            &&& kids.to_multiset().subset_of(self.cut())
            &&& after.cut() == self.cut().sub(kids.to_multiset()).insert(x)
            &&& after.cut_size == self.cut_size + 1 - node.child_count
            &&& after.generation == self.generation + 1
            &&& wants(after.wanted) == wants(self.wanted).remove(
                (node.inst, chunk_of(node.index as int) as u32),
            )
            &&& closed_up(
                self.nodes@,
                self.arena@,
                after.nodes@,
                after.arena@,
                slot as int,
            )
            &&& after.nodes@[slot as int] == (Node {
                alive: false,
                child_count: 0,
                expanded: 0,
                parent: NONE,
                ..node
            })
            &&& after.node_free@ == self.node_free@.push(slot)
            &&& after.arena@ == self.arena@.update(
                at,
                Child { slot: CUT_LEAF, ..self.arena@[at] },
            )
            &&& runs(after.arena_free@) == runs_with(
                runs(self.arena_free@),
                node.children_base,
                node.child_count,
            )
            &&& after.arena_leaked == self.arena_leaked + (
            if node.child_count < ARENA_BUCKETS {
                0
            } else {
                node.child_count as int
            })
            &&& after == (IncrementalCut {
                nodes: after.nodes,
                node_free: after.node_free,
                arena: after.arena,
                arena_free: after.arena_free,
                arena_leaked: after.arena_leaked,
                owner: after.owner,
                cut_size: after.cut_size,
                chunk_refs: after.chunk_refs,
                wanted: after.wanted,
                generation: after.generation,
                ..*self
            })
        }
    }

    /// Takes the node in `slot` back: it takes the place of its children in the cut. That is
    /// refused of a virtual node, and of one with expanded children; and while its own chunk is
    /// not resident, the children stay and the chunk is wanted.
    pub fn collapse(&mut self, trees: &[TreeView], slot: u32) -> (r: bool)
        requires
            old(self).wf(),
            slot < old(self).nodes@.len(),
            old(self).can_collapse(slot) ==> old(self).nodes@[slot as int].inst < trees@.len(),
            old(self).generation < u64::MAX,
        ensures
            final(self).wf(),
            old(self).collapses_to(*final(self), trees@, slot, r),
    {
        let node = self.nodes[slot as usize];
        if !node.alive || node.parent == NONE || node.expanded != 0 {
            return false;
        }
        proof {
            assert(node_ok(
                self.nodes@,
                self.arena@,
                self.lod_ids@.len() as int,
                slot as int,
            ));
        }
        let inst: u8 = node.inst;
        let tree = &trees[inst as usize];
        let own: u32 = node.index / 0x1_0000;
        if !Self::resident(tree, own) {
            Self::want(&mut self.wanted, self.passes, inst, own, node.ps);
            return false;
        }
        self.unlink(slot);
        let ghost x = (inst, node.index);
        let ghost kids = run(inst, node.child_start, node.child_count as int);
        let ghost cut0 = old(self).cut();
        let ghost cut2 = self.cut();
        proof {
            vstd::seq_lib::to_multiset_len(old(self).list());
            vstd::seq_lib::to_multiset_len(self.list());
            vstd::seq_lib::to_multiset_len(kids);
            assert(cut2.add(kids.to_multiset()).len() == cut0.insert(x).len());
            Self::lemma_cut_closed(cut0, cut2, x, kids.to_multiset());
        }
        Self::book_closed(
            &mut self.chunk_refs,
            Ghost(cut0),
            Ghost(cut2),
            inst,
            node.index,
            node.child_start,
            node.child_count,
        );
        wants_remove(&mut self.wanted, (inst, own));
        self.cut_size = self.cut_size - (node.child_count as usize - 1);
        self.generation = self.generation + 1;
        true
    }

    proof fn lemma_cut_closed(
        cut: Multiset<IndexNode>,
        cut2: Multiset<IndexNode>,
        x: IndexNode,
        kids: Multiset<IndexNode>,
    )
        requires
            cut2.add(kids) == cut.insert(x),
            cut2.count(x) > 0,
        ensures
            kids.subset_of(cut),
            cut2 == cut.sub(kids).insert(x),
    {
        assert forall|y: IndexNode| #[trigger] kids.count(y) <= cut.count(y) by {
            assert(cut2.add(kids).count(y) == cut.insert(x).count(y));
            if y == x {
                assert(cut.insert(x).count(y) == cut.count(y) + 1);
            } else {
                assert(cut.insert(x).count(y) == cut.count(y));
            }
        }
        assert forall|y: IndexNode| cut2.count(y) == #[trigger] cut.sub(kids).insert(x).count(
            y,
        ) by {
            assert(cut2.add(kids).count(y) == cut.insert(x).count(y));
            assert(kids.count(y) <= cut.count(y));
            let left = cut.sub(kids);
            assert(left.count(y) == cut.count(y) - kids.count(y));
            if y == x {
                assert(cut.insert(x).count(y) == cut.count(y) + 1);
                assert(left.insert(x).count(y) == left.count(y) + 1);
            } else {
                assert(cut.insert(x).count(y) == cut.count(y));
                assert(left.insert(x).count(y) == left.count(y));
            }
        }
        assert(cut2 =~= cut.sub(kids).insert(x));
    }
}

} // verus!
