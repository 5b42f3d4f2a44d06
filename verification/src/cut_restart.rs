//! Starting a cut over from the roots.

use ahash::AHashMap;
use vstd::multiset::Multiset;
use vstd::prelude::*;

use crate::cut::{
    fresh_cell, refs_all_match, refs_at, refs_match, root_list, root_node, root_of, runs,
    IncrementalCut, ARENA_BUCKETS,
};
use crate::cut_model::{
    cell, handed, in_chunk, lemma_handed_elsewhere, lemma_in_chunk_empty, lemma_in_chunk_insert,
    lemma_in_chunk_le_len, lemma_lost_frame, lemma_planted, links_ok, lost, node_ok, owned,
    owners_ok, unexpanded, Child, Node, Owner, CUT_LEAF, CUT_TERMINAL, NONE,
};
use crate::hash::{wants, wants_clear, words, words_new};
use crate::scale::Scale;
use crate::splat::LodSplat;
use crate::traverse::{root_slot, rooted};
use crate::tree_view::{InstanceParams, TreeView, NOT_RESIDENT};

verus! {

impl IncrementalCut {
    /// Empties the table.
    fn clear_table(&mut self, insts: usize)
        requires
            old(self).arena_free@.len() == ARENA_BUCKETS,
            insts <= 256,
        ensures
            final(self).nodes@.len() == 0,
            final(self).node_free@.len() == 0,
            final(self).arena@.len() == 0,
            final(self).arena_free@.len() == ARENA_BUCKETS,
            final(self).cells_ok(),
            final(self).roots@.len() == 0,
            final(self).cut_size == 0,
            final(self).chunk_refs@.len() == insts,
            refs_all_match(final(self).chunk_refs@, Multiset::empty()),
            wants(final(self).wanted) == Map::<(u8, u32), (u32, u32)>::empty(),
            final(self).forced@.len() == 0,
            final(self).arena_leaked == 0,
            forall|c: int|
                0 <= c < ARENA_BUCKETS ==> (#[trigger] final(self).arena_free@[c])@.len() == 0,
            *final(self) == (IncrementalCut {
                nodes: final(self).nodes,
                node_free: final(self).node_free,
                arena: final(self).arena,
                arena_free: final(self).arena_free,
                arena_leaked: final(self).arena_leaked,
                owner: final(self).owner,
                roots: final(self).roots,
                cut_size: final(self).cut_size,
                chunk_refs: final(self).chunk_refs,
                wanted: final(self).wanted,
                forced: final(self).forced,
                ..*old(self)
            }),
    {
        self.nodes.clear();
        self.node_free.clear();
        self.arena.clear();
        let mut free: Vec<Vec<u32>> = Vec::new();
        let mut c: usize = 0;
        while c < ARENA_BUCKETS
            invariant
                c <= ARENA_BUCKETS,
                free@.len() == c,
                forall|k: int| 0 <= k < c ==> (#[trigger] free@[k])@.len() == 0,
            decreases ARENA_BUCKETS - c,
        {
            free.push(Vec::new());
            c += 1;
        }
        self.arena_free = free;
        self.arena_leaked = 0;
        self.owner = Ghost(Seq::empty());
        self.roots.clear();
        self.cut_size = 0;
        let mut refs: Vec<AHashMap<u32, u32>> = Vec::new();
        while refs.len() < insts
            invariant
                refs@.len() <= insts,
                insts <= 256,
                refs_all_match(refs@, Multiset::empty()),
            decreases insts - refs@.len(),
        {
            let ghost k = refs@.len();
            refs.push(words_new());
            proof {
                assert forall|i: int| 0 <= i < refs@.len() implies refs_match(
                    words(#[trigger] refs@[i]),
                    Multiset::empty(),
                    i as u8,
                ) by {
                    assert forall|c: u32| #[trigger]
                        refs_at(words(refs@[i]), c) == in_chunk(
                            Multiset::empty(),
                            i as u8,
                            c as int,
                        ) by {
                        lemma_in_chunk_empty(i as u8, c as int);
                    }
                }
            }
        }
        self.chunk_refs = refs;
        wants_clear(&mut self.wanted);
        self.forced.clear();
    }

    /// Starting over turns the cut into `after`.
    pub open spec fn restarts_to(
        &self,
        after: IncrementalCut,
        trees: Seq<TreeView>,
        root_pages: Seq<u32>,
        limit: Scale,
    ) -> bool {
        &&& after.list() == root_list(trees.len() as int)
        &&& after.cut_size == trees.len()
        &&& after.nodes@.len() == trees.len()
        &&& after.arena@.len() == trees.len()
        &&& after.arena_leaked == 0
        &&& after.roots@.len() == trees.len()
        &&& forall|i: int|
            #![trigger after.roots@[i]]
            0 <= i < trees.len() ==> {
                let root = root_of(trees[i], root_pages[i]);
                &&& after.roots@[i] == i
                &&& after.nodes@[i] == root_node(root, i as u8, i as u32)
                &&& after.arena@[i] == fresh_cell(root)
            }
        &&& wants(after.wanted) == Map::<(u8, u32), (u32, u32)>::empty()
        &&& after.lod_ids@ == trees.map_values(|t: TreeView| t.lod_id)
        &&& after.params@ == trees.map_values(|t: TreeView| t.params)
        &&& after.limit == limit
        &&& after.t == limit
        &&& after.generation == self.generation + 1
        &&& after.pass_start_generation == after.generation
        &&& after.cursor == 0
        &&& after.visited_since_change == 0
        &&& !after.clean_pass
        &&& after.forced@.len() == 0
        &&& after.passes == self.passes
        &&& after.packed_generation == self.packed_generation
        &&& after.max_splats == self.max_splats
    }

    /// Starts over: the cut is the root of each instance.
    pub fn restart(&mut self, trees: &[TreeView], root_pages: &[u32], limit: Scale)
        requires
            old(self).wf(),
            trees@.len() <= 256,
            rooted(trees@, root_pages@),
            old(self).generation < u64::MAX,
        ensures
            final(self).wf(),
            old(self).restarts_to(*final(self), trees@, root_pages@, limit),
    {
        let n: usize = trees.len();
        self.clear_table(n);
        let mut lod_ids: Vec<u32> = Vec::new();
        let mut params: Vec<InstanceParams> = Vec::new();
        let mut k: usize = 0;
        while k < n
            invariant
                n == trees@.len(),
                k <= n,
                lod_ids@ == trees@.take(k as int).map_values(|t: TreeView| t.lod_id),
                params@ == trees@.take(k as int).map_values(|t: TreeView| t.params),
            decreases n - k,
        {
            lod_ids.push(trees[k].lod_id);
            params.push(trees[k].params);
            k += 1;
            proof {
                assert(lod_ids@ =~= trees@.take(k as int).map_values(|t: TreeView| t.lod_id));
                assert(params@ =~= trees@.take(k as int).map_values(|t: TreeView| t.params));
            }
        }
        proof {
            assert(trees@.take(n as int) =~= trees@);
        }
        self.lod_ids = lod_ids;
        self.params = params;
        self.visited_since_change = 0;
        self.limit = limit;
        self.t = limit;
        self.generation = self.generation + 1;
        self.cursor = 0;
        self.pass_start_generation = self.generation;
        self.clean_pass = false;
        let ghost frame = *self;
        let mut i: usize = 0;
        proof {
            vstd::seq_lib::to_multiset_len(self.list());
            assert(self.cut() =~= Multiset::empty());
            assert(self.list() =~= root_list(0));
        }
        while i < n
            invariant
                n == trees@.len(),
                n <= 256,
                i <= n,
                rooted(trees@, root_pages@),
                self.lod_ids@.len() == n,
                self.planted(trees@, root_pages@, i as int),
                *self == (IncrementalCut {
                    nodes: self.nodes,
                    node_free: self.node_free,
                    arena: self.arena,
                    arena_free: self.arena_free,
                    owner: self.owner,
                    roots: self.roots,
                    cut_size: self.cut_size,
                    chunk_refs: self.chunk_refs,
                    ..frame
                }),
            decreases n - i,
        {
            let page: u32 = root_pages[i];
            let slot: u32 = if page == NOT_RESIDENT {
                0
            } else {
                (page % 0x1_0000) * 0x1_0000
            };
            assert(slot == root_slot(root_pages@[i as int]));
            let root = trees[i].splats[slot as usize];
            self.plant(Ghost(trees@), Ghost(root_pages@), i, root);
            i += 1;
        }
    }

    /// The roots of the first `i` instances are in the table.
    spec fn planted(&self, trees: Seq<TreeView>, root_pages: Seq<u32>, i: int) -> bool {
        &&& links_ok(self.nodes@, self.arena@, self.lod_ids@.len() as int)
        &&& self.cells_ok()
        &&& self.node_free@.len() == 0
        &&& self.nodes@.len() == i
        &&& self.arena@.len() == i
        &&& self.arena_leaked == 0
        &&& forall|c: int|
            0 <= c < self.arena_free@.len() ==> (#[trigger] self.arena_free@[c])@.len() == 0
        &&& self.roots@.len() == i
        &&& self.list() == root_list(i)
        &&& self.cut_size == i
        &&& self.chunk_refs@.len() == self.lod_ids@.len()
        &&& refs_all_match(self.chunk_refs@, self.cut())
        &&& forall|k: int|
            #![trigger self.roots@[k]]
            0 <= k < i ==> {
                let root = root_of(trees[k], root_pages[k]);
                &&& self.roots@[k] == k
                &&& self.nodes@[k] == root_node(root, k as u8, k as u32)
                &&& self.arena@[k] == fresh_cell(root)
            }
    }

    /// Puts the root of instance `i` into the table.
    fn plant(
        &mut self,
        Ghost(trees): Ghost<Seq<TreeView>>,
        Ghost(root_pages): Ghost<Seq<u32>>,
        i: usize,
        root: LodSplat,
    )
        requires
            i < old(self).lod_ids@.len() <= 256,
            old(self).planted(trees, root_pages, i as int),
            root == root_of(trees[i as int], root_pages[i as int]),
        ensures
            final(self).planted(trees, root_pages, i + 1),
            *final(self) == (IncrementalCut {
                nodes: final(self).nodes,
                node_free: final(self).node_free,
                arena: final(self).arena,
                arena_free: final(self).arena_free,
                owner: final(self).owner,
                roots: final(self).roots,
                cut_size: final(self).cut_size,
                chunk_refs: final(self).chunk_refs,
                ..*old(self)
            }),
    {
        let inst: u8 = i as u8;
        let ghost nodes0 = self.nodes@;
        let ghost arena0 = self.arena@;
        let base: u32 = Self::alloc_arena(
            &mut self.arena,
            &mut self.arena_free,
            &mut self.owner,
            Ghost(nodes0),
            1,
        );
        let ghost owner1 = self.owner@;
        proof {
            assert(runs(old(self).arena_free@)[1].len() == 0);
            assert(base == i);
            assert forall|c: int| 0 <= c < self.arena_free@.len() implies (
            #[trigger] self.arena_free@[c])@.len() == 0 by {
                assert(runs(self.arena_free@)[c] == runs(old(self).arena_free@)[c]);
                assert(old(self).arena_free@[c]@.len() == 0);
            }
        }
        self.arena.set(
            base as usize,
            Child {
                slot: if root.child_count == 0 {
                    CUT_TERMINAL
                } else {
                    CUT_LEAF
                },
                center: root.center,
                size: root.size,
            },
        );
        let node = Node {
            inst,
            index: NONE,
            parent: NONE,
            child_start: 0,
            child_count: 1,
            expanded: 0,
            ps: Scale::infinity(),
            children_base: base,
            center: root.center,
            size: root.size,
            radius: 0,
            child_size_max: root.size,
            forced: false,
            alive: true,
        };
        let slot: u32 = Self::alloc_node(&mut self.nodes, &mut self.node_free, node);
        self.owner = Ghost(handed(self.owner@, base as int, 1, Owner::Slot(slot as int)));
        self.roots.push(slot);
        let ghost cut0 = old(self).cut();
        let ghost cut2 = self.cut();
        let ghost insts = self.lod_ids@.len() as int;
        proof {
            assert(owner1[base as int] == Owner::Fresh);
            assert forall|t: int, j: int|
                0 <= t < nodes0.len() && nodes0[t].alive && 0 <= j
                    < nodes0[t].child_count implies #[trigger] cell(nodes0[t], self.arena@, j)
                == cell(nodes0[t], arena0, j) by {
                assert(node_ok(nodes0, arena0, insts, t));
                assert(owned(
                    owner1,
                    nodes0[t].children_base as int,
                    nodes0[t].child_count as int,
                    Owner::Slot(t),
                ));
                assert(owner1[nodes0[t].children_base + j] == Owner::Slot(t));
            }
            assert(unexpanded(cell(node, self.arena@, 0)));
            lemma_planted(nodes0, arena0, node, self.arena@, insts);
            assert(self.nodes@ == nodes0.push(node));
            assert(self.list() =~= root_list(i + 1));
            assert(root_list(i + 1) =~= root_list(i as int).push((inst, 0u32)));
            vstd::seq_lib::to_multiset_build(root_list(i as int), (inst, 0u32));
            assert(cut2 == cut0.insert((inst, 0u32)));
            vstd::seq_lib::to_multiset_len(root_list(i as int));
            lemma_in_chunk_le_len(cut0, inst, 0);
            assert(refs_match(words(self.chunk_refs@[inst as int]), cut0, inst));
            assert(refs_at(words(self.chunk_refs@[inst as int]), 0) == in_chunk(cut0, inst, 0));
        }
        Self::refs_add(&mut self.chunk_refs, inst, 0, 1);
        self.cut_size = self.cut_size + 1;
        proof {
            assert forall|k: int| 0 <= k < self.chunk_refs@.len() implies refs_match(
                words(#[trigger] self.chunk_refs@[k]),
                cut2,
                k as u8,
            ) by {
                assert(refs_match(words(old(self).chunk_refs@[k]), cut0, k as u8));
                assert forall|c: u32| #[trigger]
                    refs_at(words(self.chunk_refs@[k]), c) == in_chunk(
                        cut2,
                        k as u8,
                        c as int,
                    ) by {
                    assert(refs_at(words(old(self).chunk_refs@[k]), c) == in_chunk(
                        cut0,
                        k as u8,
                        c as int,
                    ));
                    lemma_in_chunk_insert(cut0, (inst, 0u32), k as u8, c as int);
                }
            }
            self.lemma_planted_owners(nodes0, owner1, slot as int, node);
            assert forall|k: int|
                #![trigger self.roots@[k]]
                0 <= k < i + 1 implies ({
                let r = root_of(trees[k], root_pages[k]);
                &&& self.roots@[k] == k
                &&& self.nodes@[k] == root_node(r, k as u8, k as u32)
                &&& self.arena@[k] == fresh_cell(r)
            }) by {
                if k < i {
                    assert(old(self).roots@[k] == k);
                    assert(self.arena@[k] == arena0[k]);
                }
            }
            assert(self.cut() == cut2);
            assert(refs_all_match(self.chunk_refs@, self.cut()));
            assert(self.planted(trees, root_pages, i + 1));
        }
    }

    /// Handing a fresh run to the node that just joined leaves every cell one owner.
    proof fn lemma_planted_owners(
        &self,
        nodes: Seq<Node>,
        owner: Seq<Owner>,
        slot: int,
        node: Node,
    )
        requires
            node.alive,
            slot == nodes.len(),
            self.nodes@ == nodes.push(node),
            owners_ok(nodes, self.arena_free@, owner),
            owned(owner, node.children_base as int, node.child_count as int, Owner::Fresh),
            self.owner@ == handed(
                owner,
                node.children_base as int,
                node.child_count as int,
                Owner::Slot(slot),
            ),
            owner.len() == self.arena@.len(),
            self.arena@.len() <= u32::MAX,
            self.arena_free@.len() == ARENA_BUCKETS,
            self.arena_leaked == lost(owner, owner.len() as int),
        ensures
            self.cells_ok(),
    {
        let base = node.children_base as int;
        let count = node.child_count as int;
        lemma_lost_frame(owner, self.owner@, owner.len() as int);
        assert forall|t: int|
            0 <= t < self.nodes@.len() && (#[trigger] self.nodes@[t]).alive implies owned(
            self.owner@,
            self.nodes@[t].children_base as int,
            self.nodes@[t].child_count as int,
            Owner::Slot(t),
        ) by {
            if t < nodes.len() {
                assert(nodes[t].alive);
                lemma_handed_elsewhere(
                    owner,
                    base,
                    count,
                    Owner::Fresh,
                    Owner::Slot(slot),
                    nodes[t].children_base as int,
                    nodes[t].child_count as int,
                    Owner::Slot(t),
                );
            }
        }
        assert forall|d: int, l: int|
            0 <= d < self.arena_free@.len() && 0 <= l
                < self.arena_free@[d]@.len() implies owned(
            self.owner@,
            (#[trigger] self.arena_free@[d]@[l]) as int,
            d,
            Owner::Free(d, l),
        ) by {
            lemma_handed_elsewhere(
                owner,
                base,
                count,
                Owner::Fresh,
                Owner::Slot(slot),
                self.arena_free@[d]@[l] as int,
                d,
                Owner::Free(d, l),
            );
        }
    }
}

} // verus!
