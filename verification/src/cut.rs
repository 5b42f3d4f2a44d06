//! An incremental level-of-detail cut.
//!
//! The cut is kept as a table of the nodes that have been expanded, numbered by chunk. Paged
//! indices are looked up only when the cut is packed: a page that gets another chunk leaves the
//! table as it is, and shows at the next packing as evicted nodes.

use ahash::AHashMap;
use vstd::multiset::Multiset;
use vstd::prelude::*;
use vstd::seq_lib::group_to_multiset_ensures;

use crate::cut_model::{
    cut_list, handed, in_chunk, lemma_handed_elsewhere, lemma_in_chunk_add, lemma_in_chunk_insert,
    lemma_in_chunk_run, lemma_lost_bounds, lemma_lost_frame, lemma_lost_more, links_ok, lost,
    overlap, owned, owners_ok, run, Child, IndexNode, Node, Owner, CUT_LEAF, CUT_TERMINAL, NONE,
};
use crate::geometry::Geometry;
use crate::hash::{
    wants, wants_get, wants_insert, wants_new, words, words_get, words_insert, words_remove,
};
use crate::scale::{scale_max, Scale, INFINITY_BITS};
use crate::splat::LodSplat;
use crate::traverse::root_slot;
use crate::tree_view::{chunk_of, to_paged, InstanceParams, TreeView, NOT_RESIDENT};

verus! {

/// Runs of fewer cells than this are used again once they are free; longer ones are only
/// counted.
pub const ARENA_BUCKETS: usize = 33;

/// What became of an attempt to expand a node of the cut.
#[derive(Debug, Clone, Copy, PartialEq, Eq, Structural)]
pub enum ExpandOutcome {
    /// Done; the node is in this slot.
    Expanded(u32),
    /// The node, or its children, lie in a chunk that is not resident; the chunk is wanted now.
    NotResident,
    /// The node is a leaf of the tree.
    Terminal,
    /// So many children do not fit the budget.
    Misfit(u16),
}

/// The paged indices of a cut.
pub struct Packed {
    /// For each instance, the nodes whose chunk is resident.
    pub indices: Vec<Vec<u32>>,
    /// How many nodes of the cut lie in chunks that are not.
    pub evicted: u32,
}

/// Chunks by fetch priority.
pub struct Chunks {
    /// `(lod_id, chunk)`: root chunks, then needed ones, then wanted ones.
    pub list: Vec<(u32, u32)>,
    pub roots: usize,
    pub needed: usize,
}

pub struct IncrementalCut {
    pub nodes: Vec<Node>,
    pub node_free: Vec<u32>,
    pub arena: Vec<Child>,
    pub arena_free: Vec<Vec<u32>>,
    pub arena_leaked: u32,
    /// Slots of the virtual nodes, one for each instance.
    pub roots: Vec<u32>,
    pub cut_size: usize,
    /// For each instance, how many nodes of the cut lie in a chunk.
    pub chunk_refs: Vec<AHashMap<u32, u32>>,
    /// For (instance, chunk), the bits of the largest pixel scale for which it was wanted, and
    /// the pass in which it was wanted last.
    pub wanted: AHashMap<(u8, u32), (u32, u32)>,
    pub lod_ids: Vec<u32>,
    pub params: Vec<InstanceParams>,
    pub max_splats: usize,
    pub limit: Scale,
    pub t: Scale,
    pub generation: u64,
    pub packed_generation: u64,
    pub cursor: usize,
    pub visited_since_change: usize,
    pub pass_start_generation: u64,
    pub clean_pass: bool,
    pub passes: u32,
    /// Slots of the nodes of which a child has lost its page.
    pub forced: Vec<u32>,
    /// What each arena cell belongs to.
    pub owner: Ghost<Seq<Owner>>,
}

/// The count under a key, 0 if there is none.
pub open spec fn refs_at(m: Map<u32, u32>, c: u32) -> int {
    if m.contains_key(c) {
        m[c] as int
    } else {
        0
    }
}

/// The map counts the nodes of the cut by chunk, without entries for 0.
pub open spec fn refs_match(m: Map<u32, u32>, cut: Multiset<IndexNode>, inst: u8) -> bool {
    &&& forall|c: u32| #[trigger] refs_at(m, c) == in_chunk(cut, inst, c as int)
    &&& forall|c: u32| #[trigger] m.contains_key(c) ==> m[c] > 0
}

/// The maps of all instances count the nodes of the cut.
pub open spec fn refs_all_match(
    refs: Seq<AHashMap<u32, u32>>,
    cut: Multiset<IndexNode>,
) -> bool {
    forall|i: int|
        0 <= i < refs.len() ==> refs_match(words(#[trigger] refs[i]), cut, i as u8)
}

/// A table of wanted chunks after one of them is wanted again: the larger scale counts, and the
/// pass is noted.
pub open spec fn with_want(
    m: Map<(u8, u32), (u32, u32)>,
    pass: u32,
    inst: u8,
    chunk: u32,
    ps: Scale,
) -> Map<(u8, u32), (u32, u32)> {
    if m.contains_key((inst, chunk)) {
        m.insert(
            (inst, chunk),
            (scale_max(Scale { bits: m[(inst, chunk)].0 }, ps).bits, pass),
        )
    } else {
        m.insert((inst, chunk), (ps.bits, pass))
    }
}

/// The node at `index`, whose chunk is resident.
pub open spec fn splat_of(tree: TreeView, index: int) -> LodSplat {
    tree.splats@[tree.place(index) as int]
}

/// The children of the node at `index`, as they stand in the tree.
pub open spec fn kid_splats(tree: TreeView, index: int) -> Seq<LodSplat> {
    Seq::new(
        splat_of(tree, index).child_count as nat,
        |g: int| splat_of(tree, splat_of(tree, index).child_start + g),
    )
}

/// The chunks that the children of the node at `index` lie in.
pub open spec fn first_kid_chunk(tree: TreeView, index: int) -> int {
    chunk_of(splat_of(tree, index).child_start as int)
}

pub open spec fn last_kid_chunk(tree: TreeView, index: int) -> int {
    chunk_of(splat_of(tree, index).child_start + splat_of(tree, index).child_count - 1)
}

/// The arena cell of a child that has just become part of the cut.
pub open spec fn fresh_cell(s: LodSplat) -> Child {
    Child {
        slot: if s.child_count == 0 {
            CUT_TERMINAL
        } else {
            CUT_LEAF
        },
        center: s.center,
        size: s.size,
    }
}

/// The node that expanding the node at `index` puts into the table.
pub open spec fn opened_node<
    D: Fn([u16; 3], [u16; 3]) -> Scale,
    W: Fn(u16) -> Scale,
    B: Fn(Scale, Scale) -> (u16, u16),
>(
    tree: TreeView,
    geometry: Geometry<D, W, B>,
    inst: u8,
    index: u32,
    parent: u32,
    ps: Scale,
    base: u32,
) -> Node {
    let s = splat_of(tree, index as int);
    let extent = geometry.extent(s.center, kid_splats(tree, index as int));
    Node {
        inst,
        index,
        parent,
        child_start: s.child_start,
        child_count: s.child_count,
        expanded: 0,
        ps,
        children_base: base,
        center: s.center,
        size: s.size,
        radius: extent.0,
        child_size_max: extent.1,
        forced: false,
        alive: true,
    }
}

/// The virtual node above the root of an instance.
pub open spec fn root_node(root: LodSplat, inst: u8, base: u32) -> Node {
    Node {
        inst,
        index: NONE,
        parent: NONE,
        child_start: 0,
        child_count: 1,
        expanded: 0,
        ps: Scale { bits: INFINITY_BITS },
        children_base: base,
        center: root.center,
        size: root.size,
        radius: 0,
        child_size_max: root.size,
        forced: false,
        alive: true,
    }
}

/// The root of a tree, if its page is as given.
pub open spec fn root_of(tree: TreeView, page: u32) -> LodSplat {
    tree.splats@[root_slot(page) as int]
}

/// The roots of the first `n` instances, in order.
pub open spec fn root_list(n: int) -> Seq<IndexNode> {
    Seq::new(n as nat, |i: int| (i as u8, 0u32))
}

/// The free slots are dead, and none is listed twice.
pub open spec fn slots_ok(nodes: Seq<Node>, free: Seq<u32>) -> bool {
    &&& free.no_duplicates()
    &&& forall|k: int|
        0 <= k < free.len() ==> (#[trigger] free[k]) < nodes.len() && !nodes[free[k] as int].alive
}

/// The virtual node of each instance has the root as its only child.
pub open spec fn roots_ok(nodes: Seq<Node>, roots: Seq<u32>) -> bool {
    forall|i: int|
        0 <= i < roots.len() ==> {
            &&& (#[trigger] roots[i]) < nodes.len()
            &&& nodes[roots[i] as int].alive
            &&& nodes[roots[i] as int].inst == i
            &&& nodes[roots[i] as int].parent == NONE
            &&& nodes[roots[i] as int].child_start == 0
            &&& nodes[roots[i] as int].child_count == 1
        }
}

/// The slot that the next node gets: the one that became free last, else a new one.
pub open spec fn next_slot(nodes: Seq<Node>, free: Seq<u32>) -> u32 {
    if free.len() > 0 {
        free.last()
    } else {
        nodes.len() as u32
    }
}

/// The free slots once the next node has got its slot.
pub open spec fn slots_left(free: Seq<u32>) -> Seq<u32> {
    if free.len() > 0 {
        free.drop_last()
    } else {
        free
    }
}

/// The free runs, by length.
pub open spec fn runs(free: Seq<Vec<u32>>) -> Seq<Seq<u32>> {
    free.map_values(|v: Vec<u32>| v@)
}

/// There is a free run of `count` cells.
pub open spec fn has_run(free: Seq<Seq<u32>>, count: u16) -> bool {
    count < ARENA_BUCKETS && free[count as int].len() > 0
}

/// Where the next run of `count` cells starts: where the one lies that became free last, else at
/// the end of the arena.
pub open spec fn next_run(cells: int, free: Seq<Seq<u32>>, count: u16) -> u32 {
    if has_run(free, count) {
        free[count as int].last()
    } else {
        cells as u32
    }
}

/// The free runs once `count` cells were handed out.
pub open spec fn runs_left(free: Seq<Seq<u32>>, count: u16) -> Seq<Seq<u32>> {
    if has_run(free, count) {
        free.update(count as int, free[count as int].drop_last())
    } else {
        free
    }
}

/// The size of the arena once `count` cells were handed out.
pub open spec fn cells_after(cells: int, free: Seq<Seq<u32>>, count: u16) -> int {
    if has_run(free, count) {
        cells
    } else {
        cells + count
    }
}

/// The free runs once a run was given back; a long one is not among them.
pub open spec fn runs_with(free: Seq<Seq<u32>>, base: u32, count: u16) -> Seq<Seq<u32>> {
    if count < ARENA_BUCKETS {
        free.update(count as int, free[count as int].push(base))
    } else {
        free
    }
}

/// Every wanted chunk is one of a known instance.
pub open spec fn wants_ok(m: Map<(u8, u32), (u32, u32)>, insts: int) -> bool {
    forall|k: (u8, u32)| #[trigger] m.contains_key(k) ==> k.0 < insts && k.1 < 0x1_0000
}

impl IncrementalCut {
    /// The nodes of the cut, in slot order.
    pub open spec fn list(&self) -> Seq<IndexNode> {
        cut_list(self.nodes@, self.arena@, self.nodes@.len() as int)
    }

    /// The cut.
    pub open spec fn cut(&self) -> Multiset<IndexNode> {
        self.list().to_multiset()
    }

    /// Every arena cell has one owner, and the lost ones are counted.
    pub open spec fn cells_ok(&self) -> bool {
        &&& self.owner@.len() == self.arena@.len()
        &&& self.arena@.len() <= u32::MAX
        &&& self.arena_free@.len() == ARENA_BUCKETS
        &&& owners_ok(self.nodes@, self.arena_free@, self.owner@)
        &&& self.arena_leaked == lost(self.owner@, self.owner@.len() as int)
    }

    /// The table is well linked, and every cell has one owner.
    pub open spec fn table_ok(&self) -> bool {
        &&& links_ok(self.nodes@, self.arena@, self.lod_ids@.len() as int)
        &&& self.cells_ok()
        &&& slots_ok(self.nodes@, self.node_free@)
        &&& self.lod_ids@.len() <= 256
        &&& self.params@.len() == self.lod_ids@.len()
        &&& self.roots@.len() == self.lod_ids@.len()
        &&& roots_ok(self.nodes@, self.roots@)
    }

    /// The counters count what is in the cut.
    pub open spec fn books_ok(&self) -> bool {
        &&& self.chunk_refs@.len() == self.lod_ids@.len()
        &&& refs_all_match(self.chunk_refs@, self.cut())
        &&& self.cut_size == self.list().len()
        &&& self.cut_size <= u32::MAX
        &&& wants_ok(wants(self.wanted), self.lod_ids@.len() as int)
    }

    /// The table is well linked, every cell has one owner, and the counters count.
    pub open spec fn wf(&self) -> bool {
        self.table_ok() && self.books_ok()
    }

    /// An empty cut, of no instance.
    pub fn new() -> (r: IncrementalCut)
        ensures
            r.wf(),
            r.cut() == Multiset::<IndexNode>::empty(),
            r.cut_size == 0,
            r.nodes@.len() == 0,
            r.node_free@.len() == 0,
            r.arena@.len() == 0,
            r.arena_leaked == 0,
            r.lod_ids@.len() == 0,
            r.max_splats == 0,
            r.cursor == 0,
            r.visited_since_change == 0,
            r.pass_start_generation == 0,
            !r.clean_pass,
            wants(r.wanted) == Map::<(u8, u32), (u32, u32)>::empty(),
            r.limit.bits == 0,
            r.t.bits == 0,
            r.generation == 0,
            r.packed_generation == u64::MAX,
            r.passes == 0,
            r.forced@.len() == 0,
    {
        broadcast use group_to_multiset_ensures;

        let mut arena_free: Vec<Vec<u32>> = Vec::new();
        let mut c: usize = 0;
        while c < ARENA_BUCKETS
            invariant
                c <= ARENA_BUCKETS,
                arena_free@.len() == c,
                forall|k: int| 0 <= k < c ==> (#[trigger] arena_free@[k])@.len() == 0,
            decreases ARENA_BUCKETS - c,
        {
            arena_free.push(Vec::new());
            c += 1;
        }
        let r = IncrementalCut {
            nodes: Vec::new(),
            node_free: Vec::new(),
            arena: Vec::new(),
            arena_free,
            arena_leaked: 0,
            roots: Vec::new(),
            cut_size: 0,
            chunk_refs: Vec::new(),
            wanted: wants_new(),
            lod_ids: Vec::new(),
            params: Vec::new(),
            max_splats: 0,
            limit: Scale::zero(),
            t: Scale::zero(),
            generation: 0,
            packed_generation: u64::MAX,
            cursor: 0,
            visited_since_change: 0,
            pass_start_generation: 0,
            clean_pass: false,
            passes: 0,
            forced: Vec::new(),
            owner: Ghost(Seq::empty()),
        };
        proof {
            assert(r.list().len() == 0);
            assert(r.cut().len() == 0);
            assert(r.cut() =~= Multiset::empty());
        }
        r
    }

    // Reading the trees.
    /// The node at `index`, if its chunk is resident.
    pub(crate) fn splat_at(tree: &TreeView, index: u32) -> (r: Option<LodSplat>)
        requires
            tree.has_chunk(chunk_of(index as int)) ==> tree.place(index as int)
                < tree.splats@.len(),
        ensures
            r == (if tree.has_chunk(chunk_of(index as int)) {
                Some(splat_of(*tree, index as int))
            } else {
                None
            }),
    {
        let chunk: usize = (index / 0x1_0000) as usize;
        if chunk >= tree.chunk_to_page.len() {
            return None;
        }
        let page: u32 = tree.chunk_to_page[chunk];
        if page == NOT_RESIDENT {
            return None;
        }
        Some(tree.splats[to_paged(page, index) as usize])
    }

    pub(crate) fn resident(tree: &TreeView, chunk: u32) -> (r: bool)
        ensures
            r == tree.has_chunk(chunk as int),
    {
        (chunk as usize) < tree.chunk_to_page.len() && tree.chunk_to_page[chunk as usize]
            != NOT_RESIDENT
    }

    /// Notes that a chunk is wanted.
    pub(crate) fn want(
        wanted: &mut AHashMap<(u8, u32), (u32, u32)>,
        pass: u32,
        inst: u8,
        chunk: u32,
        ps: Scale,
    )
        ensures
            wants(*final(wanted)) == with_want(wants(*old(wanted)), pass, inst, chunk, ps),
    {
        match wants_get(wanted, (inst, chunk)) {
            Some(v) => {
                let larger = Scale::from_bits(v.0).max(ps);
                wants_insert(wanted, (inst, chunk), (larger.bits, pass));
            },
            None => {
                wants_insert(wanted, (inst, chunk), (ps.bits, pass));
            },
        }
    }

    // Slots and cells.
    pub(crate) fn alloc_node(
        nodes: &mut Vec<Node>,
        node_free: &mut Vec<u32>,
        node: Node,
    ) -> (r: u32)
        requires
            old(nodes)@.len() < CUT_TERMINAL,
            slots_ok(old(nodes)@, old(node_free)@),
            node.alive,
        ensures
            slots_ok(final(nodes)@, final(node_free)@),
            r <= old(nodes)@.len(),
            r < old(nodes)@.len() ==> !old(nodes)@[r as int].alive,
            final(nodes)@ == (if r < old(nodes)@.len() {
                old(nodes)@.update(r as int, node)
            } else {
                old(nodes)@.push(node)
            }),
            r == next_slot(old(nodes)@, old(node_free)@),
            final(node_free)@ == slots_left(old(node_free)@),
    {
        match node_free.pop() {
            Some(slot) => {
                proof {
                    assert(slot == old(node_free)@[old(node_free)@.len() - 1]);
                }
                nodes.set(slot as usize, node);
                proof {
                    assert forall|k: int| 0 <= k < node_free@.len() implies (
                    #[trigger] node_free@[k]) < nodes@.len() && !nodes@[node_free@[k] as int].alive by {
                        assert(node_free@[k] == old(node_free)@[k]);
                    }
                    assert(node_free@.no_duplicates());
                }
                slot
            },
            None => {
                nodes.push(node);
                (nodes.len() - 1) as u32
            },
        }
    }

    pub(crate) fn free_node(nodes: &mut Vec<Node>, node_free: &mut Vec<u32>, slot: u32)
        requires
            slot < old(nodes)@.len(),
            old(nodes)@[slot as int].alive,
            slots_ok(old(nodes)@, old(node_free)@),
        ensures
            slots_ok(final(nodes)@, final(node_free)@),
            final(nodes)@ == old(nodes)@.update(
                slot as int,
                Node {
                    alive: false,
                    child_count: 0,
                    expanded: 0,
                    parent: NONE,
                    ..old(nodes)@[slot as int]
                },
            ),
            final(node_free)@ == old(node_free)@.push(slot),
    {
        let mut n = nodes[slot as usize];
        n.alive = false;
        n.child_count = 0;
        n.expanded = 0;
        n.parent = NONE;
        nodes.set(slot as usize, n);
        node_free.push(slot);
    }

    /// A run of `count` cells that no one owns.
    pub(crate) fn alloc_arena(
        arena: &mut Vec<Child>,
        arena_free: &mut Vec<Vec<u32>>,
        owner: &mut Ghost<Seq<Owner>>,
        Ghost(nodes): Ghost<Seq<Node>>,
        count: u16,
    ) -> (base: u32)
        requires
            old(owner)@.len() == old(arena)@.len(),
            old(arena)@.len() + count <= u32::MAX,
            old(arena_free)@.len() == ARENA_BUCKETS,
            owners_ok(nodes, old(arena_free)@, old(owner)@),
        ensures
            final(owner)@.len() == final(arena)@.len(),
            old(arena)@.len() <= final(arena)@.len() <= old(arena)@.len() + count,
            final(arena_free)@.len() == ARENA_BUCKETS,
            owners_ok(nodes, final(arena_free)@, final(owner)@),
            owned(final(owner)@, base as int, count as int, Owner::Fresh),
            lost(final(owner)@, final(owner)@.len() as int) == lost(
                old(owner)@,
                old(owner)@.len() as int,
            ),
            forall|x: int|
                0 <= x < old(arena)@.len() ==> #[trigger] final(arena)@[x] == old(arena)@[x],
            base == next_run(old(arena)@.len() as int, runs(old(arena_free)@), count),
            runs(final(arena_free)@) == runs_left(runs(old(arena_free)@), count),
            final(arena)@.len() == cells_after(
                old(arena)@.len() as int,
                runs(old(arena_free)@),
                count,
            ),
    {
        let c: usize = count as usize;
        if c < ARENA_BUCKETS && arena_free[c].len() > 0 {
            let ghost free0 = arena_free@;
            let ghost owner0 = owner@;
            let base: u32 = match arena_free[c].pop() {
                Some(base) => base,
                None => 0,
            };
            proof {
                let k = free0[c as int]@.len() - 1;
                assert(base == free0[c as int]@[k]);
                assert(owned(owner0, base as int, c as int, Owner::Free(c as int, k)));
            }
            *owner = Ghost(handed(owner@, base as int, count as int, Owner::Fresh));
            proof {
                let k = free0[c as int]@.len() - 1;
                assert forall|d: int, l: int|
                    0 <= d < arena_free@.len() && 0 <= l < arena_free@[d]@.len() implies owned(
                    owner@,
                    (#[trigger] arena_free@[d]@[l]) as int,
                    d,
                    Owner::Free(d, l),
                ) by {
                    assert(arena_free@[d]@[l] == free0[d]@[l]);
                    assert(owned(owner0, free0[d]@[l] as int, d, Owner::Free(d, l)));
                    lemma_handed_elsewhere(
                        owner0,
                        base as int,
                        count as int,
                        Owner::Free(c as int, k),
                        Owner::Fresh,
                        free0[d]@[l] as int,
                        d,
                        Owner::Free(d, l),
                    );
                }
                assert forall|s: int| 0 <= s < nodes.len() && (
                #[trigger] nodes[s]).alive implies owned(
                    owner@,
                    nodes[s].children_base as int,
                    nodes[s].child_count as int,
                    Owner::Slot(s),
                ) by {
                    lemma_handed_elsewhere(
                        owner0,
                        base as int,
                        count as int,
                        Owner::Free(c as int, k),
                        Owner::Fresh,
                        nodes[s].children_base as int,
                        nodes[s].child_count as int,
                        Owner::Slot(s),
                    );
                }
                lemma_lost_frame(owner0, owner@, owner0.len() as int);
                assert(runs(arena_free@) =~= runs_left(runs(free0), count));
            }
            return base;
        }
        let base: u32 = arena.len() as u32;
        let ghost owner0 = owner@;
        let mut i: u16 = 0;
        while i < count
            invariant
                i <= count,
                old(arena)@.len() + count <= u32::MAX,
                arena@.len() == old(arena)@.len() + i,
                forall|x: int|
                    0 <= x < old(arena)@.len() ==> #[trigger] arena@[x] == old(arena)@[x],
            decreases count - i,
        {
            arena.push(Child { slot: CUT_TERMINAL, center: [0, 0, 0], size: 0 });
            i += 1;
        }
        *owner = Ghost(owner@ + Seq::new(count as nat, |x: int| Owner::Fresh));
        proof {
            assert(forall|x: int| 0 <= x < owner0.len() ==> #[trigger] owner@[x] == owner0[x]);
            lemma_lost_frame(owner0, owner@, owner0.len() as int);
            Self::lemma_fresh_cells_are_not_lost(owner@, owner0.len() as int, count as int);
        }
        base
    }

    proof fn lemma_fresh_cells_are_not_lost(owner: Seq<Owner>, n: int, count: int)
        requires
            0 <= n,
            0 <= count,
            owned(owner, n, count, Owner::Fresh),
        ensures
            lost(owner, n + count) == lost(owner, n),
        decreases count,
    {
        if count > 0 {
            Self::lemma_fresh_cells_are_not_lost(owner, n, count - 1);
            assert(owner[n + count - 1] == Owner::Fresh);
        }
    }

    /// Adds to the count of a chunk; a count of 0 is dropped.
    pub(crate) fn refs_add(refs: &mut Vec<AHashMap<u32, u32>>, inst: u8, chunk: u32, delta: i32)
        requires
            inst < old(refs)@.len(),
            0 <= refs_at(words(old(refs)@[inst as int]), chunk) + delta <= u32::MAX,
        ensures
            final(refs)@.len() == old(refs)@.len(),
            forall|i: int|
                0 <= i < old(refs)@.len() && i != inst ==> #[trigger] final(refs)@[i]
                    == old(refs)@[i],
            forall|c: u32| #[trigger]
                refs_at(words(final(refs)@[inst as int]), c) == refs_at(
                    words(old(refs)@[inst as int]),
                    c,
                ) + (if c == chunk {
                    delta as int
                } else {
                    0
                }),
            (forall|c: u32| #[trigger]
                words(old(refs)@[inst as int]).contains_key(c) ==> words(
                    old(refs)@[inst as int],
                )[c] > 0) ==> forall|c: u32| #[trigger]
                words(final(refs)@[inst as int]).contains_key(c) ==> words(
                    final(refs)@[inst as int],
                )[c] > 0,
    {
        let e: u32 = match words_get(&refs[inst as usize], chunk) {
            Some(v) => v,
            None => 0,
        };
        let v: i64 = e as i64 + delta as i64;
        if v <= 0 {
            words_remove(&mut refs[inst as usize], chunk);
        } else {
            words_insert(&mut refs[inst as usize], chunk, v as u32);
        }
    }

    /// The chunks that a run of nodes lies in, at most two, with how many of it lie in each.
    pub fn chunk_spans(start: u32, count: u16) -> (r: [(u32, i32); 2])
        requires
            count > 0,
            start + count <= u32::MAX,
        ensures
            r[0].0 == chunk_of(start as int),
            r[0].1 == overlap(start as int, start + count, chunk_of(start as int)),
            0 < r[0].1 <= count,
            chunk_of(start as int) == chunk_of(start + count - 1) ==> r[1] == (NONE, 0i32),
            chunk_of(start as int) != chunk_of(start + count - 1) ==> r[1].0 == chunk_of(
                start + count - 1,
            ) && 0 < r[1].1 == overlap(start as int, start + count, chunk_of(start + count - 1)),
            r[0].1 + r[1].1 == count,
            forall|c: int|
                0 <= c && c != chunk_of(start as int) && c != chunk_of(start + count - 1)
                    ==> #[trigger] overlap(start as int, start + count, c) == 0,
    {
        let first: u32 = start / 0x1_0000;
        let last: u32 = (start + count as u32 - 1) / 0x1_0000;
        if first == last {
            [(first, count as i32), (NONE, 0)]
        } else {
            let in_first: u32 = ((first as u64 + 1) * 0x1_0000 - start as u64) as u32;
            [(first, in_first as i32), (last, count as i32 - in_first as i32)]
        }
    }

    /// Gives back the cells of a node; those of a long run are lost.
    pub(crate) fn free_arena(
        arena_free: &mut Vec<Vec<u32>>,
        arena_leaked: &mut u32,
        owner: &mut Ghost<Seq<Owner>>,
        Ghost(nodes): Ghost<Seq<Node>>,
        Ghost(nodes2): Ghost<Seq<Node>>,
        slot: u32,
        base: u32,
        count: u16,
    )
        requires
            old(arena_free)@.len() == ARENA_BUCKETS,
            owners_ok(nodes, old(arena_free)@, old(owner)@),
            slot < nodes.len(),
            nodes[slot as int].alive,
            nodes[slot as int].children_base == base,
            nodes[slot as int].child_count == count,
            old(owner)@.len() <= u32::MAX,
            *old(arena_leaked) == lost(old(owner)@, old(owner)@.len() as int),
            nodes2.len() == nodes.len(),
            !nodes2[slot as int].alive,
            forall|t: int|
                0 <= t < nodes2.len() && (#[trigger] nodes2[t]).alive ==> nodes[t].alive
                    && nodes2[t].children_base == nodes[t].children_base && nodes2[t].child_count
                    == nodes[t].child_count,
        ensures
            final(arena_free)@.len() == ARENA_BUCKETS,
            final(owner)@.len() == old(owner)@.len(),
            owners_ok(nodes2, final(arena_free)@, final(owner)@),
            *final(arena_leaked) == lost(final(owner)@, final(owner)@.len() as int),
            runs(final(arena_free)@) == runs_with(runs(old(arena_free)@), base, count),
            *final(arena_leaked) == *old(arena_leaked) + (if count < ARENA_BUCKETS {
                0
            } else {
                count as int
            }),
    {
        let c: usize = count as usize;
        let ghost free0 = arena_free@;
        let ghost owner0 = owner@;
        let ghost from = Owner::Slot(slot as int);
        proof {
            assert(owned(owner0, base as int, count as int, from));
        }
        if c < ARENA_BUCKETS {
            let ghost to = Owner::Free(c as int, free0[c as int]@.len() as int);
            arena_free[c].push(base);
            *owner = Ghost(handed(owner@, base as int, count as int, to));
            proof {
                lemma_lost_frame(owner0, owner@, owner0.len() as int);
                Self::lemma_freed(nodes, nodes2, free0, owner0, slot, to);
                assert forall|d: int, l: int|
                    0 <= d < arena_free@.len() && 0 <= l < arena_free@[d]@.len() implies owned(
                    owner@,
                    (#[trigger] arena_free@[d]@[l]) as int,
                    d,
                    Owner::Free(d, l),
                ) by {
                    if d != c || l < free0[c as int]@.len() {
                        assert(arena_free@[d]@[l] == free0[d]@[l]);
                    }
                }
                assert(runs(arena_free@) =~= runs_with(runs(free0), base, count));
            }
        } else {
            proof {
                lemma_lost_more(owner0, base as int, count as int, owner0.len() as int);
                lemma_lost_bounds(
                    handed(owner0, base as int, count as int, Owner::Lost),
                    owner0.len() as int,
                );
                Self::lemma_freed(nodes, nodes2, free0, owner0, slot, Owner::Lost);
            }
            *arena_leaked = *arena_leaked + count as u32;
            *owner = Ghost(handed(owner@, base as int, count as int, Owner::Lost));
        }
    }

    /// Handing over the cells of a node that dies leaves all other owners theirs.
    proof fn lemma_freed(
        nodes: Seq<Node>,
        nodes2: Seq<Node>,
        free: Seq<Vec<u32>>,
        owner: Seq<Owner>,
        slot: u32,
        to: Owner,
    )
        requires
            owners_ok(nodes, free, owner),
            slot < nodes.len(),
            nodes[slot as int].alive,
            nodes2.len() == nodes.len(),
            !nodes2[slot as int].alive,
            forall|t: int|
                0 <= t < nodes2.len() && (#[trigger] nodes2[t]).alive ==> nodes[t].alive
                    && nodes2[t].children_base == nodes[t].children_base && nodes2[t].child_count
                    == nodes[t].child_count,
        ensures
            owners_ok(
                nodes2,
                free,
                handed(
                    owner,
                    nodes[slot as int].children_base as int,
                    nodes[slot as int].child_count as int,
                    to,
                ),
            ),
    {
        let n = nodes[slot as int];
        let base = n.children_base as int;
        let count = n.child_count as int;
        let from = Owner::Slot(slot as int);
        let after = handed(owner, base, count, to);
        assert forall|t: int| 0 <= t < nodes2.len() && (#[trigger] nodes2[t]).alive implies owned(
            after,
            nodes2[t].children_base as int,
            nodes2[t].child_count as int,
            Owner::Slot(t),
        ) by {
            assert(nodes[t].alive);
            lemma_handed_elsewhere(
                owner,
                base,
                count,
                from,
                to,
                nodes[t].children_base as int,
                nodes[t].child_count as int,
                Owner::Slot(t),
            );
        }
        assert forall|d: int, l: int|
            0 <= d < free.len() && 0 <= l < free[d]@.len() implies owned(
            after,
            (#[trigger] free[d]@[l]) as int,
            d,
            Owner::Free(d, l),
        ) by {
            lemma_handed_elsewhere(
                owner,
                base,
                count,
                from,
                to,
                free[d]@[l] as int,
                d,
                Owner::Free(d, l),
            );
        }
    }

    /// How the count in each chunk changes when a node of the cut gives way to a run.
    pub(crate) proof fn lemma_refs_opened(
        cut: Multiset<IndexNode>,
        cut2: Multiset<IndexNode>,
        x: IndexNode,
        start: u32,
        count: int,
        inst: u8,
        chunk: int,
    )
        requires
            cut2.insert(x) == cut.add(run(x.0, start, count).to_multiset()),
            0 <= count,
            start + count <= u32::MAX,
            0 <= chunk,
        ensures
            in_chunk(cut2, inst, chunk) + (if x.0 == inst && chunk_of(x.1 as int) == chunk {
                1int
            } else {
                0
            }) == in_chunk(cut, inst, chunk) + (if x.0 == inst {
                overlap(start as int, start + count, chunk)
            } else {
                0
            }),
    {
        lemma_in_chunk_insert(cut2, x, inst, chunk);
        lemma_in_chunk_add(cut, run(x.0, start, count).to_multiset(), inst, chunk);
        lemma_in_chunk_run(x.0, start, count, inst, chunk);
    }

    /// Books a run of nodes into, or out of, the counts of its chunks.
    pub(crate) fn refs_span(
        refs: &mut Vec<AHashMap<u32, u32>>,
        inst: u8,
        start: u32,
        count: u16,
        out: bool,
    )
        requires
            inst < old(refs)@.len(),
            count > 0,
            start + count <= u32::MAX,
            forall|c: u32| #[trigger]
                refs_at(words(old(refs)@[inst as int]), c) + (if out {
                    -overlap(start as int, start + count, c as int)
                } else {
                    overlap(start as int, start + count, c as int)
                }) <= u32::MAX,
            forall|c: u32| #[trigger]
                refs_at(words(old(refs)@[inst as int]), c) + (if out {
                    -overlap(start as int, start + count, c as int)
                } else {
                    overlap(start as int, start + count, c as int)
                }) >= 0,
        ensures
            final(refs)@.len() == old(refs)@.len(),
            forall|i: int|
                0 <= i < old(refs)@.len() && i != inst ==> #[trigger] final(refs)@[i]
                    == old(refs)@[i],
            forall|c: u32| #[trigger]
                refs_at(words(final(refs)@[inst as int]), c) == refs_at(
                    words(old(refs)@[inst as int]),
                    c,
                ) + (if out {
                    -overlap(start as int, start + count, c as int)
                } else {
                    overlap(start as int, start + count, c as int)
                }),
            (forall|c: u32| #[trigger]
                words(old(refs)@[inst as int]).contains_key(c) ==> words(
                    old(refs)@[inst as int],
                )[c] > 0) ==> forall|c: u32| #[trigger]
                words(final(refs)@[inst as int]).contains_key(c) ==> words(
                    final(refs)@[inst as int],
                )[c] > 0,
    {
        let spans = Self::chunk_spans(start, count);
        let first = spans[0];
        let second = spans[1];
        assert(refs_at(words(refs@[inst as int]), first.0) >= 0);
        Self::refs_add(
            refs,
            inst,
            first.0,
            if out {
                -first.1
            } else {
                first.1
            },
        );
        if second.1 > 0 {
            assert(refs_at(words(refs@[inst as int]), second.0) >= 0);
            Self::refs_add(
                refs,
                inst,
                second.0,
                if out {
                    -second.1
                } else {
                    second.1
                },
            );
        }
    }
}

} // verus!
