//! The table behind an incremental cut, as a mathematical object.
//!
//! The table holds the nodes that have been expanded. Each of them owns a run of cells in the
//! arena, one for each of its children, and a cell says whether that child is expanded too.
//! The cut is what is left: the children that are not expanded.

use vstd::multiset::Multiset;
use vstd::prelude::*;
use vstd::seq_lib::{group_to_multiset_ensures, lemma_multiset_commutative};

use crate::scale::Scale;
use crate::tree_view::chunk_of;

verus! {

/// No node.
pub const NONE: u32 = 0xffff_ffff;

/// Cell of a child that is not expanded and may have children.
pub const CUT_LEAF: u32 = 0xffff_fffe;

/// Cell of a child that is not expanded and is a leaf of the tree.
pub const CUT_TERMINAL: u32 = 0xffff_fffd;

/// An expanded node. Its own position and that of its children are numbered by chunk, not by
/// page. The root of an instance hangs below a virtual node, whose `index` and `parent` are
/// `NONE`.
#[derive(Debug, Clone, Copy)]
pub struct Node {
    pub inst: u8,
    pub index: u32,
    pub parent: u32,
    pub child_start: u32,
    pub child_count: u16,
    /// How many of the children are expanded.
    pub expanded: u16,
    pub ps: Scale,
    pub children_base: u32,
    pub center: [u16; 3],
    pub size: u16,
    /// Upper bounds, as half-precision patterns, on the distance of a child's center from this
    /// center and on the size of a child.
    pub radius: u16,
    pub child_size_max: u16,
    /// A child has lost its page.
    pub forced: bool,
    pub alive: bool,
}

/// An arena cell: a child, with the slot of its node if it is expanded.
#[derive(Debug, Clone, Copy)]
pub struct Child {
    pub slot: u32,
    pub center: [u16; 3],
    pub size: u16,
}

/// A node by instance and by its number in the tree.
pub type IndexNode = (u8, u32);

/// The cell's child is not expanded.
pub open spec fn unexpanded(slot: u32) -> bool {
    slot == CUT_LEAF || slot == CUT_TERMINAL
}

/// What the cell of a node's child `i` holds.
pub open spec fn cell(node: Node, arena: Seq<Child>, i: int) -> u32 {
    arena[node.children_base + i].slot
}

/// Of the first `k` children of a node, those that are not expanded, in order.
pub open spec fn group(node: Node, arena: Seq<Child>, k: int) -> Seq<IndexNode>
    decreases k,
{
    if k <= 0 {
        Seq::empty()
    } else if unexpanded(cell(node, arena, k - 1)) {
        group(node, arena, k - 1).push((node.inst, (node.child_start + k - 1) as u32))
    } else {
        group(node, arena, k - 1)
    }
}

/// The children of a node that are in the cut.
pub open spec fn share(node: Node, arena: Seq<Child>) -> Seq<IndexNode> {
    if node.alive {
        group(node, arena, node.child_count as int)
    } else {
        Seq::empty()
    }
}

/// The cut that the first `n` slots of the table describe, in slot order.
pub open spec fn cut_list(nodes: Seq<Node>, arena: Seq<Child>, n: int) -> Seq<IndexNode>
    decreases n,
{
    if n <= 0 {
        Seq::empty()
    } else {
        cut_list(nodes, arena, n - 1) + share(nodes[n - 1], arena)
    }
}

/// `count` consecutive nodes from `start` on.
pub open spec fn run(inst: u8, start: u32, count: int) -> Seq<IndexNode> {
    Seq::new(count as nat, |g: int| (inst, (start + g) as u32))
}

/// A node lies in a chunk of an instance's tree.
pub open spec fn lies_in(inst: u8, chunk: int) -> spec_fn(IndexNode) -> bool {
    |x: IndexNode| x.0 == inst && chunk_of(x.1 as int) == chunk
}

/// How many nodes of the cut lie in a chunk of an instance's tree.
pub open spec fn in_chunk(cut: Multiset<IndexNode>, inst: u8, chunk: int) -> nat {
    cut.filter(lies_in(inst, chunk)).len()
}

/// How many of the numbers from `start` up to, and without, `end` lie in a chunk.
pub open spec fn overlap(start: int, end: int, chunk: int) -> int {
    let low = if start < chunk * 0x1_0000 {
        chunk * 0x1_0000
    } else {
        start
    };
    let high = if (chunk + 1) * 0x1_0000 < end {
        (chunk + 1) * 0x1_0000
    } else {
        end
    };
    if low < high {
        high - low
    } else {
        0
    }
}

/// A cell of node `s` is that of a child in the cut, or names the child's own node.
pub open spec fn cell_ok(nodes: Seq<Node>, s: int, i: int, slot: u32) -> bool {
    unexpanded(slot) || {
        &&& slot < nodes.len()
        &&& nodes[slot as int].alive
        &&& nodes[slot as int].parent == s
        &&& nodes[slot as int].index == nodes[s].child_start + i
    }
}

/// A node that is no virtual one hangs below the node that it names, in the cell of its index.
pub open spec fn hangs(nodes: Seq<Node>, arena: Seq<Child>, s: int) -> bool {
    let n = nodes[s];
    if n.parent == NONE {
        n.index == NONE
    } else {
        let p = nodes[n.parent as int];
        &&& n.parent < nodes.len()
        &&& p.alive
        &&& p.inst == n.inst
        &&& p.child_start <= n.index < p.child_start + p.child_count
        &&& cell(p, arena, n.index - p.child_start) == s
    }
}

pub open spec fn node_ok(nodes: Seq<Node>, arena: Seq<Child>, insts: int, s: int) -> bool {
    let n = nodes[s];
    &&& n.inst < insts
    &&& n.child_count > 0
    &&& n.child_start + n.child_count <= u32::MAX
    &&& n.children_base + n.child_count <= arena.len()
    &&& n.expanded == n.child_count - group(n, arena, n.child_count as int).len()
    &&& forall|i: int|
        0 <= i < n.child_count ==> cell_ok(
            nodes,
            s,
            i,
            #[trigger] cell(n, arena, i),
        )
    &&& hangs(nodes, arena, s)
}

/// Every live node is well linked.
pub open spec fn links_ok(nodes: Seq<Node>, arena: Seq<Child>, insts: int) -> bool {
    &&& nodes.len() <= CUT_TERMINAL
    &&& forall|s: int|
        0 <= s < nodes.len() && (#[trigger] nodes[s]).alive ==> node_ok(nodes, arena, insts, s)
}

/// What an arena cell belongs to.
pub enum Owner {
    /// The node in a slot.
    Slot(int),
    /// A free run: its length, and its place in the list of free runs of that length.
    Free(int, int),
    /// A run that was just handed out.
    Fresh,
    /// A run that is not used again.
    Lost,
}

/// All cells of a run belong to `o`.
pub open spec fn owned(owner: Seq<Owner>, base: int, count: int, o: Owner) -> bool {
    &&& 0 <= base
    &&& base + count <= owner.len()
    &&& forall|x: int| base <= x < base + count ==> #[trigger] owner[x] == o
}

/// Every live node owns its cells, and every free run its own.
pub open spec fn owners_ok(
    nodes: Seq<Node>,
    free: Seq<Vec<u32>>,
    owner: Seq<Owner>,
) -> bool {
    &&& forall|s: int|
        0 <= s < nodes.len() && (#[trigger] nodes[s]).alive ==> owned(
            owner,
            nodes[s].children_base as int,
            nodes[s].child_count as int,
            Owner::Slot(s),
        )
    &&& forall|c: int, k: int|
        0 <= c < free.len() && 0 <= k < free[c]@.len() ==> owned(
            owner,
            (#[trigger] free[c]@[k]) as int,
            c,
            Owner::Free(c, k),
        )
}

/// The cells of a run handed over to `o`.
pub open spec fn handed(owner: Seq<Owner>, base: int, count: int, o: Owner) -> Seq<Owner> {
    Seq::new(
        owner.len(),
        |x: int|
            if base <= x < base + count {
                o
            } else {
                owner[x]
            },
    )
}

/// Handing one owner's run over leaves the runs of other owners as they are.
pub proof fn lemma_handed_elsewhere(
    owner: Seq<Owner>,
    base: int,
    count: int,
    from: Owner,
    to: Owner,
    base2: int,
    count2: int,
    other: Owner,
)
    requires
        owned(owner, base, count, from),
        owned(owner, base2, count2, other),
        from != other,
    ensures
        owned(handed(owner, base, count, to), base2, count2, other),
{
    let after = handed(owner, base, count, to);
    assert forall|x: int| base2 <= x < base2 + count2 implies #[trigger] after[x] == other by {
        assert(owner[x] == other);
        if base <= x < base + count {
            assert(owner[x] == from);
        }
    }
}

/// How many of the first `n` cells are lost.
pub open spec fn lost(owner: Seq<Owner>, n: int) -> int
    decreases n,
{
    if n <= 0 {
        0
    } else {
        lost(owner, n - 1) + (if owner[n - 1] is Lost {
            1int
        } else {
            0
        })
    }
}

pub proof fn lemma_lost_bounds(owner: Seq<Owner>, n: int)
    requires
        0 <= n,
    ensures
        0 <= lost(owner, n) <= n,
    decreases n,
{
    if n > 0 {
        lemma_lost_bounds(owner, n - 1);
    }
}

pub proof fn lemma_lost_frame(a: Seq<Owner>, b: Seq<Owner>, n: int)
    requires
        0 <= n <= a.len(),
        n <= b.len(),
        forall|x: int| 0 <= x < n ==> (#[trigger] a[x] is Lost <==> b[x] is Lost),
    ensures
        lost(a, n) == lost(b, n),
    decreases n,
{
    if n > 0 {
        lemma_lost_frame(a, b, n - 1);
        assert(a[n - 1] is Lost <==> b[n - 1] is Lost);
    }
}

/// Giving up a run adds its cells to the lost ones.
pub proof fn lemma_lost_more(owner: Seq<Owner>, base: int, count: int, n: int)
    requires
        0 <= base,
        0 <= count,
        base + count <= owner.len(),
        0 <= n <= owner.len(),
        forall|x: int| base <= x < base + count ==> !(#[trigger] owner[x] is Lost),
    ensures
        lost(handed(owner, base, count, Owner::Lost), n) == lost(owner, n) + (if n <= base {
            0
        } else if n <= base + count {
            n - base
        } else {
            count
        }),
    decreases n,
{
    if n > 0 {
        lemma_lost_more(owner, base, count, n - 1);
        assert(base <= n - 1 < base + count ==> !(owner[n - 1] is Lost));
    }
}

pub proof fn lemma_group_frame(node: Node, other: Node, a: Seq<Child>, b: Seq<Child>, k: int)
    requires
        node.child_start == other.child_start,
        node.inst == other.inst,
        forall|i: int|
            0 <= i < k ==> unexpanded(#[trigger] cell(node, a, i)) == unexpanded(
                cell(other, b, i),
            ),
    ensures
        group(node, a, k) == group(other, b, k),
    decreases k,
{
    if k > 0 {
        lemma_group_frame(node, other, a, b, k - 1);
        assert(unexpanded(cell(node, a, k - 1)) == unexpanded(cell(other, b, k - 1)));
    }
}

pub proof fn lemma_group_len(node: Node, arena: Seq<Child>, k: int)
    requires
        0 <= k,
    ensures
        group(node, arena, k).len() <= k,
    decreases k,
{
    if k > 0 {
        lemma_group_len(node, arena, k - 1);
    }
}

/// Children none of which is expanded are all in the cut.
pub proof fn lemma_group_full(node: Node, arena: Seq<Child>, k: int)
    requires
        0 <= k,
        node.child_start + k <= u32::MAX,
        forall|i: int|
            0 <= i < k ==> unexpanded(#[trigger] cell(node, arena, i)),
    ensures
        group(node, arena, k) == run(node.inst, node.child_start, k),
    decreases k,
{
    if k > 0 {
        lemma_group_full(node, arena, k - 1);
        assert(unexpanded(cell(node, arena, k - 1)));
        assert(group(node, arena, k) =~= run(node.inst, node.child_start, k));
    } else {
        assert(group(node, arena, k) =~= run(node.inst, node.child_start, k));
    }
}

/// If as many children are in the cut as there are, none is expanded.
pub proof fn lemma_group_all(node: Node, arena: Seq<Child>, k: int, i: int)
    requires
        0 <= i < k,
        group(node, arena, k).len() == k,
    ensures
        unexpanded(cell(node, arena, i)),
    decreases k,
{
    lemma_group_len(node, arena, k - 1);
    if i < k - 1 {
        lemma_group_all(node, arena, k - 1, i);
    }
}

/// A child that is not expanded is in the group.
pub proof fn lemma_group_has(node: Node, arena: Seq<Child>, k: int, i: int)
    requires
        0 <= i < k,
        unexpanded(cell(node, arena, i)),
    ensures
        group(node, arena, k).len() > 0,
    decreases k,
{
    if i < k - 1 {
        lemma_group_has(node, arena, k - 1, i);
    }
}

/// A child that is expanded is missing in the group.
pub proof fn lemma_group_misses(node: Node, arena: Seq<Child>, k: int, i: int)
    requires
        0 <= i < k,
        !unexpanded(cell(node, arena, i)),
    ensures
        group(node, arena, k).len() < k,
    decreases k,
{
    lemma_group_len(node, arena, k - 1);
    if i < k - 1 {
        lemma_group_misses(node, arena, k - 1, i);
    }
}

/// Expanding one child takes it out of the group.
pub proof fn lemma_group_change(node: Node, a: Seq<Child>, b: Seq<Child>, k: int, i: int)
    requires
        0 <= i,
        node.child_start + k <= u32::MAX,
        i < k ==> unexpanded(cell(node, a, i)),
        i < k ==> !unexpanded(cell(node, b, i)),
        forall|j: int|
            0 <= j < k && j != i ==> #[trigger] cell(node, a, j) == cell(node, b, j),
    ensures
        i < k ==> group(node, a, k).to_multiset() == group(node, b, k).to_multiset().insert(
            (node.inst, (node.child_start + i) as u32),
        ),
        i < k ==> group(node, a, k).len() == group(node, b, k).len() + 1,
        i >= k ==> group(node, a, k) == group(node, b, k),
    decreases k,
{
    broadcast use group_to_multiset_ensures;

    if k > 0 {
        lemma_group_change(node, a, b, k - 1, i);
        if k - 1 != i {
            assert(cell(node, a, k - 1) == cell(node, b, k - 1));
        }
        assert(group(node, a, k).to_multiset() =~= group(node, b, k).to_multiset().insert(
            (node.inst, (node.child_start + i) as u32),
        ) || i >= k);
    }
}

pub proof fn lemma_cut_step(nodes: Seq<Node>, arena: Seq<Child>, n: int)
    requires
        0 < n,
    ensures
        cut_list(nodes, arena, n).to_multiset() == cut_list(
            nodes,
            arena,
            n - 1,
        ).to_multiset().add(share(nodes[n - 1], arena).to_multiset()),
{
    lemma_multiset_commutative(cut_list(nodes, arena, n - 1), share(nodes[n - 1], arena));
}

/// Where only one slot changes its share, the cut changes by that.
pub proof fn lemma_cut_change(
    nodes: Seq<Node>,
    arena: Seq<Child>,
    nodes2: Seq<Node>,
    arena2: Seq<Child>,
    n: int,
    s: int,
)
    requires
        0 <= n <= nodes.len(),
        n <= nodes2.len(),
        0 <= s,
        forall|t: int|
            0 <= t < n && t != s ==> share(#[trigger] nodes[t], arena) == share(
                nodes2[t],
                arena2,
            ),
    ensures
        s >= n ==> cut_list(nodes, arena, n) == cut_list(nodes2, arena2, n),
        s < n ==> cut_list(nodes, arena, n).to_multiset().add(
            share(nodes2[s], arena2).to_multiset(),
        ) == cut_list(nodes2, arena2, n).to_multiset().add(share(nodes[s], arena).to_multiset()),
    decreases n,
{
    if n > 0 {
        lemma_cut_change(nodes, arena, nodes2, arena2, n - 1, s);
        lemma_cut_step(nodes, arena, n);
        lemma_cut_step(nodes2, arena2, n);
        if s != n - 1 {
            assert(share(nodes[n - 1], arena) == share(nodes2[n - 1], arena2));
        }
        if s < n {
            let left = cut_list(nodes, arena, n).to_multiset().add(
                share(nodes2[s], arena2).to_multiset(),
            );
            let right = cut_list(nodes2, arena2, n).to_multiset().add(
                share(nodes[s], arena).to_multiset(),
            );
            assert forall|x: IndexNode| left.count(x) == right.count(x) by {
                let l = cut_list(nodes, arena, n - 1).to_multiset().add(
                    share(nodes2[s], arena2).to_multiset(),
                );
                let r = cut_list(nodes2, arena2, n - 1).to_multiset().add(
                    share(nodes[s], arena).to_multiset(),
                );
                assert(s < n - 1 ==> l.count(x) == r.count(x));
            }
            assert(left =~= right);
        }
    }
}

pub proof fn lemma_cut_frame(
    nodes: Seq<Node>,
    arena: Seq<Child>,
    nodes2: Seq<Node>,
    arena2: Seq<Child>,
    n: int,
)
    requires
        0 <= n <= nodes.len(),
        n <= nodes2.len(),
        forall|t: int|
            0 <= t < n ==> share(#[trigger] nodes[t], arena) == share(nodes2[t], arena2),
    ensures
        cut_list(nodes, arena, n) == cut_list(nodes2, arena2, n),
{
    lemma_cut_change(nodes, arena, nodes2, arena2, n, n);
}

/// The cut is no smaller than the share of one node.
pub proof fn lemma_cut_has_share(nodes: Seq<Node>, arena: Seq<Child>, n: int, s: int)
    requires
        0 <= s < n <= nodes.len(),
    ensures
        cut_list(nodes, arena, n).len() >= share(nodes[s], arena).len(),
    decreases n,
{
    if s < n - 1 {
        lemma_cut_has_share(nodes, arena, n - 1, s);
    }
}

/// Counting in a chunk is counting one by one.
pub proof fn lemma_in_chunk_insert(m: Multiset<IndexNode>, x: IndexNode, inst: u8, chunk: int)
    ensures
        in_chunk(m.insert(x), inst, chunk) == in_chunk(m, inst, chunk) + (if x.0 == inst
            && chunk_of(x.1 as int) == chunk {
            1int
        } else {
            0
        }),
{
    let p = lies_in(inst, chunk);
    if p(x) {
        assert(m.insert(x).filter(p) =~= m.filter(p).insert(x));
    } else {
        assert(m.insert(x).filter(p) =~= m.filter(p));
    }
}

pub proof fn lemma_in_chunk_add(
    m: Multiset<IndexNode>,
    n: Multiset<IndexNode>,
    inst: u8,
    chunk: int,
)
    ensures
        in_chunk(m.add(n), inst, chunk) == in_chunk(m, inst, chunk) + in_chunk(n, inst, chunk),
{
    let p = lies_in(inst, chunk);
    assert(m.add(n).filter(p) =~= m.filter(p).add(n.filter(p)));
}

pub proof fn lemma_in_chunk_le_len(m: Multiset<IndexNode>, inst: u8, chunk: int)
    ensures
        in_chunk(m, inst, chunk) <= m.len(),
{
    let p = lies_in(inst, chunk);
    let q = m.filter(|x: IndexNode| !p(x));
    assert(m.filter(p).add(q) =~= m);
}

pub proof fn lemma_in_chunk_empty(inst: u8, chunk: int)
    ensures
        in_chunk(Multiset::empty(), inst, chunk) == 0,
{
    let p = lies_in(inst, chunk);
    assert(Multiset::<IndexNode>::empty().filter(p) =~= Multiset::empty());
}

/// Of a run of nodes, as many lie in a chunk as the run and the chunk overlap.
pub proof fn lemma_in_chunk_run(inst: u8, start: u32, count: int, other: u8, chunk: int)
    requires
        0 <= count,
        start + count <= u32::MAX,
        0 <= chunk,
    ensures
        in_chunk(run(inst, start, count).to_multiset(), other, chunk) == (if inst == other {
            overlap(start as int, start + count, chunk)
        } else {
            0
        }),
    decreases count,
{
    broadcast use group_to_multiset_ensures;

    let all = run(inst, start, count);
    if count == 0 {
        assert(all.to_multiset().len() == 0);
        assert(all.to_multiset() =~= Multiset::empty());
        lemma_in_chunk_empty(other, chunk);
    } else {
        let x = (inst, (start + count - 1) as u32);
        lemma_in_chunk_run(inst, start, count - 1, other, chunk);
        assert(all =~= run(inst, start, count - 1).push(x));
        vstd::seq_lib::to_multiset_build(run(inst, start, count - 1), x);
        lemma_in_chunk_insert(run(inst, start, count - 1).to_multiset(), x, other, chunk);
    }
}

/// The table before and after child `i` of node `s` got a node of its own, in slot `new`.
pub open spec fn opened(
    nodes: Seq<Node>,
    arena: Seq<Child>,
    nodes2: Seq<Node>,
    arena2: Seq<Child>,
    s: int,
    i: int,
    new: int,
) -> bool {
    &&& 0 <= s < nodes.len()
    &&& nodes[s].alive
    &&& 0 <= i < nodes[s].child_count
    &&& 0 <= new <= nodes.len()
    &&& new < nodes.len() ==> !nodes[new].alive
    &&& nodes2.len() == (if new < nodes.len() {
        nodes.len()
    } else {
        nodes.len() + 1
    })
    &&& forall|t: int|
        0 <= t < nodes.len() && t != s && t != new ==> #[trigger] nodes2[t] == nodes[t]
    &&& nodes2[s] == (Node { expanded: (nodes[s].expanded + 1) as u16, ..nodes[s] })
    &&& nodes2[new].alive
    &&& nodes2[new].inst == nodes[s].inst
    &&& nodes2[new].parent == s
    &&& nodes2[new].index == nodes[s].child_start + i
    &&& nodes2[new].child_count > 0
    &&& nodes2[new].child_start + nodes2[new].child_count <= u32::MAX
    &&& nodes2[new].children_base + nodes2[new].child_count <= arena2.len()
    &&& nodes2[new].expanded == 0
    &&& arena.len() <= arena2.len()
    &&& unexpanded(cell(nodes[s], arena, i))
    &&& cell(nodes[s], arena2, i) == new
    &&& forall|t: int, j: int|
        0 <= t < nodes.len() && nodes[t].alive && 0 <= j < nodes[t].child_count && (t != s || j
            != i) ==> #[trigger] cell(nodes[t], arena2, j) == cell(nodes[t], arena, j)
    &&& forall|j: int|
        0 <= j < nodes2[new].child_count ==> unexpanded(#[trigger] cell(nodes2[new], arena2, j))
}

/// The shares of all other nodes stay as they are.
proof fn lemma_opened_shares(
    nodes: Seq<Node>,
    arena: Seq<Child>,
    nodes2: Seq<Node>,
    arena2: Seq<Child>,
    insts: int,
    s: int,
    i: int,
    new: int,
    t: int,
)
    requires
        links_ok(nodes, arena, insts),
        opened(nodes, arena, nodes2, arena2, s, i, new),
        0 <= t < nodes.len(),
        t != s,
        t != new,
    ensures
        share(nodes2[t], arena2) == share(nodes[t], arena),
{
    assert(nodes2[t] == nodes[t]);
    if nodes[t].alive {
        lemma_group_frame(nodes[t], nodes2[t], arena, arena2, nodes[t].child_count as int);
    }
}

/// Opening a child keeps the links, and replaces the child in the cut by its own children.
pub proof fn lemma_opened(
    nodes: Seq<Node>,
    arena: Seq<Child>,
    nodes2: Seq<Node>,
    arena2: Seq<Child>,
    insts: int,
    s: int,
    i: int,
    new: int,
)
    requires
        links_ok(nodes, arena, insts),
        opened(nodes, arena, nodes2, arena2, s, i, new),
        nodes2.len() <= CUT_TERMINAL,
    ensures
        links_ok(nodes2, arena2, insts),
        cut_list(nodes2, arena2, nodes2.len() as int).to_multiset().insert(
            (nodes[s].inst, (nodes[s].child_start + i) as u32),
        ) == cut_list(nodes, arena, nodes.len() as int).to_multiset().add(
            run(
                nodes2[new].inst,
                nodes2[new].child_start,
                nodes2[new].child_count as int,
            ).to_multiset(),
        ),
        cut_list(nodes, arena, nodes.len() as int).to_multiset().count(
            (nodes[s].inst, (nodes[s].child_start + i) as u32),
        ) > 0,
        nodes[s].expanded < nodes[s].child_count,
{
    broadcast use group_to_multiset_ensures;

    let n = nodes2[new];
    let p = nodes[s];
    assert(s != new);
    assert(node_ok(nodes, arena, insts, s));
    assert forall|j: int| 0 <= j < p.child_count && j != i implies #[trigger] cell(p, arena, j)
        == cell(p, arena2, j) by {
        assert(cell(nodes[s], arena2, j) == cell(nodes[s], arena, j));
    }
    lemma_group_change(p, arena, arena2, p.child_count as int, i);
    lemma_group_len(p, arena, p.child_count as int);
    lemma_group_frame(p, nodes2[s], arena2, arena2, p.child_count as int);
    lemma_group_full(n, arena2, n.child_count as int);
    assert forall|t: int| 0 <= t < nodes2.len() && (#[trigger] nodes2[t]).alive implies node_ok(
        nodes2,
        arena2,
        insts,
        t,
    ) by {
        if t == new {
            assert(cell(nodes2[s], arena2, i) == cell(nodes[s], arena2, i));
        } else {
            assert(nodes[t].alive);
            assert(node_ok(nodes, arena, insts, t));
            let m = nodes[t];
            if t != s {
                lemma_opened_shares(nodes, arena, nodes2, arena2, insts, s, i, new, t);
            }
            assert forall|j: int| 0 <= j < m.child_count implies cell_ok(
                nodes2,
                t,
                j,
                #[trigger] cell(nodes2[t], arena2, j),
            ) by {
                assert(cell(nodes2[t], arena2, j) == cell(nodes[t], arena2, j));
                if t != s || j != i {
                    assert(cell(nodes[t], arena2, j) == cell(nodes[t], arena, j));
                    assert(cell_ok(nodes, t, j, cell(nodes[t], arena, j)));
                }
            }
            if m.parent != NONE {
                let off = m.index - nodes[m.parent as int].child_start;
                assert(node_ok(nodes, arena, insts, m.parent as int));
                assert(cell(nodes[m.parent as int], arena2, off) == cell(
                    nodes[m.parent as int],
                    arena,
                    off,
                ));
                assert(cell(nodes2[m.parent as int], arena2, off) == cell(
                    nodes[m.parent as int],
                    arena2,
                    off,
                ));
            }
        }
    }
    // First the new node joins, then the parent gives up its child.
    let len = nodes.len() as int;
    let x = (p.inst, (p.child_start + i) as u32);
    let joined = if new < len {
        nodes.update(new, n)
    } else {
        nodes.push(n)
    };
    let before = cut_list(nodes, arena, len).to_multiset();
    let kids = run(n.inst, n.child_start, n.child_count as int).to_multiset();
    // A table with the new node, in which the parent still has its old share.
    let end = nodes2.len() as int;
    let half = cut_list(joined, arena2, end);
    let after = cut_list(nodes2, arena2, end).to_multiset();
    assert forall|t: int| 0 <= t < end && t != s implies share(#[trigger] joined[t], arena2)
        == share(nodes2[t], arena2) by {
        if t != new {
            assert(nodes2[t] == nodes[t]);
        }
    }
    lemma_cut_change(joined, arena2, nodes2, arena2, end, s);
    assert(joined[s] == p);
    assert(share(p, arena2) == group(p, arena2, p.child_count as int));
    assert(share(nodes2[s], arena2) == share(p, arena2));
    assert(half.to_multiset() =~= after) by {
        assert forall|y: IndexNode| half.to_multiset().count(y) == after.count(y) by {
            let l = half.to_multiset().add(share(nodes2[s], arena2).to_multiset());
            let r = after.add(share(joined[s], arena2).to_multiset());
            assert(l.count(y) == r.count(y));
        }
    }
    // The same table without the new node has the old cut but for the child.
    let bare = cut_list(nodes, arena2, len).to_multiset();
    assert forall|t: int| 0 <= t < len && t != s implies share(#[trigger] nodes[t], arena)
        == share(nodes[t], arena2) by {
        if nodes[t].alive {
            lemma_group_frame(nodes[t], nodes[t], arena, arena2, nodes[t].child_count as int);
        }
    }
    lemma_cut_change(nodes, arena, nodes, arena2, len, s);
    assert(before =~= bare.insert(x)) by {
        assert forall|y: IndexNode| before.count(y) == bare.insert(x).count(y) by {
            let l = before.add(share(nodes[s], arena2).to_multiset());
            let r = bare.add(share(nodes[s], arena).to_multiset());
            assert(l.count(y) == r.count(y));
        }
    }
    assert(half.to_multiset() =~= bare.add(kids)) by {
        if new < len {
            lemma_cut_change(nodes, arena2, joined, arena2, len, new);
            assert forall|y: IndexNode| half.to_multiset().count(y) == bare.add(kids).count(y) by {
                let l = bare.add(share(joined[new], arena2).to_multiset());
                let r = half.to_multiset().add(share(nodes[new], arena2).to_multiset());
                assert(l.count(y) == r.count(y));
                assert(share(nodes[new], arena2).to_multiset().len() == 0);
            }
        } else {
            lemma_cut_step(joined, arena2, end);
            lemma_cut_frame(nodes, arena2, joined, arena2, len);
        }
    }
    assert(after.insert(x) =~= before.add(kids));
}

/// The table before and after node `s` was taken back into the cell of its parent.
pub open spec fn closed_up(
    nodes: Seq<Node>,
    arena: Seq<Child>,
    nodes2: Seq<Node>,
    arena2: Seq<Child>,
    s: int,
) -> bool {
    let p = nodes[s].parent as int;
    let i = nodes[s].index - nodes[p].child_start;
    &&& 0 <= s < nodes.len()
    &&& nodes[s].alive
    &&& nodes[s].parent != NONE
    &&& nodes[s].expanded == 0
    &&& nodes2.len() == nodes.len()
    &&& forall|t: int|
        0 <= t < nodes.len() && t != s && t != p ==> #[trigger] nodes2[t] == nodes[t]
    &&& nodes2[p] == (Node { expanded: (nodes[p].expanded - 1) as u16, ..nodes[p] })
    &&& !nodes2[s].alive
    &&& arena2.len() == arena.len()
    &&& cell(nodes[p], arena2, i) == CUT_LEAF
    &&& forall|t: int, j: int|
        0 <= t < nodes.len() && nodes[t].alive && 0 <= j < nodes[t].child_count && (t != p || j
            != i) ==> #[trigger] cell(nodes[t], arena2, j) == cell(nodes[t], arena, j)
}

/// Nothing hangs below a node with no expanded children.
pub proof fn lemma_nothing_below(
    nodes: Seq<Node>,
    arena: Seq<Child>,
    insts: int,
    s: int,
    t: int,
)
    requires
        links_ok(nodes, arena, insts),
        0 <= s < nodes.len(),
        nodes[s].alive,
        nodes[s].expanded == 0,
        0 <= t < nodes.len(),
        nodes[t].alive,
        s < NONE,
    ensures
        nodes[t].parent != s,
{
    assert(node_ok(nodes, arena, insts, s));
    assert(node_ok(nodes, arena, insts, t));
    if nodes[t].parent == s {
        lemma_group_all(
            nodes[s],
            arena,
            nodes[s].child_count as int,
            nodes[t].index - nodes[s].child_start,
        );
    }
}

/// Taking a node back keeps the links, and replaces its children in the cut by the node.
pub proof fn lemma_closed_up(
    nodes: Seq<Node>,
    arena: Seq<Child>,
    nodes2: Seq<Node>,
    arena2: Seq<Child>,
    insts: int,
    s: int,
)
    requires
        links_ok(nodes, arena, insts),
        closed_up(nodes, arena, nodes2, arena2, s),
    ensures
        links_ok(nodes2, arena2, insts),
        nodes[nodes[s].parent as int].expanded > 0,
        nodes[s].parent != s,
        cut_list(nodes2, arena2, nodes2.len() as int).to_multiset().add(
            run(
                nodes[s].inst,
                nodes[s].child_start,
                nodes[s].child_count as int,
            ).to_multiset(),
        ) == cut_list(nodes, arena, nodes.len() as int).to_multiset().insert(
            (nodes[s].inst, nodes[s].index),
        ),
        cut_list(nodes2, arena2, nodes2.len() as int).to_multiset().count(
            (nodes[s].inst, nodes[s].index),
        ) > 0,
{
    broadcast use group_to_multiset_ensures;

    let n = nodes[s];
    let q = n.parent as int;
    let p = nodes[q];
    let i = n.index - p.child_start;
    assert(node_ok(nodes, arena, insts, s));
    assert(node_ok(nodes, arena, insts, q));
    lemma_nothing_below(nodes, arena, insts, s, s);
    assert(nodes2[q].alive);
    assert forall|j: int| 0 <= j < p.child_count && j != i implies #[trigger] cell(p, arena2, j)
        == cell(p, arena, j) by {
        assert(cell(nodes[q], arena2, j) == cell(nodes[q], arena, j));
    }
    lemma_group_change(p, arena2, arena, p.child_count as int, i);
    lemma_group_frame(p, nodes2[q], arena2, arena2, p.child_count as int);
    lemma_group_len(p, arena2, p.child_count as int);
    assert forall|t: int| 0 <= t < nodes2.len() && (#[trigger] nodes2[t]).alive implies node_ok(
        nodes2,
        arena2,
        insts,
        t,
    ) by {
        assert(nodes[t].alive);
        assert(node_ok(nodes, arena, insts, t));
        let m = nodes[t];
        if t != q {
            assert forall|j: int| 0 <= j < m.child_count implies #[trigger] cell(m, arena, j)
                == cell(m, arena2, j) by {
                assert(cell(nodes[t], arena2, j) == cell(nodes[t], arena, j));
            }
            lemma_group_frame(m, nodes2[t], arena, arena2, m.child_count as int);
        }
        assert forall|j: int| 0 <= j < m.child_count implies cell_ok(
            nodes2,
            t,
            j,
            #[trigger] cell(nodes2[t], arena2, j),
        ) by {
            assert(cell(nodes2[t], arena2, j) == cell(nodes[t], arena2, j));
            if t != q || j != i {
                assert(cell(nodes[t], arena2, j) == cell(nodes[t], arena, j));
                assert(cell_ok(nodes, t, j, cell(nodes[t], arena, j)));
            }
        }
        if m.parent != NONE {
            lemma_nothing_below(nodes, arena, insts, s, t);
            let off = m.index - nodes[m.parent as int].child_start;
            assert(node_ok(nodes, arena, insts, m.parent as int));
            assert(cell(nodes[m.parent as int], arena2, off) == cell(
                nodes[m.parent as int],
                arena,
                off,
            ));
            assert(cell(nodes2[m.parent as int], arena2, off) == cell(
                nodes[m.parent as int],
                arena2,
                off,
            ));
        }
    }
    // First the node leaves, with all its children; then the parent takes it over.
    let len = nodes.len() as int;
    let x = (n.inst, n.index);
    let left = nodes.update(s, nodes2[s]);
    let before = cut_list(nodes, arena, len).to_multiset();
    let bare = cut_list(left, arena, len).to_multiset();
    let after = cut_list(nodes2, arena2, len).to_multiset();
    let kids = run(n.inst, n.child_start, n.child_count as int).to_multiset();
    assert forall|j: int| 0 <= j < n.child_count implies unexpanded(
        #[trigger] cell(n, arena, j),
    ) by {
        lemma_group_all(n, arena, n.child_count as int, j);
    }
    lemma_group_full(n, arena, n.child_count as int);
    lemma_cut_change(nodes, arena, left, arena, len, s);
    assert(before =~= bare.add(kids)) by {
        assert forall|y: IndexNode| before.count(y) == bare.add(kids).count(y) by {
            let l = before.add(share(left[s], arena).to_multiset());
            let r = bare.add(share(nodes[s], arena).to_multiset());
            assert(l.count(y) == r.count(y));
            assert(share(left[s], arena).to_multiset().len() == 0);
        }
    }
    assert forall|t: int| 0 <= t < len && t != q implies share(#[trigger] left[t], arena)
        == share(nodes2[t], arena2) by {
        if t != s && nodes[t].alive {
            lemma_group_frame(nodes[t], nodes2[t], arena, arena2, nodes[t].child_count as int);
        }
    }
    lemma_cut_change(left, arena, nodes2, arena2, len, q);
    assert(left[q] == p);
    assert(after =~= bare.insert(x)) by {
        assert forall|y: IndexNode| after.count(y) == bare.insert(x).count(y) by {
            let l = bare.add(share(nodes2[q], arena2).to_multiset());
            let r = after.add(share(left[q], arena).to_multiset());
            assert(l.count(y) == r.count(y));
        }
    }
    assert(after.add(kids) =~= before.insert(x));
}

/// A virtual node joins the table.
pub proof fn lemma_planted(
    nodes: Seq<Node>,
    arena: Seq<Child>,
    n: Node,
    arena2: Seq<Child>,
    insts: int,
)
    requires
        links_ok(nodes, arena, insts),
        nodes.len() < CUT_TERMINAL,
        n.alive,
        n.inst < insts,
        n.parent == NONE,
        n.index == NONE,
        n.child_count > 0,
        n.child_start + n.child_count <= u32::MAX,
        n.children_base + n.child_count <= arena2.len(),
        n.expanded == 0,
        arena.len() <= arena2.len(),
        forall|t: int, j: int|
            0 <= t < nodes.len() && nodes[t].alive && 0 <= j < nodes[t].child_count
                ==> #[trigger] cell(nodes[t], arena2, j) == cell(nodes[t], arena, j),
        forall|j: int| 0 <= j < n.child_count ==> unexpanded(#[trigger] cell(n, arena2, j)),
    ensures
        links_ok(nodes.push(n), arena2, insts),
        cut_list(nodes.push(n), arena2, nodes.push(n).len() as int) == cut_list(
            nodes,
            arena,
            nodes.len() as int,
        ) + run(n.inst, n.child_start, n.child_count as int),
{
    let nodes2 = nodes.push(n);
    lemma_group_full(n, arena2, n.child_count as int);
    assert forall|t: int| 0 <= t < nodes.len() implies share(#[trigger] nodes[t], arena) == share(
        nodes2[t],
        arena2,
    ) by {
        if nodes[t].alive {
            lemma_group_frame(nodes[t], nodes2[t], arena, arena2, nodes[t].child_count as int);
        }
    }
    lemma_cut_frame(nodes, arena, nodes2, arena2, nodes.len() as int);
    assert forall|t: int| 0 <= t < nodes2.len() && (#[trigger] nodes2[t]).alive implies node_ok(
        nodes2,
        arena2,
        insts,
        t,
    ) by {
        if t < nodes.len() {
            assert(node_ok(nodes, arena, insts, t));
            let m = nodes[t];
            assert(share(nodes[t], arena) == share(nodes2[t], arena2));
            assert forall|j: int| 0 <= j < m.child_count implies cell_ok(
                nodes2,
                t,
                j,
                #[trigger] cell(nodes2[t], arena2, j),
            ) by {
                assert(cell(nodes[t], arena2, j) == cell(nodes[t], arena, j));
                assert(cell_ok(nodes, t, j, cell(nodes[t], arena, j)));
            }
            if m.parent != NONE {
                let q = m.parent as int;
                assert(node_ok(nodes, arena, insts, q));
                assert(cell(nodes[q], arena2, m.index - nodes[q].child_start) == cell(
                    nodes[q],
                    arena,
                    m.index - nodes[q].child_start,
                ));
            }
        }
    }
}

/// Marking a child that is not expanded another way changes neither the links nor the cut.
pub proof fn lemma_marked(
    nodes: Seq<Node>,
    arena: Seq<Child>,
    arena2: Seq<Child>,
    insts: int,
)
    requires
        links_ok(nodes, arena, insts),
        arena2.len() == arena.len(),
        forall|x: int|
            0 <= x < arena.len() ==> (#[trigger] arena2[x]).slot == arena[x].slot || unexpanded(
                arena2[x].slot,
            ) && unexpanded(arena[x].slot),
    ensures
        links_ok(nodes, arena2, insts),
        cut_list(nodes, arena2, nodes.len() as int) == cut_list(
            nodes,
            arena,
            nodes.len() as int,
        ),
{
    assert forall|t: int, j: int|
        0 <= t < nodes.len() && nodes[t].alive && 0 <= j < nodes[t].child_count implies (
    #[trigger] cell(nodes[t], arena2, j)) == cell(nodes[t], arena, j) || unexpanded(
        cell(nodes[t], arena2, j),
    ) && unexpanded(cell(nodes[t], arena, j)) by {
        assert(node_ok(nodes, arena, insts, t));
        let y = nodes[t].children_base + j;
        assert(arena2[y].slot == arena[y].slot || unexpanded(arena2[y].slot));
    }
    assert forall|t: int| 0 <= t < nodes.len() implies share(#[trigger] nodes[t], arena) == share(
        nodes[t],
        arena2,
    ) by {
        if nodes[t].alive {
            assert forall|j: int| 0 <= j < nodes[t].child_count implies unexpanded(
                #[trigger] cell(nodes[t], arena, j),
            ) == unexpanded(cell(nodes[t], arena2, j)) by {
                assert(cell(nodes[t], arena2, j) == cell(nodes[t], arena, j) || unexpanded(
                    cell(nodes[t], arena2, j),
                ));
            }
            lemma_group_frame(nodes[t], nodes[t], arena, arena2, nodes[t].child_count as int);
        }
    }
    lemma_cut_frame(nodes, arena, nodes, arena2, nodes.len() as int);
    assert forall|t: int| 0 <= t < nodes.len() && (#[trigger] nodes[t]).alive implies node_ok(
        nodes,
        arena2,
        insts,
        t,
    ) by {
        assert(node_ok(nodes, arena, insts, t));
        assert(share(nodes[t], arena) == share(nodes[t], arena2));
        let m = nodes[t];
        assert forall|j: int| 0 <= j < m.child_count implies cell_ok(
            nodes,
            t,
            j,
            #[trigger] cell(m, arena2, j),
        ) by {
            assert(cell(nodes[t], arena2, j) == cell(nodes[t], arena, j) || unexpanded(
                cell(nodes[t], arena2, j),
            ));
            assert(cell_ok(nodes, t, j, cell(m, arena, j)));
        }
        if m.parent != NONE {
            let q = m.parent as int;
            let off = m.index - nodes[q].child_start;
            assert(node_ok(nodes, arena, insts, q));
            assert(cell(nodes[q], arena2, off) == cell(nodes[q], arena, off) || unexpanded(
                cell(nodes[q], arena, off),
            ));
        }
    }
}

} // verus!
